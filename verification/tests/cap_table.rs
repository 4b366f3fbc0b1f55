use lib::cap::{Cap, CapTable, CAP_SLOTS};

#[test]
fn empty_table_holds_nothing() {
    let t = CapTable::empty();
    for slot in 0..CAP_SLOTS {
        assert!(t.get(slot).is_none());
    }
}

#[test]
fn install_then_get_returns_the_cap() {
    let mut t = CapTable::empty();
    assert!(t.install(3, Cap::Endpoint(5)).is_ok());
    assert!(matches!(t.get(3), Some(Cap::Endpoint(5))));
    assert!(t.get(2).is_none());
    assert!(t.get(4).is_none());
}

#[test]
fn install_empty_cap_reads_back_as_nothing() {
    let mut t = CapTable::empty();
    t.install(0, Cap::Endpoint(1)).unwrap();
    t.install(0, Cap::Empty).unwrap();
    assert!(t.get(0).is_none());
}

#[test]
fn install_out_of_range_is_refused() {
    let mut t = CapTable::empty();
    assert_eq!(t.install(CAP_SLOTS, Cap::Endpoint(0)), Err("slot out of range"));
    assert_eq!(t.install(usize::MAX, Cap::Endpoint(0)), Err("slot out of range"));
    for slot in 0..CAP_SLOTS {
        assert!(t.get(slot).is_none());
    }
}

#[test]
fn get_out_of_range_is_nothing() {
    let t = CapTable::empty();
    assert!(t.get(CAP_SLOTS).is_none());
    assert!(t.get(1000).is_none());
}

#[test]
fn delete_then_get_is_nothing() {
    let mut t = CapTable::empty();
    t.install(7, Cap::Endpoint(2)).unwrap();
    t.install(8, Cap::Endpoint(3)).unwrap();
    assert_eq!(t.delete(7), Ok(()));
    assert!(t.get(7).is_none());
    assert!(matches!(t.get(8), Some(Cap::Endpoint(3))));
}

#[test]
fn delete_out_of_range_is_refused() {
    let mut t = CapTable::empty();
    assert_eq!(t.delete(16), Err("slot out of range"));
}

#[test]
fn dupe_shares_the_endpoint() {
    let mut t = CapTable::empty();
    t.install(0, Cap::Endpoint(4)).unwrap();
    assert_eq!(t.dupe(0, 1), Ok(()));
    assert!(matches!(t.get(0), Some(Cap::Endpoint(4))));
    assert!(matches!(t.get(1), Some(Cap::Endpoint(4))));
}

#[test]
fn dupe_over_an_occupied_slot_replaces_it() {
    let mut t = CapTable::empty();
    t.install(0, Cap::Endpoint(4)).unwrap();
    t.install(9, Cap::Endpoint(6)).unwrap();
    t.dupe(0, 9).unwrap();
    assert!(matches!(t.get(9), Some(Cap::Endpoint(4))));
}

#[test]
fn dupe_from_empty_slot_is_refused() {
    let mut t = CapTable::empty();
    assert_eq!(t.dupe(2, 3), Err("source slot empty"));
    assert!(t.get(3).is_none());
}

#[test]
fn dupe_out_of_range_is_refused() {
    let mut t = CapTable::empty();
    t.install(0, Cap::Endpoint(1)).unwrap();
    assert_eq!(t.dupe(16, 0), Err("slot out of range"));
    assert_eq!(t.dupe(0, 16), Err("slot out of range"));
    assert!(matches!(t.get(0), Some(Cap::Endpoint(1))));
}

#[test]
fn ping_dupe_delete_dupe_sequence() {
    // the sequence user/ping runs: dupe 0 -> 1, delete 1, dupe again.
    let mut t = CapTable::empty();
    t.install(0, Cap::Endpoint(0)).unwrap();
    t.dupe(0, 1).unwrap();
    t.delete(1).unwrap();
    assert!(t.get(1).is_none());
    t.dupe(0, 1).unwrap();
    assert!(matches!(t.get(1), Some(Cap::Endpoint(0))));
}

#[test]
fn installed_cap_survives_work_on_other_slots() {
    let mut t = CapTable::empty();
    assert_eq!(t.install(3, Cap::Endpoint(6)), Ok(()));
    let _ = t.install(4, Cap::Endpoint(1));
    let _ = t.dupe(4, 9);
    let _ = t.delete(4);
    let _ = t.dupe(3, 15);
    let _ = t.dupe(12, 0);
    let _ = t.install(40, Cap::Empty);
    let _ = t.delete(17);
    assert!(t.get(3) == Some(&Cap::Endpoint(6)));
    assert!(t.get(15) == Some(&Cap::Endpoint(6)));
}

#[test]
fn notification_caps_dupe_by_reference() {
    let mut t = CapTable::empty();
    let _ = t.install(2, Cap::Notification(0));
    assert_eq!(t.dupe(2, 5), Ok(()));
    assert!(t.get(5) == Some(&Cap::Notification(0)));
}
