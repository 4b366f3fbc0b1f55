use lib::sbi::{set_timer, shutdown_request, SbiCall, SRST, TIME};

#[test]
fn timer_request() {
    assert_eq!(set_timer(12345), SbiCall { eid: 0x54494D45, fid: 0, a0: 12345, a1: 0, a2: 0 });
    assert_eq!(TIME, 0x54494D45);
}

#[test]
fn shutdown_request_uses_srst() {
    assert_eq!(shutdown_request(), SbiCall { eid: SRST, fid: 0, a0: 0, a1: 0, a2: 0 });
    assert_eq!(SRST, 0x53525354);
}
