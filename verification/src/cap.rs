//! Capability tables. Each process owns `CAP_SLOTS` handles; user space
//! names kernel objects only through these slot numbers.

use vstd::prelude::*;

use crate::ipc::{EndpointId, NotifId};

verus! {

pub const CAP_SLOTS: usize = 16;

#[derive(Clone, Copy, PartialEq, Eq, Structural)]
pub enum Cap {
    Empty,
    /// reference to one of the kernel's endpoint objects.
    Endpoint(EndpointId),
    /// reference to one of the kernel's notification objects.
    Notification(NotifId),
}

#[derive(Clone, Copy)]
pub struct CapTable {
    pub slots: [Cap; CAP_SLOTS],
}

/// What a lookup of `slot` in a table whose slots are `s` yields: nothing
/// for an out-of-range or empty slot, the capability otherwise.
pub open spec fn lookup(s: Seq<Cap>, slot: int) -> Option<Cap> {
    if 0 <= slot < CAP_SLOTS && s[slot] != Cap::Empty {
        Some(s[slot])
    } else {
        None
    }
}

/// One operation on a capability table.
#[derive(Clone, Copy)]
pub enum CapOp {
    Install { slot: usize, cap: Cap },
    Delete { slot: usize },
    Dupe { src: usize, dst: usize },
}

/// the only slot `op` may write.
pub open spec fn op_target(op: CapOp) -> int {
    match op {
        CapOp::Install { slot, .. } => slot as int,
        CapOp::Delete { slot } => slot as int,
        CapOp::Dupe { dst, .. } => dst as int,
    }
}

/// The slots after `op` on slots `s`, failures leaving them as they were.
pub open spec fn apply(s: Seq<Cap>, op: CapOp) -> Seq<Cap> {
    match op {
        CapOp::Install { slot, cap } => if slot < CAP_SLOTS {
            s.update(slot as int, cap)
        } else {
            s
        },
        CapOp::Delete { slot } => if slot < CAP_SLOTS {
            s.update(slot as int, Cap::Empty)
        } else {
            s
        },
        CapOp::Dupe { src, dst } => if src < CAP_SLOTS && dst < CAP_SLOTS && s[src as int] != Cap::Empty {
            s.update(dst as int, s[src as int])
        } else {
            s
        },
    }
}

/// The slots after the operations `ops`, in order.
pub open spec fn apply_all(s: Seq<Cap>, ops: Seq<CapOp>) -> Seq<Cap>
    decreases ops.len(),
{
    if ops.len() == 0 {
        s
    } else {
        apply(apply_all(s, ops.drop_last()), ops.last())
    }
}

impl CapTable {
    pub open spec fn view(&self) -> Seq<Cap> {
        self.slots@
    }

    pub fn empty() -> (t: Self)
        ensures
            t@.len() == CAP_SLOTS,
            forall|i: int| 0 <= i < CAP_SLOTS ==> t@[i] == Cap::Empty,
    {
        Self { slots: [Cap::Empty; CAP_SLOTS] }
    }

    pub fn install(&mut self, slot: usize, cap: Cap) -> (r: Result<(), &'static str>)
        ensures
            slot < CAP_SLOTS ==> r is Ok && final(self)@ == old(self)@.update(slot as int, cap),
            slot >= CAP_SLOTS ==> r == Err::<(), &str>("slot out of range") && final(self)@ == old(self)@,
            final(self)@ == apply(old(self)@, CapOp::Install { slot, cap }),
    {
        if slot >= CAP_SLOTS {
            return Err("slot out of range");
        }
        self.slots[slot] = cap;
        Ok(())
    }

    pub fn get(&self, slot: usize) -> (r: Option<&Cap>)
        ensures
            match r {
                Some(c) => lookup(self@, slot as int) == Some(*c),
                None => lookup(self@, slot as int) is None,
            },
    {
        if slot >= CAP_SLOTS {
            return None;
        }
        match &self.slots[slot] {
            Cap::Empty => None,
            other => Some(other),
        }
    }

    pub fn delete(&mut self, slot: usize) -> (r: Result<(), &'static str>)
        ensures
            slot < CAP_SLOTS ==> r is Ok && final(self)@ == old(self)@.update(slot as int, Cap::Empty),
            slot >= CAP_SLOTS ==> r == Err::<(), &str>("slot out of range") && final(self)@ == old(self)@,
            final(self)@ == apply(old(self)@, CapOp::Delete { slot }),
    {
        if slot >= CAP_SLOTS {
            return Err("slot out of range");
        }
        self.slots[slot] = Cap::Empty;
        Ok(())
    }

    /// derive: copy the cap at `src` into the (possibly empty) `dst` slot.
    /// Endpoint caps duplicate by reference: both handles name the same
    /// kernel object.
    pub fn dupe(&mut self, src: usize, dst: usize) -> (r: Result<(), &'static str>)
        ensures
            src >= CAP_SLOTS || dst >= CAP_SLOTS ==> r == Err::<(), &str>("slot out of range")
                && final(self)@ == old(self)@,
            src < CAP_SLOTS && dst < CAP_SLOTS && old(self)@[src as int] == Cap::Empty ==> r
                == Err::<(), &str>("source slot empty") && final(self)@ == old(self)@,
            src < CAP_SLOTS && dst < CAP_SLOTS && old(self)@[src as int] != Cap::Empty ==> r is Ok
                && final(self)@ == old(self)@.update(dst as int, old(self)@[src as int]),
            final(self)@ == apply(old(self)@, CapOp::Dupe { src, dst }),
    {
        if src >= CAP_SLOTS || dst >= CAP_SLOTS {
            return Err("slot out of range");
        }
        let c = self.slots[src];
        if matches!(c, Cap::Empty) {
            return Err("source slot empty");
        }
        self.slots[dst] = c;
        Ok(())
    }
}

/// A capability installed in a slot is what a later lookup of that slot
/// returns (nothing, when the installed capability is the empty one).
pub proof fn lemma_get_after_install(s: Seq<Cap>, slot: int, cap: Cap)
    requires
        s.len() == CAP_SLOTS,
        0 <= slot < CAP_SLOTS,
    ensures
        lookup(s.update(slot, cap), slot) == (if cap == Cap::Empty { None } else { Some(cap) }),
        forall|other: int| other != slot ==> lookup(s.update(slot, cap), other) == lookup(s, other),
{
}

/// After a delete, the slot looks up as nothing and no other slot changes.
pub proof fn lemma_get_after_delete(s: Seq<Cap>, slot: int)
    requires
        s.len() == CAP_SLOTS,
        0 <= slot < CAP_SLOTS,
    ensures
        lookup(s.update(slot, Cap::Empty), slot) is None,
        forall|other: int| other != slot ==> lookup(s.update(slot, Cap::Empty), other) == lookup(s, other),
{
}

/// After a successful dupe, the destination names the same object as the
/// source, and the source is left as it was.
pub proof fn lemma_dupe_shares(s: Seq<Cap>, src: int, dst: int)
    requires
        s.len() == CAP_SLOTS,
        0 <= src < CAP_SLOTS,
        0 <= dst < CAP_SLOTS,
        s[src] != Cap::Empty,
    ensures
        lookup(s.update(dst, s[src]), dst) == lookup(s, src),
        lookup(s.update(dst, s[src]), src) == lookup(s, src),
{
}

/// A capability installed in a slot stays what a lookup of that slot
/// returns through any later installs, deletes and dupes that write other
/// slots (failed ones included).
pub proof fn lemma_install_survives_other_ops(s: Seq<Cap>, slot: usize, cap: Cap, ops: Seq<CapOp>)
    requires
        s.len() == CAP_SLOTS,
        slot < CAP_SLOTS,
        forall|k: int| 0 <= k < ops.len() ==> op_target(#[trigger] ops[k]) != slot,
    ensures
        lookup(apply_all(apply(s, CapOp::Install { slot, cap }), ops), slot as int) == (if cap
            == Cap::Empty {
            None
        } else {
            Some(cap)
        }),
    decreases ops.len(),
{
    let s1 = apply(s, CapOp::Install { slot, cap });
    lemma_apply_all_keeps(s1, slot as int, ops);
}

/// Operations that all write other slots keep slot `slot` and the length.
proof fn lemma_apply_all_keeps(s: Seq<Cap>, slot: int, ops: Seq<CapOp>)
    requires
        s.len() == CAP_SLOTS,
        0 <= slot < CAP_SLOTS,
        forall|k: int| 0 <= k < ops.len() ==> op_target(#[trigger] ops[k]) != slot,
    ensures
        apply_all(s, ops).len() == CAP_SLOTS,
        apply_all(s, ops)[slot] == s[slot],
    decreases ops.len(),
{
    if ops.len() > 0 {
        let init = ops.drop_last();
        assert forall|k: int| 0 <= k < init.len() implies op_target(#[trigger] init[k]) != slot by {
            assert(init[k] == ops[k]);
        }
        lemma_apply_all_keeps(s, slot, init);
        assert(op_target(ops[ops.len() - 1]) != slot);
    }
}

} // verus!
