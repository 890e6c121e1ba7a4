//! The record of deleted objects.

use vstd::prelude::*;
use crate::times::{Times, Timestamp};

verus! {

/// A deleted node and when it was deleted.
#[derive(Debug, Clone, Copy, PartialEq, Eq, Structural)]
pub struct DeletedObject {
    pub uuid: u128,
    pub deletion_time: Timestamp,
}

/// The nodes deleted so far.
pub struct DeletedObjects {
    pub objects: Vec<DeletedObject>,
}

/// The first record of the given uuid from `from` on.
pub open spec fn first_record(s: Seq<DeletedObject>, uuid: u128, from: int) -> Option<int>
    decreases s.len() - from,
{
    if from < 0 || from >= s.len() {
        None
    } else if s[from].uuid == uuid {
        Some(from)
    } else {
        first_record(s, uuid, from + 1)
    }
}

/// The records after noting the deletion of `uuid` at time `t`: its first
/// record takes the new time, or a record is added at the end.
pub open spec fn recorded(s: Seq<DeletedObject>, uuid: u128, t: Timestamp) -> Seq<DeletedObject> {
    match first_record(s, uuid, 0) {
        Some(i) => s.update(i, DeletedObject { uuid, deletion_time: t }),
        None => s.push(DeletedObject { uuid, deletion_time: t }),
    }
}

proof fn lemma_first_record_at(s: Seq<DeletedObject>, uuid: u128, from: int, i: int)
    requires
        0 <= from <= i < s.len(),
        s[i].uuid == uuid,
        forall|j: int| from <= j < i ==> s[j].uuid != uuid,
    ensures
        first_record(s, uuid, from) == Some(i),
    decreases i - from,
{
    if from < i {
        lemma_first_record_at(s, uuid, from + 1, i);
    }
}

proof fn lemma_first_record_none(s: Seq<DeletedObject>, uuid: u128, from: int)
    requires
        0 <= from <= s.len(),
        forall|j: int| from <= j < s.len() ==> s[j].uuid != uuid,
    ensures
        first_record(s, uuid, from).is_none(),
    decreases s.len() - from,
{
    if from < s.len() {
        lemma_first_record_none(s, uuid, from + 1);
    }
}

impl DeletedObjects {
    pub fn new() -> (r: DeletedObjects)
        ensures
            r.objects@.len() == 0,
    {
        DeletedObjects { objects: Vec::new() }
    }

    /// Notes that `uuid` was deleted now.
    pub fn add(&mut self, uuid: u128)
        ensures
            exists|t: Timestamp| final(self).objects@ == #[trigger] recorded(old(self).objects@, uuid, t),
    {
        let deletion_time = Times::now();
        let mut i: usize = 0;
        while i < self.objects.len()
            invariant
                0 <= i <= self.objects@.len(),
                self.objects@ == old(self).objects@,
                forall|j: int| 0 <= j < i ==> self.objects@[j].uuid != uuid,
            decreases self.objects.len() - i,
        {
            if self.objects[i].uuid == uuid {
                proof { lemma_first_record_at(self.objects@, uuid, 0, i as int); }
                self.objects.set(i, DeletedObject { uuid, deletion_time });
                assert(self.objects@ == recorded(old(self).objects@, uuid, deletion_time));
                return;
            }
            i += 1;
        }
        proof { lemma_first_record_none(self.objects@, uuid, 0); }
        self.objects.push(DeletedObject { uuid, deletion_time });
        assert(self.objects@ == recorded(old(self).objects@, uuid, deletion_time));
    }
}

} // verus!
