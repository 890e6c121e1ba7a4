//! An entry's history: ordering, adding snapshots, and merging two histories
//! by last-modification time.

use vstd::prelude::*;
use crate::entry::{Entry, EntryView, History};
use crate::log::{MergeError, MergeLog};
use crate::times::Timestamp;

verus! {

broadcast use vstd::std_specs::vec::group_vec_axioms, vstd::seq::group_seq_axioms;

/// The warning logged when two snapshots share a time but differ.
pub const HISTORY_CONFLICT_WARNING: &'static str = "History entries have the same modification timestamp but were not the same.";

pub open spec fn views(v: Seq<Entry>) -> Seq<EntryView> {
    Seq::new(v.len(), |i: int| v[i]@)
}

/// The last-modification time of a snapshot that has one.
pub open spec fn stamp(e: EntryView) -> Timestamp {
    e.times.last_modification.unwrap()
}

/// Every snapshot has a last-modification time.
pub open spec fn stamped(s: Seq<EntryView>) -> bool {
    forall|i: int| 0 <= i < s.len() ==> (#[trigger] s[i]).times.last_modification.is_some()
}

/// No two snapshots share a last-modification time.
pub open spec fn distinct_stamps(s: Seq<EntryView>) -> bool {
    forall|i: int, j: int| 0 <= i < j < s.len() ==> stamp(#[trigger] s[i]) != stamp(#[trigger] s[j])
}

/// Ordered by last-modification time, most recent first; equal neighbours
/// are accepted.
pub open spec fn is_ordered_spec(s: Seq<EntryView>) -> bool {
    &&& stamped(s)
    &&& forall|i: int| 0 < i < s.len() ==> stamp(#[trigger] s[i]) <= stamp(s[i - 1])
}

/// Strictly ordered by last-modification time, most recent first.
pub open spec fn newest_first(s: Seq<EntryView>) -> bool {
    &&& stamped(s)
    &&& forall|i: int, j: int| 0 <= i < j < s.len() ==> stamp(#[trigger] s[j]) < stamp(#[trigger] s[i])
}

/// The snapshots keyed by last-modification time (later ones win a tie).
pub open spec fn by_stamp(s: Seq<EntryView>) -> Map<Timestamp, EntryView>
    decreases s.len(),
{
    if s.len() == 0 {
        Map::empty()
    } else {
        by_stamp(s.drop_last()).insert(stamp(s.last()), s.last())
    }
}

/// Folds the snapshots of `b` into `m`: a snapshot whose time is already
/// present is dropped, the one present is kept.
pub open spec fn fold_other(m: Map<Timestamp, EntryView>, b: Seq<EntryView>) -> Map<Timestamp, EntryView>
    decreases b.len(),
{
    if b.len() == 0 {
        m
    } else {
        let m1 = fold_other(m, b.drop_last());
        if m1.contains_key(stamp(b.last())) {
            m1
        } else {
            m1.insert(stamp(b.last()), b.last())
        }
    }
}

/// How many snapshots of `b` share their time with a snapshot of `m` and
/// differ from it (clashes within `b` itself do not count).
pub open spec fn conflicts(m: Map<Timestamp, EntryView>, b: Seq<EntryView>) -> nat
    decreases b.len(),
{
    if b.len() == 0 {
        0
    } else {
        conflicts(m, b.drop_last()) + if m.contains_key(stamp(b.last())) && m[stamp(b.last())] != b.last() {
            1nat
        } else {
            0nat
        }
    }
}

pub proof fn lemma_by_stamp_keys(s: Seq<EntryView>, t: Timestamp)
    ensures
        by_stamp(s).contains_key(t) <==> exists|i: int| 0 <= i < s.len() && stamp(s[i]) == t,
    decreases s.len(),
{
    if s.len() > 0 {
        lemma_by_stamp_keys(s.drop_last(), t);
        if exists|i: int| 0 <= i < s.len() && stamp(s[i]) == t {
            let i = choose|i: int| 0 <= i < s.len() && stamp(s[i]) == t;
            if i < s.len() - 1 {
                assert(stamp(s.drop_last()[i]) == t);
            }
        }
        if exists|i: int| 0 <= i < s.drop_last().len() && stamp(s.drop_last()[i]) == t {
            let i = choose|i: int| 0 <= i < s.drop_last().len() && stamp(s.drop_last()[i]) == t;
            assert(stamp(s[i]) == t);
        }
    }
}

proof fn lemma_by_stamp_value(s: Seq<EntryView>, i: int)
    requires
        0 <= i < s.len(),
        distinct_stamps(s),
    ensures
        by_stamp(s).contains_key(stamp(s[i])),
        by_stamp(s)[stamp(s[i])] == s[i],
    decreases s.len(),
{
    if i < s.len() - 1 {
        assert(distinct_stamps(s.drop_last()));
        assert(s.drop_last()[i] == s[i]);
        lemma_by_stamp_value(s.drop_last(), i);
        assert(stamp(s[i]) != stamp(s.last()));
    }
}

proof fn lemma_by_stamp_insert(s: Seq<EntryView>, p: int, e: EntryView)
    requires
        0 <= p <= s.len(),
        forall|i: int| 0 <= i < s.len() ==> stamp(#[trigger] s[i]) != stamp(e),
    ensures
        by_stamp(s.insert(p, e)) == by_stamp(s).insert(stamp(e), e),
    decreases s.len(),
{
    if p == s.len() {
        assert(s.insert(p, e).drop_last() =~= s);
    } else {
        let s2 = s.insert(p, e);
        assert(s2.drop_last() =~= s.drop_last().insert(p, e));
        assert(s2.last() == s.last());
        lemma_by_stamp_insert(s.drop_last(), p, e);
        assert(stamp(s.last()) != stamp(e));
        assert(by_stamp(s2) =~= by_stamp(s).insert(stamp(e), e));
    }
}

pub proof fn lemma_distinct_of_newest_first(s: Seq<EntryView>)
    requires
        newest_first(s),
    ensures
        distinct_stamps(s),
        is_ordered_spec(s),
{
    assert forall|i: int| 0 < i < s.len() implies stamp(#[trigger] s[i]) <= stamp(s[i - 1]) by {
        assert(stamp(s[i]) < stamp(s[i - 1]));
    }
}

/// Where a snapshot stamped `t` belongs in a list that is newest first:
/// the first position whose time is not later than `t`.
fn position_for(acc: &Vec<Entry>, t: Timestamp) -> (p: usize)
    requires
        newest_first(views(acc@)),
    ensures
        p <= acc@.len(),
        forall|j: int| 0 <= j < p ==> stamp(#[trigger] views(acc@)[j]) > t,
        p < acc@.len() ==> stamp(views(acc@)[p as int]) <= t,
{
    let mut p: usize = 0;
    while p < acc.len()
        invariant
            0 <= p <= acc@.len(),
            newest_first(views(acc@)),
            forall|j: int| 0 <= j < p ==> stamp(#[trigger] views(acc@)[j]) > t,
        decreases acc.len() - p,
    {
        assert(views(acc@)[p as int] == acc@[p as int]@);
        assert(views(acc@)[p as int].times.last_modification.is_some());
        let lm = acc[p].times.last_modification.unwrap();
        if lm <= t {
            return p;
        }
        p += 1;
    }
    p
}

proof fn lemma_insert_keeps_order(s: Seq<EntryView>, p: int, e: EntryView)
    requires
        newest_first(s),
        0 <= p <= s.len(),
        e.times.last_modification.is_some(),
        forall|j: int| 0 <= j < p ==> stamp(#[trigger] s[j]) > stamp(e),
        p < s.len() ==> stamp(s[p]) < stamp(e),
    ensures
        newest_first(s.insert(p, e)),
        forall|i: int| 0 <= i < s.len() ==> stamp(#[trigger] s[i]) != stamp(e),
{
    let s2 = s.insert(p, e);
    assert forall|i: int, j: int| 0 <= i < j < s2.len() implies stamp(#[trigger] s2[j]) < stamp(#[trigger] s2[i]) by {
        if j < p {
        } else if j == p {
        } else if i < p {
            assert(s2[j] == s[j - 1]);
            if p < s.len() {
                assert(stamp(s[j - 1]) <= stamp(s[p]));
                if j - 1 > p {
                    assert(stamp(s[j - 1]) < stamp(s[p]));
                }
            }
        } else if i == p {
            assert(s2[j] == s[j - 1]);
            if j - 1 > p {
                assert(stamp(s[j - 1]) < stamp(s[p]));
            }
        } else {
            assert(s2[j] == s[j - 1]);
            assert(s2[i] == s[i - 1]);
        }
    }
    assert forall|i: int| 0 <= i < s.len() implies stamp(#[trigger] s[i]) != stamp(e) by {
        if i < p {
        } else if i > p {
            assert(stamp(s[i]) < stamp(s[p]));
        }
    }
}

impl History {
    pub fn new() -> (r: History)
        ensures
            r@.len() == 0,
    {
        History { entries: Vec::new() }
    }

    /// Adds a snapshot at the front, most recent first, without its own history.
    pub fn add_entry(&mut self, entry: Entry)
        ensures
            final(self)@ == seq![EntryView { history: None, ..entry@ }] + old(self)@,
    {
        let mut entry = entry;
        entry.history = None;
        self.entries.insert(0, entry);
        assert(self@ =~= seq![EntryView { history: None, ..entry@ }] + old(self)@);
    }

    pub fn get_entries(&self) -> (r: &Vec<Entry>)
        ensures
            views(r@) == self@,
    {
        assert(views(self.entries@) =~= self@);
        &self.entries
    }

    /// Whether the snapshots are ordered by last-modification time, most
    /// recent first. Equal neighbours are accepted; a snapshot without a
    /// time is not ordered.
    pub fn is_ordered(&self) -> (r: bool)
        ensures
            r == is_ordered_spec(self@),
    {
        let mut i: usize = 0;
        while i < self.entries.len()
            invariant
                0 <= i <= self.entries@.len(),
                forall|j: int| 0 <= j < i ==> (#[trigger] self@[j]).times.last_modification.is_some(),
                forall|j: int| 0 < j < i ==> stamp(#[trigger] self@[j]) <= stamp(self@[j - 1]),
            decreases self.entries.len() - i,
        {
            assert(self@[i as int] == self.entries@[i as int]@);
            match self.entries[i].times.last_modification {
                None => return false,
                Some(t) => {
                    if i > 0 {
                        assert(self@[i - 1] == self.entries@[i - 1]@);
                        let prev = self.entries[i - 1].times.last_modification.unwrap();
                        if prev < t {
                            return false;
                        }
                    }
                },
            }
            i += 1;
        }
        true
    }

    /// Merges `other` into this history: every snapshot of this history is
    /// kept; a snapshot of `other` is added unless one with the same time is
    /// already there (a differing one is reported as a warning). The result is
    /// newest first. Fails, leaving this history unchanged, when a snapshot has
    /// no time or when this history holds two snapshots with the same time.
    #[verifier::rlimit(40)]
    pub fn merge_with(&mut self, other: &History) -> (r: Result<MergeLog, MergeError>)
        ensures
            stamped(old(self)@) && stamped(other@) && distinct_stamps(old(self)@) ==> r.is_ok(),
            stamped(old(self)@) && stamped(other@) && !distinct_stamps(old(self)@) ==> r == Err::<MergeLog, MergeError>(MergeError::DuplicateHistoryTimestamp),
            !(stamped(old(self)@) && stamped(other@)) ==> r.is_err(),
            r.is_err() ==> *final(self) == *old(self),
            r.is_ok() ==> {
                &&& newest_first(final(self)@)
                &&& is_ordered_spec(final(self)@)
                &&& by_stamp(final(self)@) == fold_other(by_stamp(old(self)@), other@)
                &&& r.unwrap()@.events.len() == 0
                &&& r.unwrap()@.warnings.len() == conflicts(by_stamp(old(self)@), other@)
                &&& forall|i: int| 0 <= i < r.unwrap()@.warnings.len() ==> r.unwrap()@.warnings[i] == HISTORY_CONFLICT_WARNING@
            },
    {
        let mut acc = match sorted_copy(&self.entries) {
            Err(e) => {
                return Err(e);
            },
            Ok(acc) => acc,
        };
        assert(views(self.entries@) =~= self@);
        assert(views(other.entries@) =~= other@);
        let own = match sorted_copy(&self.entries) {
            Err(e) => {
                return Err(e);
            },
            Ok(own) => own,
        };
        let log = match fold_into(&mut acc, &other.entries, &own, Ghost(by_stamp(self@))) {
            Err(e) => {
                return Err(e);
            },
            Ok(log) => log,
        };
        proof {
            lemma_distinct_of_newest_first(views(acc@));
        }
        self.entries = acc;
        assert(self@ =~= views(acc@));
        if !self.is_ordered() {
            return Err(MergeError::HistoryNotOrdered);
        }
        Ok(log)
    }
}

/// The snapshots of `entries`, copied and ordered newest first. Fails when
/// one has no time or two share one.
fn sorted_copy(entries: &Vec<Entry>) -> (r: Result<Vec<Entry>, MergeError>)
    ensures
        r.is_ok() <==> stamped(views(entries@)) && distinct_stamps(views(entries@)),
        stamped(views(entries@)) && !distinct_stamps(views(entries@)) ==> r == Err::<Vec<Entry>, MergeError>(MergeError::DuplicateHistoryTimestamp),
        r.is_ok() ==> newest_first(views(r.unwrap()@)) && by_stamp(views(r.unwrap()@)) == by_stamp(views(entries@)),
{
    let ghost src = views(entries@);
    let mut acc: Vec<Entry> = Vec::new();
    let mut i: usize = 0;
    assert(views(acc@) =~= Seq::<EntryView>::empty());
    while i < entries.len()
        invariant
            src == views(entries@),
            0 <= i <= src.len(),
            newest_first(views(acc@)),
            stamped(src.subrange(0, i as int)),
            distinct_stamps(src.subrange(0, i as int)),
            by_stamp(views(acc@)) == by_stamp(src.subrange(0, i as int)),
        decreases entries.len() - i,
    {
        assert(src[i as int] == entries@[i as int]@);
        let t = match entries[i].times.last_modification {
            None => {
                assert(!stamped(src));
                return Err(MergeError::MissingHistoryTimestamp);
            },
            Some(t) => t,
        };
        let p = position_for(&acc, t);
        if p < acc.len() && acc[p].times.last_modification == Some(t) {
            proof {
                assert(views(acc@)[p as int] == acc@[p as int]@);
                lemma_duplicate_found(views(acc@), src, i as int, p as int);
            }
            return Err(MergeError::DuplicateHistoryTimestamp);
        }
        let ghost before = views(acc@);
        acc.insert(p, entries[i].duplicate());
        proof {
            assert(views(acc@) =~= before.insert(p as int, src[i as int]));
            if p < before.len() {
                assert(before[p as int] == acc@[p as int + 1]@);
            }
            lemma_own_step(before, src, i as int, p as int);
        }
        i += 1;
    }
    assert(src.subrange(0, src.len() as int) =~= src);
    Ok(acc)
}

proof fn lemma_duplicate_found(acc: Seq<EntryView>, src: Seq<EntryView>, i: int, p: int)
    requires
        0 <= i < src.len(),
        0 <= p < acc.len(),
        newest_first(acc),
        src[i].times.last_modification.is_some(),
        stamp(acc[p]) == stamp(src[i]),
        by_stamp(acc) == by_stamp(src.subrange(0, i)),
    ensures
        !distinct_stamps(src),
{
    let t = stamp(src[i]);
    lemma_distinct_of_newest_first(acc);
    lemma_by_stamp_value(acc, p);
    lemma_by_stamp_keys(src.subrange(0, i), t);
    let k = choose|k: int| 0 <= k < i && stamp(src.subrange(0, i)[k]) == t;
    assert(src[k] == src.subrange(0, i)[k]);
    assert(stamp(src[k]) == stamp(src[i]));
}

proof fn lemma_own_step(before: Seq<EntryView>, src: Seq<EntryView>, i: int, p: int)
    requires
        0 <= i < src.len(),
        0 <= p <= before.len(),
        newest_first(before),
        src[i].times.last_modification.is_some(),
        forall|j: int| 0 <= j < p ==> stamp(#[trigger] before[j]) > stamp(src[i]),
        p < before.len() ==> stamp(before[p]) <= stamp(src[i]),
        p < before.len() ==> stamp(before[p]) != stamp(src[i]),
        stamped(src.subrange(0, i)),
        distinct_stamps(src.subrange(0, i)),
        by_stamp(before) == by_stamp(src.subrange(0, i)),
    ensures
        newest_first(before.insert(p, src[i])),
        stamped(src.subrange(0, i + 1)),
        distinct_stamps(src.subrange(0, i + 1)),
        by_stamp(before.insert(p, src[i])) == by_stamp(src.subrange(0, i + 1)),
{
    let e = src[i];
    lemma_insert_keeps_order(before, p, e);
    lemma_by_stamp_insert(before, p, e);
    let sub = src.subrange(0, i);
    let sub2 = src.subrange(0, i + 1);
    assert(sub2.drop_last() =~= sub);
    assert(sub2.last() == e);
    lemma_by_stamp_keys(before, stamp(e));
    lemma_by_stamp_keys(sub, stamp(e));
    assert forall|a: int, b: int| 0 <= a < b < sub2.len() implies stamp(#[trigger] sub2[a]) != stamp(#[trigger] sub2[b]) by {
        if b < i {
            assert(sub2[a] == sub[a] && sub2[b] == sub[b]);
        } else {
            assert(sub2[a] == sub[a]);
        }
    }
    assert forall|k: int| 0 <= k < sub2.len() implies (#[trigger] sub2[k]).times.last_modification.is_some() by {
        if k < i {
            assert(sub2[k] == sub[k]);
        }
    }
}

/// Folds the snapshots of `other` into `acc` (newest first, keyed as `m0`
/// says after earlier steps): a snapshot whose time is present is dropped,
/// with a warning when it differs from the one present.
fn fold_into(acc: &mut Vec<Entry>, other: &Vec<Entry>, own: &Vec<Entry>, m0: Ghost<Map<Timestamp, EntryView>>) -> (r: Result<MergeLog, MergeError>)
    requires
        newest_first(views(old(acc)@)),
        by_stamp(views(old(acc)@)) == m0@,
        newest_first(views(own@)),
        by_stamp(views(own@)) == m0@,
    ensures
        r.is_ok() <==> stamped(views(other@)),
        r.is_ok() ==> {
            &&& newest_first(views(final(acc)@))
            &&& by_stamp(views(final(acc)@)) == fold_other(m0@, views(other@))
            &&& r.unwrap()@.events.len() == 0
            &&& r.unwrap()@.warnings.len() == conflicts(m0@, views(other@))
            &&& forall|i: int| 0 <= i < r.unwrap()@.warnings.len() ==> r.unwrap()@.warnings[i] == HISTORY_CONFLICT_WARNING@
        },
{
    let ghost src = views(other@);
    let mut log = MergeLog::new();
    let mut i: usize = 0;
    while i < other.len()
        invariant
            src == views(other@),
            0 <= i <= src.len(),
            newest_first(views(acc@)),
            stamped(src.subrange(0, i as int)),
            by_stamp(views(acc@)) == fold_other(m0@, src.subrange(0, i as int)),
            log@.events.len() == 0,
            log@.warnings.len() == conflicts(m0@, src.subrange(0, i as int)),
            forall|k: int| 0 <= k < log@.warnings.len() ==> log@.warnings[k] == HISTORY_CONFLICT_WARNING@,
            newest_first(views(own@)),
            by_stamp(views(own@)) == m0@,
        decreases other.len() - i,
    {
        assert(src[i as int] == other@[i as int]@);
        let t = match other[i].times.last_modification {
            None => {
                assert(!stamped(src));
                return Err(MergeError::MissingHistoryTimestamp);
            },
            Some(t) => t,
        };
        let ghost before = views(acc@);
        let ghost e = src[i as int];
        proof {
            lemma_fold_step_shape(src, i as int);
            lemma_distinct_of_newest_first(before);
            lemma_by_stamp_keys(before, t);
            lemma_fold_other_keeps(m0@, src.subrange(0, i as int));
        }
        let p = position_for(acc, t);
        clash_warning(own, &other[i], t, &mut log);
        if p < acc.len() && acc[p].times.last_modification == Some(t) {
            proof {
                assert(before[p as int] == acc@[p as int]@);
                lemma_by_stamp_value(before, p as int);
            }
        } else {
            acc.insert(p, other[i].duplicate());
            proof {
                assert(views(acc@) =~= before.insert(p as int, e));
                if p < before.len() {
                    assert(before[p as int] == acc@[p as int + 1]@);
                }
                lemma_insert_keeps_order(before, p as int, e);
                lemma_by_stamp_insert(before, p as int, e);
            }
        }
        i += 1;
    }
    assert(src.subrange(0, src.len() as int) =~= src);
    Ok(log)
}

/// Warns when the snapshot `e`, stamped `t`, clashes with the snapshot of
/// `own` at that time.
fn clash_warning(own: &Vec<Entry>, e: &Entry, t: Timestamp, log: &mut MergeLog)
    requires
        newest_first(views(own@)),
        e.times.last_modification == Some(t),
    ensures
        final(log)@.events == old(log)@.events,
        final(log)@.warnings == old(log)@.warnings + if by_stamp(views(own@)).contains_key(t) && by_stamp(views(own@))[t] != e@ {
            seq![HISTORY_CONFLICT_WARNING@]
        } else {
            Seq::empty()
        },
{
    proof {
        lemma_distinct_of_newest_first(views(own@));
    }
    let q = position_for(own, t);
    if q < own.len() && own[q].times.last_modification == Some(t) {
        proof {
            assert(views(own@)[q as int] == own@[q as int]@);
            lemma_by_stamp_value(views(own@), q as int);
        }
        if !own[q].equals(e) {
            log.add_warning(HISTORY_CONFLICT_WARNING.to_string());
            return;
        }
    } else {
        proof {
            assert(q < own@.len() ==> views(own@)[q as int] == own@[q as int]@);
            lemma_absent_at_position(views(own@), t, q as int);
        }
    }
    assert(log@.warnings =~= old(log)@.warnings + Seq::<Seq<char>>::empty());
}

proof fn lemma_absent_at_position(s: Seq<EntryView>, t: Timestamp, p: int)
    requires
        newest_first(s),
        0 <= p <= s.len(),
        forall|j: int| 0 <= j < p ==> stamp(#[trigger] s[j]) > t,
        p < s.len() ==> stamp(s[p]) <= t && stamp(s[p]) != t,
    ensures
        !by_stamp(s).contains_key(t),
{
    lemma_by_stamp_keys(s, t);
    if by_stamp(s).contains_key(t) {
        let k = choose|k: int| 0 <= k < s.len() && stamp(s[k]) == t;
        if k > p {
            assert(stamp(s[k]) < stamp(s[p]));
        }
    }
}

proof fn lemma_fold_step_shape(src: Seq<EntryView>, i: int)
    requires
        0 <= i < src.len(),
        stamped(src.subrange(0, i)),
        src[i].times.last_modification.is_some(),
    ensures
        src.subrange(0, i + 1).drop_last() == src.subrange(0, i),
        src.subrange(0, i + 1).last() == src[i],
        stamped(src.subrange(0, i + 1)),
{
    let sub = src.subrange(0, i);
    let sub2 = src.subrange(0, i + 1);
    assert(sub2.drop_last() =~= sub);
    assert forall|k: int| 0 <= k < sub2.len() implies (#[trigger] sub2[k]).times.last_modification.is_some() by {
        if k < i {
            assert(sub2[k] == sub[k]);
        }
    }
}

/// Folding keeps every snapshot already keyed, and keys every snapshot folded in.
pub proof fn lemma_fold_other_keeps(m: Map<Timestamp, EntryView>, b: Seq<EntryView>)
    ensures
        forall|t: Timestamp| #[trigger] m.contains_key(t) ==> fold_other(m, b).contains_key(t) && fold_other(m, b)[t] == m[t],
        forall|k: int| 0 <= k < b.len() ==> fold_other(m, b).contains_key(stamp(#[trigger] b[k])),
    decreases b.len(),
{
    if b.len() > 0 {
        lemma_fold_other_keeps(m, b.drop_last());
        let m1 = fold_other(m, b.drop_last());
        assert forall|t: Timestamp| #[trigger] m.contains_key(t) implies fold_other(m, b).contains_key(t) && fold_other(m, b)[t] == m[t] by {
            assert(m1.contains_key(t) && m1[t] == m[t]);
        }
        assert forall|k: int| 0 <= k < b.len() implies fold_other(m, b).contains_key(stamp(#[trigger] b[k])) by {
            if k < b.len() - 1 {
                assert(b[k] == b.drop_last()[k]);
            }
        }
    }
}

/// Folding in snapshots whose times are all keyed already changes nothing.
pub proof fn lemma_fold_other_present(m: Map<Timestamp, EntryView>, b: Seq<EntryView>)
    requires
        forall|k: int| 0 <= k < b.len() ==> m.contains_key(stamp(#[trigger] b[k])),
    ensures
        fold_other(m, b) == m,
    decreases b.len(),
{
    if b.len() > 0 {
        assert forall|k: int| 0 <= k < b.drop_last().len() implies m.contains_key(stamp(#[trigger] b.drop_last()[k])) by {
            assert(b.drop_last()[k] == b[k]);
        }
        lemma_fold_other_present(m, b.drop_last());
        assert(m.contains_key(stamp(b[b.len() - 1])));
    }
}

/// Folding the same snapshots in a second time adds nothing.
pub proof fn lemma_fold_other_twice(m: Map<Timestamp, EntryView>, b: Seq<EntryView>)
    ensures
        fold_other(fold_other(m, b), b) == fold_other(m, b),
{
    lemma_fold_other_keeps(m, b);
    lemma_fold_other_present(fold_other(m, b), b);
}

/// A history that is newest first is determined by its snapshots keyed by time.
pub proof fn lemma_newest_first_unique(h1: Seq<EntryView>, h2: Seq<EntryView>)
    requires
        newest_first(h1),
        newest_first(h2),
        by_stamp(h1) == by_stamp(h2),
    ensures
        h1 == h2,
    decreases h1.len() + h2.len(),
{
    lemma_distinct_of_newest_first(h1);
    lemma_distinct_of_newest_first(h2);
    if h1.len() == 0 || h2.len() == 0 {
        if h1.len() > 0 {
            lemma_by_stamp_keys(h2, stamp(h1.last()));
        } else if h2.len() > 0 {
            lemma_by_stamp_keys(h1, stamp(h2.last()));
        }
        assert(h1 =~= h2);
    } else {
        let t1 = stamp(h1.last());
        let t2 = stamp(h2.last());
        lemma_by_stamp_keys(h1, t2);
        lemma_by_stamp_keys(h2, t1);
        let j2 = choose|i: int| 0 <= i < h2.len() && stamp(h2[i]) == t1;
        let j1 = choose|i: int| 0 <= i < h1.len() && stamp(h1[i]) == t2;
        if j2 < h2.len() - 1 {
            assert(stamp(h2.last()) < stamp(h2[j2]));
        }
        if j1 < h1.len() - 1 {
            assert(stamp(h1.last()) < stamp(h1[j1]));
        }
        assert(t1 == t2);
        assert(h1.last() == by_stamp(h1)[t1]);
        assert(h2.last() == by_stamp(h2)[t2]);
        let d1 = h1.drop_last();
        let d2 = h2.drop_last();
        assert(newest_first(d1)) by {
            assert forall|i: int, j: int| 0 <= i < j < d1.len() implies stamp(#[trigger] d1[j]) < stamp(#[trigger] d1[i]) by {
                assert(d1[i] == h1[i] && d1[j] == h1[j]);
            }
            assert forall|i: int| 0 <= i < d1.len() implies (#[trigger] d1[i]).times.last_modification.is_some() by {
                assert(d1[i] == h1[i]);
            }
        }
        assert(newest_first(d2)) by {
            assert forall|i: int, j: int| 0 <= i < j < d2.len() implies stamp(#[trigger] d2[j]) < stamp(#[trigger] d2[i]) by {
                assert(d2[i] == h2[i] && d2[j] == h2[j]);
            }
            assert forall|i: int| 0 <= i < d2.len() implies (#[trigger] d2[i]).times.last_modification.is_some() by {
                assert(d2[i] == h2[i]);
            }
        }
        lemma_by_stamp_keys(d1, t1);
        lemma_by_stamp_keys(d2, t1);
        if by_stamp(d1).contains_key(t1) {
            let k = choose|i: int| 0 <= i < d1.len() && stamp(d1[i]) == t1;
            assert(stamp(h1[k]) > stamp(h1.last()));
        }
        if by_stamp(d2).contains_key(t1) {
            let k = choose|i: int| 0 <= i < d2.len() && stamp(d2[i]) == t1;
            assert(stamp(h2[k]) > stamp(h2.last()));
        }
        assert(by_stamp(d1) =~= by_stamp(h1).remove(t1));
        assert(by_stamp(d2) =~= by_stamp(h2).remove(t1));
        lemma_newest_first_unique(d1, d2);
        assert(h1 =~= d1.push(h1.last()));
        assert(h2 =~= d2.push(h2.last()));
    }
}

proof fn lemma_insert_sorted_exists(h: Seq<EntryView>, e: EntryView) -> (h2: Seq<EntryView>)
    requires
        newest_first(h),
        e.times.last_modification.is_some(),
        !by_stamp(h).contains_key(stamp(e)),
    ensures
        newest_first(h2),
        by_stamp(h2) == by_stamp(h).insert(stamp(e), e),
    decreases h.len(),
{
    lemma_by_stamp_keys(h, stamp(e));
    if h.len() == 0 {
        let h2 = seq![e];
        assert(h2.drop_last() =~= h);
        h2
    } else if stamp(h.last()) > stamp(e) {
        let h2 = h.push(e);
        assert(h2.drop_last() =~= h);
        assert forall|i: int, j: int| 0 <= i < j < h2.len() implies stamp(#[trigger] h2[j]) < stamp(#[trigger] h2[i]) by {
            if j == h.len() {
                if i < h.len() - 1 {
                    assert(stamp(h[h.len() - 1]) < stamp(h[i]));
                }
            }
        }
        h2
    } else {
        let d = h.drop_last();
        let last = h.last();
        assert(stamp(last) != stamp(e));
        assert(newest_first(d)) by {
            assert forall|i: int, j: int| 0 <= i < j < d.len() implies stamp(#[trigger] d[j]) < stamp(#[trigger] d[i]) by {
                assert(d[i] == h[i] && d[j] == h[j]);
            }
            assert forall|i: int| 0 <= i < d.len() implies (#[trigger] d[i]).times.last_modification.is_some() by {
                assert(d[i] == h[i]);
            }
        }
        lemma_by_stamp_keys(d, stamp(e));
        if by_stamp(d).contains_key(stamp(e)) {
            let k = choose|k: int| 0 <= k < d.len() && stamp(d[k]) == stamp(e);
            assert(stamp(h[k]) == stamp(e));
        }
        let h1 = lemma_insert_sorted_exists(d, e);
        let h2 = h1.push(last);
        assert(h2.drop_last() =~= h1);
        assert forall|i: int, j: int| 0 <= i < j < h2.len() implies stamp(#[trigger] h2[j]) < stamp(#[trigger] h2[i]) by {
            if j == h1.len() {
                assert(h2[i] == h1[i]);
                lemma_by_stamp_keys(h1, stamp(h1[i]));
                assert(by_stamp(h1).contains_key(stamp(h1[i])));
                if stamp(h1[i]) != stamp(e) {
                    lemma_by_stamp_keys(d, stamp(h1[i]));
                    let k = choose|k: int| 0 <= k < d.len() && stamp(d[k]) == stamp(h1[i]);
                    assert(d[k] == h[k]);
                    assert(stamp(h[h.len() - 1]) < stamp(h[k]));
                }
            } else {
                assert(h2[i] == h1[i] && h2[j] == h1[j]);
            }
        }
        assert(by_stamp(h2) =~= by_stamp(h).insert(stamp(e), e));
        h2
    }
}

proof fn lemma_sorted_of(s: Seq<EntryView>) -> (h: Seq<EntryView>)
    requires
        stamped(s),
        distinct_stamps(s),
    ensures
        newest_first(h),
        by_stamp(h) == by_stamp(s),
    decreases s.len(),
{
    if s.len() == 0 {
        s
    } else {
        let d = s.drop_last();
        assert(stamped(d)) by {
            assert forall|i: int| 0 <= i < d.len() implies (#[trigger] d[i]).times.last_modification.is_some() by {
                assert(d[i] == s[i]);
            }
        }
        assert(distinct_stamps(d)) by {
            assert forall|i: int, j: int| 0 <= i < j < d.len() implies stamp(#[trigger] d[i]) != stamp(#[trigger] d[j]) by {
                assert(d[i] == s[i] && d[j] == s[j]);
            }
        }
        let h1 = lemma_sorted_of(d);
        lemma_by_stamp_keys(d, stamp(s.last()));
        if by_stamp(d).contains_key(stamp(s.last())) {
            let k = choose|k: int| 0 <= k < d.len() && stamp(d[k]) == stamp(s.last());
            assert(stamp(s[k]) == stamp(s[s.len() - 1]));
        }
        lemma_insert_sorted_exists(h1, s.last())
    }
}

proof fn lemma_sorted_fold(h: Seq<EntryView>, b: Seq<EntryView>) -> (r: Seq<EntryView>)
    requires
        newest_first(h),
        stamped(b),
    ensures
        newest_first(r),
        by_stamp(r) == fold_other(by_stamp(h), b),
    decreases b.len(),
{
    if b.len() == 0 {
        h
    } else {
        let d = b.drop_last();
        assert(stamped(d)) by {
            assert forall|i: int| 0 <= i < d.len() implies (#[trigger] d[i]).times.last_modification.is_some() by {
                assert(d[i] == b[i]);
            }
        }
        let h1 = lemma_sorted_fold(h, d);
        if by_stamp(h1).contains_key(stamp(b.last())) {
            h1
        } else {
            assert(b[b.len() - 1].times.last_modification.is_some());
            lemma_insert_sorted_exists(h1, b.last())
        }
    }
}

/// Folding stamped snapshots into a history with distinct times gives a
/// history that can be ordered newest first.
pub proof fn lemma_fold_orderable(dst: Seq<EntryView>, src: Seq<EntryView>) -> (h: Seq<EntryView>)
    requires
        stamped(dst),
        distinct_stamps(dst),
        stamped(src),
    ensures
        newest_first(h),
        by_stamp(h) == fold_other(by_stamp(dst), src),
{
    let h0 = lemma_sorted_of(dst);
    let h = lemma_sorted_fold(h0, src);
    h
}

} // verus!
