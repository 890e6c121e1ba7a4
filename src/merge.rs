//! Merging a source tree into a destination tree that shares its uuids:
//! relocation of moved entries, creation of new ones, and reconciliation of
//! entries edited on both sides.

use vstd::prelude::*;
use vstd::string::StringExecFns;
use crate::entry::{entry_merge_spec, history_merge_spec, lemma_merged_history, merged_history, incoming_lineage, Entry, EntryView};
use crate::group::{
    group_at, insert_at, last_entry_with, remove_at, replace_in,
    entry_uuids_unique, find_entry_spec, first_with_uuid, group_entries, holds_entry, lemma_first_with_uuid_at,
    lemma_found_holds, lemma_insert_holds, lemma_replace_holds, listed_view, location_view, Group, GroupRefView,
    GroupView, NodeLocation,
};
use crate::history::{
    by_stamp, distinct_stamps, fold_other, lemma_distinct_of_newest_first, lemma_fold_other_twice, lemma_fold_other_keeps, lemma_fold_other_present, lemma_by_stamp_keys, stamp,
    lemma_newest_first_unique, newest_first, stamped,
};
use crate::ids::{uuid_text, uuid_to_string};
use crate::log::{MergeError, MergeEvent, MergeEventType, MergeLog, MergeLogView};
use crate::times::{Times, Timestamp};

verus! {

broadcast use vstd::std_specs::vec::group_vec_axioms, vstd::seq::group_seq_axioms;

/// The warning logged when an entry lacks its location-changed time.
pub open spec fn no_location_time_warning(uuid: u128) -> Seq<char> {
    "Entry "@ + uuid_text(uuid) + " did not have a location updated timestamp"@
}

/// The warning logged when an entry lacks its last-modification time.
pub open spec fn no_modification_time_warning(uuid: u128) -> Seq<char> {
    "Entry "@ + uuid_text(uuid) + " did not have a last modification timestamp"@
}

fn no_location_time_message(uuid: u128) -> (r: String)
    ensures
        r@ == no_location_time_warning(uuid),
{
    proof {
        reveal_strlit("Entry ");
        reveal_strlit(" did not have a location updated timestamp");
    }
    let s = String::from_str("Entry ");
    let s = s.concat(uuid_to_string(uuid).as_str());
    s.concat(" did not have a location updated timestamp")
}

fn no_modification_time_message(uuid: u128) -> (r: String)
    ensures
        r@ == no_modification_time_warning(uuid),
{
    proof {
        reveal_strlit("Entry ");
        reveal_strlit(" did not have a last modification timestamp");
    }
    let s = String::from_str("Entry ");
    let s = s.concat(uuid_to_string(uuid).as_str());
    s.concat(" did not have a last modification timestamp")
}

/// The tree holds every listed entry, as it is: the entry that the search
/// finds for each listed uuid is the listed one.
pub open spec fn holds_each(g: GroupView, items: Seq<(EntryView, Seq<GroupRefView>)>) -> bool {
    forall|k: int| 0 <= k < items.len() ==> {
        let f = find_entry_spec(g, (#[trigger] items[k]).0.uuid);
        f.is_some() && f.unwrap().0 == items[k].0
    }
}

/// Every listed entry records when it last changed location.
pub open spec fn all_located_items(items: Seq<(EntryView, Seq<GroupRefView>)>) -> bool {
    forall|k: int| 0 <= k < items.len() ==> (#[trigger] items[k]).0.times.location_changed.is_some()
}

/// Every entry of the tree records when it last changed location.
pub open spec fn all_located(g: GroupView) -> bool {
    let s = group_entries(g, Seq::empty());
    forall|k: int| 0 <= k < s.len() ==> (#[trigger] s[k]).0.times.location_changed.is_some()
}

/// The top-level content of `m` is that of `winner`; only its history may differ.
pub open spec fn tops_with(m: EntryView, winner: EntryView) -> bool {
    m == (EntryView { history: m.history, ..winner })
}

/// What reconciling the destination version `existing` of an entry with its
/// source version `incoming` gives, `now` standing for a missing destination
/// time: the warnings, and the merged entry unless nothing is to change (with
/// the warnings of its history merge); nothing where it fails.
pub open spec fn reconcile_spec(existing: EntryView, incoming: EntryView, now: Timestamp) -> Option<(Seq<Seq<char>>, Option<(EntryView, Seq<Seq<char>>)>)> {
    if existing == incoming {
        Some((Seq::empty(), None))
    } else {
        let u = incoming.uuid;
        let w = (if incoming.times.last_modification.is_none() { seq![no_modification_time_warning(u)] } else { Seq::empty() })
            + (if existing.times.last_modification.is_none() { seq![no_modification_time_warning(u)] } else { Seq::empty() });
        let s = match incoming.times.last_modification {
            Some(t) => t,
            None => 0,
        };
        let d = match existing.times.last_modification {
            Some(t) => t,
            None => now,
        };
        if d == s {
            if (EntryView { history: None, ..existing }) != (EntryView { history: None, ..incoming }) {
                None
            } else {
                match history_merge_spec(existing, incoming) {
                    None => None,
                    Some((me, mw)) => if me == existing { Some((w, None)) } else { Some((w, Some((me, mw)))) },
                }
            }
        } else {
            let m = if d > s { entry_merge_spec(existing, incoming) } else { entry_merge_spec(incoming, existing) };
            match m {
                None => None,
                Some((me, mw)) => if me == existing { Some((w, None)) } else { Some((w, Some((me, mw)))) },
            }
        }
    }
}

/// Compares the destination version of an entry with its source version.
/// Equal versions need nothing. Otherwise the one with the later
/// last-modification time wins (a missing time counts, with a warning, as
/// the epoch on the source side and as now on the destination side), and
/// the result is the entry merge of the winner with the other; it is
/// handed back unless it equals the destination version. At equal times the
/// two must hold the same content apart from their histories (else it is an
/// error), and the histories are merged.
pub fn reconcile_entry(existing: &Entry, incoming: &Entry, now: Timestamp, log: &mut MergeLog) -> (r: Result<Option<(Entry, MergeLog)>, MergeError>)
    ensures
        r.is_ok() == reconcile_spec(existing@, incoming@, now).is_some(),
        r.is_ok() ==> ({
            let (w, out) = reconcile_spec(existing@, incoming@, now).unwrap();
            &&& final(log)@.warnings == old(log)@.warnings + w
            &&& final(log)@.events == old(log)@.events
            &&& r.unwrap().is_some() == out.is_some()
            &&& r.unwrap().is_some() ==> (r.unwrap().unwrap().0@, r.unwrap().unwrap().1@.warnings) == out.unwrap()
        }),
        existing@ == incoming@ ==> r == Ok::<Option<(Entry, MergeLog)>, MergeError>(None) && final(log)@ == old(log)@,
        (EntryView { history: None, ..existing@ }) != (EntryView { history: None, ..incoming@ })
            && existing.times.last_modification.is_some()
            && existing.times.last_modification == incoming.times.last_modification
            ==> r == Err::<Option<(Entry, MergeLog)>, MergeError>(MergeError::EntriesDiverged { uuid: incoming.uuid }),
        existing@ != incoming@ ==> final(log)@.events == old(log)@.events
            && final(log)@.warnings == old(log)@.warnings
                + (if incoming.times.last_modification.is_none() { seq![no_modification_time_warning(incoming.uuid)] } else { Seq::empty() })
                + (if existing.times.last_modification.is_none() { seq![no_modification_time_warning(incoming.uuid)] } else { Seq::empty() }),
        existing.times.last_modification.is_some() && incoming.times.last_modification.is_some() ==> {
            let d = existing.times.last_modification.unwrap();
            let s = incoming.times.last_modification.unwrap();
            &&& d > s && r.is_ok() && r.unwrap().is_some() ==> tops_with(r.unwrap().unwrap().0@, existing@)
            &&& s > d && r.is_ok() && r.unwrap().is_some() ==> tops_with(r.unwrap().unwrap().0@, incoming@)
            &&& d > s && existing@ != incoming@ && ({
                let h = existing@.history_or_empty();
                let l = incoming_lineage(incoming@);
                stamped(h) && stamped(l) && distinct_stamps(h)
            }) ==> r.is_ok()
            &&& s > d && ({
                let h = incoming@.history_or_empty();
                let l = incoming_lineage(existing@);
                stamped(h) && stamped(l) && distinct_stamps(h)
            }) ==> r.is_ok()
            &&& d > s && r.is_ok() && r.unwrap().is_some() ==> ({
                let h = r.unwrap().unwrap().0@.history;
                &&& h.is_some()
                &&& newest_first(h.unwrap())
                &&& by_stamp(h.unwrap()) == fold_other(by_stamp(existing@.history_or_empty()), incoming_lineage(incoming@))
            })
            &&& d > s && existing@.history.is_some() && ({
                let h = existing@.history.unwrap();
                let l = incoming_lineage(incoming@);
                newest_first(h) && stamped(l) && by_stamp(h) == fold_other(by_stamp(h), l)
            }) ==> r == Ok::<Option<(Entry, MergeLog)>, MergeError>(None)
        },
        r.is_ok() && r.unwrap().is_some() ==> r.unwrap().unwrap().0@ != existing@
            && r.unwrap().unwrap().1@.events.len() == 0,
{
    if existing.equals(incoming) {
        return Ok(None);
    }
    let uuid = incoming.uuid;
    let source_last_modification = match incoming.times.last_modification {
        Some(t) => t,
        None => {
            log.add_warning(no_modification_time_message(uuid));
            Times::epoch()
        },
    };
    let destination_last_modification = match existing.times.last_modification {
        Some(t) => t,
        None => {
            log.add_warning(no_modification_time_message(uuid));
            now
        },
    };
    assert(log@.warnings =~= old(log)@.warnings
        + (if incoming.times.last_modification.is_none() { seq![no_modification_time_warning(incoming.uuid)] } else { Seq::empty() })
        + (if existing.times.last_modification.is_none() { seq![no_modification_time_warning(incoming.uuid)] } else { Seq::empty() }));
    let merged = if destination_last_modification == source_last_modification {
        if !existing.same_content(incoming) {
            return Err(MergeError::EntriesDiverged { uuid });
        }
        Entry::merge_histories(existing, incoming)
    } else if destination_last_modification > source_last_modification {
        proof {
            if existing@.history.is_some() && newest_first(existing@.history.unwrap()) {
                lemma_distinct_of_newest_first(existing@.history.unwrap());
            }
        }
        let m = Entry::merge(existing, incoming);
        proof {
            if m.is_ok() && existing@.history.is_some() {
                let h = existing@.history.unwrap();
                if by_stamp(h) == fold_other(by_stamp(h), incoming_lineage(incoming@)) && newest_first(h) {
                    lemma_newest_first_unique(m.unwrap().0@.history.unwrap(), h);
                }
            }
        }
        m
    } else {
        Entry::merge(incoming, existing)
    };
    let (merged_entry, entry_merge_log) = match merged {
        Err(e) => {
            return Err(e);
        },
        Ok(m) => m,
    };
    if merged_entry.equals(existing) {
        return Ok(None);
    }
    Ok(Some((merged_entry, entry_merge_log)))
}

/// Each event names an entry of the listed source entries.
pub open spec fn events_from(events: Seq<MergeEvent>, s: Seq<(EntryView, Seq<GroupRefView>)>) -> bool {
    forall|k: int| 0 <= k < events.len() ==> exists|i: int| 0 <= i < s.len() && (#[trigger] events[k]).node_uuid == (#[trigger] s[i]).0.uuid
}

proof fn lemma_unique_first(s: Seq<(EntryView, Seq<GroupRefView>)>, i: int)
    requires
        0 <= i < s.len(),
        forall|a: int, b: int| 0 <= a < b < s.len() ==> (#[trigger] s[a]).0.uuid != (#[trigger] s[b]).0.uuid,
    ensures
        first_with_uuid(s, s[i].0.uuid) == Some(s[i]),
{
    assert forall|j: int| 0 <= j < i implies s[j].0.uuid != s[i].0.uuid by {
        assert(s[j].0.uuid != s[i].0.uuid);
    }
    lemma_first_with_uuid_at(s, s[i].0.uuid, i);
}

/// The destination tree and the log, as a merge goes along.
pub struct MergeState {
    pub tree: GroupView,
    pub warnings: Seq<Seq<char>>,
    pub events: Seq<MergeEvent>,
}

/// The tree after removing the entry from the group its location names, or
/// nothing where `remove_entry` fails.
pub open spec fn remove_spec(g: GroupView, loc: Seq<GroupRefView>, uuid: u128) -> Option<GroupView> {
    if loc.len() == 0 {
        None
    } else {
        match group_at(g, loc.drop_first()) {
            None => None,
            Some(t) => if last_entry_with(t.children, uuid).is_none() {
                None
            } else {
                Some(remove_at(g, loc.drop_first(), uuid))
            },
        }
    }
}

/// The tree after inserting the entry at its location, or nothing where
/// `insert_entry` fails.
pub open spec fn insert_spec(g: GroupView, loc: Seq<GroupRefView>, e: EntryView, shells: Times) -> Option<GroupView> {
    if loc.len() == 0 {
        None
    } else {
        Some(insert_at(g, loc.drop_first(), e, shells))
    }
}

/// One step of the relocation pass, for a source entry and its location.
pub open spec fn relocate_step(st: MergeState, item: (EntryView, Seq<GroupRefView>), now: Timestamp, shells: Times) -> Option<MergeState> {
    let e = item.0;
    let u = e.uuid;
    match find_entry_spec(st.tree, u) {
        None => Some(st),
        Some((ex, exloc)) => {
            let w = st.warnings
                + (if e.times.location_changed.is_none() { seq![no_location_time_warning(u)] } else { Seq::empty() })
                + (if ex.times.location_changed.is_none() { seq![no_location_time_warning(u)] } else { Seq::empty() });
            let s = match e.times.location_changed {
                Some(t) => t,
                None => 0,
            };
            let d = match ex.times.location_changed {
                Some(t) => t,
                None => now,
            };
            if s > d {
                match remove_spec(st.tree, exloc, u) {
                    None => None,
                    Some(t1) => match insert_spec(t1, item.1, e, shells) {
                        None => None,
                        Some(t2) => Some(MergeState {
                            tree: t2,
                            warnings: w,
                            events: st.events.push(MergeEvent { node_uuid: u, event_type: MergeEventType::EntryLocationUpdated }),
                        }),
                    },
                }
            } else {
                Some(MergeState { warnings: w, ..st })
            }
        },
    }
}

/// One step of the reconciliation pass, for a source entry and its location.
pub open spec fn reconcile_step(st: MergeState, item: (EntryView, Seq<GroupRefView>), now: Timestamp, shells: Times) -> Option<MergeState> {
    let e = item.0;
    let u = e.uuid;
    match find_entry_spec(st.tree, u) {
        Some((ex, _)) => match reconcile_spec(ex, e, now) {
            None => None,
            Some((w, None)) => Some(MergeState { warnings: st.warnings + w, ..st }),
            Some((w, Some((m, mw)))) => Some(MergeState {
                tree: replace_in(st.tree, m.uuid, m),
                warnings: st.warnings + w + mw,
                events: st.events.push(MergeEvent { node_uuid: u, event_type: MergeEventType::EntryUpdated }),
            }),
        },
        None => match insert_spec(st.tree, item.1, e, shells) {
            None => None,
            Some(t) => Some(MergeState {
                tree: t,
                events: st.events.push(MergeEvent { node_uuid: u, event_type: MergeEventType::EntryCreated }),
                ..st
            }),
        },
    }
}

pub open spec fn relocation_pass(st: MergeState, items: Seq<(EntryView, Seq<GroupRefView>)>, now: Timestamp, shells: Times) -> Option<MergeState>
    decreases items.len(),
{
    if items.len() == 0 {
        Some(st)
    } else {
        match relocation_pass(st, items.drop_last(), now, shells) {
            None => None,
            Some(s1) => relocate_step(s1, items.last(), now, shells),
        }
    }
}

pub open spec fn reconciliation_pass(st: MergeState, items: Seq<(EntryView, Seq<GroupRefView>)>, now: Timestamp, shells: Times) -> Option<MergeState>
    decreases items.len(),
{
    if items.len() == 0 {
        Some(st)
    } else {
        match reconciliation_pass(st, items.drop_last(), now, shells) {
            None => None,
            Some(s1) => reconcile_step(s1, items.last(), now, shells),
        }
    }
}

/// The outcome of merging a source tree, whose entries with their locations
/// are `items`, into the destination tree `dest`: the relocation pass, then
/// the reconciliation pass, over the items in order; nothing where it fails.
/// `now` stands for a missing destination time, `shells` are the times of
/// the groups it creates.
pub open spec fn merge_spec(dest: GroupView, items: Seq<(EntryView, Seq<GroupRefView>)>, now: Timestamp, shells: Times) -> Option<MergeState> {
    match relocation_pass(MergeState { tree: dest, warnings: Seq::empty(), events: Seq::empty() }, items, now, shells) {
        None => None,
        Some(s1) => reconciliation_pass(s1, items, now, shells),
    }
}

proof fn lemma_relocation_fails_on(st: MergeState, items: Seq<(EntryView, Seq<GroupRefView>)>, now: Timestamp, shells: Times, i: int)
    requires
        0 <= i <= items.len(),
        relocation_pass(st, items.subrange(0, i), now, shells).is_none(),
    ensures
        relocation_pass(st, items, now, shells).is_none(),
    decreases items.len() - i,
{
    if i < items.len() {
        assert(items.subrange(0, i + 1).drop_last() =~= items.subrange(0, i));
        lemma_relocation_fails_on(st, items, now, shells, i + 1);
    } else {
        assert(items.subrange(0, i) =~= items);
    }
}

proof fn lemma_reconciliation_fails_on(st: MergeState, items: Seq<(EntryView, Seq<GroupRefView>)>, now: Timestamp, shells: Times, i: int)
    requires
        0 <= i <= items.len(),
        reconciliation_pass(st, items.subrange(0, i), now, shells).is_none(),
    ensures
        reconciliation_pass(st, items, now, shells).is_none(),
    decreases items.len() - i,
{
    if i < items.len() {
        assert(items.subrange(0, i + 1).drop_last() =~= items.subrange(0, i));
        lemma_reconciliation_fails_on(st, items, now, shells, i + 1);
    } else {
        assert(items.subrange(0, i) =~= items);
    }
}

pub open spec fn state_of(tree: GroupView, log: MergeLogView) -> MergeState {
    MergeState { tree, warnings: log.warnings, events: log.events }
}

impl Group {
    /// One step of the relocation pass, for the source entry `entry` at
    /// `entry_location`.
    fn relocate_one(&mut self, entry: &Entry, entry_location: &NodeLocation, now: Timestamp, shells: Times, log: &mut MergeLog) -> (r: Result<(), MergeError>)
        ensures
            ({
                let step = relocate_step(state_of(old(self)@, old(log)@), (entry@, location_view(entry_location@)), now, shells);
                &&& r.is_ok() == step.is_some()
                &&& r.is_ok() ==> state_of(final(self)@, final(log)@) == step.unwrap()
            }),
            find_entry_spec(old(self)@, entry.uuid).is_some() && find_entry_spec(old(self)@, entry.uuid).unwrap().0 == entry@
                && (entry.times.location_changed.is_some() || now >= 0)
                ==> r.is_ok() && final(self)@ == old(self)@ && final(log)@.events == old(log)@.events,
            find_entry_spec(old(self)@, entry.uuid).is_some() && find_entry_spec(old(self)@, entry.uuid).unwrap().0 == entry@
                && entry.times.location_changed.is_some() ==> r.is_ok() && final(self)@ == old(self)@ && final(log)@ == old(log)@,
            final(log)@.events == old(log)@.events || final(log)@.events == old(log)@.events.push(MergeEvent { node_uuid: entry.uuid, event_type: MergeEventType::EntryLocationUpdated }),
            final(self).parent == old(self).parent,
    {
        let uuid = entry.uuid;
        let ghost st = state_of(self@, log@);
        match self.find_entry(uuid) {
            None => Ok(()),
            Some(found) => {
                let existing = &found.0;
                let existing_location = &found.1;
                let source_location_changed = match entry.times.location_changed {
                    Some(t) => t,
                    None => {
                        log.add_warning(no_location_time_message(uuid));
                        Times::epoch()
                    },
                };
                let destination_location_changed = match existing.times.location_changed {
                    Some(t) => t,
                    None => {
                        log.add_warning(no_location_time_message(uuid));
                        now
                    },
                };
                assert(log@.warnings =~= st.warnings
                    + (if entry@.times.location_changed.is_none() { seq![no_location_time_warning(uuid)] } else { Seq::empty() })
                    + (if existing@.times.location_changed.is_none() { seq![no_location_time_warning(uuid)] } else { Seq::empty() }));
                if source_location_changed > destination_location_changed {
                    log.add_event(uuid, MergeEventType::EntryLocationUpdated);
                    match self.remove_entry(uuid, existing_location) {
                        Err(e) => {
                            return Err(e);
                        },
                        Ok(_) => {},
                    }
                    assert(remove_spec(st.tree, location_view(existing_location@), uuid) == Some(self@));
                    match self.insert_entry(entry.duplicate(), entry_location, shells) {
                        Err(e) => {
                            assert(location_view(entry_location@).len() == 0);
                            return Err(e);
                        },
                        Ok(_) => {},
                    }
                } else {
                    assert(log@.events == st.events);
                }
                Ok(())
            },
        }
    }

    /// One step of the reconciliation pass, for the source entry `entry` at
    /// `entry_location`.
    fn reconcile_one(&mut self, entry: &Entry, entry_location: &NodeLocation, now: Timestamp, shells: Times, log: &mut MergeLog) -> (r: Result<(), MergeError>)
        ensures
            ({
                let step = reconcile_step(state_of(old(self)@, old(log)@), (entry@, location_view(entry_location@)), now, shells);
                &&& r.is_ok() == step.is_some()
                &&& r.is_ok() ==> state_of(final(self)@, final(log)@) == step.unwrap()
            }),
            find_entry_spec(old(self)@, entry.uuid).is_some() && find_entry_spec(old(self)@, entry.uuid).unwrap().0 == entry@
                ==> r.is_ok() && final(self)@ == old(self)@ && final(log)@ == old(log)@,
            final(log)@.events == old(log)@.events
                || final(log)@.events == old(log)@.events.push(MergeEvent { node_uuid: entry.uuid, event_type: MergeEventType::EntryUpdated })
                || final(log)@.events == old(log)@.events.push(MergeEvent { node_uuid: entry.uuid, event_type: MergeEventType::EntryCreated }),
            r.is_ok() ==> holds_entry(final(self)@, entry.uuid),
            r.is_ok() ==> forall|u: u128| holds_entry(old(self)@, u) ==> #[trigger] holds_entry(final(self)@, u),
            final(self).parent == old(self).parent,
    {
        let uuid = entry.uuid;
        let ghost before = self@;
        match self.find_entry(uuid) {
            Some(found) => {
                proof { lemma_found_holds(before, uuid); }
                let existing = &found.0;
                match reconcile_entry(existing, entry, now, log) {
                    Err(e) => Err(e),
                    Ok(None) => Ok(()),
                    Ok(Some((merged_entry, entry_merge_log))) => {
                        self.replace_entry(&merged_entry);
                        proof {
                            assert forall|u: u128| holds_entry(before, u) implies #[trigger] holds_entry(self@, u) by {
                                lemma_replace_holds(before, merged_entry.uuid, merged_entry@, u);
                            }
                        }
                        log.add_event(uuid, MergeEventType::EntryUpdated);
                        let ghost ev = log@.events;
                        log.append(&entry_merge_log);
                        assert(log@.events =~= ev);
                        Ok(())
                    },
                }
            },
            None => {
                let copy = entry.duplicate();
                match self.insert_entry(copy, entry_location, shells) {
                    Err(e) => {
                        return Err(e);
                    },
                    Ok(_) => {},
                }
                proof {
                    assert forall|u: u128| holds_entry(before, u) || u == uuid implies #[trigger] holds_entry(self@, u) by {
                        lemma_insert_holds(before, location_view(entry_location@).drop_first(), entry@, shells, u);
                    }
                }
                log.add_event(uuid, MergeEventType::EntryCreated);
                Ok(())
            },
        }
    }

    /// Merges the source tree `other` into this (destination) tree, as
    /// `merge_spec` says, with `now` standing for a missing destination time
    /// and `shells` the times of the groups it creates.
    ///
    /// First, every source entry that the destination holds and that was
    /// moved later in the source than in the destination (by location-changed
    /// time; a missing time counts, with a warning, as the epoch on the source
    /// side and as `now` on the destination side) is removed from its place
    /// and a copy of the source version is put at the source location,
    /// creating missing groups with the source's uuids and names.
    ///
    /// Then every source entry is reconciled: one the destination lacks is
    /// copied in at its source location; one it holds is reconciled as
    /// `reconcile_entry` says and, where that gives a merged entry, the
    /// destination's entry takes its content in place.
    ///
    /// A failure stops the merge and leaves what was applied before it.
    pub fn merge_at(&mut self, other: &Group, now: Timestamp, shells: Times) -> (r: Result<MergeLog, MergeError>)
        ensures
            ({
                let spec = merge_spec(old(self)@, group_entries(other@, Seq::empty()), now, shells);
                &&& r.is_ok() == spec.is_some()
                &&& r.is_ok() ==> state_of(final(self)@, r.unwrap()@) == spec.unwrap()
            }),
            entry_uuids_unique(old(self)@) && all_located(old(self)@) && other@ == old(self)@ ==> {
                &&& r.is_ok()
                &&& r.unwrap()@.events.len() == 0
                &&& r.unwrap()@.warnings.len() == 0
                &&& final(self)@ == old(self)@
            },
            now >= 0 && entry_uuids_unique(old(self)@) && other@ == old(self)@ ==> {
                &&& r.is_ok()
                &&& r.unwrap()@.events.len() == 0
                &&& final(self)@ == old(self)@
            },
            now >= 0 && holds_each(old(self)@, group_entries(other@, Seq::empty())) ==> {
                &&& r.is_ok()
                &&& r.unwrap()@.events.len() == 0
                &&& final(self)@ == old(self)@
            },
            holds_each(old(self)@, group_entries(other@, Seq::empty())) && all_located_items(group_entries(other@, Seq::empty())) ==> {
                &&& r.is_ok()
                &&& r.unwrap()@.events.len() == 0
                &&& r.unwrap()@.warnings.len() == 0
                &&& final(self)@ == old(self)@
            },
            r.is_ok() ==> events_from(r.unwrap()@.events, group_entries(other@, Seq::empty())),
            r.is_ok() ==> ({
                let s = group_entries(other@, Seq::empty());
                forall|k: int| 0 <= k < s.len() ==> holds_entry(final(self)@, (#[trigger] s[k]).0.uuid)
            }),
            final(self).parent == old(self).parent,
    {
        let ghost same = entry_uuids_unique(old(self)@) && all_located(old(self)@) && other@ == old(self)@;
        let ghost same_tree = now >= 0 && entry_uuids_unique(old(self)@) && other@ == old(self)@;
        let ghost agree = holds_each(old(self)@, group_entries(other@, Seq::empty()));
        let ghost located = all_located_items(group_entries(other@, Seq::empty()));
        let ghost init = MergeState { tree: old(self)@, warnings: Seq::empty(), events: Seq::empty() };
        let mut log = MergeLog::new();
        let empty: NodeLocation = Vec::new();
        assert(location_view(empty@) =~= Seq::<GroupRefView>::empty());
        let other_entries = other.get_all_entries(&empty);
        let ghost src = listed_view(other_entries@);
        assert(src == group_entries(other@, Seq::empty()));
        assert(log@.warnings =~= Seq::<Seq<char>>::empty());
        assert(log@.events =~= Seq::<MergeEvent>::empty());
        assert(src.subrange(0, 0) =~= Seq::<(EntryView, Seq<GroupRefView>)>::empty());

        let mut i: usize = 0;
        while i < other_entries.len()
            invariant
                0 <= i <= other_entries@.len(),
                src == listed_view(other_entries@),
                src == group_entries(other@, Seq::empty()),
                init == (MergeState { tree: old(self)@, warnings: Seq::empty(), events: Seq::empty() }),
                relocation_pass(init, src.subrange(0, i as int), now, shells) == Some(state_of(self@, log@)),
                same == (entry_uuids_unique(old(self)@) && all_located(old(self)@) && other@ == old(self)@),
                same ==> self@ == old(self)@ && log@.events.len() == 0 && log@.warnings.len() == 0,
                same_tree == (now >= 0 && entry_uuids_unique(old(self)@) && other@ == old(self)@),
                same_tree ==> self@ == old(self)@ && log@.events.len() == 0,
                agree == holds_each(old(self)@, group_entries(other@, Seq::empty())),
                located == all_located_items(group_entries(other@, Seq::empty())),
                agree && now >= 0 ==> self@ == old(self)@ && log@.events.len() == 0,
                agree && located ==> self@ == old(self)@ && log@.events.len() == 0 && log@.warnings.len() == 0,
                events_from(log@.events, src),
                self.parent == old(self).parent,
            decreases other_entries.len() - i,
        {
            assert(src[i as int] == (other_entries@[i as int].0@, location_view(other_entries@[i as int].1@)));
            proof {
                if same || same_tree {
                    lemma_unique_first(src, i as int);
                }
                assert(src.subrange(0, i as int + 1).drop_last() =~= src.subrange(0, i as int));
                assert(src.subrange(0, i as int + 1).last() == src[i as int]);
            }
            let ghost ev = log@.events;
            match self.relocate_one(&other_entries[i].0, &other_entries[i].1, now, shells, &mut log) {
                Err(e) => {
                    proof { lemma_relocation_fails_on(init, src, now, shells, i as int + 1); }
                    return Err(e);
                },
                Ok(_) => {},
            }
            proof {
                if log@.events != ev {
                    assert(log@.events.last().node_uuid == src[i as int].0.uuid);
                }
            }
            i += 1;
        }
        assert(src.subrange(0, src.len() as int) =~= src);
        let ghost mid = state_of(self@, log@);

        let mut i: usize = 0;
        while i < other_entries.len()
            invariant
                0 <= i <= other_entries@.len(),
                src == listed_view(other_entries@),
                src == group_entries(other@, Seq::empty()),
                init == (MergeState { tree: old(self)@, warnings: Seq::empty(), events: Seq::empty() }),
                relocation_pass(init, src, now, shells) == Some(mid),
                reconciliation_pass(mid, src.subrange(0, i as int), now, shells) == Some(state_of(self@, log@)),
                same == (entry_uuids_unique(old(self)@) && all_located(old(self)@) && other@ == old(self)@),
                same ==> self@ == old(self)@ && log@.events.len() == 0 && log@.warnings.len() == 0,
                same_tree == (now >= 0 && entry_uuids_unique(old(self)@) && other@ == old(self)@),
                same_tree ==> self@ == old(self)@ && log@.events.len() == 0,
                agree == holds_each(old(self)@, group_entries(other@, Seq::empty())),
                located == all_located_items(group_entries(other@, Seq::empty())),
                agree && now >= 0 ==> self@ == old(self)@ && log@.events.len() == 0,
                agree && located ==> self@ == old(self)@ && log@.events.len() == 0 && log@.warnings.len() == 0,
                events_from(log@.events, src),
                self.parent == old(self).parent,
                forall|k: int| 0 <= k < i ==> holds_entry(self@, (#[trigger] src[k]).0.uuid),
            decreases other_entries.len() - i,
        {
            assert(src[i as int] == (other_entries@[i as int].0@, location_view(other_entries@[i as int].1@)));
            proof {
                if same || same_tree {
                    lemma_unique_first(src, i as int);
                }
                assert(src.subrange(0, i as int + 1).drop_last() =~= src.subrange(0, i as int));
                assert(src.subrange(0, i as int + 1).last() == src[i as int]);
            }
            let ghost ev = log@.events;
            let ghost before = self@;
            match self.reconcile_one(&other_entries[i].0, &other_entries[i].1, now, shells, &mut log) {
                Err(e) => {
                    proof { lemma_reconciliation_fails_on(mid, src, now, shells, i as int + 1); }
                    return Err(e);
                },
                Ok(_) => {},
            }
            proof {
                if log@.events != ev {
                    assert(log@.events.last().node_uuid == src[i as int].0.uuid);
                }
                assert forall|k: int| 0 <= k <= i implies holds_entry(self@, (#[trigger] src[k]).0.uuid) by {
                    if k < i {
                        assert(holds_entry(before, src[k].0.uuid));
                    }
                }
            }
            i += 1;
        }
        Ok(log)
    }

    /// Merges the source tree `other` into this (destination) tree, as
    /// `merge_at` says, with the current time standing for a missing
    /// destination time and as the times of the groups it creates.
    pub fn merge(&mut self, other: &Group) -> (r: Result<MergeLog, MergeError>)
        ensures
            exists|now: Timestamp, t: Timestamp| {
                let spec = #[trigger] merge_spec(old(self)@, group_entries(other@, Seq::empty()), now, Times::all_at(t));
                &&& now >= 0
                &&& r.is_ok() == spec.is_some()
                &&& r.is_ok() ==> state_of(final(self)@, r.unwrap()@) == spec.unwrap()
            },
            entry_uuids_unique(old(self)@) && all_located(old(self)@) && other@ == old(self)@ ==> {
                &&& r.is_ok()
                &&& r.unwrap()@.events.len() == 0
                &&& r.unwrap()@.warnings.len() == 0
                &&& final(self)@ == old(self)@
            },
            entry_uuids_unique(old(self)@) && other@ == old(self)@ ==> {
                &&& r.is_ok()
                &&& r.unwrap()@.events.len() == 0
                &&& final(self)@ == old(self)@
            },
            holds_each(old(self)@, group_entries(other@, Seq::empty())) ==> {
                &&& r.is_ok()
                &&& r.unwrap()@.events.len() == 0
                &&& final(self)@ == old(self)@
            },
            holds_each(old(self)@, group_entries(other@, Seq::empty())) && all_located_items(group_entries(other@, Seq::empty())) ==> {
                &&& r.is_ok()
                &&& r.unwrap()@.events.len() == 0
                &&& r.unwrap()@.warnings.len() == 0
                &&& final(self)@ == old(self)@
            },
            r.is_ok() ==> events_from(r.unwrap()@.events, group_entries(other@, Seq::empty())),
            r.is_ok() ==> ({
                let s = group_entries(other@, Seq::empty());
                forall|k: int| 0 <= k < s.len() ==> holds_entry(final(self)@, (#[trigger] s[k]).0.uuid)
            }),
            final(self).parent == old(self).parent,
    {
        let now = Times::now();
        let shells = Times::new();
        let r = self.merge_at(other, now, shells);
        proof {
            let t = choose|t: Timestamp| t >= 0 && shells == Times::all_at(t);
            assert(merge_spec(old(self)@, group_entries(other@, Seq::empty()), now, Times::all_at(t)) == merge_spec(old(self)@, group_entries(other@, Seq::empty()), now, shells));
        }
        r
    }
}

/// Repeating a merge step changes nothing: where both versions of an entry
/// carry a last-modification time and reconciling them gave a merged entry,
/// reconciling that merged entry with the same source version again gives
/// no warning and nothing to change, whichever side was newer.
pub proof fn lemma_reconcile_twice(existing: EntryView, incoming: EntryView, now: Timestamp, later: Timestamp)
    requires
        existing.times.last_modification.is_some(),
        incoming.times.last_modification.is_some(),
        reconcile_spec(existing, incoming, now).is_some(),
        reconcile_spec(existing, incoming, now).unwrap().1.is_some(),
    ensures
        reconcile_spec(reconcile_spec(existing, incoming, now).unwrap().1.unwrap().0, incoming, later)
            == Some((Seq::<Seq<char>>::empty(), None::<(EntryView, Seq<Seq<char>>)>)),
{
    let m = reconcile_spec(existing, incoming, now).unwrap().1.unwrap().0;
    let d = existing.times.last_modification.unwrap();
    let s = incoming.times.last_modification.unwrap();
    let empty = Seq::<Seq<char>>::empty();
    assert(empty + empty =~= empty);
    if m == incoming {
    } else if d > s {
        let dst = existing.history_or_empty();
        let l = incoming_lineage(incoming);
        lemma_merged_history(dst, l);
        let h = merged_history(dst, l);
        lemma_distinct_of_newest_first(h);
        lemma_merged_history(h, l);
        lemma_fold_other_twice(by_stamp(dst), l);
        lemma_newest_first_unique(merged_history(h, l), h);
        assert(m.history_or_empty() == h);
    } else if s > d {
        let dst = incoming.history_or_empty();
        let l = incoming_lineage(existing);
        lemma_merged_history(dst, l);
        let h = merged_history(dst, l);
        lemma_distinct_of_newest_first(h);
        assert(m.history_or_empty() == h);
        lemma_fold_other_keeps(by_stamp(dst), l);
        assert forall|k: int| 0 <= k < dst.len() implies by_stamp(h).contains_key(stamp(#[trigger] dst[k])) by {
            lemma_by_stamp_keys(dst, stamp(dst[k]));
            assert(by_stamp(dst).contains_key(stamp(dst[k])));
        }
        lemma_fold_other_present(by_stamp(h), dst);
        lemma_merged_history(h, dst);
        lemma_newest_first_unique(merged_history(h, dst), h);
        assert((EntryView { history: None, ..m }) == (EntryView { history: None, ..incoming }));
    } else {
        let dst = existing.history_or_empty();
        let src = incoming.history_or_empty();
        lemma_merged_history(dst, src);
        let h = merged_history(dst, src);
        lemma_distinct_of_newest_first(h);
        assert(m.history_or_empty() == h);
        lemma_merged_history(h, src);
        lemma_fold_other_twice(by_stamp(dst), src);
        lemma_newest_first_unique(merged_history(h, src), h);
    }
}

} // verus!
