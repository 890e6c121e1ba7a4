//! What a merge reports: warnings, events and errors.

use vstd::prelude::*;

verus! {

/// What a merge did to a node.
#[derive(Debug, Clone, Copy, PartialEq, Eq, Structural)]
pub enum MergeEventType {
    EntryCreated,
    EntryLocationUpdated,
    EntryUpdated,
    GroupCreated,
}

/// One change applied by a merge.
#[derive(Debug, Clone, Copy, PartialEq, Eq, Structural)]
pub struct MergeEvent {
    /// The uuid of the node (entry or group) affected.
    pub node_uuid: u128,
    pub event_type: MergeEventType,
}

/// Why a merge was abandoned. The destination keeps what was applied before.
#[derive(Debug, Clone, PartialEq, Eq)]
pub enum MergeError {
    /// A history holds two snapshots with the same last-modification time.
    DuplicateHistoryTimestamp,
    /// A history snapshot has no last-modification time.
    MissingHistoryTimestamp,
    /// A merged history is not ordered by decreasing last-modification time.
    HistoryNotOrdered,
    /// A location with no element, not even the root.
    EmptyLocation,
    /// A location names a group that does not exist and may not be created.
    GroupNotFound,
    /// The entry is not a direct child of the group its location names
    /// (named by its title, or "No title").
    EntryNotFound { uuid: u128, group: String },
    /// Two versions of an entry share a last-modification time but differ.
    EntriesDiverged { uuid: u128 },
    /// The root of a tree cannot be removed from it.
    CannotRemoveRoot,
    /// No node of the tree has the uuid.
    NodeNotFound { uuid: u128 },
    /// A node that should be a group is an entry.
    NotAGroup,
    /// A node that should be an entry is a group.
    NotAnEntry,
}

/// The audit of a merge: warnings and the events applied, in order.
pub struct MergeLog {
    pub warnings: Vec<String>,
    pub events: Vec<MergeEvent>,
}

pub struct MergeLogView {
    pub warnings: Seq<Seq<char>>,
    pub events: Seq<MergeEvent>,
}

impl View for MergeLog {
    type V = MergeLogView;

    open spec fn view(&self) -> MergeLogView {
        MergeLogView {
            warnings: Seq::new(self.warnings@.len(), |i: int| self.warnings@[i]@),
            events: self.events@,
        }
    }
}

impl MergeLog {
    pub fn new() -> (r: MergeLog)
        ensures
            r@.warnings.len() == 0,
            r@.events.len() == 0,
    {
        MergeLog { warnings: Vec::new(), events: Vec::new() }
    }

    pub fn add_warning(&mut self, w: String)
        ensures
            final(self)@.warnings == old(self)@.warnings.push(w@),
            final(self)@.events == old(self)@.events,
    {
        self.warnings.push(w);
        assert(self@.warnings =~= old(self)@.warnings.push(w@));
    }

    pub fn add_event(&mut self, node_uuid: u128, event_type: MergeEventType)
        ensures
            final(self)@.warnings == old(self)@.warnings,
            final(self)@.events == old(self)@.events.push(MergeEvent { node_uuid, event_type }),
    {
        self.events.push(MergeEvent { node_uuid, event_type });
        assert(self@.warnings =~= old(self)@.warnings);
    }

    /// The two logs one after the other.
    pub fn merge_with(&self, other: &MergeLog) -> (r: MergeLog)
        ensures
            r@.warnings == self@.warnings + other@.warnings,
            r@.events == self@.events + other@.events,
    {
        let mut r = MergeLog::new();
        r.append(self);
        r.append(other);
        r
    }

    /// Adds the warnings and events of `other` at the end of this log.
    pub fn append(&mut self, other: &MergeLog)
        ensures
            final(self)@.warnings == old(self)@.warnings + other@.warnings,
            final(self)@.events == old(self)@.events + other@.events,
    {
        let mut i: usize = 0;
        while i < other.warnings.len()
            invariant
                0 <= i <= other.warnings@.len(),
                self@.warnings == old(self)@.warnings + other@.warnings.subrange(0, i as int),
                self@.events == old(self)@.events,
            decreases other.warnings.len() - i,
        {
            self.add_warning(other.warnings[i].clone());
            i += 1;
            assert(self@.warnings =~= old(self)@.warnings + other@.warnings.subrange(0, i as int));
        }
        let mut i: usize = 0;
        while i < other.events.len()
            invariant
                0 <= i <= other.events@.len(),
                self@.warnings == old(self)@.warnings + other@.warnings.subrange(0, other@.warnings.len() as int),
                self@.events == old(self)@.events + other@.events.subrange(0, i as int),
            decreases other.events.len() - i,
        {
            self.add_event(other.events[i].node_uuid, other.events[i].event_type);
            i += 1;
            assert(self@.events =~= old(self)@.events + other@.events.subrange(0, i as int));
        }
        assert(other@.warnings.subrange(0, other@.warnings.len() as int) =~= other@.warnings);
        assert(other@.events.subrange(0, other@.events.len() as int) =~= other@.events);
    }
}

} // verus!
