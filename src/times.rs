//! Timestamps of nodes, in whole seconds.

use vstd::prelude::*;

verus! {

/// A point in time: whole seconds since 1970-01-01T00:00:00, without time zone.
///
/// Sub-second precision is never kept, so two timestamps taken within the
/// same second compare equal.
pub type Timestamp = i64;

/// Relies on chrono::Utc::now and DateTime::timestamp: the current time,
/// truncated to whole seconds; never before the epoch (`Utc::now` panics
/// on a clock set before 1970).
#[verifier::external_body]
fn clock_seconds() -> (r: i64)
    ensures
        r >= 0,
{
    chrono::Utc::now().timestamp()
}

/// The timestamps of a group or an entry.
#[derive(Debug, Clone, Copy, PartialEq, Eq, Structural)]
pub struct Times {
    pub expires: bool,
    pub usage_count: usize,
    pub expiry_time: Option<Timestamp>,
    pub last_modification: Option<Timestamp>,
    pub creation: Option<Timestamp>,
    pub last_access: Option<Timestamp>,
    pub location_changed: Option<Timestamp>,
}

impl Times {
    /// Times with nothing recorded.
    pub fn empty() -> (r: Times)
        ensures
            r == Times::empty_spec(),
    {
        Times {
            expires: false,
            usage_count: 0,
            expiry_time: None,
            last_modification: None,
            creation: None,
            last_access: None,
            location_changed: None,
        }
    }

    pub open spec fn empty_spec() -> Times {
        Times {
            expires: false,
            usage_count: 0,
            expiry_time: None,
            last_modification: None,
            creation: None,
            last_access: None,
            location_changed: None,
        }
    }

    /// All five timestamps set to `t`, not expiring, never used.
    pub open spec fn all_at(t: Timestamp) -> Times {
        Times {
            expires: false,
            usage_count: 0,
            expiry_time: Some(t),
            last_modification: Some(t),
            creation: Some(t),
            last_access: Some(t),
            location_changed: Some(t),
        }
    }

    pub fn get_expires(&self) -> (r: bool)
        ensures
            r == self.expires,
    {
        self.expires
    }

    pub fn set_expires(&mut self, expires: bool)
        ensures
            *final(self) == (Times { expires, ..*old(self) }),
    {
        self.expires = expires;
    }

    pub fn get_usage_count(&self) -> (r: usize)
        ensures
            r == self.usage_count,
    {
        self.usage_count
    }

    pub fn set_usage_count(&mut self, usage_count: usize)
        ensures
            *final(self) == (Times { usage_count, ..*old(self) }),
    {
        self.usage_count = usage_count;
    }

    pub fn get_expiry_time(&self) -> (r: Option<Timestamp>)
        ensures
            r == self.expiry_time,
    {
        self.expiry_time
    }

    pub fn set_expiry_time(&mut self, time: Option<Timestamp>)
        ensures
            *final(self) == (Times { expiry_time: time, ..*old(self) }),
    {
        self.expiry_time = time;
    }

    pub fn get_last_modification(&self) -> (r: Option<Timestamp>)
        ensures
            r == self.last_modification,
    {
        self.last_modification
    }

    pub fn set_last_modification(&mut self, time: Option<Timestamp>)
        ensures
            *final(self) == (Times { last_modification: time, ..*old(self) }),
    {
        self.last_modification = time;
    }

    pub fn get_creation(&self) -> (r: Option<Timestamp>)
        ensures
            r == self.creation,
    {
        self.creation
    }

    pub fn set_creation(&mut self, time: Option<Timestamp>)
        ensures
            *final(self) == (Times { creation: time, ..*old(self) }),
    {
        self.creation = time;
    }

    pub fn get_last_access(&self) -> (r: Option<Timestamp>)
        ensures
            r == self.last_access,
    {
        self.last_access
    }

    pub fn set_last_access(&mut self, time: Option<Timestamp>)
        ensures
            *final(self) == (Times { last_access: time, ..*old(self) }),
    {
        self.last_access = time;
    }

    pub fn get_location_changed(&self) -> (r: Option<Timestamp>)
        ensures
            r == self.location_changed,
    {
        self.location_changed
    }

    pub fn set_location_changed(&mut self, time: Option<Timestamp>)
        ensures
            *final(self) == (Times { location_changed: time, ..*old(self) }),
    {
        self.location_changed = time;
    }

    /// The current time in whole seconds.
    pub fn now() -> (r: Timestamp)
        ensures
            r >= 0,
    {
        clock_seconds()
    }

    /// 1970-01-01T00:00:00: earlier than any timestamp a client records.
    pub fn epoch() -> (r: Timestamp)
        ensures
            r == 0,
    {
        0
    }

    /// Times of a node created now: every timestamp is the current time,
    /// the node does not expire and has never been used.
    pub fn new() -> (r: Times)
        ensures
            exists|t: Timestamp| t >= 0 && r == Times::all_at(t),
    {
        let now = Times::now();
        let r = Times {
            expires: false,
            usage_count: 0,
            expiry_time: Some(now),
            last_modification: Some(now),
            creation: Some(now),
            last_access: Some(now),
            location_changed: Some(now),
        };
        assert(r == Times::all_at(now));
        r
    }
}

/// 0001-01-01T00:00:00, from which KDBX 4 counts the seconds of the
/// timestamps it stores.
pub fn get_epoch_baseline() -> (r: Timestamp)
    ensures
        r == -62135596800,
{
    -62135596800
}

} // verus!
