//! A start/end log of wall-clock instants, held as milliseconds since
//! the Unix epoch.  Human-readable rendering of instants belongs to
//! the display layer, not to this store.

use vstd::prelude::*;

verus! {

/// An open interval of wall-clock time: an optional start and an
/// optional end, in milliseconds since the Unix epoch.
#[derive(Clone, Copy, Debug, PartialEq, Eq, Structural)]
pub struct TimeLog {
    pub start: Option<u64>,
    pub end: Option<u64>,
}

impl TimeLog {
    pub fn new() -> (r: TimeLog)
        ensures
            r.start is None,
            r.end is None,
    {
        TimeLog { start: None, end: None }
    }

    pub fn set_start(&mut self, start: u64)
        ensures
            *final(self) == (TimeLog { start: Some(start), ..*old(self) }),
    {
        self.start = Some(start);
    }

    pub fn set_end(&mut self, end: u64)
        ensures
            *final(self) == (TimeLog { end: Some(end), ..*old(self) }),
    {
        self.end = Some(end);
    }

    /// The span between start and end: zero when either bound is
    /// missing or when the end precedes the start.
    pub open spec fn spec_length(self) -> u64 {
        match (self.start, self.end) {
            (Some(s), Some(e)) => if e >= s {
                (e - s) as u64
            } else {
                0
            },
            _ => 0,
        }
    }

    pub fn length(&self) -> (r: u64)
        ensures
            r == self.spec_length(),
    {
        match (self.start, self.end) {
            (Some(s), Some(e)) => if e >= s {
                e - s
            } else {
                0
            },
            _ => 0,
        }
    }
}

impl Default for TimeLog {
    fn default() -> (r: Self)
        ensures
            r.start is None,
            r.end is None,
    {
        TimeLog::new()
    }
}

/// Relies on std::time::SystemTime::now, read against the Unix epoch:
/// the wall clock decides the value, so nothing is promised of it.
#[verifier::external_body]
pub fn unix_millis() -> u64 {
    match std::time::SystemTime::now().duration_since(std::time::UNIX_EPOCH) {
        Ok(d) => d.as_millis() as u64,
        Err(_) => 0,
    }
}

} // verus!
