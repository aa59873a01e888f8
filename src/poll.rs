use vstd::prelude::*;
use crate::value::{Json, Value};
use crate::diff::{DiffResult, diff, diff_model};

verus! {

/// What one sampling of the source gave.
pub enum Reading {
    /// The source could not be read.
    SourceFailed,
    /// The source gave text that is not JSON.
    Unparsable,
    /// The source gave empty or blank text: no value.
    Empty,
    /// The source gave a JSON value.
    Parsed(Value),
}

pub open spec fn owned_view(o: Option<Value>) -> Option<Json> {
    match o {
        Some(v) => Some(v.view()),
        None => None,
    }
}

/// The state kept between samples: the last value seen, how many samples
/// were reported as changed, and after how many changes to stop.
pub struct Watcher {
    pub last: Option<Value>,
    pub changes_seen: u32,
    pub limit: Option<u32>,
}

impl Watcher {
    /// A watcher that starts from the first sample.
    pub fn new(first: Option<Value>, limit: Option<u32>) -> (r: Watcher)
        ensures
            r.last == first,
            r.changes_seen == 0,
            r.limit == limit,
    {
        Watcher { last: first, changes_seen: 0, limit }
    }

    /// Whether as many changes as asked for have been reported.
    pub fn done(&self) -> (r: bool)
        ensures
            r == match self.limit {
                Some(max) => self.changes_seen >= max,
                None => false,
            },
    {
        match self.limit {
            Some(max) => self.changes_seen >= max,
            None => false,
        }
    }

    /// Takes one sample into account. A source that failed, text that is not
    /// JSON and blank text all count as no value. The sample becomes the last
    /// value, and the differences from the one before are returned where
    /// there are any; each such report counts as one change.
    pub fn observe(&mut self, reading: Reading) -> (r: Option<DiffResult>)
        ensures
            final(self).limit == old(self).limit,
            match reading {
                Reading::SourceFailed | Reading::Unparsable | Reading::Empty => Self::stepped(
                    *old(self),
                    *final(self),
                    None,
                    r,
                ),
                Reading::Parsed(v) => Self::stepped(*old(self), *final(self), Some(v.view()), r),
            },
    {
        match reading {
            Reading::SourceFailed => self.step(None),
            Reading::Unparsable => self.step(None),
            Reading::Empty => self.step(None),
            Reading::Parsed(v) => self.step(Some(v)),
        }
    }

    /// `after` follows `before` on a sample whose model is `next`, with `r`
    /// returned.
    pub open spec fn stepped(before: Watcher, after: Watcher, next: Option<Json>, r: Option<DiffResult>) -> bool {
        let d = diff_model(owned_view(before.last), next);
        &&& owned_view(after.last) == next
        &&& after.limit == before.limit
        &&& if d.len() == 0 {
            r is None && after.changes_seen == before.changes_seen
        } else {
            &&& r is Some
            &&& r->0.view() == d
            &&& after.changes_seen == if before.changes_seen < u32::MAX {
                (before.changes_seen + 1) as u32
            } else {
                before.changes_seen
            }
        }
    }

    fn step(&mut self, next: Option<Value>) -> (r: Option<DiffResult>)
        ensures
            Self::stepped(*old(self), *final(self), owned_view(next), r),
    {
        let d = match (&self.last, &next) {
            (Some(a), Some(b)) => diff(Some(a), Some(b)),
            (Some(a), None) => diff(Some(a), None),
            (None, Some(b)) => diff(None, Some(b)),
            (None, None) => diff(None, None),
        };
        self.last = next;
        if d.is_empty() {
            None
        } else {
            if self.changes_seen < u32::MAX {
                self.changes_seen = self.changes_seen + 1;
            }
            Some(d)
        }
    }
}

} // verus!
