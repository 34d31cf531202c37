//! Sweep-line status structure: the segments crossed by the sweep line,
//! kept in the sweep-line segment order.
//!
//! Stored as a sorted vector of event indices. All operations that compare
//! take the arena, because the segment order needs to reach the peers.
use crate::compare_segments::{compare_segments, segment_below, segments_comparable};
use crate::sweep_event::{insert_at, nth, SweepEvent};
use std::cmp::Ordering;
use vstd::prelude::*;

verus! {

/// Ordered sequence of event indices keyed by the segment order.
pub struct SweepLine {
    events: Vec<usize>,
}

impl View for SweepLine {
    type V = Seq<usize>;

    /// The events on the line, from the lowest to the highest.
    closed spec fn view(&self) -> Seq<usize> {
        self.events@
    }
}

/// Every event of `s` can be compared with `idx` by the segment order.
pub open spec fn line_comparable(arena: Seq<SweepEvent>, s: Seq<usize>, idx: usize) -> bool {
    forall|k: int| 0 <= k < s.len() ==> #[trigger] segments_comparable(arena, s[k], idx)
}

impl SweepLine {
    /// An empty sweep line.
    pub fn new() -> (sl: Self)
        ensures
            sl@ == Seq::<usize>::empty(),
    {
        SweepLine { events: Vec::new() }
    }

    /// Whether no segment is on the line.
    pub fn is_empty(&self) -> (r: bool)
        ensures
            r == (self@.len() == 0),
    {
        self.events.len() == 0
    }

    /// Number of segments on the line.
    pub fn len(&self) -> (r: usize)
        ensures
            r == self@.len(),
    {
        self.events.len()
    }

    /// Event index at the given position, or `None` if out of bounds.
    pub fn at(&self, position: usize) -> (r: Option<usize>)
        ensures
            r == (if position < self@.len() {
                Some(self@[position as int])
            } else {
                None::<usize>
            }),
    {
        if position < self.events.len() {
            Some(self.events[position])
        } else {
            None
        }
    }

    /// Insert `idx` in segment order and return its position: the event
    /// below it (if any) comes before it, the event above it (if any) does
    /// not.
    pub fn insert(&mut self, arena: &Vec<SweepEvent>, idx: usize) -> (pos: usize)
        requires
            line_comparable(arena@, old(self)@, idx),
        ensures
            pos <= old(self)@.len(),
            final(self)@ == insert_at(old(self)@, pos, idx),
            final(self)@.len() <= usize::MAX,
            pos > 0 ==> segment_below(arena@, old(self)@[pos - 1], idx),
            pos < old(self)@.len() ==> !segment_below(arena@, nth(old(self)@, pos), idx),
    {
        let n = self.events.len();
        let mut lo: usize = 0;
        let mut hi: usize = n;
        while lo < hi
            invariant
                n == self.events@.len(),
                lo <= hi <= n,
                line_comparable(arena@, self.events@, idx),
                lo > 0 ==> segment_below(arena@, self.events@[lo - 1], idx),
                hi < n ==> !segment_below(arena@, nth(self.events@, hi), idx),
            decreases hi - lo,
        {
            let mid = lo + (hi - lo) / 2;
            proof {
                assert(segments_comparable(arena@, nth(self.events@, mid), idx));
            }
            if matches!(compare_segments(arena, self.events[mid], idx), Ordering::Less) {
                lo = mid + 1;
            } else {
                hi = mid;
            }
        }
        self.events.insert(lo, idx);
        let len_after = self.events.len();
        proof {
            assert(self.events@.len() == len_after);
        }
        lo
    }

    /// Position of `idx` on the line, or `None` if absent.
    pub fn position(&self, arena: &Vec<SweepEvent>, idx: usize) -> (r: Option<usize>)
        requires
            line_comparable(arena@, self@, idx),
        ensures
            self@.len() <= usize::MAX,
            match r {
                Some(p) => p < self@.len() && nth(self@, p) == idx,
                None => !self@.contains(idx),
            },
    {
        let n = self.events.len();
        assert(self.events@.len() == n);
        let mut lo: usize = 0;
        let mut hi: usize = n;
        while lo < hi
            invariant
                n == self.events@.len(),
                lo <= hi <= n,
                line_comparable(arena@, self.events@, idx),
            decreases hi - lo,
        {
            let mid = lo + (hi - lo) / 2;
            proof {
                assert(segments_comparable(arena@, nth(self.events@, mid), idx));
            }
            match compare_segments(arena, self.events[mid], idx) {
                Ordering::Less => {
                    lo = mid + 1;
                },
                Ordering::Greater => {
                    hi = mid;
                },
                Ordering::Equal => {
                    if self.events[mid] == idx {
                        return Some(mid);
                    }
                    break;
                },
            }
        }
        let mut k: usize = 0;
        while k < n
            invariant
                n == self.events@.len(),
                k <= n,
                forall|j: int| 0 <= j < k ==> self.events@[j] != idx,
            decreases n - k,
        {
            if self.events[k] == idx {
                return Some(k);
            }
            k = k + 1;
        }
        None
    }

    /// Remove `idx` from the line. Returns `true` if it was present.
    pub fn remove(&mut self, arena: &Vec<SweepEvent>, idx: usize) -> (r: bool)
        requires
            line_comparable(arena@, old(self)@, idx),
        ensures
            r == old(self)@.contains(idx),
            r ==> exists|p: int|
                0 <= p < old(self)@.len() && old(self)@[p] == idx && final(self)@ == old(self)@.remove(
                    p,
                ),
            !r ==> final(self)@ == old(self)@,
    {
        match self.position(arena, idx) {
            Some(pos) => {
                let ghost before = self.events@;
                self.events.remove(pos);
                assert(nth(before, pos) == idx);
                true
            },
            None => false,
        }
    }

    /// Remove the event at `position`.
    pub fn remove_at(&mut self, position: usize)
        requires
            position < old(self)@.len(),
        ensures
            final(self)@ == old(self)@.remove(position as int),
    {
        self.events.remove(position);
    }

    /// Event immediately above `position` (at `position + 1`), or `None` at
    /// the top.
    pub fn next(&self, position: usize) -> (r: Option<usize>)
        requires
            position < usize::MAX,
        ensures
            r == (if position + 1 < self@.len() {
                Some(self@[position + 1])
            } else {
                None::<usize>
            }),
    {
        self.at(position + 1)
    }

    /// Event immediately below `position` (`position - 1`), or `None` if
    /// `position == 0`.
    pub fn prev(&self, position: usize) -> (r: Option<usize>)
        ensures
            r == (if 0 < position && position - 1 < self@.len() {
                Some(self@[position - 1])
            } else {
                None::<usize>
            }),
    {
        if position == 0 {
            None
        } else {
            self.at(position - 1)
        }
    }

    /// Lowest event on the line, or `None` if empty.
    pub fn min(&self) -> (r: Option<usize>)
        ensures
            r == (if self@.len() > 0 {
                Some(self@[0])
            } else {
                None::<usize>
            }),
    {
        self.at(0)
    }
}

} // verus!
