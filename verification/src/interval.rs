use vstd::prelude::*;

verus! {

/// First minute of the day (inclusive).
pub const DAY_START: u32 = 0;

/// Last minute of the day (exclusive): a meeting may run until 1440.
pub const DAY_END: u32 = 1440;

/// A half-open range `[start, end)` of minutes since midnight.
///
/// The end instant is not itself occupied, so two ranges that touch
/// (`a.end == b.start`) do not overlap, and back-to-back meetings coexist.
#[derive(Clone, Copy, PartialEq, Eq, Structural, Debug)]
pub struct Interval {
    pub start: u32,
    pub end: u32,
}

impl Interval {
    /// A well-formed interval is non-empty and lies within the day.
    pub open spec fn wf(self) -> bool {
        self.start < self.end && self.end <= DAY_END
    }

    /// Half-open overlap: the two ranges share at least one minute.
    pub open spec fn overlaps(self, other: Interval) -> bool {
        self.start < other.end && other.start < self.end
    }

    /// Whether minute `t` lies inside the half-open range.
    pub open spec fn contains_minute(self, t: int) -> bool {
        self.start <= t < self.end
    }
}

/// A sequence of intervals in ascending order with no two overlapping:
/// each one ends no later than the next one starts.
pub open spec fn intervals_wf(s: Seq<Interval>) -> bool {
    &&& forall|i: int| 0 <= i < s.len() ==> (#[trigger] s[i]).wf()
    &&& forall|i: int, j: int|
        0 <= i < j < s.len() ==> #[trigger] s[i].end <= #[trigger] s[j].start
}

/// Whether minute `t` falls inside some interval of `s`.
pub open spec fn covered(t: int, s: Seq<Interval>) -> bool {
    exists|i: int| 0 <= i < s.len() && (#[trigger] s[i]).contains_minute(t)
}

/// The free intervals of the day, given booked intervals `s` in
/// ascending disjoint order, scanning from minute `cursor`: a gap is
/// emitted before each booking that starts after the cursor, the cursor
/// advances past each booking, and the remainder of the day up to
/// `DAY_END` closes the walk.
pub open spec fn free_from(s: Seq<Interval>, cursor: u32) -> Seq<Interval>
    decreases s.len(),
{
    if s.len() == 0 {
        if cursor < DAY_END {
            seq![Interval { start: cursor, end: DAY_END }]
        } else {
            Seq::empty()
        }
    } else {
        let next = if s[0].end > cursor {
            s[0].end
        } else {
            cursor
        };
        let rest = free_from(s.drop_first(), next);
        if s[0].start > cursor {
            seq![Interval { start: cursor, end: s[0].start }] + rest
        } else {
            rest
        }
    }
}

/// Exec form of the half-open overlap test.
pub fn intervals_overlap(a: &Interval, b: &Interval) -> (r: bool)
    ensures
        r == a.overlaps(*b),
{
    a.start < b.end && b.start < a.end
}

/// Two intervals overlap exactly when some minute lies in both: the
/// general test `a.start < b.end && b.start < a.end` is neither too
/// narrow nor too wide.
pub proof fn lemma_overlap_iff_common_minute(a: Interval, b: Interval)
    requires
        a.wf(),
        b.wf(),
    ensures
        a.overlaps(b) <==> exists|t: int| a.contains_minute(t) && b.contains_minute(t),
{
    if a.overlaps(b) {
        let t = if a.start >= b.start {
            a.start as int
        } else {
            b.start as int
        };
        assert(a.contains_minute(t) && b.contains_minute(t));
    }
}

} // verus!
