use vstd::prelude::*;
use crate::interval::{Interval, DAY_END, DAY_START, intervals_overlap, free_from};

verus! {

/// A titled booking of one half-open interval of the day.
pub struct Meeting {
    pub title: String,
    pub interval: Interval,
}

impl Meeting {
    /// A well-formed meeting has a non-empty title and a well-formed interval.
    pub open spec fn wf(self) -> bool {
        self.interval.wf() && self.title@.len() > 0
    }
}

/// Why a booking or a load was refused. All of these are recoverable:
/// the schedule is left unchanged whenever one comes back.
#[derive(Debug, PartialEq, Eq)]
pub enum ScheduleError {
    /// The candidate's start is not before its end.
    InvalidInterval,
    /// The candidate's interval does not lie within the day.
    OutOfBounds,
    /// The candidate overlaps an existing meeting; carries that meeting's title.
    Conflict(String),
    /// Loaded entries violate the schedule's invariant.
    CorruptState,
}

/// The booked intervals of a sequence of meetings, in the same order.
pub open spec fn intervals_of(s: Seq<Meeting>) -> Seq<Interval> {
    s.map_values(|m: Meeting| m.interval)
}

/// The schedule invariant: every meeting is well formed, and the meetings
/// stand in ascending order with no two overlapping (each one ends no
/// later than the next one starts).
pub open spec fn schedule_wf(s: Seq<Meeting>) -> bool {
    &&& forall|i: int| 0 <= i < s.len() ==> (#[trigger] s[i]).wf()
    &&& forall|i: int, j: int|
        #![trigger s[i], s[j]]
        0 <= i < j < s.len() ==> s[i].interval.end <= s[j].interval.start
}

/// Whether `iv` overlaps some meeting of `s` (half-open semantics).
pub open spec fn conflicts_with(s: Seq<Meeting>, iv: Interval) -> bool {
    exists|i: int| 0 <= i < s.len() && (#[trigger] s[i]).interval.overlaps(iv)
}

/// Index of the first meeting of `s`, in storage order, that overlaps
/// `iv`; `s.len()` when none does.
pub open spec fn first_conflict_index(s: Seq<Meeting>, iv: Interval) -> int
    decreases s.len(),
{
    if s.len() == 0 {
        0
    } else if s[0].interval.overlaps(iv) {
        0
    } else {
        1 + first_conflict_index(s.drop_first(), iv)
    }
}

/// Index at which a meeting starting at `start` belongs in the ascending
/// sequence `s`: the count of meetings that start strictly earlier.
pub open spec fn insert_position(s: Seq<Meeting>, start: u32) -> int
    decreases s.len(),
{
    if s.len() == 0 {
        0
    } else if start <= s[0].interval.start {
        0
    } else {
        1 + insert_position(s.drop_first(), start)
    }
}

/// The exact outcome of booking candidate `c` into a schedule holding `s`:
/// the result handed back and the meetings afterward. An invalid or
/// out-of-bounds or conflicting candidate leaves the schedule unchanged;
/// otherwise the candidate is inserted at its ascending position.
pub open spec fn book_spec(s: Seq<Meeting>, c: Meeting) -> (Result<(), ScheduleError>, Seq<Meeting>) {
    if c.interval.start >= c.interval.end {
        (Err(ScheduleError::InvalidInterval), s)
    } else if c.interval.end > DAY_END {
        (Err(ScheduleError::OutOfBounds), s)
    } else if conflicts_with(s, c.interval) {
        (Err(ScheduleError::Conflict(s[first_conflict_index(s, c.interval)].title)), s)
    } else {
        (Ok(()), s.insert(insert_position(s, c.interval.start), c))
    }
}

/// Loaded entries are acceptable when every one is well formed and no
/// two of them overlap (half-open semantics): exactly the schedule
/// invariant, order aside.
pub open spec fn entries_wf(es: Seq<Meeting>) -> bool {
    &&& forall|i: int| 0 <= i < es.len() ==> (#[trigger] es[i]).wf()
    &&& forall|i: int, j: int|
        #![trigger es[i], es[j]]
        0 <= i < es.len() && 0 <= j < es.len() && i != j
            ==> !es[i].interval.overlaps(es[j].interval)
}

/// A meeting that overlaps `iv` stands at `i` and none does before it:
/// then `i` is exactly `first_conflict_index`.
pub proof fn lemma_first_conflict_index(s: Seq<Meeting>, iv: Interval, i: int)
    requires
        0 <= i < s.len(),
        s[i].interval.overlaps(iv),
        forall|k: int| 0 <= k < i ==> !(#[trigger] s[k]).interval.overlaps(iv),
    ensures
        first_conflict_index(s, iv) == i,
    decreases s.len(),
{
    if s[0].interval.overlaps(iv) {
        assert(i == 0);
    } else {
        let rest = s.drop_first();
        assert(rest[i - 1] == s[i]);
        assert forall|k: int| 0 <= k < i - 1 implies !(#[trigger] rest[k]).interval.overlaps(iv) by {
            assert(rest[k] == s[k + 1]);
        }
        lemma_first_conflict_index(rest, iv, i - 1);
    }
}

/// All meetings before `p` start strictly earlier than `start` and all
/// from `p` on do not: then `p` is exactly `insert_position`.
pub proof fn lemma_insert_position(s: Seq<Meeting>, start: u32, p: int)
    requires
        0 <= p <= s.len(),
        forall|k: int| 0 <= k < p ==> (#[trigger] s[k]).interval.start < start,
        forall|k: int| p <= k < s.len() ==> start <= (#[trigger] s[k]).interval.start,
    ensures
        insert_position(s, start) == p,
    decreases s.len(),
{
    if s.len() == 0 {
    } else if start <= s[0].interval.start {
        assert(p == 0);
    } else {
        let rest = s.drop_first();
        assert forall|k: int| 0 <= k < p - 1 implies (#[trigger] rest[k]).interval.start < start by {
            assert(rest[k] == s[k + 1]);
        }
        assert forall|k: int| p - 1 <= k < rest.len() implies start <= (#[trigger] rest[k]).interval.start by {
            assert(rest[k] == s[k + 1]);
        }
        lemma_insert_position(rest, start, p - 1);
    }
}

/// `insert_position` always lands inside the sequence's index range,
/// the position one past the last element included.
pub proof fn lemma_insert_position_bounds(s: Seq<Meeting>, start: u32)
    ensures
        0 <= insert_position(s, start) <= s.len(),
    decreases s.len(),
{
    if s.len() == 0 {
    } else if start <= s[0].interval.start {
    } else {
        lemma_insert_position_bounds(s.drop_first(), start);
    }
}

/// Inserting a well-formed candidate that conflicts with nothing, at its
/// ascending position, preserves the schedule invariant.
pub proof fn lemma_insert_preserves_wf(s: Seq<Meeting>, c: Meeting, p: int)
    requires
        schedule_wf(s),
        c.wf(),
        !conflicts_with(s, c.interval),
        0 <= p <= s.len(),
        forall|k: int| 0 <= k < p ==> (#[trigger] s[k]).interval.start < c.interval.start,
        forall|k: int| p <= k < s.len() ==> c.interval.start <= (#[trigger] s[k]).interval.start,
    ensures
        schedule_wf(s.insert(p, c)),
{
    s.insert_ensures(p, c);
    let t = s.insert(p, c);
    assert forall|k: int| 0 <= k < s.len() implies !(#[trigger] s[k]).interval.overlaps(c.interval) by {
        assert(s[k].interval.overlaps(c.interval) ==> conflicts_with(s, c.interval));
    }
    assert forall|i: int, j: int| #![trigger t[i], t[j]] 0 <= i < j < t.len() implies
        t[i].interval.end <= t[j].interval.start by {
        if i < p && j < p {
            assert(t[i] == s[i] && t[j] == s[j]);
        } else if i < p && j == p {
            assert(t[i] == s[i] && t[j] == c);
            assert(s[i].interval.start < c.interval.start);
            assert(!s[i].interval.overlaps(c.interval));
        } else if i < p && j > p {
            assert(t[i] == s[i] && t[j] == s[j - 1]);
        } else if i == p {
            assert(t[i] == c && t[j] == s[j - 1]);
            assert(c.interval.start <= s[j - 1].interval.start);
            assert(!s[j - 1].interval.overlaps(c.interval));
        } else {
            assert(t[i] == s[i - 1] && t[j] == s[j - 1]);
        }
    }
    assert forall|i: int| 0 <= i < t.len() implies (#[trigger] t[i]).wf() by {
        if i < p {
            assert(t[i] == s[i]);
        } else if i == p {
            assert(t[i] == c);
        } else {
            assert(t[i] == s[i - 1]);
        }
    }
}

/// An owned copy of a meeting: same title text, same interval.
fn clone_meeting(m: &Meeting) -> (r: Meeting)
    ensures
        r == *m,
{
    Meeting { title: m.title.clone(), interval: m.interval }
}

/// One day's bookings for one resource: a set of non-overlapping
/// half-open intervals, each with a title, kept ascending by start.
pub struct DaySchedule {
    meetings: Vec<Meeting>,
}

impl View for DaySchedule {
    type V = Seq<Meeting>;

    closed spec fn view(&self) -> Seq<Meeting> {
        self.meetings@
    }
}

impl DaySchedule {
    /// The schedule invariant, over the abstract meeting sequence.
    pub open spec fn wf(self) -> bool {
        schedule_wf(self@)
    }

    /// Creates an empty schedule: nothing booked, the whole day free.
    pub fn new() -> (r: DaySchedule)
        ensures
            r.wf(),
            r@ == Seq::<Meeting>::empty(),
    {
        DaySchedule { meetings: Vec::new() }
    }

    /// Books `candidate` unless its interval is invalid, out of the day's
    /// bounds, or overlapping an existing meeting; on any of those the
    /// schedule is left exactly as it was and the specific error comes
    /// back, a conflict carrying the title of the first conflicting
    /// meeting in ascending order. On success the candidate is inserted
    /// at its ascending position and nothing else changes.
    pub fn book(&mut self, candidate: Meeting) -> (r: Result<(), ScheduleError>)
        requires
            old(self).wf(),
            candidate.title@.len() > 0,
        ensures
            final(self).wf(),
            r == book_spec(old(self)@, candidate).0,
            final(self)@ == book_spec(old(self)@, candidate).1,
    {
        let ghost s0 = self@;
        if candidate.interval.start >= candidate.interval.end {
            return Err(ScheduleError::InvalidInterval);
        }
        if candidate.interval.end > DAY_END {
            return Err(ScheduleError::OutOfBounds);
        }
        let n = self.meetings.len();
        let mut i: usize = 0;
        while i < n
            invariant
                self@ == s0,
                s0 == old(self)@,
                schedule_wf(s0),
                n == s0.len(),
                0 <= i <= n,
                candidate.interval.start < candidate.interval.end,
                candidate.interval.end <= DAY_END,
                forall|k: int| 0 <= k < i ==> !(#[trigger] s0[k]).interval.overlaps(candidate.interval),
            decreases n - i,
        {
            if intervals_overlap(&self.meetings[i].interval, &candidate.interval) {
                let t = self.meetings[i].title.clone();
                proof {
                    assert(conflicts_with(s0, candidate.interval));
                    lemma_first_conflict_index(s0, candidate.interval, i as int);
                }
                return Err(ScheduleError::Conflict(t));
            }
            i += 1;
        }
        proof {
            assert(!conflicts_with(s0, candidate.interval));
        }
        let mut p: usize = 0;
        while p < n && self.meetings[p].interval.start < candidate.interval.start
            invariant
                self@ == s0,
                s0 == old(self)@,
                schedule_wf(s0),
                n == s0.len(),
                0 <= p <= n,
                candidate.interval.start < candidate.interval.end,
                candidate.interval.end <= DAY_END,
                candidate.title@.len() > 0,
                !conflicts_with(s0, candidate.interval),
                forall|k: int| 0 <= k < p ==> (#[trigger] s0[k]).interval.start < candidate.interval.start,
            decreases n - p,
        {
            p += 1;
        }
        proof {
            assert forall|k: int| p <= k < s0.len() implies
                candidate.interval.start <= (#[trigger] s0[k]).interval.start by {
                if k > p {
                    assert(s0[p as int].interval.end <= s0[k].interval.start);
                    assert(s0[p as int].wf());
                }
            }
            lemma_insert_position(s0, candidate.interval.start, p as int);
            lemma_insert_preserves_wf(s0, candidate, p as int);
        }
        self.meetings.insert(p, candidate);
        Ok(())
    }

    /// Rebuilds a schedule from persisted entries, validating them
    /// against the invariant rather than trusting them: the whole load
    /// is refused with `CorruptState` unless every entry is well formed
    /// (non-empty title, interval inside the day with start before end)
    /// and no two entries overlap. On success the schedule holds exactly
    /// the given meetings.
    pub fn from_entries(entries: &Vec<Meeting>) -> (r: Result<DaySchedule, ScheduleError>)
        ensures
            match r {
                Ok(s) => s.wf() && s@.to_multiset() == entries@.to_multiset()
                    && entries_wf(entries@),
                Err(e) => e == ScheduleError::CorruptState && !entries_wf(entries@),
            },
    {
        broadcast use vstd::seq_lib::to_multiset_insert;
        broadcast use vstd::seq_lib::to_multiset_build;

        let mut sched = DaySchedule::new();
        let n = entries.len();
        let mut i: usize = 0;
        proof {
            assert(sched@ =~= entries@.take(0));
        }
        while i < n
            invariant
                n == entries@.len(),
                0 <= i <= n,
                sched.wf(),
                sched@.to_multiset() == entries@.take(i as int).to_multiset(),
                forall|k: int| 0 <= k < i ==> (#[trigger] entries@[k]).wf(),
                forall|k: int, l: int|
                    #![trigger entries@[k], entries@[l]]
                    0 <= k < i && 0 <= l < i && k != l
                        ==> !entries@[k].interval.overlaps(entries@[l].interval),
                forall|j: int|
                    #![trigger sched@[j]]
                    0 <= j < sched@.len() ==> exists|k: int|
                        #![trigger entries@[k]]
                        0 <= k < i && sched@[j] == entries@[k],
            decreases n - i,
        {
            broadcast use vstd::seq_lib::to_multiset_insert;
            broadcast use vstd::seq_lib::to_multiset_build;

            let ghost i0 = i as int;
            let ghost pre = sched@;
            let m = &entries[i];
            if m.interval.start >= m.interval.end || m.interval.end > DAY_END
                || m.title.as_str().is_empty() {
                proof {
                    assert(!entries@[i0].wf());
                    assert(entries_wf(entries@) ==> entries@[i0].wf());
                }
                return Err(ScheduleError::CorruptState);
            }
            let c = clone_meeting(m);
            match sched.book(c) {
                Ok(()) => {
                    proof {
                        broadcast use vstd::seq_lib::group_to_multiset_ensures;

                        assert forall|k: int, l: int|
                            #![trigger entries@[k], entries@[l]]
                            0 <= k < i0 + 1 && 0 <= l < i0 + 1 && k != l implies
                            !entries@[k].interval.overlaps(entries@[l].interval) by {
                            if k == i0 || l == i0 {
                                let a = if k == i0 {
                                    l
                                } else {
                                    k
                                };
                                assert(entries@.take(i0)[a] == entries@[a]);
                                assert(entries@.take(i0).contains(entries@[a]));
                                assert(entries@.take(i0).to_multiset().count(entries@[a]) > 0);
                                assert(pre.to_multiset().count(entries@[a]) > 0);
                                assert(pre.contains(entries@[a]));
                                let j = choose|j: int| 0 <= j < pre.len() && pre[j] == entries@[a];
                                assert(pre[j].interval.overlaps(c.interval)
                                    ==> conflicts_with(pre, c.interval));
                                assert(!entries@[a].interval.overlaps(entries@[i0].interval));
                            }
                        }
                        let p = insert_position(pre, c.interval.start);
                        lemma_insert_position_bounds(pre, c.interval.start);
                        pre.insert_ensures(p, c);
                        assert(sched@ == pre.insert(p, c));
                        assert(entries@.take(i0 + 1) =~= entries@.take(i0).push(entries@[i0]));
                        assert(sched@.to_multiset() == entries@.take(i0 + 1).to_multiset());
                        assert forall|j: int| #![trigger sched@[j]] 0 <= j < sched@.len()
                            implies exists|k: int|
                            #![trigger entries@[k]]
                            0 <= k < i0 + 1 && sched@[j] == entries@[k] by {
                            if j < p {
                                assert(sched@[j] == pre[j]);
                                let k = choose|k: int|
                                    #![trigger entries@[k]]
                                    0 <= k < i0 && pre[j] == entries@[k];
                                assert(0 <= k < i0 + 1 && sched@[j] == entries@[k]);
                            } else if j == p {
                                assert(sched@[j] == c);
                                assert(0 <= i0 < i0 + 1 && sched@[j] == entries@[i0]);
                            } else {
                                assert(sched@[j] == pre[j - 1]);
                                let k = choose|k: int|
                                    #![trigger entries@[k]]
                                    0 <= k < i0 && pre[j - 1] == entries@[k];
                                assert(0 <= k < i0 + 1 && sched@[j] == entries@[k]);
                            }
                        }
                    }
                }
                Err(_) => {
                    proof {
                        assert(conflicts_with(pre, c.interval));
                        let j = choose|j: int|
                            0 <= j < pre.len() && (#[trigger] pre[j]).interval.overlaps(c.interval);
                        let k = choose|k: int|
                            #![trigger entries@[k]]
                            0 <= k < i0 && pre[j] == entries@[k];
                        assert(entries@[k].interval.overlaps(entries@[i0].interval));
                        assert(entries_wf(entries@)
                            ==> !entries@[k].interval.overlaps(entries@[i0].interval));
                    }
                    return Err(ScheduleError::CorruptState);
                }
            }
            i += 1;
        }
        proof {
            assert(entries@.take(n as int) =~= entries@);
            assert(entries_wf(entries@));
        }
        Ok(sched)
    }

    /// The maximal free intervals of the day, ascending: exactly what the
    /// cursor walk `free_from` yields over the booked intervals from
    /// `DAY_START`. On an empty schedule this is the single interval
    /// covering the whole day.
    pub fn free_slots(&self) -> (r: Vec<Interval>)
        requires
            self.wf(),
        ensures
            r@ == free_from(intervals_of(self@), DAY_START),
    {
        let ghost ivs = intervals_of(self@);
        let mut result: Vec<Interval> = Vec::new();
        let mut cursor: u32 = DAY_START;
        let n = self.meetings.len();
        let mut i: usize = 0;
        proof {
            assert(ivs.skip(0) =~= ivs);
            assert(result@ + free_from(ivs, DAY_START) =~= free_from(ivs, DAY_START));
        }
        while i < n
            invariant
                self@.len() == n,
                ivs == intervals_of(self@),
                ivs.len() == n,
                0 <= i <= n,
                free_from(ivs, DAY_START) == result@ + free_from(ivs.skip(i as int), cursor),
            decreases n - i,
        {
            let ghost i0 = i as int;
            let ghost result0 = result@;
            let ghost cursor0 = cursor;
            let iv = self.meetings[i].interval;
            proof {
                assert(ivs[i0] == iv);
                assert(ivs.skip(i0)[0] == ivs[i0]);
                assert(ivs.skip(i0).drop_first() =~= ivs.skip(i0 + 1));
            }
            if iv.start > cursor {
                result.push(Interval { start: cursor, end: iv.start });
            }
            if iv.end > cursor {
                cursor = iv.end;
            }
            i += 1;
            proof {
                let tail = free_from(ivs.skip(i0 + 1), cursor);
                if iv.start > cursor0 {
                    assert(result@ =~= result0 + seq![Interval { start: cursor0, end: iv.start }]);
                    assert(free_from(ivs.skip(i0), cursor0)
                        == seq![Interval { start: cursor0, end: iv.start }] + tail);
                    assert(result0 + (seq![Interval { start: cursor0, end: iv.start }] + tail)
                        =~= result@ + tail);
                } else {
                    assert(free_from(ivs.skip(i0), cursor0) == tail);
                }
            }
        }
        proof {
            assert(ivs.skip(n as int) =~= Seq::<Interval>::empty());
        }
        if cursor < DAY_END {
            let ghost result0 = result@;
            result.push(Interval { start: cursor, end: DAY_END });
            proof {
                assert(result@ =~= result0 + seq![Interval { start: cursor, end: DAY_END }]);
            }
        } else {
            proof {
                assert(result@ + free_from(Seq::<Interval>::empty(), cursor) =~= result@);
            }
        }
        result
    }

    /// Every booked meeting as an `(interval, title)` pair. This
    /// implementation hands them back ascending by start, but a lookup
    /// structure promises no order: callers that need one must sort.
    pub fn all_slots(&self) -> (r: Vec<(Interval, String)>)
        ensures
            r@ == self@.map_values(|m: Meeting| (m.interval, m.title)),
    {
        let mut result: Vec<(Interval, String)> = Vec::new();
        let n = self.meetings.len();
        let mut i: usize = 0;
        while i < n
            invariant
                self@.len() == n,
                0 <= i <= n,
                result@ =~= self@.take(i as int).map_values(|m: Meeting| (m.interval, m.title)),
            decreases n - i,
        {
            result.push((self.meetings[i].interval, self.meetings[i].title.clone()));
            proof {
                assert(self@.take(i as int + 1) =~= self@.take(i as int).push(self@[i as int]));
            }
            i += 1;
        }
        proof {
            assert(self@.take(n as int) =~= self@);
            assert(result@ =~= self@.map_values(|m: Meeting| (m.interval, m.title)));
        }
        result
    }
}

} // verus!
