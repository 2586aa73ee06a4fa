use vstd::prelude::*;
use crate::interval::{Interval, DAY_END, DAY_START, covered, free_from, intervals_wf};
use crate::schedule::{
    Meeting, ScheduleError, book_spec, conflicts_with, first_conflict_index, insert_position,
    intervals_of, lemma_insert_position_bounds, lemma_insert_preserves_wf, schedule_wf,
};

verus! {

/// The booked intervals of a well-formed schedule are themselves a
/// well-formed interval sequence: ascending, disjoint, inside the day.
pub proof fn lemma_schedule_intervals_wf(s: Seq<Meeting>)
    requires
        schedule_wf(s),
    ensures
        intervals_wf(intervals_of(s)),
        intervals_of(s).len() == s.len(),
        forall|i: int| 0 <= i < s.len() ==> #[trigger] intervals_of(s)[i] == s[i].interval,
{
    let ivs = intervals_of(s);
    assert forall|i: int| 0 <= i < ivs.len() implies (#[trigger] ivs[i]).wf() by {
        assert(s[i].wf());
    }
    assert forall|i: int, j: int| #![trigger ivs[i], ivs[j]] 0 <= i < j < ivs.len() implies
        ivs[i].end <= ivs[j].start by {
        assert(s[i].interval.end <= s[j].interval.start);
    }
}

/// On an empty schedule the free slots are exactly one interval
/// covering the whole day.
pub proof fn lemma_free_slots_empty_schedule(s: Seq<Meeting>)
    requires
        s.len() == 0,
    ensures
        free_from(intervals_of(s), DAY_START)
            == seq![Interval { start: DAY_START, end: DAY_END }],
{
    assert(intervals_of(s) =~= Seq::<Interval>::empty());
    assert(free_from(Seq::<Interval>::empty(), DAY_START)
        =~= seq![Interval { start: DAY_START, end: DAY_END }]);
}

/// The free intervals derived from ascending disjoint bookings are
/// themselves ascending, disjoint, non-empty, and start no earlier than
/// the cursor.
pub proof fn lemma_free_from_wf(s: Seq<Interval>, cursor: u32)
    requires
        intervals_wf(s),
        forall|i: int| 0 <= i < s.len() ==> cursor <= (#[trigger] s[i]).start,
        cursor <= DAY_END,
    ensures
        intervals_wf(free_from(s, cursor)),
        forall|i: int| 0 <= i < free_from(s, cursor).len()
            ==> cursor <= (#[trigger] free_from(s, cursor)[i]).start,
    decreases s.len(),
{
    let f = free_from(s, cursor);
    if s.len() == 0 {
    } else {
        let h = s[0];
        let next = if h.end > cursor {
            h.end
        } else {
            cursor
        };
        let rest = s.drop_first();
        assert forall|i: int| 0 <= i < rest.len() implies (#[trigger] rest[i]).wf() by {
            assert(rest[i] == s[i + 1]);
        }
        assert forall|i: int, j: int| #![trigger rest[i], rest[j]] 0 <= i < j < rest.len()
            implies rest[i].end <= rest[j].start by {
            assert(rest[i] == s[i + 1] && rest[j] == s[j + 1]);
            assert(s[i + 1].end <= s[j + 1].start);
        }
        assert forall|i: int| 0 <= i < rest.len() implies next <= (#[trigger] rest[i]).start by {
            assert(rest[i] == s[i + 1]);
            assert(s[0].end <= s[i + 1].start);
            assert(cursor <= s[i + 1].start);
        }
        assert(h.wf());
        lemma_free_from_wf(rest, next);
        let fr = free_from(rest, next);
        if h.start > cursor {
            let emit = Interval { start: cursor, end: h.start };
            assert(f == seq![emit] + fr);
            assert(f[0] == emit);
            assert forall|i: int| 0 <= i < f.len() implies cursor <= (#[trigger] f[i]).start by {
                if i > 0 {
                    assert(f[i] == fr[i - 1]);
                    assert(next <= fr[i - 1].start);
                }
            }
            assert forall|i: int| 0 <= i < f.len() implies (#[trigger] f[i]).wf() by {
                if i > 0 {
                    assert(f[i] == fr[i - 1]);
                }
            }
            assert forall|i: int, j: int| #![trigger f[i], f[j]] 0 <= i < j < f.len()
                implies f[i].end <= f[j].start by {
                if i == 0 {
                    assert(f[j] == fr[j - 1]);
                    assert(next <= fr[j - 1].start);
                } else {
                    assert(f[i] == fr[i - 1] && f[j] == fr[j - 1]);
                    assert(fr[i - 1].end <= fr[j - 1].start);
                }
            }
        } else {
            assert(f == fr);
            assert forall|i: int| 0 <= i < f.len() implies cursor <= (#[trigger] f[i]).start by {
                assert(next <= fr[i].start);
            }
        }
    }
}

/// Each minute from the cursor to the end of the day is free exactly
/// when no booking covers it: the two walks never disagree.
pub proof fn lemma_free_from_complement(s: Seq<Interval>, cursor: u32, t: int)
    requires
        intervals_wf(s),
        forall|i: int| 0 <= i < s.len() ==> cursor <= (#[trigger] s[i]).start,
        cursor <= t < DAY_END,
    ensures
        covered(t, free_from(s, cursor)) <==> !covered(t, s),
    decreases s.len(),
{
    let f = free_from(s, cursor);
    if s.len() == 0 {
        assert(f[0].contains_minute(t));
        assert(covered(t, f));
        assert(!covered(t, s));
    } else {
        let h = s[0];
        let next = if h.end > cursor {
            h.end
        } else {
            cursor
        };
        let rest = s.drop_first();
        assert(h.wf());
        assert forall|i: int| 0 <= i < rest.len() implies (#[trigger] rest[i]).wf() by {
            assert(rest[i] == s[i + 1]);
        }
        assert forall|i: int, j: int| #![trigger rest[i], rest[j]] 0 <= i < j < rest.len()
            implies rest[i].end <= rest[j].start by {
            assert(rest[i] == s[i + 1] && rest[j] == s[j + 1]);
            assert(s[i + 1].end <= s[j + 1].start);
        }
        assert forall|i: int| 0 <= i < rest.len() implies next <= (#[trigger] rest[i]).start by {
            assert(rest[i] == s[i + 1]);
            assert(s[0].end <= s[i + 1].start);
            assert(cursor <= s[i + 1].start);
        }
        lemma_free_from_wf(rest, next);
        let fr = free_from(rest, next);
        if t < h.start {
            assert(f[0] == Interval { start: cursor, end: h.start });
            assert(f[0].contains_minute(t));
            assert(covered(t, f));
            assert forall|i: int| 0 <= i < s.len() implies !(#[trigger] s[i]).contains_minute(t) by {
                if i > 0 {
                    assert(s[0].end <= s[i].start);
                }
            }
            assert(!covered(t, s));
        } else if t < h.end {
            assert(s[0].contains_minute(t));
            assert(covered(t, s));
            assert forall|i: int| 0 <= i < f.len() implies !(#[trigger] f[i]).contains_minute(t) by {
                if h.start > cursor {
                    if i == 0 {
                        assert(f[0] == Interval { start: cursor, end: h.start });
                    } else {
                        assert(f[i] == fr[i - 1]);
                        assert(next <= fr[i - 1].start);
                    }
                } else {
                    assert(f[i] == fr[i]);
                    assert(next <= fr[i].start);
                }
            }
            assert(!covered(t, f));
        } else {
            lemma_free_from_complement(rest, next, t);
            assert(covered(t, s) <==> covered(t, rest)) by {
                if covered(t, s) {
                    let i = choose|i: int| 0 <= i < s.len() && (#[trigger] s[i]).contains_minute(t);
                    assert(i != 0);
                    assert(rest[i - 1] == s[i]);
                    assert(rest[i - 1].contains_minute(t));
                }
                if covered(t, rest) {
                    let i = choose|i: int|
                        0 <= i < rest.len() && (#[trigger] rest[i]).contains_minute(t);
                    assert(s[i + 1] == rest[i]);
                    assert(s[i + 1].contains_minute(t));
                }
            }
            assert(covered(t, f) <==> covered(t, fr)) by {
                if h.start > cursor {
                    assert(f == seq![Interval { start: cursor, end: h.start }] + fr);
                    if covered(t, f) {
                        let i = choose|i: int|
                            0 <= i < f.len() && (#[trigger] f[i]).contains_minute(t);
                        assert(i != 0);
                        assert(f[i] == fr[i - 1]);
                        assert(fr[i - 1].contains_minute(t));
                    }
                    if covered(t, fr) {
                        let i = choose|i: int|
                            0 <= i < fr.len() && (#[trigger] fr[i]).contains_minute(t);
                        assert(f[i + 1] == fr[i]);
                        assert(f[i + 1].contains_minute(t));
                    }
                } else {
                    assert(f == fr);
                }
            }
        }
    }
}

/// When some meeting conflicts, `first_conflict_index` names a real
/// meeting: it lies in range, overlaps the candidate, and nothing
/// before it does.
pub proof fn lemma_first_conflict_index_props(s: Seq<Meeting>, iv: Interval)
    requires
        conflicts_with(s, iv),
    ensures
        0 <= first_conflict_index(s, iv) < s.len(),
        s[first_conflict_index(s, iv)].interval.overlaps(iv),
        forall|k: int| 0 <= k < first_conflict_index(s, iv)
            ==> !(#[trigger] s[k]).interval.overlaps(iv),
    decreases s.len(),
{
    if s[0].interval.overlaps(iv) {
    } else {
        let rest = s.drop_first();
        assert(conflicts_with(rest, iv)) by {
            let i = choose|i: int| 0 <= i < s.len() && (#[trigger] s[i]).interval.overlaps(iv);
            assert(i != 0);
            assert(rest[i - 1] == s[i]);
            assert(rest[i - 1].interval.overlaps(iv));
        }
        lemma_first_conflict_index_props(rest, iv);
        let fr = first_conflict_index(rest, iv);
        assert(s[fr + 1] == rest[fr]);
        assert forall|k: int| 0 <= k < fr + 1 implies !(#[trigger] s[k]).interval.overlaps(iv) by {
            if k > 0 {
                assert(rest[k - 1] == s[k]);
            }
        }
    }
}

/// In an ascending schedule, `insert_position` splits the meetings into
/// those starting strictly before the given start and those starting
/// no earlier.
pub proof fn lemma_insert_position_props(s: Seq<Meeting>, start: u32)
    requires
        schedule_wf(s),
    ensures
        forall|k: int| 0 <= k < insert_position(s, start)
            ==> (#[trigger] s[k]).interval.start < start,
        forall|k: int| insert_position(s, start) <= k < s.len()
            ==> start <= (#[trigger] s[k]).interval.start,
    decreases s.len(),
{
    lemma_insert_position_bounds(s, start);
    if s.len() == 0 {
    } else if start <= s[0].interval.start {
        assert forall|k: int| 0 <= k < s.len() implies
            start <= (#[trigger] s[k]).interval.start by {
            if k > 0 {
                assert(s[0].interval.end <= s[k].interval.start);
                assert(s[0].wf());
            }
        }
    } else {
        let rest = s.drop_first();
        assert forall|i: int| 0 <= i < rest.len() implies (#[trigger] rest[i]).wf() by {
            assert(rest[i] == s[i + 1]);
        }
        assert forall|i: int, j: int| #![trigger rest[i], rest[j]] 0 <= i < j < rest.len()
            implies rest[i].interval.end <= rest[j].interval.start by {
            assert(rest[i] == s[i + 1] && rest[j] == s[j + 1]);
            assert(s[i + 1].interval.end <= s[j + 1].interval.start);
        }
        lemma_insert_position_props(rest, start);
        let p = insert_position(s, start);
        assert(p == 1 + insert_position(rest, start));
        assert forall|k: int| 0 <= k < p implies (#[trigger] s[k]).interval.start < start by {
            if k > 0 {
                assert(rest[k - 1] == s[k]);
            }
        }
        assert forall|k: int| p <= k < s.len() implies
            start <= (#[trigger] s[k]).interval.start by {
            assert(rest[k - 1] == s[k]);
        }
    }
}

/// Booking a candidate that overlaps an existing meeting — by as little
/// as one minute — fails with a conflict that names a meeting it really
/// overlaps, and leaves the schedule exactly as it was.
pub proof fn lemma_overlapping_candidate_rejected(s: Seq<Meeting>, c: Meeting, j: int)
    requires
        c.interval.wf(),
        0 <= j < s.len(),
        s[j].interval.overlaps(c.interval),
    ensures
        book_spec(s, c).1 == s,
        ({
            let fci = first_conflict_index(s, c.interval);
            &&& 0 <= fci < s.len()
            &&& s[fci].interval.overlaps(c.interval)
            &&& book_spec(s, c).0 == Err::<(), ScheduleError>(
                ScheduleError::Conflict(s[fci].title),
            )
        }),
{
    assert(conflicts_with(s, c.interval));
    lemma_first_conflict_index_props(s, c.interval);
}

/// Booking a candidate that exactly abuts a meeting at `j` — its start
/// is that meeting's end, or its end is that meeting's start — raises no
/// false conflict at the touching boundary: if the candidate is disjoint
/// from every other meeting, the booking succeeds and adds exactly the
/// candidate.
pub proof fn lemma_abutting_candidate_books_ok(s: Seq<Meeting>, c: Meeting, j: int)
    requires
        schedule_wf(s),
        c.wf(),
        0 <= j < s.len(),
        c.interval.start == s[j].interval.end || c.interval.end == s[j].interval.start,
        forall|k: int| 0 <= k < s.len() && k != j
            ==> !(#[trigger] s[k]).interval.overlaps(c.interval),
    ensures
        book_spec(s, c).0 == Ok::<(), ScheduleError>(()),
        book_spec(s, c).1.to_multiset() == s.to_multiset().insert(c),
        schedule_wf(book_spec(s, c).1),
{
    broadcast use vstd::seq_lib::to_multiset_insert;

    assert(!s[j].interval.overlaps(c.interval));
    assert(!conflicts_with(s, c.interval)) by {
        if conflicts_with(s, c.interval) {
            let i = choose|i: int|
                0 <= i < s.len() && (#[trigger] s[i]).interval.overlaps(c.interval);
            assert(i == j);
        }
    }
    let p = insert_position(s, c.interval.start);
    lemma_insert_position_bounds(s, c.interval.start);
    lemma_insert_position_props(s, c.interval.start);
    lemma_insert_preserves_wf(s, c, p);
}

/// Folding `book_spec` over a sequence of candidates, left to right:
/// whether every booking succeeded, and the meetings at the end.
pub open spec fn book_seq(s: Seq<Meeting>, cands: Seq<Meeting>) -> (bool, Seq<Meeting>)
    decreases cands.len(),
{
    if cands.len() == 0 {
        (true, s)
    } else {
        let step = book_spec(s, cands[0]);
        let rest = book_seq(step.1, cands.drop_first());
        (step.0 is Ok && rest.0, rest.1)
    }
}

/// Booking well-formed, pairwise-disjoint candidates — each also
/// disjoint from everything already booked — succeeds in any order, and
/// the schedule afterward holds exactly the old meetings plus the
/// candidates. In particular, from an empty schedule the candidates
/// themselves are exactly what remains booked.
pub proof fn lemma_disjoint_candidates_book_ok(s: Seq<Meeting>, cands: Seq<Meeting>)
    requires
        schedule_wf(s),
        forall|i: int| 0 <= i < cands.len() ==> (#[trigger] cands[i]).wf(),
        forall|i: int, j: int|
            #![trigger cands[i], cands[j]]
            0 <= i < cands.len() && 0 <= j < cands.len() && i != j
                ==> !cands[i].interval.overlaps(cands[j].interval),
        forall|i: int, k: int|
            #![trigger cands[i], s[k]]
            0 <= i < cands.len() && 0 <= k < s.len()
                ==> !cands[i].interval.overlaps(s[k].interval),
    ensures
        book_seq(s, cands).0 == true,
        schedule_wf(book_seq(s, cands).1),
        book_seq(s, cands).1.to_multiset() == s.to_multiset().add(cands.to_multiset()),
    decreases cands.len(),
{
    broadcast use vstd::seq_lib::to_multiset_insert;
    broadcast use vstd::seq_lib::group_to_multiset_ensures;

    if cands.len() == 0 {
        assert(s.to_multiset().add(cands.to_multiset()) =~= s.to_multiset());
    } else {
        let c = cands[0];
        assert(c.wf());
        assert(!conflicts_with(s, c.interval)) by {
            if conflicts_with(s, c.interval) {
                let k = choose|k: int|
                    0 <= k < s.len() && (#[trigger] s[k]).interval.overlaps(c.interval);
                assert(!c.interval.overlaps(s[k].interval));
            }
        }
        let p = insert_position(s, c.interval.start);
        lemma_insert_position_bounds(s, c.interval.start);
        lemma_insert_position_props(s, c.interval.start);
        lemma_insert_preserves_wf(s, c, p);
        let s1 = s.insert(p, c);
        s.insert_ensures(p, c);
        assert(book_spec(s, c) == (Ok::<(), ScheduleError>(()), s1));
        let rest = cands.drop_first();
        assert forall|i: int| 0 <= i < rest.len() implies (#[trigger] rest[i]).wf() by {
            assert(rest[i] == cands[i + 1]);
        }
        assert forall|i: int, j: int|
            #![trigger rest[i], rest[j]]
            0 <= i < rest.len() && 0 <= j < rest.len() && i != j implies
            !rest[i].interval.overlaps(rest[j].interval) by {
            assert(rest[i] == cands[i + 1] && rest[j] == cands[j + 1]);
            assert(!cands[i + 1].interval.overlaps(cands[j + 1].interval));
        }
        assert forall|i: int, k: int|
            #![trigger rest[i], s1[k]]
            0 <= i < rest.len() && 0 <= k < s1.len() implies
            !rest[i].interval.overlaps(s1[k].interval) by {
            assert(rest[i] == cands[i + 1]);
            if k < p {
                assert(s1[k] == s[k]);
                assert(!cands[i + 1].interval.overlaps(s[k].interval));
            } else if k == p {
                assert(s1[k] == c);
                assert(!cands[i + 1].interval.overlaps(cands[0].interval));
            } else {
                assert(s1[k] == s[k - 1]);
                assert(!cands[i + 1].interval.overlaps(s[k - 1].interval));
            }
        }
        lemma_disjoint_candidates_book_ok(s1, rest);
        assert(cands.to_multiset() =~= rest.to_multiset().insert(c)) by {
            assert(rest =~= cands.remove(0));
            assert(cands.remove(0).to_multiset() == cands.to_multiset().remove(c));
            assert(cands.contains(c));
        }
        assert(book_seq(s, cands).1.to_multiset()
            =~= s.to_multiset().add(cands.to_multiset())) by {
            assert(book_seq(s, cands).1 == book_seq(s1, rest).1);
            assert(book_seq(s1, rest).1.to_multiset() == s1.to_multiset().add(rest.to_multiset()));
            assert(s1.to_multiset() == s.to_multiset().insert(c));
        }
    }
}

/// The free slots and the booked intervals of a well-formed schedule
/// partition the day: every minute of `[DAY_START, DAY_END)` is covered
/// by exactly one of the two, and the free slots themselves are
/// ascending, disjoint and non-empty.
pub proof fn lemma_free_slots_partition(s: Seq<Meeting>)
    requires
        schedule_wf(s),
    ensures
        intervals_wf(free_from(intervals_of(s), DAY_START)),
        forall|t: int|
            DAY_START <= t < DAY_END ==> (#[trigger] covered(t, free_from(intervals_of(s), DAY_START))
                <==> !covered(t, intervals_of(s))),
{
    lemma_schedule_intervals_wf(s);
    let ivs = intervals_of(s);
    lemma_free_from_wf(ivs, DAY_START);
    assert forall|t: int| DAY_START <= t < DAY_END implies
        (#[trigger] covered(t, free_from(ivs, DAY_START)) <==> !covered(t, ivs)) by {
        lemma_free_from_complement(ivs, DAY_START, t);
    }
}

} // verus!
