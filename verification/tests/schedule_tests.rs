use day_schedule::interval::{Interval, DAY_END, DAY_START};
use day_schedule::schedule::{DaySchedule, Meeting, ScheduleError};

fn m(title: &str, start: u32, end: u32) -> Meeting {
    Meeting { title: title.to_string(), interval: Interval { start, end } }
}

fn booked_intervals(s: &DaySchedule) -> Vec<(u32, u32, String)> {
    s.all_slots()
        .into_iter()
        .map(|(iv, t)| (iv.start, iv.end, t))
        .collect()
}

#[test]
fn free_slots_of_empty_schedule_is_whole_day() {
    let s = DaySchedule::new();
    let free = s.free_slots();
    assert_eq!(free, vec![Interval { start: 0, end: 1440 }]);
    assert_eq!(free[0].start, DAY_START);
    assert_eq!(free[0].end, DAY_END);
}

#[test]
fn standup_review_sync_scenario() {
    let mut s = DaySchedule::new();
    assert_eq!(s.book(m("Standup", 540, 570)), Ok(()));
    assert_eq!(s.book(m("Review", 570, 630)), Ok(()));
    let r = s.book(m("Sync", 600, 660));
    assert_eq!(r, Err(ScheduleError::Conflict("Review".to_string())));
    let free = s.free_slots();
    assert_eq!(
        free,
        vec![Interval { start: 0, end: 540 }, Interval { start: 630, end: 1440 }]
    );
}

#[test]
fn abutting_meetings_coexist() {
    let mut s = DaySchedule::new();
    assert_eq!(s.book(m("Middle", 600, 660)), Ok(()));
    // candidate.start == existing.end
    assert_eq!(s.book(m("After", 660, 700)), Ok(()));
    // candidate.end == existing.start
    assert_eq!(s.book(m("Before", 540, 600)), Ok(()));
    assert_eq!(s.all_slots().len(), 3);
}

#[test]
fn one_minute_overlap_rejected_and_schedule_unchanged() {
    let mut s = DaySchedule::new();
    assert_eq!(s.book(m("Standup", 540, 570)), Ok(()));
    let before = booked_intervals(&s);
    let r = s.book(m("Late", 569, 600));
    assert_eq!(r, Err(ScheduleError::Conflict("Standup".to_string())));
    assert_eq!(booked_intervals(&s), before);
    // overlapping by containing the existing meeting entirely is caught too
    let r = s.book(m("Wide", 500, 700));
    assert_eq!(r, Err(ScheduleError::Conflict("Standup".to_string())));
    assert_eq!(booked_intervals(&s), before);
}

#[test]
fn conflict_names_first_conflicting_meeting_in_ascending_order() {
    let mut s = DaySchedule::new();
    assert_eq!(s.book(m("Late", 600, 660)), Ok(()));
    assert_eq!(s.book(m("Early", 100, 200)), Ok(()));
    // overlaps both; the first in ascending start order is "Early"
    let r = s.book(m("Span", 150, 620));
    assert_eq!(r, Err(ScheduleError::Conflict("Early".to_string())));
}

#[test]
fn disjoint_bookings_succeed_in_any_order_with_same_slots() {
    let cases = [
        ["A", "B", "C"],
        ["C", "A", "B"],
    ];
    let spans = |t: &str| match t {
        "A" => (60, 120),
        "B" => (120, 180),
        _ => (600, 1440),
    };
    let mut seen: Vec<Vec<(u32, u32, String)>> = Vec::new();
    for order in cases {
        let mut s = DaySchedule::new();
        for t in order {
            let (a, b) = spans(t);
            assert_eq!(s.book(m(t, a, b)), Ok(()));
        }
        let mut all = booked_intervals(&s);
        all.sort();
        seen.push(all);
    }
    assert_eq!(seen[0], seen[1]);
    assert_eq!(
        seen[0],
        vec![
            (60, 120, "A".to_string()),
            (120, 180, "B".to_string()),
            (600, 1440, "C".to_string()),
        ]
    );
}

#[test]
fn free_and_booked_partition_the_day() {
    let mut s = DaySchedule::new();
    assert_eq!(s.book(m("One", 0, 90)), Ok(()));
    assert_eq!(s.book(m("Two", 90, 100)), Ok(()));
    assert_eq!(s.book(m("Three", 500, 777)), Ok(()));
    assert_eq!(s.book(m("Four", 1400, 1440)), Ok(()));
    let free = s.free_slots();
    let booked = s.all_slots();
    for t in 0..1440u32 {
        let in_free = free.iter().filter(|iv| iv.start <= t && t < iv.end).count();
        let in_booked = booked
            .iter()
            .filter(|(iv, _)| iv.start <= t && t < iv.end)
            .count();
        // each minute lies in exactly one piece: no gap, no overlap
        assert_eq!(in_free + in_booked, 1, "minute {}", t);
    }
}

#[test]
fn invalid_interval_rejected() {
    let mut s = DaySchedule::new();
    assert_eq!(s.book(m("Empty", 100, 100)), Err(ScheduleError::InvalidInterval));
    assert_eq!(s.book(m("Inverted", 200, 100)), Err(ScheduleError::InvalidInterval));
    // an inverted interval is reported as invalid even when it also leaves the day
    assert_eq!(s.book(m("Both", 1500, 1400)), Err(ScheduleError::InvalidInterval));
    assert!(s.all_slots().is_empty());
}

#[test]
fn out_of_bounds_rejected() {
    let mut s = DaySchedule::new();
    assert_eq!(s.book(m("PastEnd", 100, 1441)), Err(ScheduleError::OutOfBounds));
    assert!(s.all_slots().is_empty());
}

#[test]
fn full_day_booking_leaves_no_free_slot() {
    let mut s = DaySchedule::new();
    assert_eq!(s.book(m("Offsite", 0, 1440)), Ok(()));
    assert!(s.free_slots().is_empty());
    assert_eq!(s.book(m("Anything", 700, 701)), Err(ScheduleError::Conflict("Offsite".to_string())));
}

#[test]
fn meetings_at_the_day_edges() {
    let mut s = DaySchedule::new();
    assert_eq!(s.book(m("First", 0, 1)), Ok(()));
    assert_eq!(s.book(m("Last", 1439, 1440)), Ok(()));
    let free = s.free_slots();
    assert_eq!(free, vec![Interval { start: 1, end: 1439 }]);
}

#[test]
fn from_entries_accepts_a_valid_snapshot() {
    let entries = vec![
        m("Late", 600, 660),
        m("Early", 100, 200),
    ];
    let s = DaySchedule::from_entries(&entries).expect("valid entries load");
    let mut all = booked_intervals(&s);
    all.sort();
    assert_eq!(
        all,
        vec![(100, 200, "Early".to_string()), (600, 660, "Late".to_string())]
    );
}

#[test]
fn from_entries_rejects_overlapping_snapshot() {
    let entries = vec![m("A", 100, 200), m("B", 150, 250)];
    assert_eq!(
        DaySchedule::from_entries(&entries).err(),
        Some(ScheduleError::CorruptState)
    );
}

#[test]
fn from_entries_rejects_invalid_interval() {
    let entries = vec![m("A", 100, 200), m("B", 300, 300)];
    assert_eq!(
        DaySchedule::from_entries(&entries).err(),
        Some(ScheduleError::CorruptState)
    );
    let entries = vec![m("A", 100, 2000)];
    assert_eq!(
        DaySchedule::from_entries(&entries).err(),
        Some(ScheduleError::CorruptState)
    );
}

#[test]
fn from_entries_rejects_empty_title() {
    let entries = vec![m("", 100, 200)];
    assert_eq!(
        DaySchedule::from_entries(&entries).err(),
        Some(ScheduleError::CorruptState)
    );
}

#[test]
fn from_entries_rejects_duplicate_entries() {
    // two copies of one meeting overlap each other
    let entries = vec![m("A", 100, 200), m("A", 100, 200)];
    assert_eq!(
        DaySchedule::from_entries(&entries).err(),
        Some(ScheduleError::CorruptState)
    );
}

#[test]
fn all_slots_of_empty_schedule_is_empty() {
    let s = DaySchedule::new();
    assert!(s.all_slots().is_empty());
}
