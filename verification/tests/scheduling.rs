use surgery_scheduling::surgeon::{SurgeonDaily, SurgeonWeekly};
use surgery_scheduling::surgery::Surgery;
use surgery_scheduling::time_range::TimeRange;
use surgery_scheduling::week::Week;

fn surgery(id: u64, duration: u8, surgeon_id: u64) -> Surgery {
    Surgery::new(id, duration, 10, 2, 7, surgeon_id)
}

#[test]
fn single_surgery_takes_first_slots() {
    let mut week = Week::new(1, &vec![100]);
    let s = surgery(1, 5, 100);
    let tok = week.schedule_surgery(s);
    assert_eq!(tok.day_index, 0);
    assert_eq!(tok.room_index, 0);
    assert_eq!(tok.surgery_index, 0);
    let room = &week.days()[0].rooms()[0];
    assert_eq!(room.surgeries().len(), 1);
    let (span, sid) = room.scheduled_surgeons()[0];
    assert_eq!(span, TimeRange { start: 1, end: 8 });
    assert_eq!(sid, 100);
    assert_eq!(room.current_used_slots, 7);
}

#[test]
fn second_surgery_follows_first_in_same_room() {
    let mut week = Week::new(1, &vec![100]);
    week.schedule_surgery(surgery(1, 5, 100));
    let tok = week.schedule_surgery(surgery(2, 4, 100));
    assert_eq!(tok.day_index, 0);
    assert_eq!(tok.room_index, 0);
    assert_eq!(tok.surgery_index, 1);
    let room = &week.days()[0].rooms()[0];
    let (span, _) = room.scheduled_surgeons()[1];
    assert_eq!(span, TimeRange { start: 8, end: 14 });
    assert_eq!(room.current_used_slots, 13);
}

#[test]
fn surgeon_cannot_be_in_two_rooms_at_once() {
    // Two rooms are open; the second surgery has another speciality, so it
    // must go to a new room, anchored after the surgeon's first surgery
    // even though the new room is empty from slot 1 on.
    let mut week = Week::new(2, &vec![100]);
    let first = Surgery::new(1, 5, 10, 2, 7, 100);
    let other_speciality = Surgery::new(2, 4, 10, 2, 8, 100);
    week.schedule_surgery(first);
    let tok = week.schedule_surgery(other_speciality);
    assert_eq!(tok.day_index, 0);
    assert_eq!(tok.room_index, 1);
    let room = &week.days()[0].rooms()[1];
    let (span, _) = room.scheduled_surgeons()[0];
    assert_eq!(span, TimeRange { start: 8, end: 14 });
}

#[test]
fn weekly_budget_rejects_sixth_surgery() {
    let mut week = Week::new(1, &vec![100]);
    for id in 1..=5u64 {
        let s = surgery(id, 20, 100);
        assert!(week.can_schedule_surgery(&s));
        week.schedule_surgery(s);
    }
    // five days carry 20 slots each: the weekly budget of 100 is used up
    let sixth = surgery(6, 5, 100);
    assert!(!week.can_schedule_surgery(&sixth));
    assert!(week.is_full(&vec![sixth]));
}

#[test]
fn schedule_then_unschedule_restores_week() {
    let mut week = Week::new(1, &vec![100, 200]);
    let stay = surgery(1, 5, 100);
    week.schedule_surgery(stay);
    let probe = surgery(2, 4, 200);
    let tok = week.schedule_surgery(probe);
    week.unschedule_surgery(tok, &probe);
    assert_eq!(week.days().len(), 1);
    let room = &week.days()[0].rooms()[0];
    assert_eq!(room.surgeries().len(), 1);
    assert_eq!(room.surgeries()[0].id, 1);
    assert_eq!(room.current_used_slots, 7);
    assert!(!week.contains_surgery(2));
    assert!(week.contains_surgery(1));
}

#[test]
fn unschedule_closes_emptied_day() {
    let mut week = Week::new(1, &vec![100]);
    let s = surgery(1, 5, 100);
    let tok = week.schedule_surgery(s);
    week.unschedule_surgery(tok, &s);
    assert_eq!(week.days().len(), 0);
    assert!(!week.contains_surgery(1));
}

#[test]
fn scheduled_surgery_is_tracked() {
    let mut week = Week::new(1, &vec![100]);
    let s = surgery(1, 5, 100);
    assert!(!week.contains_surgery(1));
    week.schedule_surgery(s);
    assert!(week.contains_surgery(1));
}

#[test]
fn filter_keeps_exactly_the_schedulable_surgeries() {
    let mut week = Week::new(1, &vec![100]);
    for id in 1..=5u64 {
        week.schedule_surgery(surgery(id, 20, 100));
    }
    let fits_nothing = surgery(6, 5, 100);
    let week2 = Week::new(1, &vec![100]);
    let available = week2.filter_available_surgeries(&vec![fits_nothing]);
    assert_eq!(available.len(), 1);
    assert_eq!(available[0].id, 6);
    let blocked = week.filter_available_surgeries(&vec![fits_nothing]);
    assert!(blocked.is_empty());
}

#[test]
fn empty_bin_never_makes_a_week_full() {
    let week = Week::new(1, &vec![100]);
    assert!(!week.is_full(&Vec::new()));
    let mut busy = Week::new(1, &vec![100]);
    for id in 1..=5u64 {
        busy.schedule_surgery(surgery(id, 20, 100));
    }
    assert!(!busy.is_full(&Vec::new()));
}

#[test]
fn daily_budget_spreads_surgeries_over_days() {
    // 20 slots fill a day's budget of 24; each surgery opens a new day.
    let mut week = Week::new(1, &vec![100]);
    week.schedule_surgery(surgery(1, 20, 100));
    let tok = week.schedule_surgery(surgery(2, 20, 100));
    assert_eq!(week.days().len(), 2);
    assert_eq!(tok.day_index, 1);
}

#[test]
fn weekly_tracker_counts_slots() {
    let mut tracker = SurgeonWeekly::new();
    let s = surgery(1, 30, 100);
    assert!(tracker.has_availability(&s));
    tracker.allocate(&s);
    assert_eq!(tracker.current_week_time, 30);
    tracker.allocate(&s);
    tracker.allocate(&s);
    // 90 of 100 slots used: another 30 does not fit
    assert!(!tracker.has_availability(&s));
    tracker.deallocate(&s);
    assert_eq!(tracker.current_week_time, 60);
    assert!(tracker.has_availability(&s));
}

#[test]
fn daily_tracker_keeps_a_timeline() {
    let mut tracker = SurgeonDaily::new();
    let first = surgery(1, 5, 100);
    tracker.allocate_next(first);
    assert_eq!(tracker.last_scheduled_time(), TimeRange { start: 1, end: 8 });
    let second = surgery(2, 4, 100);
    tracker.allocate_next(second);
    assert_eq!(tracker.last_scheduled_time(), TimeRange { start: 8, end: 14 });
    assert_eq!(tracker.current_day_time, 9);
    assert!(!tracker.can_be_allocated(&TimeRange { start: 6, end: 10 }));
    assert!(tracker.can_be_allocated(&TimeRange { start: 15, end: 20 }));
    tracker.deallocate(&first);
    assert_eq!(tracker.current_day_time, 4);
    assert_eq!(tracker.scheduled_times.len(), 1);
    assert_eq!(tracker.scheduled_times[0].1.id, 2);
}

#[test]
fn trackers_are_created_once_per_surgeon() {
    let weekly = SurgeonWeekly::many_from_ids(&vec![1, 2, 2, 3]);
    assert!(weekly.contains_key(1));
    assert!(weekly.contains_key(2));
    assert!(weekly.contains_key(3));
    assert!(!weekly.contains_key(4));
    assert_eq!(weekly.ids.len(), 3);
    let daily = SurgeonDaily::many_from_ids(&vec![7, 7]);
    assert_eq!(daily.ids.len(), 1);
}
