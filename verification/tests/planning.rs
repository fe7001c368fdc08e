use surgery_scheduling::room::room_specs_for_day::RoomSpecsForDay;
use surgery_scheduling::room::week::Week;
use surgery_scheduling::room::Room;
use surgery_scheduling::surgery::Surgery;
use surgery_scheduling::week::room_per_day::RoomPerDay;
use surgery_scheduling::time_range::TimeRange;

fn surgery(id: u64, duration: u8, speciality: u32) -> Surgery {
    Surgery::new(id, duration, 3, 1, speciality, 50)
}

#[test]
fn room_per_day_accounts_slots() {
    let mut room = RoomPerDay::new(surgery(1, 5, 7));
    assert_eq!(room.current_used_slots, 7);
    assert!(room.can_schedule_surgery(&surgery(2, 4, 7)));
    assert!(!room.can_schedule_surgery(&surgery(2, 4, 8)));
    let idx = room.schedule_surgery(surgery(2, 4, 7));
    assert_eq!(idx, 1);
    assert_eq!(room.current_used_slots, 13);
    assert_eq!(room.surgeries().len(), room.scheduled_surgeons().len());
    room.unschedule_surgery(1, &surgery(2, 4, 7));
    assert_eq!(room.current_used_slots, 7);
    assert_eq!(room.surgeries().len(), 1);
}

#[test]
fn room_rejects_overflowing_day() {
    let room = RoomPerDay::new(surgery(1, 40, 7));
    // 42 slots used; 5 more plus cleaning would pass slot 48
    assert!(!room.can_schedule_surgery(&surgery(2, 5, 7)));
    assert!(room.can_schedule_surgery(&surgery(2, 1, 7)));
}

#[test]
fn anchored_room_keeps_its_span() {
    let span = TimeRange { start: 10, end: 16 };
    let room = RoomPerDay::new_by_given_schedule(surgery(1, 4, 7), span);
    assert_eq!(room.scheduled_surgeons()[0].0, span);
    assert_eq!(room.current_used_slots, 6);
    let when = room.when_will_schedule(&surgery(2, 3, 7));
    assert_eq!(when, TimeRange { start: 16, end: 21 });
}

#[test]
fn planned_day_tracks_remaining_slots() {
    let mut plan = RoomSpecsForDay::new(3, surgery(1, 6, 7));
    assert_eq!(plan.remaining_slots, 40);
    assert!(plan.have_speciality_today(&surgery(2, 4, 7)));
    assert!(!plan.have_speciality_today(&surgery(2, 4, 8)));
    assert!(plan.have_available_slot(&surgery(2, 38, 7)));
    assert!(!plan.have_available_slot(&surgery(2, 39, 7)));
    plan.add_surgery(surgery(2, 4, 7));
    assert_eq!(plan.remaining_slots, 34);
}

#[test]
fn planned_day_filters_its_own_surgeries() {
    let mut plan = RoomSpecsForDay::new(0, surgery(1, 6, 7));
    plan.add_surgery(surgery(2, 4, 7));
    let pool = vec![surgery(1, 6, 7), surgery(3, 2, 7), surgery(2, 4, 7)];
    let fresh = plan.filter_already_scheduled_surgeries(&pool);
    assert_eq!(fresh.len(), 1);
    assert_eq!(fresh[0].id, 3);
    let available = plan.available_surgeries(&pool);
    assert_eq!(available.len(), 1);
    assert_eq!(available[0].id, 3);
}

#[test]
fn planning_week_fills_up_at_five_days() {
    let mut week = Week::new();
    for day in 0..5usize {
        assert!(!week.is_full());
        week.add_day(RoomSpecsForDay::new(day, surgery(day as u64 + 1, 6, 7)));
    }
    assert!(week.is_full());
    let free = week.have_available_slots_for_day(&surgery(9, 2, 7));
    assert_eq!(free, Some(0));
    let too_long = week.have_available_slots_for_day(&surgery(9, 46, 7));
    assert_eq!(too_long, None);
}

#[test]
fn planning_room_opens_weeks_as_needed() {
    let mut room = Room::new();
    room.add_day(RoomSpecsForDay::new(0, surgery(1, 6, 7)));
    assert_eq!(room.weeks.len(), 1);
    room.open_new_week();
    assert_eq!(room.weeks.len(), 2);
    room.add_day(RoomSpecsForDay::new(0, surgery(2, 6, 7)));
    assert_eq!(room.weeks[1].days.len(), 1);
}
