use vstd::prelude::*;

use crate::surgeon::{times_contains_id, times_id_index, SurgeonDaily, SurgeonID, MAX_DAY_TIME};
use crate::surgeon_map::SurgeonMap;
use crate::surgery::Surgery;
use crate::time_range::TimeRange;
use crate::week::room_per_day::{RoomPerDay, LAST_SLOT};

verus! {

/// The surgery slots (cleaning not counted) that surgeon `sid` occupies in
/// one sequence of surgeries.
pub open spec fn surgeon_seq_load(surgeries: Seq<Surgery>, sid: SurgeonID) -> int
    decreases surgeries.len(),
{
    if surgeries.len() == 0 {
        0
    } else {
        surgeon_seq_load(surgeries.drop_last(), sid) + if surgeries.last().surgeon_id == sid {
            surgeries.last().duration as int
        } else {
            0
        }
    }
}

/// The surgery slots that surgeon `sid` occupies over all rooms of a day.
pub open spec fn surgeon_day_load(rooms: Seq<RoomPerDay>, sid: SurgeonID) -> int
    decreases rooms.len(),
{
    if rooms.len() == 0 {
        0
    } else {
        surgeon_day_load(rooms.drop_last(), sid) + surgeon_seq_load(
            rooms.last().surgeries@,
            sid,
        )
    }
}

/// Where surgeon `sid` is free again in one room: the greatest end of the
/// surgeon's spans there, or slot 1 if the room has none.
pub open spec fn room_surgeon_free_slot(
    sched: Seq<(TimeRange, SurgeonID)>,
    sid: SurgeonID,
) -> int
    decreases sched.len(),
{
    if sched.len() == 0 {
        1
    } else {
        let rest = room_surgeon_free_slot(sched.drop_last(), sid);
        if sched.last().1 == sid && sched.last().0.end > rest {
            sched.last().0.end as int
        } else {
            rest
        }
    }
}

/// Where surgeon `sid` is free again on the whole day: the greatest end of
/// the surgeon's spans over all rooms, or slot 1 if there are none.
pub open spec fn day_surgeon_free_slot(rooms: Seq<RoomPerDay>, sid: SurgeonID) -> int
    decreases rooms.len(),
{
    if rooms.len() == 0 {
        1
    } else {
        let rest = day_surgeon_free_slot(rooms.drop_last(), sid);
        let here = room_surgeon_free_slot(rooms.last().scheduled_surgeons@, sid);
        if here > rest {
            here
        } else {
            rest
        }
    }
}

/// All surgeries of a day, room by room, in slot order within each room.
pub open spec fn day_all_surgeries(rooms: Seq<RoomPerDay>) -> Seq<Surgery>
    decreases rooms.len(),
{
    if rooms.len() == 0 {
        Seq::empty()
    } else {
        day_all_surgeries(rooms.drop_last()) + rooms.last().surgeries@
    }
}

/// Some room of the day holds a surgery with this identifier.
pub open spec fn rooms_contain_id(rooms: Seq<RoomPerDay>, id: u64) -> bool {
    exists|r: int, i: int|
        0 <= r < rooms.len() && 0 <= i < rooms[r].surgeries@.len() && rooms[r].surgeries@[i].id
            == id
}

/// The surgery is placed, exactly as given, in some room.
pub open spec fn placed_in_rooms(rooms: Seq<RoomPerDay>, s: Surgery) -> bool {
    exists|r: int, i: int|
        0 <= r < rooms.len() && 0 <= i < rooms[r].surgeries@.len() && #[trigger] rooms[r].surgeries@[i]
            == s
}

/// Every entry of a surgeon's timeline is one of the surgeon's surgeries,
/// placed in some room of the day.
pub open spec fn timeline_mirrors(
    rooms: Seq<RoomPerDay>,
    times: Seq<(TimeRange, Surgery)>,
    sid: SurgeonID,
) -> bool {
    forall|j: int|
        0 <= j < times.len() ==> (#[trigger] times[j]).1.surgeon_id == sid && placed_in_rooms(
            rooms,
            times[j].1,
        )
}

/// Every placed surgery of a surgeon appears on the surgeon's timeline.
pub open spec fn timeline_covers(
    rooms: Seq<RoomPerDay>,
    times: Seq<(TimeRange, Surgery)>,
    sid: SurgeonID,
) -> bool {
    forall|r: int, i: int|
        0 <= r < rooms.len() && 0 <= i < rooms[r].surgeries@.len() && (
        #[trigger] rooms[r].surgeries@[i]).surgeon_id == sid ==> times_contains_id(
            times,
            rooms[r].surgeries@[i].id,
        )
}

pub proof fn lemma_surgeon_seq_load_nonneg(surgeries: Seq<Surgery>, sid: SurgeonID)
    ensures
        surgeon_seq_load(surgeries, sid) >= 0,
    decreases surgeries.len(),
{
    if surgeries.len() > 0 {
        lemma_surgeon_seq_load_nonneg(surgeries.drop_last(), sid);
    }
}

pub proof fn lemma_surgeon_day_load_nonneg(rooms: Seq<RoomPerDay>, sid: SurgeonID)
    ensures
        surgeon_day_load(rooms, sid) >= 0,
    decreases rooms.len(),
{
    if rooms.len() > 0 {
        lemma_surgeon_day_load_nonneg(rooms.drop_last(), sid);
        lemma_surgeon_seq_load_nonneg(rooms.last().surgeries@, sid);
    }
}

pub proof fn lemma_surgeon_seq_load_push(surgeries: Seq<Surgery>, sid: SurgeonID, s: Surgery)
    ensures
        surgeon_seq_load(surgeries.push(s), sid) == surgeon_seq_load(surgeries, sid) + if s.surgeon_id
            == sid {
            s.duration as int
        } else {
            0
        },
{
    assert(surgeries.push(s).drop_last() =~= surgeries);
    assert(surgeries.push(s).last() == s);
}

pub proof fn lemma_surgeon_seq_load_remove(surgeries: Seq<Surgery>, sid: SurgeonID, i: int)
    requires
        0 <= i < surgeries.len(),
    ensures
        surgeon_seq_load(surgeries.remove(i), sid) == surgeon_seq_load(surgeries, sid) - if surgeries[i].surgeon_id
            == sid {
            surgeries[i].duration as int
        } else {
            0
        },
    decreases surgeries.len(),
{
    if i == surgeries.len() - 1 {
        assert(surgeries.remove(i) =~= surgeries.drop_last());
    } else {
        let rest = surgeries.drop_last();
        lemma_surgeon_seq_load_remove(rest, sid, i);
        assert(surgeries.remove(i) =~= rest.remove(i).push(surgeries.last()));
        assert(surgeries.remove(i).drop_last() =~= rest.remove(i));
        assert(surgeries.remove(i).last() == surgeries.last());
    }
}

/// A surgeon's load in a sequence is at least any one of their surgeries.
pub proof fn lemma_surgeon_seq_load_member(surgeries: Seq<Surgery>, sid: SurgeonID, i: int)
    requires
        0 <= i < surgeries.len(),
        surgeries[i].surgeon_id == sid,
    ensures
        surgeon_seq_load(surgeries, sid) >= surgeries[i].duration,
    decreases surgeries.len(),
{
    if i == surgeries.len() - 1 {
        lemma_surgeon_seq_load_nonneg(surgeries.drop_last(), sid);
    } else {
        lemma_surgeon_seq_load_member(surgeries.drop_last(), sid, i);
    }
}

/// Replacing one room changes a surgeon's day load by the difference of the
/// loads in the old and the new room.
pub proof fn lemma_surgeon_day_load_update(
    rooms: Seq<RoomPerDay>,
    sid: SurgeonID,
    r: int,
    room: RoomPerDay,
)
    requires
        0 <= r < rooms.len(),
    ensures
        surgeon_day_load(rooms.update(r, room), sid) == surgeon_day_load(rooms, sid)
            - surgeon_seq_load(rooms[r].surgeries@, sid) + surgeon_seq_load(room.surgeries@, sid),
    decreases rooms.len(),
{
    if r == rooms.len() - 1 {
        assert(rooms.update(r, room).drop_last() =~= rooms.drop_last());
        assert(rooms.update(r, room).last() == room);
    } else {
        lemma_surgeon_day_load_update(rooms.drop_last(), sid, r, room);
        assert(rooms.update(r, room).drop_last() =~= rooms.drop_last().update(r, room));
        assert(rooms.update(r, room).last() == rooms.last());
    }
}

pub proof fn lemma_surgeon_day_load_push(rooms: Seq<RoomPerDay>, sid: SurgeonID, room: RoomPerDay)
    ensures
        surgeon_day_load(rooms.push(room), sid) == surgeon_day_load(rooms, sid)
            + surgeon_seq_load(room.surgeries@, sid),
{
    assert(rooms.push(room).drop_last() =~= rooms);
    assert(rooms.push(room).last() == room);
}

pub proof fn lemma_surgeon_day_load_remove(rooms: Seq<RoomPerDay>, sid: SurgeonID, r: int)
    requires
        0 <= r < rooms.len(),
    ensures
        surgeon_day_load(rooms.remove(r), sid) == surgeon_day_load(rooms, sid)
            - surgeon_seq_load(rooms[r].surgeries@, sid),
    decreases rooms.len(),
{
    if r == rooms.len() - 1 {
        assert(rooms.remove(r) =~= rooms.drop_last());
    } else {
        lemma_surgeon_day_load_remove(rooms.drop_last(), sid, r);
        assert(rooms.remove(r) =~= rooms.drop_last().remove(r).push(rooms.last()));
        assert(rooms.remove(r).drop_last() =~= rooms.drop_last().remove(r));
        assert(rooms.remove(r).last() == rooms.last());
    }
}

/// A surgeon's day load is at least any one of their surgeries.
pub proof fn lemma_surgeon_day_load_member(
    rooms: Seq<RoomPerDay>,
    sid: SurgeonID,
    r: int,
    i: int,
)
    requires
        0 <= r < rooms.len(),
        0 <= i < rooms[r].surgeries@.len(),
        rooms[r].surgeries@[i].surgeon_id == sid,
    ensures
        surgeon_day_load(rooms, sid) >= rooms[r].surgeries@[i].duration,
    decreases rooms.len(),
{
    if r == rooms.len() - 1 {
        lemma_surgeon_day_load_nonneg(rooms.drop_last(), sid);
        lemma_surgeon_seq_load_member(rooms[r].surgeries@, sid, i);
    } else {
        lemma_surgeon_day_load_member(rooms.drop_last(), sid, r, i);
        lemma_surgeon_seq_load_nonneg(rooms.last().surgeries@, sid);
    }
}

/// A surgeon with no surgery in any room carries no load.
pub proof fn lemma_surgeon_seq_load_absent(surgeries: Seq<Surgery>, sid: SurgeonID)
    requires
        forall|i: int| 0 <= i < surgeries.len() ==> (#[trigger] surgeries[i]).surgeon_id != sid,
    ensures
        surgeon_seq_load(surgeries, sid) == 0,
    decreases surgeries.len(),
{
    if surgeries.len() > 0 {
        assert(forall|i: int|
            0 <= i < surgeries.drop_last().len() ==> (#[trigger] surgeries.drop_last()[i])
                == surgeries[i]);
        lemma_surgeon_seq_load_absent(surgeries.drop_last(), sid);
    }
}

/// The day-level free slot is past the end of every span of the surgeon, and
/// it is slot 1 or the end of one of those spans.
pub proof fn lemma_day_free_slot_ge(rooms: Seq<RoomPerDay>, sid: SurgeonID, r: int, i: int)
    requires
        0 <= r < rooms.len(),
        0 <= i < rooms[r].scheduled_surgeons@.len(),
        rooms[r].scheduled_surgeons@[i].1 == sid,
    ensures
        day_surgeon_free_slot(rooms, sid) >= rooms[r].scheduled_surgeons@[i].0.end,
    decreases rooms.len(),
{
    lemma_room_free_slot_ge(rooms[r].scheduled_surgeons@, sid, i);
    if r == rooms.len() - 1 {
        lemma_day_free_slot_lb(rooms, sid);
    } else {
        lemma_day_free_slot_ge(rooms.drop_last(), sid, r, i);
    }
}

pub proof fn lemma_room_free_slot_ge(sched: Seq<(TimeRange, SurgeonID)>, sid: SurgeonID, i: int)
    requires
        0 <= i < sched.len(),
        sched[i].1 == sid,
    ensures
        room_surgeon_free_slot(sched, sid) >= sched[i].0.end,
    decreases sched.len(),
{
    if i == sched.len() - 1 {
        lemma_room_free_slot_lb(sched, sid);
    } else {
        lemma_room_free_slot_ge(sched.drop_last(), sid, i);
    }
}

pub proof fn lemma_room_free_slot_lb(sched: Seq<(TimeRange, SurgeonID)>, sid: SurgeonID)
    ensures
        room_surgeon_free_slot(sched, sid) >= 1,
    decreases sched.len(),
{
    if sched.len() > 0 {
        lemma_room_free_slot_lb(sched.drop_last(), sid);
    }
}

pub proof fn lemma_day_free_slot_lb(rooms: Seq<RoomPerDay>, sid: SurgeonID)
    ensures
        day_surgeon_free_slot(rooms, sid) >= 1,
    decreases rooms.len(),
{
    if rooms.len() > 0 {
        lemma_day_free_slot_lb(rooms.drop_last(), sid);
        lemma_room_free_slot_lb(rooms.last().scheduled_surgeons@, sid);
    }
}

/// If every span of the surgeon ends by slot 48, so does the free slot.
pub proof fn lemma_room_free_slot_ub(sched: Seq<(TimeRange, SurgeonID)>, sid: SurgeonID)
    requires
        forall|i: int| 0 <= i < sched.len() ==> (#[trigger] sched[i]).0.end <= LAST_SLOT,
    ensures
        room_surgeon_free_slot(sched, sid) <= LAST_SLOT,
    decreases sched.len(),
{
    if sched.len() > 0 {
        assert(forall|i: int|
            0 <= i < sched.drop_last().len() ==> (#[trigger] sched.drop_last()[i]) == sched[i]);
        lemma_room_free_slot_ub(sched.drop_last(), sid);
    }
}

/// How scheduling `s` with span `span` changes the surgeon trackers of a
/// day: the surgeon's timeline grows by `(span, s)`, the budget by the
/// duration, and every other tracker stays as it was.
pub open spec fn tracker_allocate_post(pre: Day, post: Day, s: Surgery, span: TimeRange) -> bool {
    let sid = s.surgeon_id;
    let tr0 = pre.daily_surgeons.spec_get(sid);
    let tr1 = post.daily_surgeons.spec_get(sid);
    &&& post.daily_surgeons.ids@ == pre.daily_surgeons.ids@
    &&& post.daily_surgeons.vals@ == pre.daily_surgeons.vals@.update(
        pre.daily_surgeons.key_index(sid),
        tr1,
    )
    &&& tr1.scheduled_times@ == tr0.scheduled_times@.push((span, s))
    &&& tr1.current_day_time == tr0.current_day_time + s.duration
    &&& tr1.max_day_time == tr0.max_day_time
    &&& forall|k: SurgeonID|
        pre.daily_surgeons.contains_spec(k) && k != sid ==> #[trigger] post.daily_surgeons.spec_get(
            k,
        ) == pre.daily_surgeons.spec_get(k)
}

/// How scheduling `s` into the existing room `ri` changes a day: the surgery
/// and its span are appended at the room's tail, the trackers follow, and
/// everything else stays as it was.
pub open spec fn schedule_into_room_post(pre: Day, post: Day, s: Surgery, ri: int) -> bool {
    let room = pre.rooms@[ri];
    let span = room.spec_when_will_schedule(s);
    &&& post.rooms_count == pre.rooms_count
    &&& post.rooms@.len() == pre.rooms@.len()
    &&& forall|r: int|
        0 <= r < pre.rooms@.len() && r != ri ==> #[trigger] post.rooms@[r] == pre.rooms@[r]
    &&& post.rooms@[ri].surgeries@ == room.surgeries@.push(s)
    &&& post.rooms@[ri].scheduled_surgeons@ == room.scheduled_surgeons@.push(
        (span, s.surgeon_id),
    )
    &&& post.rooms@[ri].speciality == room.speciality
    &&& post.rooms@[ri].current_used_slots == room.current_used_slots + 2 + s.duration
    &&& tracker_allocate_post(pre, post, s, span)
}

/// The span a newly opened room would give `s`: anchored at the surgeon's
/// free slot of the day.
pub open spec fn day_new_room_span(pre: Day, s: Surgery) -> TimeRange {
    let a = day_surgeon_free_slot(pre.rooms@, s.surgeon_id);
    TimeRange { start: a as u8, end: (a + 2 + s.duration) as u8 }
}

/// How scheduling `s` into a newly opened room changes a day.
pub open spec fn schedule_new_room_post(pre: Day, post: Day, s: Surgery) -> bool {
    let span = day_new_room_span(pre, s);
    &&& post.rooms_count == pre.rooms_count
    &&& post.rooms@.len() == pre.rooms@.len() + 1
    &&& forall|r: int|
        0 <= r < pre.rooms@.len() ==> #[trigger] post.rooms@[r] == pre.rooms@[r]
    &&& post.rooms@.last().surgeries@ == seq![s]
    &&& post.rooms@.last().scheduled_surgeons@ == seq![(span, s.surgeon_id)]
    &&& post.rooms@.last().speciality == s.speciality
    &&& post.rooms@.last().current_used_slots == 2 + s.duration
    &&& tracker_allocate_post(pre, post, s, span)
}

/// How unscheduling `s` changes the surgeon trackers of a day: the
/// surgeon's timeline loses the entry of `s`, the budget shrinks by the
/// duration, and every other tracker stays as it was.
pub open spec fn tracker_deallocate_post(pre: Day, post: Day, s: Surgery) -> bool {
    let sid = s.surgeon_id;
    let tr0 = pre.daily_surgeons.spec_get(sid);
    let tr1 = post.daily_surgeons.spec_get(sid);
    &&& post.daily_surgeons.ids@ == pre.daily_surgeons.ids@
    &&& post.daily_surgeons.vals@ == pre.daily_surgeons.vals@.update(
        pre.daily_surgeons.key_index(sid),
        tr1,
    )
    &&& tr1.scheduled_times@ == tr0.scheduled_times@.remove(
        times_id_index(tr0.scheduled_times@, s.id),
    )
    &&& tr1.current_day_time == tr0.current_day_time - s.duration
    &&& tr1.max_day_time == tr0.max_day_time
    &&& forall|k: SurgeonID|
        pre.daily_surgeons.contains_spec(k) && k != sid ==> #[trigger] post.daily_surgeons.spec_get(
            k,
        ) == pre.daily_surgeons.spec_get(k)
}

/// How unscheduling the surgery at room `ri`, index `si` changes a day: the
/// surgery and its span leave the room (the room leaves the day if it ends
/// up empty), and the trackers follow.
pub open spec fn rooms_after_unschedule(
    rooms0: Seq<RoomPerDay>,
    rooms1: Seq<RoomPerDay>,
    s: Surgery,
    ri: int,
    si: int,
) -> bool {
    let room0 = rooms0[ri];
    &&& (room0.surgeries@.len() == 1 ==> rooms1 == rooms0.remove(ri))
    &&& (room0.surgeries@.len() > 1 ==> {
        &&& rooms1.len() == rooms0.len()
        &&& forall|r: int|
            0 <= r < rooms0.len() && r != ri ==> #[trigger] rooms1[r] == rooms0[r]
        &&& rooms1[ri].surgeries@ == room0.surgeries@.remove(si)
        &&& rooms1[ri].scheduled_surgeons@ == room0.scheduled_surgeons@.remove(si)
        &&& rooms1[ri].speciality == room0.speciality
        &&& rooms1[ri].current_used_slots == room0.current_used_slots - 2 - s.duration
    })
}

pub open spec fn unschedule_post(pre: Day, post: Day, s: Surgery, ri: int, si: int) -> bool {
    &&& post.rooms_count == pre.rooms_count
    &&& rooms_after_unschedule(pre.rooms@, post.rooms@, s, ri, si)
    &&& tracker_deallocate_post(pre, post, s)
}

/// How `Day::schedule_surgery` relates its input, its output, and the
/// returned (room, position) pair.
pub open spec fn day_schedule_result(pre: Day, post: Day, s: Surgery, idx: (usize, usize)) -> bool {
    match pre.spec_first_fit(s) {
        Some(ri) => {
            &&& idx.0 == ri
            &&& idx.1 == pre.rooms@[ri].surgeries@.len()
            &&& schedule_into_room_post(pre, post, s, ri)
        },
        None => {
            &&& idx.0 == pre.rooms@.len()
            &&& idx.1 == 0
            &&& schedule_new_room_post(pre, post, s)
        },
    }
}

/// One day of the schedule: up to `rooms_count` open rooms and the daily
/// budget and timeline of every surgeon.
#[verifier::ext_equal]
#[derive(Debug)]
pub struct Day {
    pub rooms: Vec<RoomPerDay>,
    pub rooms_count: usize,
    pub daily_surgeons: SurgeonMap<SurgeonDaily>,
}

impl Day {
    /// Every room is sound and open rooms are never left empty.
    pub open spec fn rooms_wf(self) -> bool {
        forall|r: int|
            0 <= r < self.rooms@.len() ==> (#[trigger] self.rooms@[r]).wf()
                && self.rooms@[r].surgeries@.len() > 0
    }

    /// No surgery identifier appears twice anywhere in the day.
    #[verifier::opaque]
    pub open spec fn ids_distinct(self) -> bool {
        forall|r1: int, i1: int, r2: int, i2: int|
            0 <= r1 < self.rooms@.len() && 0 <= i1 < self.rooms@[r1].surgeries@.len() && 0 <= r2
                < self.rooms@.len() && 0 <= i2 < self.rooms@[r2].surgeries@.len() && (r1, i1) != (
            r2,
            i2,
        ) ==> (#[trigger] self.rooms@[r1].surgeries@[i1]).id != (
            #[trigger] self.rooms@[r2].surgeries@[i2]).id
    }

    /// Every surgeon operating today has a daily tracker.
    pub open spec fn surgeons_known(self) -> bool {
        forall|r: int, i: int|
            0 <= r < self.rooms@.len() && 0 <= i < self.rooms@[r].surgeries@.len()
                ==> self.daily_surgeons.contains_spec(
                (#[trigger] self.rooms@[r].surgeries@[i]).surgeon_id,
            )
    }

    /// One surgeon never sits in two rooms at overlapping times.
    #[verifier::opaque]
    pub open spec fn cross_room_disjoint(self) -> bool {
        forall|r1: int, i1: int, r2: int, i2: int|
            0 <= r1 < self.rooms@.len() && 0 <= i1 < self.rooms@[r1].scheduled_surgeons@.len()
                && 0 <= r2 < self.rooms@.len() && 0 <= i2
                < self.rooms@[r2].scheduled_surgeons@.len() && r1 != r2 && (
            #[trigger] self.rooms@[r1].scheduled_surgeons@[i1]).1 == (
            #[trigger] self.rooms@[r2].scheduled_surgeons@[i2]).1
                ==> self.rooms@[r1].scheduled_surgeons@[i1].0.disjoint_from(
                self.rooms@[r2].scheduled_surgeons@[i2].0,
            )
    }

    /// The trackers mirror the rooms: sound trackers, exact load accounting,
    /// and timelines that list exactly the surgeon's surgeries of the day.
    #[verifier::opaque]
    pub open spec fn trackers_ok(self) -> bool {
        &&& self.daily_surgeons.wf()
        &&& forall|sid: SurgeonID|
            self.daily_surgeons.contains_spec(sid) ==> {
                let tr = #[trigger] self.daily_surgeons.spec_get(sid);
                &&& tr.wf()
                &&& tr.current_day_time == surgeon_day_load(self.rooms@, sid)
                &&& timeline_mirrors(self.rooms@, tr.scheduled_times@, sid)
                &&& timeline_covers(self.rooms@, tr.scheduled_times@, sid)
            }
    }

    pub open spec fn wf(self) -> bool {
        &&& self.rooms@.len() <= self.rooms_count
        &&& self.rooms_wf()
        &&& self.ids_distinct()
        &&& self.surgeons_known()
        &&& self.cross_room_disjoint()
        &&& self.trackers_ok()
    }

    /// An existing room fits the surgery and its tentative span leaves the
    /// surgeon clear of every other room.
    pub open spec fn spec_room_fits(self, s: Surgery, r: int) -> bool {
        &&& self.rooms@[r].spec_can_schedule(s)
        &&& forall|r2: int|
            0 <= r2 < self.rooms@.len() && r2 != r ==> (
            #[trigger] self.rooms@[r2]).spec_clear_for_surgeon(
                self.rooms@[r].spec_when_will_schedule(s),
                s.surgeon_id,
            )
    }

    pub open spec fn spec_can_place_existing(self, s: Surgery) -> bool {
        exists|r: int| 0 <= r < self.rooms@.len() && self.spec_room_fits(s, r)
    }

    /// A new room can open for the surgery: there is room capacity and the
    /// span anchored at the surgeon's free slot still fits the day.
    pub open spec fn spec_can_open_new_room(self, s: Surgery) -> bool {
        &&& self.rooms@.len() < self.rooms_count
        &&& day_surgeon_free_slot(self.rooms@, s.surgeon_id) + 2 + s.duration <= LAST_SLOT
    }

    /// The surgeon has daily budget left and some room, existing or new,
    /// takes the surgery.
    pub open spec fn spec_can_schedule(self, s: Surgery) -> bool {
        &&& self.daily_surgeons.spec_get(s.surgeon_id).spec_has_availability(s)
        &&& (self.spec_can_place_existing(s) || self.spec_can_open_new_room(s))
    }

    /// The first room (lowest index) that fits the surgery, if any.
    pub open spec fn spec_first_fit_from(self, s: Surgery, r: int) -> Option<int>
        decreases self.rooms@.len() - r,
    {
        if r < 0 || r >= self.rooms@.len() {
            None
        } else if self.spec_room_fits(s, r) {
            Some(r)
        } else {
            self.spec_first_fit_from(s, r + 1)
        }
    }

    pub open spec fn spec_first_fit(self, s: Surgery) -> Option<int> {
        self.spec_first_fit_from(s, 0)
    }

    pub fn new(rooms_count: usize, surgeon_ids: &Vec<SurgeonID>) -> (day: Day)
        ensures
            day.wf(),
            day.rooms@.len() == 0,
            day.rooms_count == rooms_count,
            forall|k: u64| day.daily_surgeons.contains_spec(k) <==> surgeon_ids@.contains(k),
            forall|k: u64|
                day.daily_surgeons.contains_spec(k) ==> (
                #[trigger] day.daily_surgeons.spec_get(k)).is_initial(),
    {
        let day = Day {
            rooms: Vec::new(),
            rooms_count,
            daily_surgeons: SurgeonDaily::many_from_ids(surgeon_ids),
        };
        proof {
            reveal(Day::ids_distinct);
            reveal(Day::cross_room_disjoint);
            reveal(Day::trackers_ok);
            assert forall|sid: SurgeonID| day.daily_surgeons.contains_spec(sid) implies {
                let tr = #[trigger] day.daily_surgeons.spec_get(sid);
                &&& tr.wf()
                &&& tr.current_day_time == surgeon_day_load(day.rooms@, sid)
                &&& timeline_mirrors(day.rooms@, tr.scheduled_times@, sid)
                &&& timeline_covers(day.rooms@, tr.scheduled_times@, sid)
            } by {
                let tr = day.daily_surgeons.spec_get(sid);
                assert(tr.is_initial());
                assert(crate::surgeon::times_duration_sum(tr.scheduled_times@) == 0);
            }
        }
        day
    }

    pub fn rooms(&self) -> (r: &Vec<RoomPerDay>)
        ensures
            r@ == self.rooms@,
    {
        &self.rooms
    }

    /// All surgeries of the day, room by room.
    pub fn surgeries(&self) -> (result: Vec<Surgery>)
        ensures
            result@ == day_all_surgeries(self.rooms@),
    {
        let mut result: Vec<Surgery> = Vec::new();
        let mut r: usize = 0;
        while r < self.rooms.len()
            invariant
                0 <= r <= self.rooms@.len(),
                result@ == day_all_surgeries(self.rooms@.subrange(0, r as int)),
            decreases self.rooms@.len() - r,
        {
            let room_surgeries = self.rooms[r].surgeries();
            let mut i: usize = 0;
            while i < room_surgeries.len()
                invariant
                    0 <= i <= room_surgeries@.len(),
                    room_surgeries@ == self.rooms@[r as int].surgeries@,
                    0 <= r < self.rooms@.len(),
                    result@ == day_all_surgeries(self.rooms@.subrange(0, r as int))
                        + self.rooms@[r as int].surgeries@.subrange(0, i as int),
                decreases room_surgeries@.len() - i,
            {
                result.push(room_surgeries[i]);
                proof {
                    let rs = self.rooms@[r as int].surgeries@;
                    assert(rs.subrange(0, (i + 1) as int) =~= rs.subrange(0, i as int).push(
                        rs[i as int],
                    ));
                    assert(day_all_surgeries(self.rooms@.subrange(0, r as int)) + rs.subrange(
                        0,
                        (i + 1) as int,
                    ) =~= (day_all_surgeries(self.rooms@.subrange(0, r as int)) + rs.subrange(
                        0,
                        i as int,
                    )).push(rs[i as int]));
                }
                i += 1;
            }
            proof {
                let pre = self.rooms@.subrange(0, r as int);
                let ext = self.rooms@.subrange(0, (r + 1) as int);
                assert(ext.drop_last() =~= pre);
                assert(ext.last() == self.rooms@[r as int]);
                assert(day_all_surgeries(ext) == day_all_surgeries(pre)
                    + self.rooms@[r as int].surgeries@);
                assert(self.rooms@[r as int].surgeries@.subrange(
                    0,
                    self.rooms@[r as int].surgeries@.len() as int,
                ) =~= self.rooms@[r as int].surgeries@);
            }
            r += 1;
        }
        proof {
            assert(self.rooms@.subrange(0, self.rooms@.len() as int) =~= self.rooms@);
        }
        result
    }

    pub fn is_empty(&self) -> (r: bool)
        ensures
            r == (forall|j: int|
                0 <= j < self.rooms@.len() ==> (#[trigger] self.rooms@[j]).surgeries@.len() == 0),
    {
        let mut j: usize = 0;
        while j < self.rooms.len()
            invariant
                0 <= j <= self.rooms@.len(),
                forall|k: int| 0 <= k < j ==> (#[trigger] self.rooms@[k]).surgeries@.len() == 0,
            decreases self.rooms@.len() - j,
        {
            if !self.rooms[j].is_empty() {
                return false;
            }
            j += 1;
        }
        true
    }

    /// The slot at which surgeon `sid` is free again today.
    #[verifier::loop_isolation(false)]
    #[verifier::rlimit(60)]
    fn surgeon_free_slot(&self, sid: SurgeonID) -> (slot: u8)
        requires
            self.wf(),
        ensures
            slot == day_surgeon_free_slot(self.rooms@, sid),
            1 <= slot <= LAST_SLOT,
    {
        proof {
            lemma_day_free_slot_lb(self.rooms@, sid);
        }
        let mut slot: u8 = 1;
        let mut r: usize = 0;
        while r < self.rooms.len()
            invariant
                0 <= r <= self.rooms@.len(),
                slot == day_surgeon_free_slot(self.rooms@.subrange(0, r as int), sid),
                1 <= slot <= LAST_SLOT,
            decreases self.rooms@.len() - r,
        {
            let sched = self.rooms[r].scheduled_surgeons();
            let mut here: u8 = 1;
            let mut i: usize = 0;
            while i < sched.len()
                invariant
                    0 <= i <= sched@.len(),
                    sched@ == self.rooms@[r as int].scheduled_surgeons@,
                    0 <= r < self.rooms@.len(),
                    here == room_surgeon_free_slot(sched@.subrange(0, i as int), sid),
                    1 <= here <= LAST_SLOT,
                decreases sched@.len() - i,
            {
                let (t, entry_sid) = sched[i];
                proof {
                    let pre = sched@.subrange(0, i as int);
                    let ext = sched@.subrange(0, (i + 1) as int);
                    assert(ext.drop_last() =~= pre);
                    assert(ext.last() == sched@[i as int]);
                    assert(self.rooms@[r as int].wf());
                    assert(self.rooms@[r as int].surgeries@[i as int].wf());
                }
                if entry_sid == sid && t.end > here {
                    here = t.end;
                }
                i += 1;
            }
            proof {
                assert(sched@.subrange(0, sched@.len() as int) =~= sched@);
                let pre = self.rooms@.subrange(0, r as int);
                let ext = self.rooms@.subrange(0, (r + 1) as int);
                assert(ext.drop_last() =~= pre);
                assert(ext.last() == self.rooms@[r as int]);
            }
            if here > slot {
                slot = here;
            }
            r += 1;
        }
        proof {
            assert(self.rooms@.subrange(0, self.rooms@.len() as int) =~= self.rooms@);
        }
        slot
    }

    /// Whether some room of this day, or a newly opened one, can take the
    /// surgery without breaking the surgeon's budget or timeline.
    #[verifier::loop_isolation(false)]
    #[verifier::rlimit(60)]
    pub fn can_schedule_surgery(&self, surgery: &Surgery) -> (r: bool)
        requires
            self.wf(),
            surgery.wf(),
            self.daily_surgeons.contains_spec(surgery.surgeon_id),
        ensures
            r == self.spec_can_schedule(*surgery),
    {
        proof {
            reveal(Day::trackers_ok);
        }
        let tracker = self.daily_surgeons.get(surgery.surgeon_id);
        if !tracker.has_availability(surgery) {
            return false;
        }
        let mut r: usize = 0;
        while r < self.rooms.len()
            invariant
                0 <= r <= self.rooms@.len(),
                forall|j: int| 0 <= j < r ==> !self.spec_room_fits(*surgery, j),
            decreases self.rooms@.len() - r,
        {
            if self.room_fits(surgery, r) {
                proof {
                    assert((r as int) < self.rooms@.len() && self.spec_room_fits(
                        *surgery,
                        r as int,
                    ));
                }
                return true;
            }
            r += 1;
        }
        let free = self.surgeon_free_slot(surgery.surgeon_id);
        self.rooms.len() < self.rooms_count && free as u16 + 2 + surgery.duration as u16
            <= LAST_SLOT as u16
    }

    /// Places the surgery: into the first room that fits it, else into a
    /// newly opened room anchored at the surgeon's free slot. Returns the
    /// room index and the surgery's index within that room.
    #[verifier::loop_isolation(false)]
    #[verifier::rlimit(100)]
    pub fn schedule_surgery(&mut self, surgery: Surgery) -> (idx: (usize, usize))
        requires
            old(self).wf(),
            surgery.wf(),
            old(self).daily_surgeons.contains_spec(surgery.surgeon_id),
            old(self).spec_can_schedule(surgery),
            !rooms_contain_id(old(self).rooms@, surgery.id),
        ensures
            final(self).wf(),
            match old(self).spec_first_fit(surgery) {
                Some(ri) => {
                    &&& idx.0 == ri
                    &&& idx.1 == old(self).rooms@[ri].surgeries@.len()
                    &&& schedule_into_room_post(*old(self), *final(self), surgery, ri)
                },
                None => {
                    &&& idx.0 == old(self).rooms@.len()
                    &&& idx.1 == 0
                    &&& schedule_new_room_post(*old(self), *final(self), surgery)
                },
            },
    {
        proof {
            lemma_day_map_wf(*self);
            lemma_day_tracker_wf(*self, surgery.surgeon_id);
            lemma_id_not_in_timeline(*self, surgery);
        }
        let ghost pre = *self;
        let sid = surgery.surgeon_id;
        let mut r: usize = 0;
        while r < self.rooms.len() && !self.room_fits(&surgery, r)
            invariant
                0 <= r <= self.rooms@.len(),
                forall|j: int| 0 <= j < r ==> !pre.spec_room_fits(surgery, j),
                pre.spec_first_fit(surgery) == pre.spec_first_fit_from(surgery, r as int),
            decreases self.rooms@.len() - r,
        {
            r += 1;
        }
        if r < self.rooms.len() {
            proof {
                assert(pre.spec_first_fit(surgery) == Some(r as int));
            }
            let tentative = self.rooms[r].when_will_schedule(&surgery);
            let mut room = self.rooms.remove(r);
            let si = room.schedule_surgery(surgery);
            self.rooms.insert(r, room);
            proof {
                assert(self.rooms@ =~= pre.rooms@.update(r as int, self.rooms@[r as int]));
                assert(pre.rooms@[r as int].wf());
                assert(1 <= tentative.start < tentative.end <= LAST_SLOT) by {
                    let room0 = pre.rooms@[r as int];
                    let last = room0.scheduled_surgeons@.len() - 1;
                    assert(room0.surgeries@[last].wf());
                }
            }
            let mut tr = self.daily_surgeons.get(sid).clone();
            tr.allocate_by_schedule(tentative, surgery);
            self.daily_surgeons.set_value(sid, tr);
            proof {
                assert(schedule_into_room_post(pre, *self, surgery, r as int));
                lemma_into_room_wf(pre, *self, surgery, r as int);
            }
            (r, si)
        } else {
            proof {
                assert(pre.spec_first_fit(surgery) is None);
                assert(!pre.spec_can_place_existing(surgery));
                assert(pre.spec_can_open_new_room(surgery));
            }
            let free = self.surgeon_free_slot(sid);
            let span = TimeRange { start: free, end: free + 2 + surgery.duration };
            let room = RoomPerDay::new_by_given_schedule(surgery, span);
            self.rooms.push(room);
            let mut tr = self.daily_surgeons.get(sid).clone();
            tr.allocate_by_schedule(span, surgery);
            self.daily_surgeons.set_value(sid, tr);
            let n = self.rooms.len();
            proof {
                assert(schedule_new_room_post(pre, *self, surgery));
                lemma_new_room_wf(pre, *self, surgery);
            }
            (n - 1, 0)
        }
    }

    /// Removes the surgery from its room and gives the surgeon's time back;
    /// a room left empty is closed and the rooms behind it move up.
    #[verifier::rlimit(100)]
    pub fn unschedule_surgery(
        &mut self,
        room_index: usize,
        surgery_index: usize,
        surgery: &Surgery,
    )
        requires
            old(self).wf(),
            room_index < old(self).rooms@.len(),
            surgery_index < old(self).rooms@[room_index as int].surgeries@.len(),
            old(self).rooms@[room_index as int].surgeries@[surgery_index as int] == *surgery,
        ensures
            final(self).wf(),
            unschedule_post(
                *old(self),
                *final(self),
                *surgery,
                room_index as int,
                surgery_index as int,
            ),
    {
        let ghost pre = *self;
        let ghost ri = room_index as int;
        let ghost si = surgery_index as int;
        let sid = surgery.surgeon_id;
        proof {
            assert(pre.rooms@[ri].wf());
            assert(pre.rooms@[ri].surgeries@[si].wf());
            lemma_day_map_wf(pre);
            lemma_timeline_entry(pre, *surgery, ri, si);
            lemma_day_tracker_wf(pre, sid);
            lemma_surgeon_day_load_member(pre.rooms@, sid, ri, si);
        }
        let mut tr = self.daily_surgeons.get(sid).clone();
        tr.deallocate(surgery);
        self.daily_surgeons.set_value(sid, tr);
        let mut room = self.rooms.remove(room_index);
        room.unschedule_surgery(surgery_index, surgery);
        if room.is_empty() {
            proof {
                assert(pre.rooms@[ri].surgeries@.len() == 1);
                assert(self.rooms@ == pre.rooms@.remove(ri));
            }
        } else {
            self.rooms.insert(room_index, room);
            proof {
                assert(pre.rooms@[ri].surgeries@.len() > 1);
                assert(self.rooms@ =~= pre.rooms@.remove(ri).insert(ri, room));
                assert forall|r: int| 0 <= r < pre.rooms@.len() && r != ri implies
                    self.rooms@[r] == pre.rooms@[r] by {
                }
            }
        }
        proof {
            assert(unschedule_post(pre, *self, *surgery, ri, si));
            lemma_unschedule_wf(pre, *self, *surgery, ri, si);
        }
    }

    /// Whether room `r` fits the surgery with a span clear of all other rooms.
    fn room_fits(&self, surgery: &Surgery, r: usize) -> (result: bool)
        requires
            self.wf(),
            surgery.wf(),
            r < self.rooms@.len(),
        ensures
            result == self.spec_room_fits(*surgery, r as int),
    {
        if !self.rooms[r].can_schedule_surgery(surgery) {
            return false;
        }
        let tentative = self.rooms[r].when_will_schedule(surgery);
        let mut r2: usize = 0;
        while r2 < self.rooms.len()
            invariant
                self.wf(),
                surgery.wf(),
                r < self.rooms@.len(),
                tentative == self.rooms@[r as int].spec_when_will_schedule(*surgery),
                0 <= r2 <= self.rooms@.len(),
                forall|j: int|
                    0 <= j < r2 && j != r ==> (#[trigger] self.rooms@[j]).spec_clear_for_surgeon(
                        tentative,
                        surgery.surgeon_id,
                    ),
            decreases self.rooms@.len() - r2,
        {
            if r2 != r {
                if !self.rooms[r2].can_schedule_surgeon_in_another_room(
                    &tentative,
                    surgery.surgeon_id,
                ) {
                    return false;
                }
            }
            r2 += 1;
        }
        true
    }
}


/// A well-formed day has a well-formed tracker table.
pub proof fn lemma_day_map_wf(d: Day)
    requires
        d.wf(),
    ensures
        d.daily_surgeons.wf(),
{
    reveal(Day::trackers_ok);
}

/// In a well-formed day, every tracker is sound and its budget equals the
/// surgeon's load over the rooms.
pub proof fn lemma_day_tracker_wf(d: Day, k: SurgeonID)
    requires
        d.wf(),
        d.daily_surgeons.contains_spec(k),
    ensures
        d.daily_surgeons.spec_get(k).wf(),
        d.daily_surgeons.spec_get(k).current_day_time == surgeon_day_load(d.rooms@, k),
{
    reveal(Day::trackers_ok);
}

/// In a well-formed day, a tracker's timeline mirrors and covers the rooms
/// and never repeats a surgery.
pub proof fn lemma_day_timeline_props(d: Day, k: SurgeonID)
    requires
        d.wf(),
        d.daily_surgeons.contains_spec(k),
    ensures
        timeline_mirrors(d.rooms@, d.daily_surgeons.spec_get(k).scheduled_times@, k),
        timeline_covers(d.rooms@, d.daily_surgeons.spec_get(k).scheduled_times@, k),
        crate::surgeon::times_ids_distinct(d.daily_surgeons.spec_get(k).scheduled_times@),
{
    reveal(Day::trackers_ok);
    assert(d.daily_surgeons.spec_get(k).wf());
}

/// In a well-formed day, surgeries at distinct positions carry distinct
/// identifiers.
pub proof fn lemma_day_ids_distinct(d: Day)
    requires
        d.wf(),
    ensures
        forall|r1: int, i1: int, r2: int, i2: int|
            0 <= r1 < d.rooms@.len() && 0 <= i1 < d.rooms@[r1].surgeries@.len() && 0 <= r2
                < d.rooms@.len() && 0 <= i2 < d.rooms@[r2].surgeries@.len() && (r1, i1) != (r2, i2)
                ==> (#[trigger] d.rooms@[r1].surgeries@[i1]).id != (
            #[trigger] d.rooms@[r2].surgeries@[i2]).id,
{
    reveal(Day::ids_distinct);
}

/// A surgery absent from all rooms is absent from its surgeon's timeline.
pub proof fn lemma_id_not_in_timeline(d: Day, s: Surgery)
    requires
        d.wf(),
        d.daily_surgeons.contains_spec(s.surgeon_id),
        !rooms_contain_id(d.rooms@, s.id),
    ensures
        !times_contains_id(d.daily_surgeons.spec_get(s.surgeon_id).scheduled_times@, s.id),
{
    reveal(Day::trackers_ok);
    let times = d.daily_surgeons.spec_get(s.surgeon_id).scheduled_times@;
    if times_contains_id(times, s.id) {
        let j = choose|j: int| 0 <= j < times.len() && times[j].1.id == s.id;
        assert(placed_in_rooms(d.rooms@, times[j].1));
        let (r2, i2) = choose|r2: int, i2: int|
            0 <= r2 < d.rooms@.len() && 0 <= i2 < d.rooms@[r2].surgeries@.len()
                && #[trigger] d.rooms@[r2].surgeries@[i2] == times[j].1;
        assert(rooms_contain_id(d.rooms@, s.id));
    }
}

/// The timeline of a scheduled surgery's surgeon holds exactly that
/// surgery under its identifier.
pub proof fn lemma_timeline_entry(d: Day, s: Surgery, ri: int, si: int)
    requires
        d.wf(),
        0 <= ri < d.rooms@.len(),
        0 <= si < d.rooms@[ri].surgeries@.len(),
        d.rooms@[ri].surgeries@[si] == s,
    ensures
        d.daily_surgeons.contains_spec(s.surgeon_id),
        times_contains_id(d.daily_surgeons.spec_get(s.surgeon_id).scheduled_times@, s.id),
        d.daily_surgeons.spec_get(s.surgeon_id).scheduled_times@[times_id_index(
            d.daily_surgeons.spec_get(s.surgeon_id).scheduled_times@,
            s.id,
        )].1 == s,
{
    reveal(Day::trackers_ok);
    reveal(Day::ids_distinct);
    let sid = s.surgeon_id;
    let times = d.daily_surgeons.spec_get(sid).scheduled_times@;
    assert(times_contains_id(times, s.id));
    crate::surgeon::lemma_times_id_index(times, s.id);
    let j = times_id_index(times, s.id);
    assert(placed_in_rooms(d.rooms@, times[j].1));
    let (r2, i2) = choose|r2: int, i2: int|
        0 <= r2 < d.rooms@.len() && 0 <= i2 < d.rooms@[r2].surgeries@.len()
            && #[trigger] d.rooms@[r2].surgeries@[i2] == times[j].1;
    assert(d.rooms@[r2].surgeries@[i2].id == s.id);
    if (r2, i2) != (ri, si) {
        assert(d.rooms@[r2].surgeries@[i2].id != d.rooms@[ri].surgeries@[si].id);
        assert(false);
    }
}

/// The shared preconditions of scheduling `s` into existing room `ri`.
pub open spec fn into_room_pre(pre: Day, s: Surgery, ri: int) -> bool {
    &&& pre.wf()
    &&& s.wf()
    &&& pre.daily_surgeons.contains_spec(s.surgeon_id)
    &&& pre.daily_surgeons.spec_get(s.surgeon_id).spec_has_availability(s)
    &&& !rooms_contain_id(pre.rooms@, s.id)
    &&& 0 <= ri < pre.rooms@.len()
    &&& pre.spec_room_fits(s, ri)
}

/// The shared preconditions of scheduling `s` into a newly opened room.
pub open spec fn new_room_pre(pre: Day, s: Surgery) -> bool {
    &&& pre.wf()
    &&& s.wf()
    &&& pre.daily_surgeons.contains_spec(s.surgeon_id)
    &&& pre.daily_surgeons.spec_get(s.surgeon_id).spec_has_availability(s)
    &&& !rooms_contain_id(pre.rooms@, s.id)
    &&& pre.spec_can_open_new_room(s)
}

/// In a day that does not contain a surgery identifier, no room entry has it.
pub proof fn lemma_absent_id(pre: Day, s: Surgery)
    requires
        !rooms_contain_id(pre.rooms@, s.id),
    ensures
        forall|r: int, i: int|
            0 <= r < pre.rooms@.len() && 0 <= i < pre.rooms@[r].surgeries@.len() ==> (
            #[trigger] pre.rooms@[r].surgeries@[i]).id != s.id,
{
    assert forall|r: int, i: int|
        0 <= r < pre.rooms@.len() && 0 <= i < pre.rooms@[r].surgeries@.len() implies (
    #[trigger] pre.rooms@[r].surgeries@[i]).id != s.id by {
        assert(!(exists|r2: int, i2: int|
            0 <= r2 < pre.rooms@.len() && 0 <= i2 < pre.rooms@[r2].surgeries@.len()
                && pre.rooms@[r2].surgeries@[i2].id == s.id));
    }
}

/// Scheduling into an existing room keeps the room shape of the day sound.
#[verifier::rlimit(100)]
#[verifier::spinoff_prover]
proof fn lemma_into_room_shape(pre: Day, post: Day, s: Surgery, ri: int)
    requires
        into_room_pre(pre, s, ri),
        schedule_into_room_post(pre, post, s, ri),
        post.rooms@[ri].wf(),
    ensures
        post.rooms@.len() <= post.rooms_count,
        post.rooms_wf(),
        post.ids_distinct(),
        post.surgeons_known(),
        post.cross_room_disjoint(),
{
    reveal(Day::ids_distinct);
    reveal(Day::cross_room_disjoint);
    let sid = s.surgeon_id;
    let room0 = pre.rooms@[ri];
    let span = room0.spec_when_will_schedule(s);
    let n0 = room0.surgeries@.len() as int;
    lemma_absent_id(pre, s);

    assert forall|r: int| 0 <= r < post.rooms@.len() implies (#[trigger] post.rooms@[r]).wf()
        && post.rooms@[r].surgeries@.len() > 0 by {
        if r != ri {
            assert(post.rooms@[r] == pre.rooms@[r]);
            assert(pre.rooms@[r].wf() && pre.rooms@[r].surgeries@.len() > 0);
        }
    }

    assert(post.ids_distinct()) by {
        assert forall|r1: int, i1: int, r2: int, i2: int|
            0 <= r1 < post.rooms@.len() && 0 <= i1 < post.rooms@[r1].surgeries@.len() && 0 <= r2
                < post.rooms@.len() && 0 <= i2 < post.rooms@[r2].surgeries@.len() && (r1, i1) != (
            r2,
            i2,
        ) implies (#[trigger] post.rooms@[r1].surgeries@[i1]).id != (
        #[trigger] post.rooms@[r2].surgeries@[i2]).id by {
            if r1 != ri {
                assert(post.rooms@[r1] == pre.rooms@[r1]);
            }
            if r2 != ri {
                assert(post.rooms@[r2] == pre.rooms@[r2]);
            }
        }
    }

    assert(post.surgeons_known()) by {
        assert forall|r: int, i: int|
            0 <= r < post.rooms@.len() && 0 <= i < post.rooms@[r].surgeries@.len() implies post.daily_surgeons.contains_spec(
            (#[trigger] post.rooms@[r].surgeries@[i]).surgeon_id,
        ) by {
            if r != ri {
                assert(post.rooms@[r] == pre.rooms@[r]);
            }
        }
    }

    assert(post.cross_room_disjoint()) by {
        assert forall|r1: int, i1: int, r2: int, i2: int|
            0 <= r1 < post.rooms@.len() && 0 <= i1 < post.rooms@[r1].scheduled_surgeons@.len()
                && 0 <= r2 < post.rooms@.len() && 0 <= i2
                < post.rooms@[r2].scheduled_surgeons@.len() && r1 != r2 && (
            #[trigger] post.rooms@[r1].scheduled_surgeons@[i1]).1 == (
            #[trigger] post.rooms@[r2].scheduled_surgeons@[i2]).1 implies post.rooms@[r1].scheduled_surgeons@[i1].0.disjoint_from(
            post.rooms@[r2].scheduled_surgeons@[i2].0,
        ) by {
            if r1 != ri {
                assert(post.rooms@[r1] == pre.rooms@[r1]);
            }
            if r2 != ri {
                assert(post.rooms@[r2] == pre.rooms@[r2]);
            }
            if r1 == ri && i1 == n0 {
                assert(pre.rooms@[r2].spec_clear_for_surgeon(span, sid));
                assert(pre.rooms@[r2].scheduled_surgeons@[i2].0.clear_of(span));
            } else if r2 == ri && i2 == n0 {
                assert(pre.rooms@[r1].spec_clear_for_surgeon(span, sid));
                assert(pre.rooms@[r1].scheduled_surgeons@[i1].0.clear_of(span));
            }
        }
    }
}

/// Scheduling into an existing room keeps one surgeon tracker in step with
/// the rooms.
#[verifier::rlimit(100)]
#[verifier::spinoff_prover]
proof fn lemma_into_room_tracker_one(pre: Day, post: Day, s: Surgery, ri: int, k: SurgeonID)
    requires
        into_room_pre(pre, s, ri),
        schedule_into_room_post(pre, post, s, ri),
        post.daily_surgeons.wf(),
        post.daily_surgeons.spec_get(s.surgeon_id).wf(),
        pre.daily_surgeons.contains_spec(k),
    ensures
        post.daily_surgeons.spec_get(k).wf(),
        post.daily_surgeons.spec_get(k).current_day_time == surgeon_day_load(post.rooms@, k),
        timeline_mirrors(post.rooms@, post.daily_surgeons.spec_get(k).scheduled_times@, k),
        timeline_covers(post.rooms@, post.daily_surgeons.spec_get(k).scheduled_times@, k),
{
    reveal(Day::trackers_ok);
    let sid = s.surgeon_id;
    let room0 = pre.rooms@[ri];
    let span = room0.spec_when_will_schedule(s);
    let n0 = room0.surgeries@.len() as int;
    let tr = post.daily_surgeons.spec_get(k);
    let tr0 = pre.daily_surgeons.spec_get(k);
    assert(post.rooms@ =~= pre.rooms@.update(ri, post.rooms@[ri]));
    lemma_surgeon_day_load_update(pre.rooms@, k, ri, post.rooms@[ri]);
    lemma_surgeon_seq_load_push(room0.surgeries@, k, s);
    if k != sid {
        assert(tr == tr0);
    }
    assert(tr.current_day_time == surgeon_day_load(post.rooms@, k));
    assert(tr.wf());

    assert forall|j: int| 0 <= j < tr.scheduled_times@.len() implies (
    #[trigger] tr.scheduled_times@[j]).1.surgeon_id == k && placed_in_rooms(
        post.rooms@,
        tr.scheduled_times@[j].1,
    ) by {
        if k == sid && j == tr0.scheduled_times@.len() {
            assert(tr.scheduled_times@[j] == (span, s));
            assert(post.rooms@[ri].surgeries@[n0] == s);
            assert(placed_in_rooms(post.rooms@, s));
        } else {
            assert(tr.scheduled_times@[j] == tr0.scheduled_times@[j]);
            assert(placed_in_rooms(pre.rooms@, tr0.scheduled_times@[j].1));
            let (r, i) = choose|r: int, i: int|
                0 <= r < pre.rooms@.len() && 0 <= i < pre.rooms@[r].surgeries@.len()
                    && #[trigger] pre.rooms@[r].surgeries@[i] == tr0.scheduled_times@[j].1;
            if r == ri {
                assert(post.rooms@[r].surgeries@[i] == tr.scheduled_times@[j].1);
            } else {
                assert(post.rooms@[r] == pre.rooms@[r]);
                assert(post.rooms@[r].surgeries@[i] == tr.scheduled_times@[j].1);
            }
            assert(placed_in_rooms(post.rooms@, tr.scheduled_times@[j].1));
        }
    }
    assert(timeline_mirrors(post.rooms@, tr.scheduled_times@, k));

    assert forall|r: int, i: int|
        0 <= r < post.rooms@.len() && 0 <= i < post.rooms@[r].surgeries@.len() && (
        #[trigger] post.rooms@[r].surgeries@[i]).surgeon_id == k implies times_contains_id(
        tr.scheduled_times@,
        post.rooms@[r].surgeries@[i].id,
    ) by {
        if r == ri && i == n0 {
            assert(post.rooms@[r].surgeries@[i] == s);
            assert(k == sid);
            let last = tr.scheduled_times@.len() - 1;
            assert(tr.scheduled_times@[last].1.id == s.id);
        } else {
            if r != ri {
                assert(post.rooms@[r] == pre.rooms@[r]);
            }
            assert(pre.rooms@[r].surgeries@[i] == post.rooms@[r].surgeries@[i]);
            assert(times_contains_id(tr0.scheduled_times@, pre.rooms@[r].surgeries@[i].id));
            let j = choose|j: int|
                0 <= j < tr0.scheduled_times@.len() && tr0.scheduled_times@[j].1.id
                    == pre.rooms@[r].surgeries@[i].id;
            assert(tr.scheduled_times@[j].1.id == pre.rooms@[r].surgeries@[i].id);
        }
    }
    assert(timeline_covers(post.rooms@, tr.scheduled_times@, k));
}

/// Scheduling into an existing room that fits keeps a day well formed.
#[verifier::rlimit(100)]
#[verifier::spinoff_prover]
pub proof fn lemma_into_room_wf(pre: Day, post: Day, s: Surgery, ri: int)
    requires
        into_room_pre(pre, s, ri),
        schedule_into_room_post(pre, post, s, ri),
        post.rooms@[ri].wf(),
        post.daily_surgeons.wf(),
        post.daily_surgeons.spec_get(s.surgeon_id).wf(),
    ensures
        post.wf(),
{
    lemma_into_room_shape(pre, post, s, ri);
    reveal(Day::trackers_ok);
    assert forall|k: SurgeonID| post.daily_surgeons.contains_spec(k) implies {
        let tr = #[trigger] post.daily_surgeons.spec_get(k);
        &&& tr.wf()
        &&& tr.current_day_time == surgeon_day_load(post.rooms@, k)
        &&& timeline_mirrors(post.rooms@, tr.scheduled_times@, k)
        &&& timeline_covers(post.rooms@, tr.scheduled_times@, k)
    } by {
        lemma_into_room_tracker_one(pre, post, s, ri, k);
    }
}

/// Opening a new room keeps the room shape of the day sound.
#[verifier::rlimit(100)]
#[verifier::spinoff_prover]
proof fn lemma_new_room_shape(pre: Day, post: Day, s: Surgery)
    requires
        new_room_pre(pre, s),
        schedule_new_room_post(pre, post, s),
        post.rooms@.last().wf(),
    ensures
        post.rooms@.len() <= post.rooms_count,
        post.rooms_wf(),
        post.ids_distinct(),
        post.surgeons_known(),
        post.cross_room_disjoint(),
{
    reveal(Day::ids_distinct);
    reveal(Day::cross_room_disjoint);
    let sid = s.surgeon_id;
    let span = day_new_room_span(pre, s);
    let rn = pre.rooms@.len() as int;
    lemma_absent_id(pre, s);

    assert forall|r: int| 0 <= r < post.rooms@.len() implies (#[trigger] post.rooms@[r]).wf()
        && post.rooms@[r].surgeries@.len() > 0 by {
        if r < rn {
            assert(post.rooms@[r] == pre.rooms@[r]);
            assert(pre.rooms@[r].wf() && pre.rooms@[r].surgeries@.len() > 0);
        } else {
            assert(post.rooms@[r] == post.rooms@.last());
        }
    }

    assert(post.ids_distinct()) by {
        assert forall|r1: int, i1: int, r2: int, i2: int|
            0 <= r1 < post.rooms@.len() && 0 <= i1 < post.rooms@[r1].surgeries@.len() && 0 <= r2
                < post.rooms@.len() && 0 <= i2 < post.rooms@[r2].surgeries@.len() && (r1, i1) != (
            r2,
            i2,
        ) implies (#[trigger] post.rooms@[r1].surgeries@[i1]).id != (
        #[trigger] post.rooms@[r2].surgeries@[i2]).id by {
            if r1 < rn {
                assert(post.rooms@[r1] == pre.rooms@[r1]);
            } else {
                assert(post.rooms@[r1] == post.rooms@.last());
            }
            if r2 < rn {
                assert(post.rooms@[r2] == pre.rooms@[r2]);
            } else {
                assert(post.rooms@[r2] == post.rooms@.last());
            }
        }
    }

    assert(post.surgeons_known()) by {
        assert forall|r: int, i: int|
            0 <= r < post.rooms@.len() && 0 <= i < post.rooms@[r].surgeries@.len() implies post.daily_surgeons.contains_spec(
            (#[trigger] post.rooms@[r].surgeries@[i]).surgeon_id,
        ) by {
            if r < rn {
                assert(post.rooms@[r] == pre.rooms@[r]);
            } else {
                assert(post.rooms@[r] == post.rooms@.last());
                assert(post.rooms@[r].surgeries@[i] == s);
            }
        }
    }

    assert(post.cross_room_disjoint()) by {
        assert forall|r1: int, i1: int, r2: int, i2: int|
            0 <= r1 < post.rooms@.len() && 0 <= i1 < post.rooms@[r1].scheduled_surgeons@.len()
                && 0 <= r2 < post.rooms@.len() && 0 <= i2
                < post.rooms@[r2].scheduled_surgeons@.len() && r1 != r2 && (
            #[trigger] post.rooms@[r1].scheduled_surgeons@[i1]).1 == (
            #[trigger] post.rooms@[r2].scheduled_surgeons@[i2]).1 implies post.rooms@[r1].scheduled_surgeons@[i1].0.disjoint_from(
            post.rooms@[r2].scheduled_surgeons@[i2].0,
        ) by {
            if r1 < rn {
                assert(post.rooms@[r1] == pre.rooms@[r1]);
            } else {
                assert(post.rooms@[r1] == post.rooms@.last());
            }
            if r2 < rn {
                assert(post.rooms@[r2] == pre.rooms@[r2]);
            } else {
                assert(post.rooms@[r2] == post.rooms@.last());
            }
            if r1 == rn {
                assert(post.rooms@[r1].scheduled_surgeons@[i1] == (span, sid));
                assert(pre.rooms@[r2].scheduled_surgeons@[i2].1 == sid);
                lemma_day_free_slot_ge(pre.rooms@, sid, r2, i2);
                assert(pre.rooms@[r2].scheduled_surgeons@[i2].0.end <= span.start);
            } else if r2 == rn {
                assert(post.rooms@[r2].scheduled_surgeons@[i2] == (span, sid));
                assert(pre.rooms@[r1].scheduled_surgeons@[i1].1 == sid);
                lemma_day_free_slot_ge(pre.rooms@, sid, r1, i1);
                assert(pre.rooms@[r1].scheduled_surgeons@[i1].0.end <= span.start);
            }
        }
    }
}

/// Opening a new room keeps one surgeon tracker in step with the rooms.
#[verifier::rlimit(100)]
#[verifier::spinoff_prover]
proof fn lemma_new_room_tracker_one(pre: Day, post: Day, s: Surgery, k: SurgeonID)
    requires
        new_room_pre(pre, s),
        schedule_new_room_post(pre, post, s),
        post.daily_surgeons.wf(),
        post.daily_surgeons.spec_get(s.surgeon_id).wf(),
        pre.daily_surgeons.contains_spec(k),
    ensures
        post.daily_surgeons.spec_get(k).wf(),
        post.daily_surgeons.spec_get(k).current_day_time == surgeon_day_load(post.rooms@, k),
        timeline_mirrors(post.rooms@, post.daily_surgeons.spec_get(k).scheduled_times@, k),
        timeline_covers(post.rooms@, post.daily_surgeons.spec_get(k).scheduled_times@, k),
{
    reveal(Day::trackers_ok);
    let sid = s.surgeon_id;
    let span = day_new_room_span(pre, s);
    let rn = pre.rooms@.len() as int;
    let tr = post.daily_surgeons.spec_get(k);
    let tr0 = pre.daily_surgeons.spec_get(k);
    assert(post.rooms@ =~= pre.rooms@.push(post.rooms@.last()));
    lemma_surgeon_day_load_push(pre.rooms@, k, post.rooms@.last());
    let ss = post.rooms@.last().surgeries@;
    assert(ss.len() == 1);
    assert(ss.last() == s);
    assert(ss.drop_last() =~= Seq::<Surgery>::empty());
    assert(surgeon_seq_load(Seq::<Surgery>::empty(), k) == 0);
    assert(surgeon_seq_load(ss, k) == if s.surgeon_id == k {
        s.duration as int
    } else {
        0
    });
    if k != sid {
        assert(tr == tr0);
    }
    assert(tr.current_day_time == surgeon_day_load(post.rooms@, k));
    assert(tr.wf());

    assert forall|j: int| 0 <= j < tr.scheduled_times@.len() implies (
    #[trigger] tr.scheduled_times@[j]).1.surgeon_id == k && placed_in_rooms(
        post.rooms@,
        tr.scheduled_times@[j].1,
    ) by {
        if k == sid && j == tr0.scheduled_times@.len() {
            assert(tr.scheduled_times@[j] == (span, s));
            assert(post.rooms@[rn].surgeries@[0] == s);
            assert(placed_in_rooms(post.rooms@, s));
        } else {
            assert(tr.scheduled_times@[j] == tr0.scheduled_times@[j]);
            assert(placed_in_rooms(pre.rooms@, tr0.scheduled_times@[j].1));
            let (r, i) = choose|r: int, i: int|
                0 <= r < pre.rooms@.len() && 0 <= i < pre.rooms@[r].surgeries@.len()
                    && #[trigger] pre.rooms@[r].surgeries@[i] == tr0.scheduled_times@[j].1;
            assert(post.rooms@[r] == pre.rooms@[r]);
            assert(post.rooms@[r].surgeries@[i] == tr.scheduled_times@[j].1);
            assert(placed_in_rooms(post.rooms@, tr.scheduled_times@[j].1));
        }
    }
    assert(timeline_mirrors(post.rooms@, tr.scheduled_times@, k));

    assert forall|r: int, i: int|
        0 <= r < post.rooms@.len() && 0 <= i < post.rooms@[r].surgeries@.len() && (
        #[trigger] post.rooms@[r].surgeries@[i]).surgeon_id == k implies times_contains_id(
        tr.scheduled_times@,
        post.rooms@[r].surgeries@[i].id,
    ) by {
        if r == rn {
            assert(post.rooms@[r].surgeries@[i] == s);
            assert(k == sid);
            let last = tr.scheduled_times@.len() - 1;
            assert(tr.scheduled_times@[last].1.id == s.id);
        } else {
            assert(post.rooms@[r] == pre.rooms@[r]);
            assert(times_contains_id(tr0.scheduled_times@, pre.rooms@[r].surgeries@[i].id));
            let j = choose|j: int|
                0 <= j < tr0.scheduled_times@.len() && tr0.scheduled_times@[j].1.id
                    == pre.rooms@[r].surgeries@[i].id;
            assert(tr.scheduled_times@[j].1.id == pre.rooms@[r].surgeries@[i].id);
        }
    }
    assert(timeline_covers(post.rooms@, tr.scheduled_times@, k));
}

/// Opening a new room for a surgery keeps a day well formed.
#[verifier::rlimit(100)]
#[verifier::spinoff_prover]
pub proof fn lemma_new_room_wf(pre: Day, post: Day, s: Surgery)
    requires
        new_room_pre(pre, s),
        schedule_new_room_post(pre, post, s),
        post.rooms@.last().wf(),
        post.daily_surgeons.wf(),
        post.daily_surgeons.spec_get(s.surgeon_id).wf(),
    ensures
        post.wf(),
{
    lemma_new_room_shape(pre, post, s);
    reveal(Day::trackers_ok);
    assert forall|k: SurgeonID| post.daily_surgeons.contains_spec(k) implies {
        let tr = #[trigger] post.daily_surgeons.spec_get(k);
        &&& tr.wf()
        &&& tr.current_day_time == surgeon_day_load(post.rooms@, k)
        &&& timeline_mirrors(post.rooms@, tr.scheduled_times@, k)
        &&& timeline_covers(post.rooms@, tr.scheduled_times@, k)
    } by {
        lemma_new_room_tracker_one(pre, post, s, k);
    }
}

/// The shared preconditions of unscheduling the surgery at `ri`, `si`.
pub open spec fn unschedule_pre(pre: Day, s: Surgery, ri: int, si: int) -> bool {
    &&& pre.wf()
    &&& 0 <= ri < pre.rooms@.len()
    &&& 0 <= si < pre.rooms@[ri].surgeries@.len()
    &&& pre.rooms@[ri].surgeries@[si] == s
}

/// Unscheduling keeps every room sound and the day within capacity.
#[verifier::rlimit(100)]
#[verifier::spinoff_prover]
proof fn lemma_unschedule_rooms_wf(pre: Day, post: Day, s: Surgery, ri: int, si: int)
    requires
        unschedule_pre(pre, s, ri, si),
        unschedule_post(pre, post, s, ri, si),
        pre.rooms@[ri].surgeries@.len() > 1 ==> post.rooms@[ri].wf(),
    ensures
        post.rooms@.len() <= post.rooms_count,
        post.rooms_wf(),
{
    let room0 = pre.rooms@[ri];
    let gone = room0.surgeries@.len() == 1;
    assert forall|r: int| 0 <= r < post.rooms@.len() implies (#[trigger] post.rooms@[r]).wf()
        && post.rooms@[r].surgeries@.len() > 0 by {
        if gone {
            if r < ri {
                assert(post.rooms@[r] == pre.rooms@[r]);
            } else {
                assert(post.rooms@[r] == pre.rooms@[r + 1]);
            }
        } else if r != ri {
            assert(post.rooms@[r] == pre.rooms@[r]);
        }
    }
}

/// Unscheduling keeps surgery identifiers distinct across the day.
#[verifier::rlimit(100)]
#[verifier::spinoff_prover]
proof fn lemma_unschedule_ids(pre: Day, post: Day, s: Surgery, ri: int, si: int)
    requires
        unschedule_pre(pre, s, ri, si),
        unschedule_post(pre, post, s, ri, si),
    ensures
        post.ids_distinct(),
{
    reveal(Day::ids_distinct);
    let room0 = pre.rooms@[ri];
    let gone = room0.surgeries@.len() == 1;
    assert forall|r1: int, i1: int, r2: int, i2: int|
        0 <= r1 < post.rooms@.len() && 0 <= i1 < post.rooms@[r1].surgeries@.len() && 0 <= r2
            < post.rooms@.len() && 0 <= i2 < post.rooms@[r2].surgeries@.len() && (r1, i1) != (
        r2,
        i2,
    ) implies (#[trigger] post.rooms@[r1].surgeries@[i1]).id != (
    #[trigger] post.rooms@[r2].surgeries@[i2]).id by {
        if gone {
            if r1 < ri {
                assert(post.rooms@[r1] == pre.rooms@[r1]);
            } else {
                assert(post.rooms@[r1] == pre.rooms@[r1 + 1]);
            }
            if r2 < ri {
                assert(post.rooms@[r2] == pre.rooms@[r2]);
            } else {
                assert(post.rooms@[r2] == pre.rooms@[r2 + 1]);
            }
        } else {
            if r1 != ri {
                assert(post.rooms@[r1] == pre.rooms@[r1]);
            } else {
                assert(post.rooms@[r1].surgeries@[i1] == room0.surgeries@[if i1 < si {
                    i1
                } else {
                    i1 + 1
                }]);
            }
            if r2 != ri {
                assert(post.rooms@[r2] == pre.rooms@[r2]);
            } else {
                assert(post.rooms@[r2].surgeries@[i2] == room0.surgeries@[if i2 < si {
                    i2
                } else {
                    i2 + 1
                }]);
            }
        }
    }
}

/// Unscheduling never brings in an unknown surgeon.
#[verifier::rlimit(100)]
#[verifier::spinoff_prover]
proof fn lemma_unschedule_known(pre: Day, post: Day, s: Surgery, ri: int, si: int)
    requires
        unschedule_pre(pre, s, ri, si),
        unschedule_post(pre, post, s, ri, si),
    ensures
        post.surgeons_known(),
{
    let room0 = pre.rooms@[ri];
    let gone = room0.surgeries@.len() == 1;
    assert forall|r: int, i: int|
        0 <= r < post.rooms@.len() && 0 <= i < post.rooms@[r].surgeries@.len() implies post.daily_surgeons.contains_spec(
        (#[trigger] post.rooms@[r].surgeries@[i]).surgeon_id,
    ) by {
        if gone {
            if r < ri {
                assert(post.rooms@[r] == pre.rooms@[r]);
            } else {
                assert(post.rooms@[r] == pre.rooms@[r + 1]);
            }
        } else if r != ri {
            assert(post.rooms@[r] == pre.rooms@[r]);
        } else {
            assert(post.rooms@[r].surgeries@[i] == room0.surgeries@[if i < si {
                i
            } else {
                i + 1
            }]);
        }
        assert(post.daily_surgeons.ids@ == pre.daily_surgeons.ids@);
    }
}

/// Unscheduling keeps surgeons out of overlapping rooms.
#[verifier::rlimit(100)]
#[verifier::spinoff_prover]
proof fn lemma_unschedule_disjoint(pre: Day, post: Day, s: Surgery, ri: int, si: int)
    requires
        0 <= ri < pre.rooms@.len(),
        0 <= si < pre.rooms@[ri].surgeries@.len(),
        pre.rooms@[ri].surgeries@.len() == pre.rooms@[ri].scheduled_surgeons@.len(),
        pre.cross_room_disjoint(),
        rooms_after_unschedule(pre.rooms@, post.rooms@, s, ri, si),
    ensures
        post.cross_room_disjoint(),
{
    reveal(Day::cross_room_disjoint);
    let room0 = pre.rooms@[ri];
    let gone = room0.surgeries@.len() == 1;
    assert forall|r1: int, i1: int, r2: int, i2: int|
        0 <= r1 < post.rooms@.len() && 0 <= i1 < post.rooms@[r1].scheduled_surgeons@.len() && 0
            <= r2 < post.rooms@.len() && 0 <= i2 < post.rooms@[r2].scheduled_surgeons@.len() && r1
            != r2 && (#[trigger] post.rooms@[r1].scheduled_surgeons@[i1]).1 == (
    #[trigger] post.rooms@[r2].scheduled_surgeons@[i2]).1 implies post.rooms@[r1].scheduled_surgeons@[i1].0.disjoint_from(
        post.rooms@[r2].scheduled_surgeons@[i2].0,
    ) by {
        if gone {
            if r1 < ri {
                assert(post.rooms@[r1] == pre.rooms@[r1]);
            } else {
                assert(post.rooms@[r1] == pre.rooms@[r1 + 1]);
            }
            if r2 < ri {
                assert(post.rooms@[r2] == pre.rooms@[r2]);
            } else {
                assert(post.rooms@[r2] == pre.rooms@[r2 + 1]);
            }
        } else {
            if r1 != ri {
                assert(post.rooms@[r1] == pre.rooms@[r1]);
            } else {
                assert(post.rooms@[r1].scheduled_surgeons@[i1]
                    == room0.scheduled_surgeons@[if i1 < si {
                    i1
                } else {
                    i1 + 1
                }]);
            }
            if r2 != ri {
                assert(post.rooms@[r2] == pre.rooms@[r2]);
            } else {
                assert(post.rooms@[r2].scheduled_surgeons@[i2]
                    == room0.scheduled_surgeons@[if i2 < si {
                    i2
                } else {
                    i2 + 1
                }]);
            }
        }
    }
}

/// Unscheduling keeps every tracker's budget equal to its surgeon's load.
#[verifier::rlimit(100)]
#[verifier::spinoff_prover]
proof fn lemma_unschedule_load(pre: Day, post: Day, s: Surgery, ri: int, si: int, k: SurgeonID)
    requires
        unschedule_pre(pre, s, ri, si),
        unschedule_post(pre, post, s, ri, si),
        pre.daily_surgeons.contains_spec(k),
    ensures
        post.daily_surgeons.spec_get(k).current_day_time == surgeon_day_load(post.rooms@, k),
        post.daily_surgeons.spec_get(k).max_day_time == pre.daily_surgeons.spec_get(
            k,
        ).max_day_time,
{
    reveal(Day::trackers_ok);
    let room0 = pre.rooms@[ri];
    let gone = room0.surgeries@.len() == 1;
    if gone {
        lemma_surgeon_day_load_remove(pre.rooms@, k, ri);
        assert(room0.surgeries@ =~= seq![s]);
        assert(room0.surgeries@.drop_last() =~= Seq::<Surgery>::empty());
        assert(surgeon_seq_load(Seq::<Surgery>::empty(), k) == 0);
        assert(surgeon_seq_load(room0.surgeries@, k) == if s.surgeon_id == k {
            s.duration as int
        } else {
            0
        });
    } else {
        assert(post.rooms@ =~= pre.rooms@.update(ri, post.rooms@[ri]));
        lemma_surgeon_day_load_update(pre.rooms@, k, ri, post.rooms@[ri]);
        lemma_surgeon_seq_load_remove(room0.surgeries@, k, si);
    }
    if k != s.surgeon_id {
        assert(post.daily_surgeons.spec_get(k) == pre.daily_surgeons.spec_get(k));
    }
}

/// After unscheduling, every timeline entry still mirrors a placed surgery.
#[verifier::rlimit(100)]
#[verifier::spinoff_prover]
proof fn lemma_unschedule_mirror(
    rooms0: Seq<RoomPerDay>,
    rooms1: Seq<RoomPerDay>,
    times0: Seq<(TimeRange, Surgery)>,
    times1: Seq<(TimeRange, Surgery)>,
    s: Surgery,
    ri: int,
    si: int,
    j0: int,
    k: SurgeonID,
)
    requires
        0 <= ri < rooms0.len(),
        0 <= si < rooms0[ri].surgeries@.len(),
        rooms0[ri].surgeries@[si] == s,
        rooms_after_unschedule(rooms0, rooms1, s, ri, si),
        crate::surgeon::times_ids_distinct(times0),
        k == s.surgeon_id ==> 0 <= j0 < times0.len() && times0[j0].1 == s && times1
            == times0.remove(j0),
        k != s.surgeon_id ==> times1 == times0,
        timeline_mirrors(rooms0, times0, k),
        forall|r1: int, i1: int, r2: int, i2: int|
            0 <= r1 < rooms0.len() && 0 <= i1 < rooms0[r1].surgeries@.len() && 0 <= r2
                < rooms0.len() && 0 <= i2 < rooms0[r2].surgeries@.len() && (r1, i1) != (r2, i2)
                ==> (#[trigger] rooms0[r1].surgeries@[i1]).id != (
            #[trigger] rooms0[r2].surgeries@[i2]).id,
    ensures
        timeline_mirrors(rooms1, times1, k),
{
    let sid = s.surgeon_id;
    let room0 = rooms0[ri];
    let gone = room0.surgeries@.len() == 1;
    assert forall|j: int| 0 <= j < times1.len() implies (#[trigger] times1[j]).1.surgeon_id == k
        && placed_in_rooms(rooms1, times1[j].1) by {
        let jj: int = if k == sid && j >= j0 {
            j + 1
        } else {
            j
        };
        assert(times1[j] == times0[jj]);
        let e = times0[jj];
        assert(placed_in_rooms(rooms0, e.1));
        let (r, i) = choose|r: int, i: int|
            0 <= r < rooms0.len() && 0 <= i < rooms0[r].surgeries@.len()
                && #[trigger] rooms0[r].surgeries@[i] == e.1;
        if k == sid {
            assert(e.1.id != s.id);
        }
        if (r, i) == (ri, si) {
            assert(e.1 == s);
            assert(e.1.surgeon_id == k);
            assert(k == sid);
            assert(false);
        }
        if gone {
            assert(r != ri) by {
                if r == ri {
                    assert(i == si);
                }
            }
            let rr: int = if r < ri {
                r
            } else {
                r - 1
            };
            assert(rooms1[rr] == rooms0[r]);
            assert(rooms1[rr].surgeries@[i] == e.1);
        } else {
            if r != ri {
                assert(rooms1[r] == rooms0[r]);
                assert(rooms1[r].surgeries@[i] == e.1);
            } else {
                let ii: int = if i < si {
                    i
                } else {
                    i - 1
                };
                assert(rooms1[ri].surgeries@[ii] == room0.surgeries@[i]);
                assert(rooms1[ri].surgeries@[ii] == e.1);
            }
        }
        assert(placed_in_rooms(rooms1, times1[j].1));
    }
}

/// After unscheduling, every remaining placement is still on its surgeon's
/// timeline.
#[verifier::rlimit(100)]
#[verifier::spinoff_prover]
proof fn lemma_unschedule_converse(
    rooms0: Seq<RoomPerDay>,
    rooms1: Seq<RoomPerDay>,
    times0: Seq<(TimeRange, Surgery)>,
    times1: Seq<(TimeRange, Surgery)>,
    s: Surgery,
    ri: int,
    si: int,
    j0: int,
    k: SurgeonID,
)
    requires
        0 <= ri < rooms0.len(),
        0 <= si < rooms0[ri].surgeries@.len(),
        rooms0[ri].surgeries@[si] == s,
        rooms_after_unschedule(rooms0, rooms1, s, ri, si),
        crate::surgeon::times_ids_distinct(times0),
        k == s.surgeon_id ==> 0 <= j0 < times0.len() && times0[j0].1 == s && times1
            == times0.remove(j0),
        k != s.surgeon_id ==> times1 == times0,
        timeline_covers(rooms0, times0, k),
        forall|r1: int, i1: int, r2: int, i2: int|
            0 <= r1 < rooms0.len() && 0 <= i1 < rooms0[r1].surgeries@.len() && 0 <= r2
                < rooms0.len() && 0 <= i2 < rooms0[r2].surgeries@.len() && (r1, i1) != (r2, i2)
                ==> (#[trigger] rooms0[r1].surgeries@[i1]).id != (
            #[trigger] rooms0[r2].surgeries@[i2]).id,
    ensures
        timeline_covers(rooms1, times1, k),
{
    let sid = s.surgeon_id;
    let room0 = rooms0[ri];
    let gone = room0.surgeries@.len() == 1;
    assert forall|r: int, i: int|
        0 <= r < rooms1.len() && 0 <= i < rooms1[r].surgeries@.len() && (
        #[trigger] rooms1[r].surgeries@[i]).surgeon_id == k implies times_contains_id(
        times1,
        rooms1[r].surgeries@[i].id,
    ) by {
        let x = rooms1[r].surgeries@[i];
        let rr: int = if gone && r >= ri {
            r + 1
        } else {
            r
        };
        let ii: int = if !gone && r == ri && i >= si {
            i + 1
        } else {
            i
        };
        if gone {
            if r < ri {
                assert(rooms1[r] == rooms0[r]);
            } else {
                assert(rooms1[r] == rooms0[rr]);
            }
        } else {
            if r != ri {
                assert(rooms1[r] == rooms0[r]);
            } else {
                assert(rooms1[ri].surgeries@[i] == room0.surgeries@[ii]);
            }
        }
        assert(x == rooms0[rr].surgeries@[ii]);
        assert(times_contains_id(times0, x.id));
        let j = choose|j: int| 0 <= j < times0.len() && times0[j].1.id == x.id;
        if k == sid {
            assert((rr, ii) != (ri, si)) by {
                if gone {
                    assert(rr != ri || room0.surgeries@.len() != 1);
                }
            }
            assert(x.id != s.id);
            assert(j != j0);
            let jj: int = if j < j0 {
                j
            } else {
                j - 1
            };
            assert(times1[jj].1.id == x.id);
        } else {
            assert(times1[j].1.id == x.id);
        }
    }
}

/// Unscheduling keeps one surgeon tracker in step with the rooms.
#[verifier::rlimit(100)]
#[verifier::spinoff_prover]
proof fn lemma_unschedule_tracker_one(
    pre: Day,
    post: Day,
    s: Surgery,
    ri: int,
    si: int,
    k: SurgeonID,
)
    requires
        unschedule_pre(pre, s, ri, si),
        unschedule_post(pre, post, s, ri, si),
        post.daily_surgeons.wf(),
        post.daily_surgeons.spec_get(s.surgeon_id).wf(),
        pre.daily_surgeons.contains_spec(k),
    ensures
        post.daily_surgeons.spec_get(k).wf(),
        post.daily_surgeons.spec_get(k).current_day_time == surgeon_day_load(post.rooms@, k),
        timeline_mirrors(post.rooms@, post.daily_surgeons.spec_get(k).scheduled_times@, k),
        timeline_covers(post.rooms@, post.daily_surgeons.spec_get(k).scheduled_times@, k),
{
    lemma_unschedule_load(pre, post, s, ri, si, k);
    lemma_day_tracker_wf(pre, k);
    lemma_day_timeline_props(pre, k);
    lemma_day_ids_distinct(pre);
    let sid = s.surgeon_id;
    let times0 = pre.daily_surgeons.spec_get(k).scheduled_times@;
    let times1 = post.daily_surgeons.spec_get(k).scheduled_times@;
    let sid_times0 = pre.daily_surgeons.spec_get(sid).scheduled_times@;
    lemma_timeline_entry(pre, s, ri, si);
    if k == sid {
        crate::surgeon::lemma_times_id_index(sid_times0, s.id);
    }
    let j0 = times_id_index(sid_times0, s.id);
    if k != sid {
        assert(times1 == times0);
        assert(post.daily_surgeons.spec_get(k) == pre.daily_surgeons.spec_get(k));
        lemma_unschedule_mirror(pre.rooms@, post.rooms@, times0, times1, s, ri, si, 0, k);
        lemma_unschedule_converse(pre.rooms@, post.rooms@, times0, times1, s, ri, si, 0, k);
    } else {
        lemma_unschedule_mirror(pre.rooms@, post.rooms@, times0, times1, s, ri, si, j0, k);
        lemma_unschedule_converse(pre.rooms@, post.rooms@, times0, times1, s, ri, si, j0, k);
    }
}

/// Unscheduling a surgery keeps a day well formed.
#[verifier::rlimit(100)]
#[verifier::spinoff_prover]
pub proof fn lemma_unschedule_wf(pre: Day, post: Day, s: Surgery, ri: int, si: int)
    requires
        unschedule_pre(pre, s, ri, si),
        unschedule_post(pre, post, s, ri, si),
        pre.rooms@[ri].surgeries@.len() > 1 ==> post.rooms@[ri].wf(),
        post.daily_surgeons.wf(),
        post.daily_surgeons.spec_get(s.surgeon_id).wf(),
    ensures
        post.wf(),
{
    lemma_unschedule_rooms_wf(pre, post, s, ri, si);
    lemma_unschedule_ids(pre, post, s, ri, si);
    lemma_unschedule_known(pre, post, s, ri, si);
    assert(pre.rooms@[ri].wf());
    lemma_unschedule_disjoint(pre, post, s, ri, si);
    reveal(Day::trackers_ok);
    assert forall|k: SurgeonID| post.daily_surgeons.contains_spec(k) implies {
        let tr = #[trigger] post.daily_surgeons.spec_get(k);
        &&& tr.wf()
        &&& tr.current_day_time == surgeon_day_load(post.rooms@, k)
        &&& timeline_mirrors(post.rooms@, tr.scheduled_times@, k)
        &&& timeline_covers(post.rooms@, tr.scheduled_times@, k)
    } by {
        lemma_unschedule_tracker_one(pre, post, s, ri, si, k);
    }
}

/// A surgeon that no room of the sequence mentions carries no load there.
proof fn lemma_day_load_no_entries(rooms: Seq<RoomPerDay>, sid: SurgeonID)
    requires
        forall|r: int, i: int|
            0 <= r < rooms.len() && 0 <= i < rooms[r].surgeries@.len() ==> (
            #[trigger] rooms[r].surgeries@[i]).surgeon_id != sid,
    ensures
        surgeon_day_load(rooms, sid) == 0,
    decreases rooms.len(),
{
    if rooms.len() > 0 {
        assert forall|r: int, i: int|
            0 <= r < rooms.drop_last().len() && 0 <= i
                < rooms.drop_last()[r].surgeries@.len() implies (
        #[trigger] rooms.drop_last()[r].surgeries@[i]).surgeon_id != sid by {
            assert(rooms.drop_last()[r] == rooms[r]);
        }
        lemma_day_load_no_entries(rooms.drop_last(), sid);
        let last = rooms.len() - 1;
        assert forall|i: int| 0 <= i < rooms.last().surgeries@.len() implies (
        #[trigger] rooms.last().surgeries@[i]).surgeon_id != sid by {
            assert(rooms[last].surgeries@[i].surgeon_id != sid);
        }
        lemma_surgeon_seq_load_absent(rooms.last().surgeries@, sid);
    }
}

/// A surgeon without a daily tracker has no surgery in the day's rooms and
/// so carries no load there.
pub proof fn lemma_day_load_unknown(day: Day, sid: SurgeonID)
    requires
        day.wf(),
        !day.daily_surgeons.contains_spec(sid),
    ensures
        surgeon_day_load(day.rooms@, sid) == 0,
{
    assert forall|r: int, i: int|
        0 <= r < day.rooms@.len() && 0 <= i < day.rooms@[r].surgeries@.len() implies (
    #[trigger] day.rooms@[r].surgeries@[i]).surgeon_id != sid by {
        assert(day.daily_surgeons.contains_spec(day.rooms@[r].surgeries@[i].surgeon_id));
    }
    lemma_day_load_no_entries(day.rooms@, sid);
}

/// On one day, no surgeon operates for more than the daily budget of 24
/// slots, counted over all rooms of the day.
pub proof fn lemma_daily_budget(day: Day, sid: SurgeonID)
    requires
        day.wf(),
    ensures
        surgeon_day_load(day.rooms@, sid) <= MAX_DAY_TIME,
{
    if day.daily_surgeons.contains_spec(sid) {
        lemma_day_tracker_wf(day, sid);
        assert(day.daily_surgeons.spec_get(sid).wf());
    } else {
        lemma_day_load_unknown(day, sid);
    }
}

/// On one day, a surgeon's spans are pairwise disjoint over all rooms: a
/// surgeon is never in two places at once.
pub proof fn lemma_surgeon_spans_disjoint(day: Day, r1: int, i1: int, r2: int, i2: int)
    requires
        day.wf(),
        0 <= r1 < day.rooms@.len(),
        0 <= i1 < day.rooms@[r1].scheduled_surgeons@.len(),
        0 <= r2 < day.rooms@.len(),
        0 <= i2 < day.rooms@[r2].scheduled_surgeons@.len(),
        (r1, i1) != (r2, i2),
        day.rooms@[r1].scheduled_surgeons@[i1].1 == day.rooms@[r2].scheduled_surgeons@[i2].1,
    ensures
        day.rooms@[r1].scheduled_surgeons@[i1].0.disjoint_from(
            day.rooms@[r2].scheduled_surgeons@[i2].0,
        ),
{
    if r1 == r2 {
        assert(day.rooms@[r1].wf());
        if i1 < i2 {
            day.rooms@[r1].lemma_spans_separated(i1, i2);
        } else {
            day.rooms@[r1].lemma_spans_separated(i2, i1);
        }
    } else {
        reveal(Day::cross_room_disjoint);
    }
}

/// A first-fit answer always points into the rooms.
pub proof fn lemma_first_fit_from_range(d: Day, s: Surgery, from: int)
    ensures
        d.spec_first_fit_from(s, from) matches Some(ri) ==> from <= ri < d.rooms@.len(),
    decreases d.rooms@.len() - from,
{
    if from < 0 || from >= d.rooms@.len() {
    } else if d.spec_room_fits(s, from) {
    } else {
        lemma_first_fit_from_range(d, s, from + 1);
    }
}

/// After scheduling, the day contains exactly the old identifiers plus the
/// new surgery's.
#[verifier::rlimit(100)]
#[verifier::spinoff_prover]
pub proof fn lemma_contains_after_schedule(pre: Day, post: Day, s: Surgery, idx: (usize, usize))
    requires
        day_schedule_result(pre, post, s, idx),
    ensures
        forall|id: u64|
            #[trigger] rooms_contain_id(post.rooms@, id) <==> (rooms_contain_id(pre.rooms@, id)
                || id == s.id),
{
    lemma_first_fit_from_range(pre, s, 0);
    assert forall|id: u64|
        #[trigger] rooms_contain_id(post.rooms@, id) <==> (rooms_contain_id(pre.rooms@, id) || id
            == s.id) by {
        match pre.spec_first_fit(s) {
            Some(ri) => {
                let n0 = pre.rooms@[ri].surgeries@.len() as int;
                if rooms_contain_id(post.rooms@, id) {
                    let (r, i) = choose|r: int, i: int|
                        0 <= r < post.rooms@.len() && 0 <= i < post.rooms@[r].surgeries@.len()
                            && post.rooms@[r].surgeries@[i].id == id;
                    if r == ri && i == n0 {
                        assert(post.rooms@[r].surgeries@[i] == s);
                    } else {
                        if r != ri {
                            assert(post.rooms@[r] == pre.rooms@[r]);
                        }
                        assert(pre.rooms@[r].surgeries@[i].id == id);
                        assert(rooms_contain_id(pre.rooms@, id));
                    }
                }
                if rooms_contain_id(pre.rooms@, id) {
                    let (r, i) = choose|r: int, i: int|
                        0 <= r < pre.rooms@.len() && 0 <= i < pre.rooms@[r].surgeries@.len()
                            && pre.rooms@[r].surgeries@[i].id == id;
                    if r != ri {
                        assert(post.rooms@[r] == pre.rooms@[r]);
                    }
                    assert(post.rooms@[r].surgeries@[i].id == id);
                    assert(rooms_contain_id(post.rooms@, id));
                }
                if id == s.id {
                    assert(post.rooms@[ri].surgeries@[n0].id == id);
                    assert(rooms_contain_id(post.rooms@, id));
                }
            },
            None => {
                let rn = pre.rooms@.len() as int;
                if rooms_contain_id(post.rooms@, id) {
                    let (r, i) = choose|r: int, i: int|
                        0 <= r < post.rooms@.len() && 0 <= i < post.rooms@[r].surgeries@.len()
                            && post.rooms@[r].surgeries@[i].id == id;
                    if r == rn {
                        assert(post.rooms@[r] == post.rooms@.last());
                        assert(post.rooms@[r].surgeries@[i] == s);
                    } else {
                        assert(post.rooms@[r] == pre.rooms@[r]);
                        assert(pre.rooms@[r].surgeries@[i].id == id);
                        assert(rooms_contain_id(pre.rooms@, id));
                    }
                }
                if rooms_contain_id(pre.rooms@, id) {
                    let (r, i) = choose|r: int, i: int|
                        0 <= r < pre.rooms@.len() && 0 <= i < pre.rooms@[r].surgeries@.len()
                            && pre.rooms@[r].surgeries@[i].id == id;
                    assert(post.rooms@[r] == pre.rooms@[r]);
                    assert(post.rooms@[r].surgeries@[i].id == id);
                    assert(rooms_contain_id(post.rooms@, id));
                }
                if id == s.id {
                    assert(post.rooms@.last() == post.rooms@[rn]);
                    assert(post.rooms@[rn].surgeries@[0].id == id);
                    assert(rooms_contain_id(post.rooms@, id));
                }
            },
        }
    }
}

/// After unscheduling, the day contains exactly the old identifiers minus
/// the removed surgery's.
#[verifier::rlimit(100)]
#[verifier::spinoff_prover]
pub proof fn lemma_contains_after_unschedule(pre: Day, post: Day, s: Surgery, ri: int, si: int)
    requires
        0 <= ri < pre.rooms@.len(),
        0 <= si < pre.rooms@[ri].surgeries@.len(),
        pre.rooms@[ri].surgeries@[si] == s,
        rooms_after_unschedule(pre.rooms@, post.rooms@, s, ri, si),
        forall|r1: int, i1: int, r2: int, i2: int|
            0 <= r1 < pre.rooms@.len() && 0 <= i1 < pre.rooms@[r1].surgeries@.len() && 0 <= r2
                < pre.rooms@.len() && 0 <= i2 < pre.rooms@[r2].surgeries@.len() && (r1, i1) != (
            r2,
            i2,
        ) ==> (#[trigger] pre.rooms@[r1].surgeries@[i1]).id != (
            #[trigger] pre.rooms@[r2].surgeries@[i2]).id,
    ensures
        forall|id: u64|
            #[trigger] rooms_contain_id(post.rooms@, id) <==> (rooms_contain_id(pre.rooms@, id)
                && id != s.id),
{
    let room0 = pre.rooms@[ri];
    let gone = room0.surgeries@.len() == 1;
    assert forall|id: u64|
        #[trigger] rooms_contain_id(post.rooms@, id) <==> (rooms_contain_id(pre.rooms@, id) && id
            != s.id) by {
        if rooms_contain_id(post.rooms@, id) {
            let (r, i) = choose|r: int, i: int|
                0 <= r < post.rooms@.len() && 0 <= i < post.rooms@[r].surgeries@.len()
                    && post.rooms@[r].surgeries@[i].id == id;
            let rr: int = if gone && r >= ri {
                r + 1
            } else {
                r
            };
            let ii: int = if !gone && r == ri && i >= si {
                i + 1
            } else {
                i
            };
            if gone {
                if r < ri {
                    assert(post.rooms@[r] == pre.rooms@[r]);
                } else {
                    assert(post.rooms@[r] == pre.rooms@[rr]);
                }
            } else {
                if r != ri {
                    assert(post.rooms@[r] == pre.rooms@[r]);
                } else {
                    assert(post.rooms@[ri].surgeries@[i] == room0.surgeries@[ii]);
                }
            }
            assert(pre.rooms@[rr].surgeries@[ii].id == id);
            assert(rooms_contain_id(pre.rooms@, id));
            assert((rr, ii) != (ri, si)) by {
                if gone && rr == ri {
                    assert(false);
                }
            }
            assert(id != s.id);
        }
        if rooms_contain_id(pre.rooms@, id) && id != s.id {
            let (r, i) = choose|r: int, i: int|
                0 <= r < pre.rooms@.len() && 0 <= i < pre.rooms@[r].surgeries@.len()
                    && pre.rooms@[r].surgeries@[i].id == id;
            assert((r, i) != (ri, si));
            if gone {
                assert(r != ri) by {
                    if r == ri {
                        assert(i == si);
                    }
                }
                let rr: int = if r < ri {
                    r
                } else {
                    r - 1
                };
                assert(post.rooms@[rr] == pre.rooms@[r]);
                assert(post.rooms@[rr].surgeries@[i].id == id);
            } else {
                if r != ri {
                    assert(post.rooms@[r] == pre.rooms@[r]);
                    assert(post.rooms@[r].surgeries@[i].id == id);
                } else {
                    let ii: int = if i < si {
                        i
                    } else {
                        i - 1
                    };
                    assert(post.rooms@[ri].surgeries@[ii] == room0.surgeries@[i]);
                    assert(post.rooms@[ri].surgeries@[ii].id == id);
                }
            }
            assert(rooms_contain_id(post.rooms@, id));
        }
    }
}

} // verus!
