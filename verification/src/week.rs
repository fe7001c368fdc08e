pub mod day;
pub mod room_per_day;

use vstd::prelude::*;

use crate::surgeon::{times_id_index, SurgeonID, SurgeonWeekly, MAX_DAY_TIME, MAX_WEEK_TIME};
use crate::surgeon_map::SurgeonMap;
use crate::surgery::Surgery;
use crate::time_range::TimeRange;
use crate::week::day::{
    day_schedule_result, lemma_contains_after_schedule, lemma_contains_after_unschedule,
    rooms_contain_id, surgeon_day_load, unschedule_post, Day,
};

verus! {

/// A week holds at most five days.
pub const MAX_DAYS: usize = 5;

/// The surgery slots that surgeon `sid` occupies over a whole week.
pub open spec fn surgeon_week_load(days: Seq<Day>, sid: SurgeonID) -> int
    decreases days.len(),
{
    if days.len() == 0 {
        0
    } else {
        surgeon_week_load(days.drop_last(), sid) + surgeon_day_load(days.last().rooms@, sid)
    }
}

/// Some day of the week holds a surgery with this identifier.
pub open spec fn week_contains_id(days: Seq<Day>, id: u64) -> bool {
    exists|d: int| 0 <= d < days.len() && #[trigger] rooms_contain_id(days[d].rooms@, id)
}

pub proof fn lemma_surgeon_week_load_update(days: Seq<Day>, sid: SurgeonID, d: int, day: Day)
    requires
        0 <= d < days.len(),
    ensures
        surgeon_week_load(days.update(d, day), sid) == surgeon_week_load(days, sid)
            - surgeon_day_load(days[d].rooms@, sid) + surgeon_day_load(day.rooms@, sid),
    decreases days.len(),
{
    if d == days.len() - 1 {
        assert(days.update(d, day).drop_last() =~= days.drop_last());
        assert(days.update(d, day).last() == day);
    } else {
        lemma_surgeon_week_load_update(days.drop_last(), sid, d, day);
        assert(days.update(d, day).drop_last() =~= days.drop_last().update(d, day));
        assert(days.update(d, day).last() == days.last());
    }
}

pub proof fn lemma_surgeon_week_load_push(days: Seq<Day>, sid: SurgeonID, day: Day)
    ensures
        surgeon_week_load(days.push(day), sid) == surgeon_week_load(days, sid)
            + surgeon_day_load(day.rooms@, sid),
{
    assert(days.push(day).drop_last() =~= days);
    assert(days.push(day).last() == day);
}

pub proof fn lemma_surgeon_week_load_remove(days: Seq<Day>, sid: SurgeonID, d: int)
    requires
        0 <= d < days.len(),
    ensures
        surgeon_week_load(days.remove(d), sid) == surgeon_week_load(days, sid)
            - surgeon_day_load(days[d].rooms@, sid),
    decreases days.len(),
{
    if d == days.len() - 1 {
        assert(days.remove(d) =~= days.drop_last());
    } else {
        lemma_surgeon_week_load_remove(days.drop_last(), sid, d);
        assert(days.remove(d) =~= days.drop_last().remove(d).push(days.last()));
        assert(days.remove(d).drop_last() =~= days.drop_last().remove(d));
        assert(days.remove(d).last() == days.last());
    }
}

pub proof fn lemma_surgeon_week_load_member(days: Seq<Day>, sid: SurgeonID, d: int)
    requires
        0 <= d < days.len(),
        forall|j: int| 0 <= j < days.len() ==> surgeon_day_load((#[trigger] days[j]).rooms@, sid)
            >= 0,
    ensures
        surgeon_week_load(days, sid) >= surgeon_day_load(days[d].rooms@, sid),
    decreases days.len(),
{
    if d == days.len() - 1 {
        lemma_week_load_nonneg(days.drop_last(), sid);
    } else {
        assert(forall|j: int|
            0 <= j < days.drop_last().len() ==> (#[trigger] days.drop_last()[j]) == days[j]);
        lemma_surgeon_week_load_member(days.drop_last(), sid, d);
    }
}

pub proof fn lemma_week_load_nonneg(days: Seq<Day>, sid: SurgeonID)
    requires
        forall|j: int| 0 <= j < days.len() ==> surgeon_day_load((#[trigger] days[j]).rooms@, sid)
            >= 0,
    ensures
        surgeon_week_load(days, sid) >= 0,
    decreases days.len(),
{
    if days.len() > 0 {
        assert(forall|j: int|
            0 <= j < days.drop_last().len() ==> (#[trigger] days.drop_last()[j]) == days[j]);
        lemma_week_load_nonneg(days.drop_last(), sid);
    }
}

/// Where a tentative placement went: which day, which room of that day, and
/// which position in that room. Consumed by `unschedule_surgery` to undo
/// exactly that placement.
#[derive(Clone, Copy, PartialEq, Eq, Structural, Debug)]
pub struct ScheduleToken {
    pub day_index: usize,
    pub room_index: usize,
    pub surgery_index: usize,
}

/// One week of the schedule: up to five days and the weekly time budget of
/// every surgeon.
#[verifier::ext_equal]
#[derive(Debug)]
pub struct Week {
    pub days: Vec<Day>,
    pub rooms_count: usize,
    pub surgeon_ids: Vec<SurgeonID>,
    pub weekly_surgeons: SurgeonMap<SurgeonWeekly>,
}

/// How scheduling `s` changes the weekly trackers: the surgeon's budget
/// grows by the duration and every other tracker stays as it was.
pub open spec fn week_tracker_allocate_post(pre: Week, post: Week, s: Surgery) -> bool {
    let sid = s.surgeon_id;
    &&& post.weekly_surgeons.ids@ == pre.weekly_surgeons.ids@
    &&& post.weekly_surgeons.vals@ == pre.weekly_surgeons.vals@.update(
        pre.weekly_surgeons.key_index(sid),
        post.weekly_surgeons.spec_get(sid),
    )
    &&& post.weekly_surgeons.spec_get(sid).current_week_time == pre.weekly_surgeons.spec_get(
        sid,
    ).current_week_time + s.duration
    &&& post.weekly_surgeons.spec_get(sid).max_week_time == pre.weekly_surgeons.spec_get(
        sid,
    ).max_week_time
    &&& forall|k: SurgeonID|
        pre.weekly_surgeons.contains_spec(k) && k != sid
            ==> #[trigger] post.weekly_surgeons.spec_get(k) == pre.weekly_surgeons.spec_get(k)
}

/// Same, with the budget shrinking instead.
pub open spec fn week_tracker_deallocate_post(pre: Week, post: Week, s: Surgery) -> bool {
    let sid = s.surgeon_id;
    &&& post.weekly_surgeons.ids@ == pre.weekly_surgeons.ids@
    &&& post.weekly_surgeons.vals@ == pre.weekly_surgeons.vals@.update(
        pre.weekly_surgeons.key_index(sid),
        post.weekly_surgeons.spec_get(sid),
    )
    &&& post.weekly_surgeons.spec_get(sid).current_week_time == pre.weekly_surgeons.spec_get(
        sid,
    ).current_week_time - s.duration
    &&& post.weekly_surgeons.spec_get(sid).max_week_time == pre.weekly_surgeons.spec_get(
        sid,
    ).max_week_time
    &&& forall|k: SurgeonID|
        pre.weekly_surgeons.contains_spec(k) && k != sid
            ==> #[trigger] post.weekly_surgeons.spec_get(k) == pre.weekly_surgeons.spec_get(k)
}

/// What a freshly opened day looks like right after taking its first
/// surgery: one room, holding `s` from slot 1, trackers in step.
pub open spec fn fresh_day_with(day: Day, s: Surgery, surgeon_ids: Seq<SurgeonID>) -> bool {
    let span = TimeRange { start: 1, end: (3 + s.duration) as u8 };
    &&& day.rooms@.len() == 1
    &&& day.rooms@[0].surgeries@ == seq![s]
    &&& day.rooms@[0].scheduled_surgeons@ == seq![(span, s.surgeon_id)]
    &&& day.rooms@[0].speciality == s.speciality
    &&& day.rooms@[0].current_used_slots == 2 + s.duration
    &&& forall|k: SurgeonID| day.daily_surgeons.contains_spec(k) <==> surgeon_ids.contains(k)
}

/// How scheduling `s` changes a week.
pub open spec fn week_schedule_post(pre: Week, post: Week, s: Surgery, tok: ScheduleToken) -> bool {
    &&& post.rooms_count == pre.rooms_count
    &&& post.surgeon_ids@ == pre.surgeon_ids@
    &&& week_tracker_allocate_post(pre, post, s)
    &&& match pre.spec_first_day(s) {
        Some(d) => {
            &&& tok.day_index == d
            &&& post.days@.len() == pre.days@.len()
            &&& forall|d2: int|
                0 <= d2 < pre.days@.len() && d2 != d ==> #[trigger] post.days@[d2]
                    == pre.days@[d2]
            &&& day_schedule_result(
                pre.days@[d],
                post.days@[d],
                s,
                (tok.room_index, tok.surgery_index),
            )
        },
        None => {
            &&& tok.day_index == pre.days@.len()
            &&& tok.room_index == 0
            &&& tok.surgery_index == 0
            &&& post.days@.len() == pre.days@.len() + 1
            &&& forall|d2: int|
                0 <= d2 < pre.days@.len() ==> #[trigger] post.days@[d2] == pre.days@[d2]
            &&& fresh_day_with(post.days@.last(), s, pre.surgeon_ids@)
            &&& post.days@.last().rooms_count == pre.rooms_count
        },
    }
}

/// How unscheduling the placement under `tok` changes a week.
pub open spec fn week_unschedule_post(pre: Week, post: Week, s: Surgery, tok: ScheduleToken) -> bool {
    let d = tok.day_index as int;
    let day0 = pre.days@[d];
    let day_gone = day0.rooms@.len() == 1 && day0.rooms@[0].surgeries@.len() == 1;
    &&& post.rooms_count == pre.rooms_count
    &&& post.surgeon_ids@ == pre.surgeon_ids@
    &&& week_tracker_deallocate_post(pre, post, s)
    &&& (day_gone ==> post.days@ == pre.days@.remove(d))
    &&& (!day_gone ==> {
        &&& post.days@.len() == pre.days@.len()
        &&& forall|d2: int|
            0 <= d2 < pre.days@.len() && d2 != d ==> #[trigger] post.days@[d2] == pre.days@[d2]
        &&& unschedule_post(
            day0,
            post.days@[d],
            s,
            tok.room_index as int,
            tok.surgery_index as int,
        )
    })
}

impl Week {
    /// Every day of the week is sound, open for this week's rooms, never
    /// left empty, and tracks exactly this week's surgeons.
    pub open spec fn days_wf(self) -> bool {
        forall|d: int|
            0 <= d < self.days@.len() ==> {
                let day = #[trigger] self.days@[d];
                &&& day.wf()
                &&& day.rooms@.len() > 0
                &&& day.rooms_count == self.rooms_count
            }
    }

    /// A surgeon known to any day is a surgeon of this week.
    pub open spec fn surgeons_match(self) -> bool {
        forall|d: int, k: SurgeonID|
            0 <= d < self.days@.len() ==> (#[trigger] self.days@[d].daily_surgeons.contains_spec(
                k,
            ) <==> self.weekly_surgeons.contains_spec(k))
    }

    /// No surgery identifier appears on two different days.
    #[verifier::opaque]
    pub open spec fn week_ids_distinct(self) -> bool {
        forall|d1: int, d2: int, id: u64|
            0 <= d1 < self.days@.len() && 0 <= d2 < self.days@.len() && d1 != d2
                && #[trigger] rooms_contain_id(self.days@[d1].rooms@, id)
                ==> !#[trigger] rooms_contain_id(self.days@[d2].rooms@, id)
    }

    /// The weekly trackers are sound and account exactly for the load of
    /// every surgeon over the days.
    #[verifier::opaque]
    pub open spec fn week_trackers_ok(self) -> bool {
        &&& self.weekly_surgeons.wf()
        &&& self.surgeon_ids@ == self.weekly_surgeons.ids@
        &&& forall|k: SurgeonID|
            self.weekly_surgeons.contains_spec(k) ==> {
                let tr = #[trigger] self.weekly_surgeons.spec_get(k);
                &&& tr.wf()
                &&& tr.current_week_time == surgeon_week_load(self.days@, k)
            }
    }

    pub open spec fn wf(self) -> bool {
        &&& self.days@.len() <= MAX_DAYS
        &&& self.days_wf()
        &&& self.surgeons_match()
        &&& self.week_ids_distinct()
        &&& self.week_trackers_ok()
    }

    /// The surgery could open a day of its own: the week has a free day, a
    /// room exists to open, and the surgery fits a fresh daily budget.
    pub open spec fn spec_fresh_day_ok(self, s: Surgery) -> bool {
        &&& self.days@.len() < MAX_DAYS
        &&& self.rooms_count >= 1
        &&& s.duration <= MAX_DAY_TIME
    }

    /// The surgeon's weekly budget allows the surgery, and some existing day
    /// takes it or a new day can open for it.
    pub open spec fn spec_can_schedule(self, s: Surgery) -> bool {
        &&& self.weekly_surgeons.spec_get(s.surgeon_id).spec_has_availability(s)
        &&& ((exists|d: int|
            0 <= d < self.days@.len() && (#[trigger] self.days@[d]).spec_can_schedule(s))
            || self.spec_fresh_day_ok(s))
    }

    /// The first existing day that can take the surgery, if any.
    pub open spec fn spec_first_day_from(self, s: Surgery, d: int) -> Option<int>
        decreases self.days@.len() - d,
    {
        if d < 0 || d >= self.days@.len() {
            None
        } else if self.days@[d].spec_can_schedule(s) {
            Some(d)
        } else {
            self.spec_first_day_from(s, d + 1)
        }
    }

    pub open spec fn spec_first_day(self, s: Surgery) -> Option<int> {
        self.spec_first_day_from(s, 0)
    }

    pub fn new(rooms_count: usize, surgeon_ids: &Vec<SurgeonID>) -> (week: Week)
        ensures
            week.wf(),
            week.days@.len() == 0,
            week.rooms_count == rooms_count,
            forall|k: u64| week.weekly_surgeons.contains_spec(k) <==> surgeon_ids@.contains(k),
            forall|k: u64|
                week.weekly_surgeons.contains_spec(k) ==> #[trigger] week.weekly_surgeons.spec_get(
                    k,
                ) == SurgeonWeekly::initial(),
            forall|k: u64| week.surgeon_ids@.contains(k) <==> surgeon_ids@.contains(k),
    {
        let weekly = SurgeonWeekly::many_from_ids(surgeon_ids);
        let mut ids: Vec<SurgeonID> = Vec::new();
        let mut i: usize = 0;
        while i < weekly.ids.len()
            invariant
                0 <= i <= weekly.ids@.len(),
                ids@ == weekly.ids@.subrange(0, i as int),
            decreases weekly.ids@.len() - i,
        {
            ids.push(weekly.ids[i]);
            proof {
                assert(weekly.ids@.subrange(0, (i + 1) as int) =~= weekly.ids@.subrange(
                    0,
                    i as int,
                ).push(weekly.ids@[i as int]));
            }
            i += 1;
        }
        proof {
            assert(weekly.ids@.subrange(0, weekly.ids@.len() as int) =~= weekly.ids@);
        }
        let week = Week { days: Vec::new(), rooms_count, surgeon_ids: ids, weekly_surgeons: weekly };
        proof {
            reveal(Week::week_ids_distinct);
            reveal(Week::week_trackers_ok);
            assert(week.surgeon_ids@ == weekly.ids@);
            assert forall|k: u64| week.surgeon_ids@.contains(k) <==> surgeon_ids@.contains(
                k,
            ) by {
                assert(weekly.contains_spec(k) <==> surgeon_ids@.contains(k));
            }
        }
        week
    }

    pub fn days(&self) -> (r: &Vec<Day>)
        ensures
            r@ == self.days@,
    {
        &self.days
    }

    /// Whether this identifier is scheduled anywhere in the week.
    pub fn contains_surgery(&self, id: u64) -> (r: bool)
        ensures
            r == week_contains_id(self.days@, id),
    {
        let mut d: usize = 0;
        while d < self.days.len()
            invariant
                0 <= d <= self.days@.len(),
                forall|j: int| 0 <= j < d ==> !rooms_contain_id((#[trigger] self.days@[j]).rooms@, id),
            decreases self.days@.len() - d,
        {
            if Self::day_contains(&self.days[d], id) {
                proof {
                    assert(rooms_contain_id(self.days@[d as int].rooms@, id));
                }
                return true;
            }
            d += 1;
        }
        false
    }

    fn day_contains(day: &Day, id: u64) -> (r: bool)
        ensures
            r == rooms_contain_id(day.rooms@, id),
    {
        let mut r: usize = 0;
        while r < day.rooms.len()
            invariant
                0 <= r <= day.rooms@.len(),
                forall|r2: int, i2: int|
                    0 <= r2 < r && 0 <= i2 < day.rooms@[r2].surgeries@.len() ==> (
                    #[trigger] day.rooms@[r2].surgeries@[i2]).id != id,
            decreases day.rooms@.len() - r,
        {
            let surgeries = day.rooms[r].surgeries();
            let mut i: usize = 0;
            while i < surgeries.len()
                invariant
                    0 <= i <= surgeries@.len(),
                    surgeries@ == day.rooms@[r as int].surgeries@,
                    0 <= r < day.rooms@.len(),
                    forall|i2: int|
                        0 <= i2 < i ==> (#[trigger] day.rooms@[r as int].surgeries@[i2]).id != id,
                decreases surgeries@.len() - i,
            {
                if surgeries[i].id == id {
                    proof {
                        assert((r as int) < day.rooms@.len() && (i as int)
                            < day.rooms@[r as int].surgeries@.len()
                            && day.rooms@[r as int].surgeries@[i as int].id == id);
                    }
                    return true;
                }
                i += 1;
            }
            r += 1;
        }
        proof {
            if rooms_contain_id(day.rooms@, id) {
                let (r2, i2) = choose|r2: int, i2: int|
                    0 <= r2 < day.rooms@.len() && 0 <= i2 < day.rooms@[r2].surgeries@.len()
                        && day.rooms@[r2].surgeries@[i2].id == id;
                assert(false);
            }
        }
        false
    }

    /// Whether the week can take the surgery at all: within the surgeon's
    /// weekly budget, and on some existing day or a freshly opened one.
    #[verifier::loop_isolation(false)]
    #[verifier::rlimit(60)]
    pub fn can_schedule_surgery(&self, surgery: &Surgery) -> (r: bool)
        requires
            self.wf(),
            surgery.wf(),
            self.weekly_surgeons.contains_spec(surgery.surgeon_id),
        ensures
            r == self.spec_can_schedule(*surgery),
    {
        proof {
            reveal(Week::week_trackers_ok);
        }
        let tracker = self.weekly_surgeons.get(surgery.surgeon_id);
        if !tracker.has_availability(surgery) {
            return false;
        }
        let mut d: usize = 0;
        while d < self.days.len()
            invariant
                0 <= d <= self.days@.len(),
                forall|j: int| 0 <= j < d ==> !(#[trigger] self.days@[j]).spec_can_schedule(
                    *surgery,
                ),
            decreases self.days@.len() - d,
        {
            if self.days[d].can_schedule_surgery(surgery) {
                return true;
            }
            d += 1;
        }
        self.days.len() < MAX_DAYS && self.rooms_count >= 1 && surgery.duration <= MAX_DAY_TIME
    }

    /// Places the surgery on the first day that can take it, or opens a new
    /// day; returns the token that can undo exactly this placement.
    #[verifier::loop_isolation(false)]
    #[verifier::rlimit(100)]
    pub fn schedule_surgery(&mut self, surgery: Surgery) -> (tok: ScheduleToken)
        requires
            old(self).wf(),
            surgery.wf(),
            old(self).weekly_surgeons.contains_spec(surgery.surgeon_id),
            old(self).spec_can_schedule(surgery),
            !week_contains_id(old(self).days@, surgery.id),
        ensures
            final(self).wf(),
            week_schedule_post(*old(self), *final(self), surgery, tok),
            week_contains_id(final(self).days@, surgery.id),
    {
        proof {
            reveal(Week::week_trackers_ok);
        }
        let ghost pre = *self;
        let sid = surgery.surgeon_id;
        let mut wt = *self.weekly_surgeons.get(sid);
        wt.allocate(&surgery);
        self.weekly_surgeons.set_value(sid, wt);
        let mut d: usize = 0;
        while d < self.days.len() && !self.days[d].can_schedule_surgery(&surgery)
            invariant
                self.days@ == pre.days@,
                0 <= d <= self.days@.len(),
                forall|j: int| 0 <= j < d ==> !(#[trigger] pre.days@[j]).spec_can_schedule(
                    surgery,
                ),
                pre.spec_first_day(surgery) == pre.spec_first_day_from(surgery, d as int),
            decreases self.days@.len() - d,
        {
            d += 1;
        }
        if d < self.days.len() {
            proof {
                assert(pre.spec_first_day(surgery) == Some(d as int));
                assert(!rooms_contain_id(pre.days@[d as int].rooms@, surgery.id)) by {
                    if rooms_contain_id(pre.days@[d as int].rooms@, surgery.id) {
                        assert(week_contains_id(pre.days@, surgery.id));
                    }
                }
            }
            let mut day = self.days.remove(d);
            let (ri, si) = day.schedule_surgery(surgery);
            self.days.insert(d, day);
            let tok = ScheduleToken { day_index: d, room_index: ri, surgery_index: si };
            proof {
                assert(self.days@ =~= pre.days@.update(d as int, self.days@[d as int]));
                assert(week_schedule_post(pre, *self, surgery, tok));
                assert forall|k: SurgeonID|
                    #[trigger] self.days@[d as int].daily_surgeons.contains_spec(k)
                        <==> pre.weekly_surgeons.contains_spec(k) by {
                    assert(self.days@[d as int].daily_surgeons.ids@
                        == pre.days@[d as int].daily_surgeons.ids@);
                    assert(pre.days@[d as int].daily_surgeons.contains_spec(k)
                        <==> pre.weekly_surgeons.contains_spec(k));
                }
                lemma_week_schedule_wf(pre, *self, surgery, tok);
                crate::week::day::lemma_contains_after_schedule(
                    pre.days@[d as int],
                    self.days@[d as int],
                    surgery,
                    (ri, si),
                );
                assert(rooms_contain_id(self.days@[d as int].rooms@, surgery.id));
            }
            tok
        } else {
            proof {
                assert(pre.spec_first_day(surgery) is None);
                lemma_first_day_from_none(pre, surgery, 0);
                assert(pre.spec_fresh_day_ok(surgery)) by {
                    if exists|d2: int|
                        0 <= d2 < pre.days@.len() && (#[trigger] pre.days@[d2]).spec_can_schedule(
                            surgery,
                        ) {
                        let d2 = choose|d2: int|
                            0 <= d2 < pre.days@.len() && (
                            #[trigger] pre.days@[d2]).spec_can_schedule(surgery);
                        assert(false);
                    }
                }
            }
            let mut day = crate::week::day::Day::new(self.rooms_count, &self.surgeon_ids);
            proof {
                assert(day.daily_surgeons.contains_spec(sid)) by {
                    assert(pre.weekly_surgeons.ids@.contains(sid));
                    assert(pre.surgeon_ids@.contains(sid));
                }
                assert(day.spec_can_schedule(surgery)) by {
                    assert(day.daily_surgeons.spec_get(sid).is_initial());
                    assert(day.daily_surgeons.spec_get(sid).spec_has_availability(surgery));
                    assert(crate::week::day::day_surgeon_free_slot(day.rooms@, sid) == 1);
                    assert(day.spec_can_open_new_room(surgery));
                }
                assert(!rooms_contain_id(day.rooms@, surgery.id)) by {
                    if rooms_contain_id(day.rooms@, surgery.id) {
                        let (r, i) = choose|r: int, i: int|
                            0 <= r < day.rooms@.len() && 0 <= i < day.rooms@[r].surgeries@.len()
                                && day.rooms@[r].surgeries@[i].id == surgery.id;
                        assert(false);
                    }
                }
            }
            let (ri, si) = day.schedule_surgery(surgery);
            self.days.push(day);
            let n = self.days.len();
            let tok = ScheduleToken { day_index: n - 1, room_index: ri, surgery_index: si };
            proof {
                let day1 = self.days@.last();
                assert(fresh_day_with(day1, surgery, pre.surgeon_ids@)) by {
                    assert(day1.rooms@.len() == 1);
                    assert(day1.rooms@[0].surgeries@ =~= seq![surgery]);
                    assert(day1.rooms@[0].scheduled_surgeons@ =~= seq![
                        (
                            TimeRange { start: 1, end: (3 + surgery.duration) as u8 },
                            surgery.surgeon_id,
                        ),
                    ]);
                }
                assert(week_schedule_post(pre, *self, surgery, tok));
                lemma_week_schedule_wf(pre, *self, surgery, tok);
                assert(rooms_contain_id(day1.rooms@, surgery.id)) by {
                    assert(day1.rooms@[0].surgeries@[0].id == surgery.id);
                }
                assert(week_contains_id(self.days@, surgery.id)) by {
                    assert(rooms_contain_id(self.days@[n - 1].rooms@, surgery.id));
                }
            }
            tok
        }
    }

    /// Undoes exactly the placement that `schedule_token` records, returning
    /// the surgeon's time; a day left empty is closed.
    #[verifier::rlimit(100)]
    #[verifier::spinoff_prover]
    pub fn unschedule_surgery(&mut self, schedule_token: ScheduleToken, surgery: &Surgery)
        requires
            old(self).wf(),
            schedule_token.day_index < old(self).days@.len(),
            schedule_token.room_index < old(self).days@[schedule_token.day_index as int].rooms@.len(),
            schedule_token.surgery_index < old(self).days@[schedule_token.day_index as int].rooms@[schedule_token.room_index as int].surgeries@.len(),
            old(self).days@[schedule_token.day_index as int].rooms@[schedule_token.room_index as int].surgeries@[schedule_token.surgery_index as int]
                == *surgery,
        ensures
            final(self).wf(),
            week_unschedule_post(*old(self), *final(self), *surgery, schedule_token),
    {
        proof {
            reveal(Week::week_trackers_ok);
        }
        let ghost pre = *self;
        let ghost d = schedule_token.day_index as int;
        let ghost ri = schedule_token.room_index as int;
        let ghost si = schedule_token.surgery_index as int;
        let sid = surgery.surgeon_id;
        proof {
            assert(pre.days@[d].wf());
            assert(pre.days@[d].rooms@[ri].wf());
            assert(pre.days@[d].rooms@[ri].surgeries@[si].wf());
            assert(pre.days@[d].daily_surgeons.contains_spec(sid));
            assert(pre.weekly_surgeons.contains_spec(sid));
            crate::week::day::lemma_surgeon_day_load_member(pre.days@[d].rooms@, sid, ri, si);
            assert forall|j: int| 0 <= j < pre.days@.len() implies surgeon_day_load(
                (#[trigger] pre.days@[j]).rooms@,
                sid,
            ) >= 0 by {
                crate::week::day::lemma_surgeon_day_load_nonneg(pre.days@[j].rooms@, sid);
            }
            lemma_surgeon_week_load_member(pre.days@, sid, d);
            assert(pre.weekly_surgeons.spec_get(sid).current_week_time >= surgery.duration);
        }
        let mut wt = *self.weekly_surgeons.get(sid);
        wt.deallocate(surgery);
        self.weekly_surgeons.set_value(sid, wt);
        let mut day = self.days.remove(schedule_token.day_index);
        day.unschedule_surgery(schedule_token.room_index, schedule_token.surgery_index, surgery);
        if day.is_empty() {
            proof {
                assert(day.rooms@.len() == 0) by {
                    if day.rooms@.len() > 0 {
                        assert(day.rooms@[0].wf() && day.rooms@[0].surgeries@.len() > 0);
                    }
                }
                assert(pre.days@[d].rooms@.len() == 1 && pre.days@[d].rooms@[0].surgeries@.len()
                    == 1) by {
                    let day0 = pre.days@[d];
                    if day0.rooms@[ri].surgeries@.len() > 1 {
                        assert(day.rooms@.len() == day0.rooms@.len());
                        assert(false);
                    }
                }
                assert(self.days@ == pre.days@.remove(d));
            }
        } else {
            self.days.insert(schedule_token.day_index, day);
            proof {
                assert(!(pre.days@[d].rooms@.len() == 1 && pre.days@[d].rooms@[0].surgeries@.len()
                    == 1)) by {
                    let day0 = pre.days@[d];
                    if day0.rooms@.len() == 1 && day0.rooms@[0].surgeries@.len() == 1 {
                        assert(day.rooms@ == day0.rooms@.remove(0));
                        assert(day.rooms@.len() == 0);
                        assert(false);
                    }
                }
                assert(self.days@ =~= pre.days@.remove(d).insert(d, day));
                assert forall|d2: int| 0 <= d2 < pre.days@.len() && d2 != d implies self.days@[d2]
                    == pre.days@[d2] by {
                }
            }
        }
        proof {
            assert(week_unschedule_post(pre, *self, *surgery, schedule_token));
            lemma_week_unschedule_wf(pre, *self, *surgery, schedule_token);
        }
    }
}

/// A negative first-day answer means no existing day can take the surgery.
pub proof fn lemma_first_day_from_none(w: Week, s: Surgery, from: int)
    requires
        w.spec_first_day_from(s, from) is None,
        from >= 0,
    ensures
        forall|d: int| from <= d < w.days@.len() ==> !(#[trigger] w.days@[d]).spec_can_schedule(s),
    decreases w.days@.len() - from,
{
    if from < w.days@.len() {
        lemma_first_day_from_none(w, s, from + 1);
    }
}

/// A first-day answer always points into the days.
pub proof fn lemma_first_day_from_range(w: Week, s: Surgery, from: int)
    ensures
        w.spec_first_day_from(s, from) matches Some(d) ==> from <= d < w.days@.len()
            && w.days@[d].spec_can_schedule(s),
    decreases w.days@.len() - from,
{
    if from < 0 || from >= w.days@.len() {
    } else if w.days@[from].spec_can_schedule(s) {
    } else {
        lemma_first_day_from_range(w, s, from + 1);
    }
}

/// Scheduling a surgery keeps a week well formed.
#[verifier::rlimit(100)]
#[verifier::spinoff_prover]
pub proof fn lemma_week_schedule_wf(pre: Week, post: Week, s: Surgery, tok: ScheduleToken)
    requires
        pre.wf(),
        s.wf(),
        pre.weekly_surgeons.contains_spec(s.surgeon_id),
        pre.spec_can_schedule(s),
        !week_contains_id(pre.days@, s.id),
        week_schedule_post(pre, post, s, tok),
        post.weekly_surgeons.wf(),
        tok.day_index < post.days@.len(),
        post.days@[tok.day_index as int].wf(),
        post.days@[tok.day_index as int].rooms@.len() > 0,
        post.days@[tok.day_index as int].rooms_count == pre.rooms_count,
        forall|k: SurgeonID|
            #[trigger] post.days@[tok.day_index as int].daily_surgeons.contains_spec(k)
                <==> pre.weekly_surgeons.contains_spec(k),
    ensures
        post.wf(),
{
    reveal(Week::week_trackers_ok);
    reveal(Week::week_ids_distinct);
    let sid = s.surgeon_id;
    let d = tok.day_index as int;
    let day1 = post.days@[d];
    lemma_first_day_from_range(pre, s, 0);
    if pre.spec_first_day(s) is None {
        lemma_first_day_from_none(pre, s, 0);
        assert(pre.spec_fresh_day_ok(s)) by {
            if exists|d2: int|
                0 <= d2 < pre.days@.len() && (#[trigger] pre.days@[d2]).spec_can_schedule(s) {
                let d2 = choose|d2: int|
                    0 <= d2 < pre.days@.len() && (#[trigger] pre.days@[d2]).spec_can_schedule(s);
                assert(false);
            }
        }
    }
    assert(post.days@.len() <= MAX_DAYS);

    assert(post.days_wf()) by {
        assert forall|d2: int| 0 <= d2 < post.days@.len() implies {
            let day = #[trigger] post.days@[d2];
            &&& day.wf()
            &&& day.rooms@.len() > 0
            &&& day.rooms_count == post.rooms_count
        } by {
            if d2 != d {
                assert(post.days@[d2] == pre.days@[d2]);
            }
        }
    }

    assert(post.surgeons_match()) by {
        assert forall|d2: int, k: SurgeonID| 0 <= d2 < post.days@.len() implies (
        #[trigger] post.days@[d2].daily_surgeons.contains_spec(k)
            <==> post.weekly_surgeons.contains_spec(k)) by {
            if d2 != d {
                assert(post.days@[d2] == pre.days@[d2]);
            }
        }
    }

    assert(post.week_ids_distinct()) by {
        if pre.spec_first_day(s) is Some {
            lemma_contains_after_schedule(pre.days@[d], day1, s, (tok.room_index, tok.surgery_index));
        }
        assert forall|d1: int, d2: int, id: u64|
            0 <= d1 < post.days@.len() && 0 <= d2 < post.days@.len() && d1 != d2
                && #[trigger] rooms_contain_id(post.days@[d1].rooms@, id) implies !
        #[trigger] rooms_contain_id(post.days@[d2].rooms@, id) by {
            if d1 != d {
                assert(post.days@[d1] == pre.days@[d1]);
            }
            if d2 != d {
                assert(post.days@[d2] == pre.days@[d2]);
            }
            if rooms_contain_id(post.days@[d2].rooms@, id) {
                if d1 == d {
                    if pre.spec_first_day(s) is Some {
                        if id == s.id {
                            assert(!rooms_contain_id(pre.days@[d2].rooms@, s.id));
                        } else {
                            assert(rooms_contain_id(pre.days@[d1].rooms@, id));
                        }
                    } else {
                        let (r, i) = choose|r: int, i: int|
                            0 <= r < day1.rooms@.len() && 0 <= i
                                < day1.rooms@[r].surgeries@.len()
                                && day1.rooms@[r].surgeries@[i].id == id;
                        assert(day1.rooms@[r].surgeries@[i] == s);
                        assert(!rooms_contain_id(pre.days@[d2].rooms@, s.id));
                    }
                    assert(false);
                } else if d2 == d {
                    if pre.spec_first_day(s) is Some {
                        if rooms_contain_id(pre.days@[d2].rooms@, id) {
                            assert(false);
                        } else {
                            assert(id == s.id);
                            assert(!rooms_contain_id(pre.days@[d1].rooms@, s.id));
                        }
                    } else {
                        let (r, i) = choose|r: int, i: int|
                            0 <= r < day1.rooms@.len() && 0 <= i
                                < day1.rooms@[r].surgeries@.len()
                                && day1.rooms@[r].surgeries@[i].id == id;
                        assert(day1.rooms@[r].surgeries@[i] == s);
                        assert(!rooms_contain_id(pre.days@[d1].rooms@, s.id));
                    }
                    assert(false);
                } else {
                    assert(false);
                }
            }
        }
    }

    assert(post.week_trackers_ok()) by {
        assert(post.surgeon_ids@ == post.weekly_surgeons.ids@);
        assert forall|k: SurgeonID| post.weekly_surgeons.contains_spec(k) implies {
            let tr = #[trigger] post.weekly_surgeons.spec_get(k);
            &&& tr.wf()
            &&& tr.current_week_time == surgeon_week_load(post.days@, k)
        } by {
            assert(pre.weekly_surgeons.contains_spec(k));
            if pre.spec_first_day(s) is Some {
                assert(post.days@ =~= pre.days@.update(d, day1));
                lemma_surgeon_week_load_update(pre.days@, k, d, day1);
                crate::week::day::lemma_day_tracker_wf(pre.days@[d], k);
                crate::week::day::lemma_day_tracker_wf(day1, k);
                assert(surgeon_day_load(day1.rooms@, k) == surgeon_day_load(
                    pre.days@[d].rooms@,
                    k,
                ) + if k == sid {
                    s.duration as int
                } else {
                    0
                });
            } else {
                assert(post.days@ =~= pre.days@.push(day1));
                lemma_surgeon_week_load_push(pre.days@, k, day1);
                let ss = day1.rooms@[0].surgeries@;
                assert(ss == seq![s]);
                assert(ss.drop_last() =~= Seq::<Surgery>::empty());
                assert(crate::week::day::surgeon_seq_load(Seq::<Surgery>::empty(), k) == 0);
                assert(crate::week::day::surgeon_seq_load(ss, k) == if k == sid {
                    s.duration as int
                } else {
                    0
                });
                assert(day1.rooms@ =~= seq![day1.rooms@[0]]);
                assert(day1.rooms@.drop_last() =~= Seq::<crate::week::room_per_day::RoomPerDay>::empty());
                assert(surgeon_day_load(
                    Seq::<crate::week::room_per_day::RoomPerDay>::empty(),
                    k,
                ) == 0);
                assert(day1.rooms@.last() == day1.rooms@[0]);
                assert(surgeon_day_load(day1.rooms@, k) == if k == sid {
                    s.duration as int
                } else {
                    0
                });
            }
            if k != sid {
                assert(post.weekly_surgeons.spec_get(k) == pre.weekly_surgeons.spec_get(k));
            }
        }
    }
}

/// Unscheduling a surgery keeps a week well formed.
#[verifier::rlimit(100)]
#[verifier::spinoff_prover]
pub proof fn lemma_week_unschedule_wf(pre: Week, post: Week, s: Surgery, tok: ScheduleToken)
    requires
        pre.wf(),
        tok.day_index < pre.days@.len(),
        tok.room_index < pre.days@[tok.day_index as int].rooms@.len(),
        tok.surgery_index < pre.days@[tok.day_index as int].rooms@[tok.room_index as int].surgeries@.len(),
        pre.days@[tok.day_index as int].rooms@[tok.room_index as int].surgeries@[tok.surgery_index as int]
            == s,
        week_unschedule_post(pre, post, s, tok),
        post.weekly_surgeons.wf(),
        ({
            let day0 = pre.days@[tok.day_index as int];
            !(day0.rooms@.len() == 1 && day0.rooms@[0].surgeries@.len() == 1)
        }) ==> tok.day_index < post.days@.len() && post.days@[tok.day_index as int].wf()
            && post.days@[tok.day_index as int].rooms@.len() > 0,
    ensures
        post.wf(),
{
    reveal(Week::week_trackers_ok);
    reveal(Week::week_ids_distinct);
    let sid = s.surgeon_id;
    let d = tok.day_index as int;
    let ri = tok.room_index as int;
    let si = tok.surgery_index as int;
    let day0 = pre.days@[d];
    let day_gone = day0.rooms@.len() == 1 && day0.rooms@[0].surgeries@.len() == 1;
    assert(day0.wf());

    assert(post.days_wf()) by {
        assert forall|d2: int| 0 <= d2 < post.days@.len() implies {
            let day = #[trigger] post.days@[d2];
            &&& day.wf()
            &&& day.rooms@.len() > 0
            &&& day.rooms_count == post.rooms_count
        } by {
            if day_gone {
                if d2 < d {
                    assert(post.days@[d2] == pre.days@[d2]);
                } else {
                    assert(post.days@[d2] == pre.days@[d2 + 1]);
                }
            } else if d2 != d {
                assert(post.days@[d2] == pre.days@[d2]);
            } else {
                assert(post.days@[d].rooms_count == day0.rooms_count) by {
                    assert(crate::week::day::unschedule_post(day0, post.days@[d], s, ri, si));
                }
            }
        }
    }

    assert(post.surgeons_match()) by {
        assert forall|d2: int, k: SurgeonID| 0 <= d2 < post.days@.len() implies (
        #[trigger] post.days@[d2].daily_surgeons.contains_spec(k)
            <==> post.weekly_surgeons.contains_spec(k)) by {
            let p2: int = if day_gone && d2 >= d {
                d2 + 1
            } else {
                d2
            };
            if day_gone {
                if d2 < d {
                    assert(post.days@[d2] == pre.days@[d2]);
                } else {
                    assert(post.days@[d2] == pre.days@[p2]);
                }
            } else if d2 != d {
                assert(post.days@[d2] == pre.days@[d2]);
            } else {
                assert(crate::week::day::unschedule_post(day0, post.days@[d], s, ri, si));
                assert(post.days@[d].daily_surgeons.ids@ == day0.daily_surgeons.ids@);
            }
            assert(pre.days@[p2].daily_surgeons.contains_spec(k)
                <==> pre.weekly_surgeons.contains_spec(k));
            assert(post.weekly_surgeons.ids@ == pre.weekly_surgeons.ids@);
        }
    }

    assert(post.week_ids_distinct()) by {
        if !day_gone {
            crate::week::day::lemma_day_ids_distinct(day0);
            lemma_contains_after_unschedule(day0, post.days@[d], s, ri, si);
        }
        assert forall|d1: int, d2: int, id: u64|
            0 <= d1 < post.days@.len() && 0 <= d2 < post.days@.len() && d1 != d2
                && #[trigger] rooms_contain_id(post.days@[d1].rooms@, id) implies !
        #[trigger] rooms_contain_id(post.days@[d2].rooms@, id) by {
            let p1: int = if day_gone && d1 >= d {
                d1 + 1
            } else {
                d1
            };
            let p2: int = if day_gone && d2 >= d {
                d2 + 1
            } else {
                d2
            };
            if day_gone {
                if d1 < d {
                    assert(post.days@[d1] == pre.days@[d1]);
                } else {
                    assert(post.days@[d1] == pre.days@[p1]);
                }
                if d2 < d {
                    assert(post.days@[d2] == pre.days@[d2]);
                } else {
                    assert(post.days@[d2] == pre.days@[p2]);
                }
                assert(rooms_contain_id(pre.days@[p1].rooms@, id));
                if rooms_contain_id(post.days@[d2].rooms@, id) {
                    assert(rooms_contain_id(pre.days@[p2].rooms@, id));
                    assert(false);
                }
            } else {
                if d1 != d {
                    assert(post.days@[d1] == pre.days@[d1]);
                }
                if d2 != d {
                    assert(post.days@[d2] == pre.days@[d2]);
                }
                if d1 == d {
                    assert(rooms_contain_id(pre.days@[d].rooms@, id));
                } else {
                    assert(rooms_contain_id(pre.days@[d1].rooms@, id));
                }
                if rooms_contain_id(post.days@[d2].rooms@, id) {
                    if d2 == d {
                        assert(rooms_contain_id(pre.days@[d].rooms@, id));
                    } else {
                        assert(rooms_contain_id(pre.days@[d2].rooms@, id));
                    }
                    assert(false);
                }
            }
        }
    }

    assert(post.week_trackers_ok()) by {
        assert(post.surgeon_ids@ == post.weekly_surgeons.ids@);
        assert forall|k: SurgeonID| post.weekly_surgeons.contains_spec(k) implies {
            let tr = #[trigger] post.weekly_surgeons.spec_get(k);
            &&& tr.wf()
            &&& tr.current_week_time == surgeon_week_load(post.days@, k)
        } by {
            assert(pre.weekly_surgeons.contains_spec(k));
            if day_gone {
                lemma_surgeon_week_load_remove(pre.days@, k, d);
                let ss = day0.rooms@[0].surgeries@;
                assert(ss =~= seq![s]);
                assert(ss.drop_last() =~= Seq::<Surgery>::empty());
                assert(crate::week::day::surgeon_seq_load(Seq::<Surgery>::empty(), k) == 0);
                assert(crate::week::day::surgeon_seq_load(ss, k) == if k == sid {
                    s.duration as int
                } else {
                    0
                });
                assert(day0.rooms@ =~= seq![day0.rooms@[0]]);
                assert(day0.rooms@.drop_last() =~= Seq::<crate::week::room_per_day::RoomPerDay>::empty());
                assert(surgeon_day_load(
                    Seq::<crate::week::room_per_day::RoomPerDay>::empty(),
                    k,
                ) == 0);
                assert(day0.rooms@.last() == day0.rooms@[0]);
                assert(surgeon_day_load(day0.rooms@, k) == if k == sid {
                    s.duration as int
                } else {
                    0
                });
            } else {
                assert(post.days@ =~= pre.days@.update(d, post.days@[d]));
                lemma_surgeon_week_load_update(pre.days@, k, d, post.days@[d]);
                crate::week::day::lemma_day_tracker_wf(day0, k);
                crate::week::day::lemma_day_tracker_wf(post.days@[d], k);
                assert(crate::week::day::unschedule_post(day0, post.days@[d], s, ri, si));
                assert(surgeon_day_load(post.days@[d].rooms@, k) == surgeon_day_load(
                    day0.rooms@,
                    k,
                ) - if k == sid {
                    s.duration as int
                } else {
                    0
                });
            }
            if k != sid {
                assert(post.weekly_surgeons.spec_get(k) == pre.weekly_surgeons.spec_get(k));
            }
        }
    }
}

impl Week {
    /// The sub-sequence of `bin`, in order, that this week can still take.
    pub open spec fn spec_filter_available(self, bin: Seq<Surgery>) -> Seq<Surgery>
        decreases bin.len(),
    {
        if bin.len() == 0 {
            Seq::empty()
        } else {
            let rest = self.spec_filter_available(bin.drop_last());
            if self.spec_can_schedule(bin.last()) {
                rest.push(bin.last())
            } else {
                rest
            }
        }
    }

    /// The week is full for this pool: the pool is non-empty and none of its
    /// surgeries can still be placed.
    pub open spec fn spec_is_full(self, bin: Seq<Surgery>) -> bool {
        bin.len() > 0 && self.spec_filter_available(bin).len() == 0
    }

    /// Keeps exactly the surgeries of `surgeries` that the week can take.
    #[verifier::loop_isolation(false)]
    pub fn filter_available_surgeries(&self, surgeries: &Vec<Surgery>) -> (result: Vec<Surgery>)
        requires
            self.wf(),
            forall|i: int|
                0 <= i < surgeries@.len() ==> (#[trigger] surgeries@[i]).wf()
                    && self.weekly_surgeons.contains_spec(surgeries@[i].surgeon_id),
        ensures
            result@ == self.spec_filter_available(surgeries@),
    {
        let mut result: Vec<Surgery> = Vec::new();
        let mut i: usize = 0;
        while i < surgeries.len()
            invariant
                0 <= i <= surgeries@.len(),
                result@ == self.spec_filter_available(surgeries@.subrange(0, i as int)),
            decreases surgeries@.len() - i,
        {
            let s = surgeries[i];
            if self.can_schedule_surgery(&s) {
                result.push(s);
            }
            proof {
                let prefix = surgeries@.subrange(0, i as int);
                let ext = surgeries@.subrange(0, (i + 1) as int);
                assert(ext.drop_last() =~= prefix);
                assert(ext.last() == surgeries@[i as int]);
            }
            i += 1;
        }
        proof {
            assert(surgeries@.subrange(0, surgeries@.len() as int) =~= surgeries@);
        }
        result
    }

    /// Whether nothing in the (non-empty) pool fits this week any more.
    pub fn is_full(&self, surgeries: &Vec<Surgery>) -> (r: bool)
        requires
            self.wf(),
            forall|i: int|
                0 <= i < surgeries@.len() ==> (#[trigger] surgeries@[i]).wf()
                    && self.weekly_surgeons.contains_spec(surgeries@[i].surgeon_id),
        ensures
            r == self.spec_is_full(surgeries@),
    {
        !surgeries.is_empty() && self.filter_available_surgeries(surgeries).is_empty()
    }
}

/// What `filter_available_surgeries` keeps is exactly the schedulable part
/// of the pool: a surgery is in the result if and only if it is in the pool
/// and the week can still take it.
pub proof fn lemma_filter_available_members(w: Week, bin: Seq<Surgery>, s: Surgery)
    ensures
        w.spec_filter_available(bin).contains(s) <==> (bin.contains(s) && w.spec_can_schedule(s)),
    decreases bin.len(),
{
    if bin.len() == 0 {
        assert(!w.spec_filter_available(bin).contains(s));
        assert(!bin.contains(s));
    } else {
        lemma_filter_available_members(w, bin.drop_last(), s);
        let rest = w.spec_filter_available(bin.drop_last());
        if w.spec_can_schedule(bin.last()) {
            assert(w.spec_filter_available(bin) == rest.push(bin.last()));
            assert(rest.push(bin.last()).contains(s) <==> (rest.contains(s) || s == bin.last()))
                by {
                if rest.contains(s) {
                    let j = choose|j: int| 0 <= j < rest.len() && rest[j] == s;
                    assert(rest.push(bin.last())[j] == s);
                }
                if s == bin.last() {
                    assert(rest.push(bin.last())[rest.len() as int] == s);
                }
                if rest.push(bin.last()).contains(s) {
                    let j = choose|j: int|
                        0 <= j < rest.push(bin.last()).len() && rest.push(bin.last())[j] == s;
                    if j < rest.len() {
                        assert(rest[j] == s);
                    }
                }
            }
        }
        assert(bin.contains(s) <==> (bin.drop_last().contains(s) || s == bin.last())) by {
            if bin.drop_last().contains(s) {
                let j = choose|j: int| 0 <= j < bin.drop_last().len() && bin.drop_last()[j] == s;
                assert(bin[j] == s);
            }
            if s == bin.last() {
                assert(bin[bin.len() - 1] == s);
            }
            if bin.contains(s) {
                let j = choose|j: int| 0 <= j < bin.len() && bin[j] == s;
                if j < bin.len() - 1 {
                    assert(bin.drop_last()[j] == s);
                }
            }
        }
    }
}

/// An empty pool never makes a week full.
pub proof fn lemma_is_full_empty_bin(w: Week)
    ensures
        !w.spec_is_full(Seq::<Surgery>::empty()),
{
}

/// The week load of a sequence of days that each carry no load is zero.
proof fn lemma_week_load_zero(days: Seq<Day>, sid: SurgeonID)
    requires
        forall|j: int| 0 <= j < days.len() ==> surgeon_day_load((#[trigger] days[j]).rooms@, sid)
            == 0,
    ensures
        surgeon_week_load(days, sid) == 0,
    decreases days.len(),
{
    if days.len() > 0 {
        assert(forall|j: int|
            0 <= j < days.drop_last().len() ==> (#[trigger] days.drop_last()[j]) == days[j]);
        lemma_week_load_zero(days.drop_last(), sid);
    }
}

/// Over one week, no surgeon is assigned more than the weekly budget of 100
/// slots of surgery, counted over all days and rooms.
pub proof fn lemma_weekly_budget(week: Week, sid: SurgeonID)
    requires
        week.wf(),
    ensures
        surgeon_week_load(week.days@, sid) <= MAX_WEEK_TIME,
{
    reveal(Week::week_trackers_ok);
    if week.weekly_surgeons.contains_spec(sid) {
        assert(week.weekly_surgeons.spec_get(sid).wf());
    } else {
        assert forall|j: int| 0 <= j < week.days@.len() implies surgeon_day_load(
            (#[trigger] week.days@[j]).rooms@,
            sid,
        ) == 0 by {
            assert(!week.days@[j].daily_surgeons.contains_spec(sid));
            crate::week::day::lemma_day_load_unknown(week.days@[j], sid);
        }
        lemma_week_load_zero(week.days@, sid);
    }
}

/// Two rooms hold the same schedule: same surgeries, same spans, same
/// speciality, same slot accounting.
pub open spec fn room_matches(a: crate::week::room_per_day::RoomPerDay, b: crate::week::room_per_day::RoomPerDay) -> bool {
    &&& a.surgeries@ == b.surgeries@
    &&& a.scheduled_surgeons@ == b.scheduled_surgeons@
    &&& a.speciality == b.speciality
    &&& a.current_used_slots == b.current_used_slots
}

/// Two daily trackers hold the same budget and timeline.
pub open spec fn daily_matches(a: crate::surgeon::SurgeonDaily, b: crate::surgeon::SurgeonDaily) -> bool {
    &&& a.max_day_time == b.max_day_time
    &&& a.current_day_time == b.current_day_time
    &&& a.scheduled_times@ == b.scheduled_times@
}

/// Two days hold the same schedule, room by room and tracker by tracker.
pub open spec fn day_matches(a: Day, b: Day) -> bool {
    &&& a.rooms@.len() == b.rooms@.len()
    &&& forall|r: int| 0 <= r < a.rooms@.len() ==> room_matches(#[trigger] a.rooms@[r], b.rooms@[r])
    &&& a.rooms_count == b.rooms_count
    &&& a.daily_surgeons.ids@ == b.daily_surgeons.ids@
    &&& a.daily_surgeons.vals@.len() == b.daily_surgeons.vals@.len()
    &&& forall|i: int|
        0 <= i < a.daily_surgeons.vals@.len() ==> daily_matches(
            #[trigger] a.daily_surgeons.vals@[i],
            b.daily_surgeons.vals@[i],
        )
}

/// Two weeks hold the same schedule: same days, same budgets, same
/// surgeons.
pub open spec fn week_matches(a: Week, b: Week) -> bool {
    &&& a.days@.len() == b.days@.len()
    &&& forall|d: int| 0 <= d < a.days@.len() ==> day_matches(#[trigger] a.days@[d], b.days@[d])
    &&& a.rooms_count == b.rooms_count
    &&& a.surgeon_ids@ == b.surgeon_ids@
    &&& a.weekly_surgeons.ids@ == b.weekly_surgeons.ids@
    &&& a.weekly_surgeons.vals@ == b.weekly_surgeons.vals@
}

/// Scheduling a surgery into a day and unscheduling it with the returned
/// position brings the day back to the same schedule.
#[verifier::rlimit(100)]
#[verifier::spinoff_prover]
proof fn lemma_day_round_trip(day0: Day, s: Surgery, day1: Day, idx: (usize, usize), day2: Day)
    requires
        day0.wf(),
        s.wf(),
        day0.daily_surgeons.contains_spec(s.surgeon_id),
        !rooms_contain_id(day0.rooms@, s.id),
        day_schedule_result(day0, day1, s, idx),
        day1.wf(),
        idx.0 < day1.rooms@.len(),
        idx.1 < day1.rooms@[idx.0 as int].surgeries@.len(),
        unschedule_post(day1, day2, s, idx.0 as int, idx.1 as int),
    ensures
        day_matches(day2, day0),
{
    let sid = s.surgeon_id;
    let ri = idx.0 as int;
    let si = idx.1 as int;
    crate::week::day::lemma_first_fit_from_range(day0, s, 0);
    crate::week::day::lemma_day_map_wf(day0);
    crate::week::day::lemma_day_tracker_wf(day0, sid);
    crate::week::day::lemma_id_not_in_timeline(day0, s);
    day0.daily_surgeons.lemma_key_index(sid);
    day1.daily_surgeons.lemma_key_index(sid);
    crate::week::day::lemma_day_map_wf(day1);
    let ki = day0.daily_surgeons.key_index(sid);
    assert(day1.daily_surgeons.ids@ == day0.daily_surgeons.ids@);
    assert(day1.daily_surgeons.key_index(sid) == ki);
    let tr0 = day0.daily_surgeons.spec_get(sid);
    let tr1 = day1.daily_surgeons.spec_get(sid);
    let tr2 = day2.daily_surgeons.spec_get(sid);
    let times0 = tr0.scheduled_times@;
    let times1 = tr1.scheduled_times@;
    assert(tr1.wf()) by {
        crate::week::day::lemma_day_tracker_wf(day1, sid);
    }
    // the timeline entry removed by the round trip is the pushed one
    assert(times1.len() == times0.len() + 1);
    assert(times1[times0.len() as int].1 == s);
    crate::surgeon::lemma_times_id_index(times1, s.id);
    assert(times_id_index(times1, s.id) == times0.len()) by {
        let j = times_id_index(times1, s.id);
        if j < times0.len() {
            assert(times1[j] == times0[j]);
            assert(crate::surgeon::times_contains_id(times0, s.id));
            assert(false);
        }
    }
    assert(tr2.scheduled_times@ == times1.remove(times0.len() as int));
    assert(tr2.scheduled_times@ =~= times0);
    assert(daily_matches(tr2, tr0));
    // the daily tracker table returns to its old contents
    assert(day2.daily_surgeons.ids@ == day0.daily_surgeons.ids@);
    assert(day2.daily_surgeons.vals@.len() == day0.daily_surgeons.vals@.len());
    assert forall|i: int| 0 <= i < day2.daily_surgeons.vals@.len() implies daily_matches(
        #[trigger] day2.daily_surgeons.vals@[i],
        day0.daily_surgeons.vals@[i],
    ) by {
        if i != ki {
            assert(day2.daily_surgeons.vals@[i] == day1.daily_surgeons.vals@[i]);
            assert(day1.daily_surgeons.vals@[i] == day0.daily_surgeons.vals@[i]);
        } else {
            assert(day2.daily_surgeons.vals@[i] == tr2);
            assert(day0.daily_surgeons.vals@[i] == tr0);
        }
    }
    // the rooms return to their old contents
    match day0.spec_first_fit(s) {
        Some(r0) => {
            assert(ri == r0);
            let n0 = day0.rooms@[r0].surgeries@.len() as int;
            assert(si == n0);
            assert(day1.rooms@[ri].surgeries@.len() == n0 + 1);
            assert(day1.rooms@[ri].surgeries@.len() > 1);
            assert(day2.rooms@.len() == day1.rooms@.len());
            assert forall|r: int| 0 <= r < day2.rooms@.len() implies room_matches(
                #[trigger] day2.rooms@[r],
                day0.rooms@[r],
            ) by {
                if r != ri {
                    assert(day2.rooms@[r] == day1.rooms@[r]);
                    assert(day1.rooms@[r] == day0.rooms@[r]);
                } else {
                    assert(day2.rooms@[ri].surgeries@ == day1.rooms@[ri].surgeries@.remove(si));
                    assert(day2.rooms@[ri].surgeries@ =~= day0.rooms@[ri].surgeries@);
                    assert(day2.rooms@[ri].scheduled_surgeons@ =~= day0.rooms@[ri].scheduled_surgeons@);
                }
            }
        },
        None => {
            assert(ri == day0.rooms@.len());
            assert(day1.rooms@[ri].surgeries@.len() == 1);
            assert(day2.rooms@ == day1.rooms@.remove(ri));
            assert(day2.rooms@ =~= day0.rooms@);
            assert forall|r: int| 0 <= r < day2.rooms@.len() implies room_matches(
                #[trigger] day2.rooms@[r],
                day0.rooms@[r],
            ) by {
            }
        },
    }
}

/// Scheduling a surgery and unscheduling it with the returned token are
/// inverses: the week comes back to the same schedule, the same slot
/// accounting, and the same surgeon budgets.
#[verifier::rlimit(100)]
#[verifier::spinoff_prover]
pub proof fn lemma_schedule_unschedule_inverse(
    w0: Week,
    s: Surgery,
    w1: Week,
    tok: ScheduleToken,
    w2: Week,
)
    requires
        w0.wf(),
        s.wf(),
        w0.weekly_surgeons.contains_spec(s.surgeon_id),
        w0.spec_can_schedule(s),
        !week_contains_id(w0.days@, s.id),
        week_schedule_post(w0, w1, s, tok),
        w1.wf(),
        tok.day_index < w1.days@.len(),
        tok.room_index < w1.days@[tok.day_index as int].rooms@.len(),
        tok.surgery_index < w1.days@[tok.day_index as int].rooms@[tok.room_index as int].surgeries@.len(),
        week_unschedule_post(w1, w2, s, tok),
    ensures
        week_matches(w2, w0),
{
    reveal(Week::week_trackers_ok);
    let sid = s.surgeon_id;
    let d = tok.day_index as int;
    lemma_first_day_from_range(w0, s, 0);
    w0.weekly_surgeons.lemma_key_index(sid);
    w1.weekly_surgeons.lemma_key_index(sid);
    let ki = w0.weekly_surgeons.key_index(sid);
    assert(w1.weekly_surgeons.ids@ == w0.weekly_surgeons.ids@);
    assert(w1.weekly_surgeons.key_index(sid) == ki);
    let wt0 = w0.weekly_surgeons.spec_get(sid);
    let wt2 = w2.weekly_surgeons.spec_get(sid);
    assert(wt2 == wt0) by {
        assert(wt2.current_week_time == wt0.current_week_time);
        assert(wt2.max_week_time == wt0.max_week_time);
    }
    assert(w2.weekly_surgeons.vals@ =~= w0.weekly_surgeons.vals@) by {
        assert forall|i: int| 0 <= i < w2.weekly_surgeons.vals@.len() implies
            w2.weekly_surgeons.vals@[i] == w0.weekly_surgeons.vals@[i] by {
            if i != ki {
                assert(w2.weekly_surgeons.vals@[i] == w1.weekly_surgeons.vals@[i]);
                assert(w1.weekly_surgeons.vals@[i] == w0.weekly_surgeons.vals@[i]);
            } else {
                assert(w2.weekly_surgeons.vals@[i] == wt2);
                assert(w0.weekly_surgeons.vals@[i] == wt0);
            }
        }
    }
    match w0.spec_first_day(s) {
        Some(d0) => {
            assert(d == d0);
            let day0 = w0.days@[d];
            let day1 = w1.days@[d];
            assert(day1 == w1.days@[d]);
            assert(day0.wf());
            assert(day1.wf());
            assert(!rooms_contain_id(day0.rooms@, s.id)) by {
                if rooms_contain_id(day0.rooms@, s.id) {
                    assert(week_contains_id(w0.days@, s.id));
                }
            }
            // the freshly placed surgery never leaves an emptied day behind
            let day_gone = day1.rooms@.len() == 1 && day1.rooms@[0].surgeries@.len() == 1;
            assert(!day_gone) by {
                crate::week::day::lemma_first_fit_from_range(day0, s, 0);
                match day0.spec_first_fit(s) {
                    Some(r0) => {
                        assert(day1.rooms@[r0].surgeries@.len()
                            == day0.rooms@[r0].surgeries@.len() + 1);
                        if day_gone {
                            assert(r0 == 0);
                            assert(day0.rooms@[r0].surgeries@.len() == 0);
                            assert(false);
                        }
                    },
                    None => {
                        assert(day1.rooms@.len() == day0.rooms@.len() + 1);
                        assert(day0.rooms@.len() > 0);
                    },
                }
            }
            assert(w2.days@.len() == w1.days@.len());
            let day2 = w2.days@[d];
            crate::week::day::lemma_first_fit_from_range(day0, s, 0);
            lemma_day_round_trip(day0, s, day1, (tok.room_index, tok.surgery_index), day2);
            assert forall|d2: int| 0 <= d2 < w2.days@.len() implies day_matches(
                #[trigger] w2.days@[d2],
                w0.days@[d2],
            ) by {
                if d2 != d {
                    assert(w2.days@[d2] == w1.days@[d2]);
                    assert(w1.days@[d2] == w0.days@[d2]);
                }
            }
        },
        None => {
            let day1 = w1.days@[d];
            assert(d == w0.days@.len());
            assert(day1 == w1.days@.last());
            assert(day1.rooms@.len() == 1 && day1.rooms@[0].surgeries@.len() == 1);
            assert(w2.days@ == w1.days@.remove(d));
            assert(w2.days@ =~= w0.days@);
            assert forall|d2: int| 0 <= d2 < w2.days@.len() implies day_matches(
                #[trigger] w2.days@[d2],
                w0.days@[d2],
            ) by {
            }
        },
    }
}

} // verus!
