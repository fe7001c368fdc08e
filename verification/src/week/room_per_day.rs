use vstd::prelude::*;

use crate::surgeon::SurgeonID;
use crate::surgery::{Speciality, Surgery};
use crate::time_range::TimeRange;

verus! {

/// The last usable slot of a day.
pub const LAST_SLOT: u8 = 48;

/// The slots a sequence of surgeries consumes, cleaning time included:
/// every surgery needs its duration plus 2 slots to clean the room.
pub open spec fn slots_sum(surgeries: Seq<Surgery>) -> int
    decreases surgeries.len(),
{
    if surgeries.len() == 0 {
        0
    } else {
        slots_sum(surgeries.drop_last()) + surgeries.last().duration + 2
    }
}

pub proof fn lemma_slots_sum_push(surgeries: Seq<Surgery>, s: Surgery)
    ensures
        slots_sum(surgeries.push(s)) == slots_sum(surgeries) + s.duration + 2,
{
    assert(surgeries.push(s).drop_last() =~= surgeries);
    assert(surgeries.push(s).last() == s);
}

pub proof fn lemma_slots_sum_remove(surgeries: Seq<Surgery>, i: int)
    requires
        0 <= i < surgeries.len(),
    ensures
        slots_sum(surgeries.remove(i)) == slots_sum(surgeries) - surgeries[i].duration - 2,
    decreases surgeries.len(),
{
    if i == surgeries.len() - 1 {
        assert(surgeries.remove(i) =~= surgeries.drop_last());
    } else {
        let rest = surgeries.drop_last();
        lemma_slots_sum_remove(rest, i);
        assert(surgeries.remove(i) =~= rest.remove(i).push(surgeries.last()));
        assert(surgeries.remove(i).drop_last() =~= rest.remove(i));
        assert(surgeries.remove(i).last() == surgeries.last());
    }
}

pub proof fn lemma_slots_sum_nonneg(surgeries: Seq<Surgery>)
    ensures
        slots_sum(surgeries) >= 0,
    decreases surgeries.len(),
{
    if surgeries.len() > 0 {
        lemma_slots_sum_nonneg(surgeries.drop_last());
    }
}

/// One operating room on one day: the surgeries placed in it, in order of
/// their slots, the matching spans with their surgeons, the speciality the
/// room serves today, and the slot accounting.
#[verifier::ext_equal]
#[derive(Debug)]
pub struct RoomPerDay {
    pub surgeries: Vec<Surgery>,
    pub scheduled_surgeons: Vec<(TimeRange, SurgeonID)>,
    pub speciality: Speciality,
    pub current_used_slots: u8,
}

impl RoomPerDay {
    pub open spec fn wf(self) -> bool {
        &&& self.surgeries@.len() == self.scheduled_surgeons@.len()
        &&& self.current_used_slots == slots_sum(self.surgeries@)
        &&& self.current_used_slots <= LAST_SLOT
        &&& forall|i: int|
            0 <= i < self.surgeries@.len() ==> {
                let s = #[trigger] self.surgeries@[i];
                let (t, sid) = self.scheduled_surgeons@[i];
                &&& s.wf()
                &&& s.speciality == self.speciality
                &&& sid == s.surgeon_id
                &&& 1 <= t.start < t.end <= LAST_SLOT
            }
        &&& forall|i: int|
            0 <= i < self.surgeries@.len() - 1 ==> (#[trigger] self.scheduled_surgeons@[i]).0.end
                <= self.scheduled_surgeons@[i + 1].0.start
    }

    /// Where the room's last span ends; the next surgery would start here.
    pub open spec fn last_end(self) -> int {
        self.scheduled_surgeons@.last().0.end as int
    }

    /// The room serves the surgery's speciality today and both the slot
    /// budget and the tail of the timeline leave space for it plus cleaning.
    pub open spec fn spec_can_schedule(self, s: Surgery) -> bool {
        &&& s.speciality == self.speciality
        &&& self.current_used_slots + s.duration + 2 <= LAST_SLOT
        &&& self.last_end() + s.duration + 2 <= LAST_SLOT
    }

    /// The span the surgery would get: appended right at the room's tail.
    pub open spec fn spec_when_will_schedule(self, s: Surgery) -> TimeRange {
        TimeRange {
            start: self.last_end() as u8,
            end: (self.last_end() + 2 + s.duration) as u8,
        }
    }

    /// No span of surgeon `surgeon_id` in this room conflicts with `time`;
    /// used to keep one surgeon out of two rooms at once.
    pub open spec fn spec_clear_for_surgeon(self, time: TimeRange, surgeon_id: SurgeonID) -> bool {
        forall|i: int|
            0 <= i < self.scheduled_surgeons@.len() && (
            #[trigger] self.scheduled_surgeons@[i]).1 == surgeon_id
                ==> self.scheduled_surgeons@[i].0.clear_of(time)
    }

    proof fn lemma_end_le(self, i: int, j: int)
        requires
            self.wf(),
            0 <= i <= j < self.scheduled_surgeons@.len(),
        ensures
            self.scheduled_surgeons@[i].0.end <= self.scheduled_surgeons@[j].0.end,
        decreases j - i,
    {
        if i < j {
            self.lemma_end_le(i, j - 1);
            assert(self.scheduled_surgeons@[j - 1].0.end <= self.scheduled_surgeons@[j].0.start);
            assert(self.surgeries@[j].wf());
            assert(self.scheduled_surgeons@[j].0.start < self.scheduled_surgeons@[j].0.end);
        }
    }

    /// Any two spans of a room are ordered and share no slot.
    pub proof fn lemma_spans_separated(self, i: int, j: int)
        requires
            self.wf(),
            0 <= i < j < self.scheduled_surgeons@.len(),
        ensures
            self.scheduled_surgeons@[i].0.end <= self.scheduled_surgeons@[j].0.start,
            self.scheduled_surgeons@[i].0.disjoint_from(self.scheduled_surgeons@[j].0),
    {
        self.lemma_end_le(i, j - 1);
        assert(self.scheduled_surgeons@[j - 1].0.end <= self.scheduled_surgeons@[j].0.start);
        assert(self.surgeries@[i].wf());
    }

    /// Opens a room with its first surgery at the start of the day: its span
    /// runs from slot 1 over the surgery and the cleaning gap.
    pub fn new(first_surgery: Surgery) -> (room: RoomPerDay)
        requires
            first_surgery.wf(),
            1 + 2 + first_surgery.duration <= LAST_SLOT,
        ensures
            room.wf(),
            room.surgeries@ =~= seq![first_surgery],
            room.scheduled_surgeons@ =~= seq![
                (
                    TimeRange { start: 1, end: (3 + first_surgery.duration) as u8 },
                    first_surgery.surgeon_id,
                ),
            ],
            room.speciality == first_surgery.speciality,
            room.current_used_slots == 2 + first_surgery.duration,
    {
        let surgery_duration = first_surgery.duration;
        let surgery_speciality = first_surgery.speciality;
        let surgeon_id = first_surgery.surgeon_id;
        let mut surgeries: Vec<Surgery> = Vec::new();
        surgeries.push(first_surgery);
        let mut scheduled: Vec<(TimeRange, SurgeonID)> = Vec::new();
        scheduled.push((TimeRange { start: 1, end: 3 + surgery_duration }, surgeon_id));
        let room = RoomPerDay {
            surgeries,
            scheduled_surgeons: scheduled,
            speciality: surgery_speciality,
            current_used_slots: 2 + surgery_duration,
        };
        proof {
            let v = room.surgeries@;
            assert(v.drop_last() =~= Seq::<Surgery>::empty());
            assert(slots_sum(Seq::<Surgery>::empty()) == 0);
            assert(slots_sum(v) == slots_sum(v.drop_last()) + v.last().duration + 2);
        }
        room
    }

    /// Opens a room whose first surgery sits at a span chosen by the caller,
    /// as when the surgeon is busy elsewhere earlier in the day.
    pub fn new_by_given_schedule(surgery: Surgery, schedule: TimeRange) -> (room: RoomPerDay)
        requires
            surgery.wf(),
            1 <= schedule.start < schedule.end <= LAST_SLOT,
            schedule.end == schedule.start + 2 + surgery.duration,
        ensures
            room.wf(),
            room.surgeries@ =~= seq![surgery],
            room.scheduled_surgeons@ =~= seq![(schedule, surgery.surgeon_id)],
            room.speciality == surgery.speciality,
            room.current_used_slots == 2 + surgery.duration,
    {
        let surgery_duration = surgery.duration;
        let surgery_speciality = surgery.speciality;
        let surgeon_id = surgery.surgeon_id;
        let mut surgeries: Vec<Surgery> = Vec::new();
        surgeries.push(surgery);
        let mut scheduled: Vec<(TimeRange, SurgeonID)> = Vec::new();
        scheduled.push((schedule, surgeon_id));
        let room = RoomPerDay {
            surgeries,
            scheduled_surgeons: scheduled,
            speciality: surgery_speciality,
            current_used_slots: 2 + surgery_duration,
        };
        proof {
            let v = room.surgeries@;
            assert(v.drop_last() =~= Seq::<Surgery>::empty());
            assert(slots_sum(Seq::<Surgery>::empty()) == 0);
            assert(slots_sum(v) == slots_sum(v.drop_last()) + v.last().duration + 2);
        }
        room
    }

    pub fn scheduled_surgeons(&self) -> (r: &Vec<(TimeRange, SurgeonID)>)
        ensures
            r@ == self.scheduled_surgeons@,
    {
        &self.scheduled_surgeons
    }

    pub fn is_empty(&self) -> (r: bool)
        ensures
            r == (self.surgeries@.len() == 0),
    {
        self.surgeries.is_empty()
    }

    pub fn surgeries(&self) -> (r: &Vec<Surgery>)
        ensures
            r@ == self.surgeries@,
    {
        &self.surgeries
    }

    pub fn can_schedule_surgery(&self, surgery: &Surgery) -> (r: bool)
        requires
            self.wf(),
            self.surgeries@.len() > 0,
            surgery.wf(),
        ensures
            r == self.spec_can_schedule(*surgery),
    {
        let last_end = self.scheduled_surgeons[self.scheduled_surgeons.len() - 1].0.end;
        self.speciality == surgery.speciality
            && self.current_used_slots + surgery.duration + 2 <= LAST_SLOT
            && last_end + surgery.duration + 2 <= LAST_SLOT
    }

    pub fn when_will_schedule(&self, surgery: &Surgery) -> (r: TimeRange)
        requires
            self.wf(),
            self.surgeries@.len() > 0,
            surgery.wf(),
        ensures
            r == self.spec_when_will_schedule(*surgery),
    {
        let last_time = self.scheduled_surgeons[self.scheduled_surgeons.len() - 1].0.end;
        TimeRange { start: last_time, end: last_time + 2 + surgery.duration }
    }

    /// Appends the surgery at the room's tail and returns its index.
    pub fn schedule_surgery(&mut self, surgery: Surgery) -> (idx: usize)
        requires
            old(self).wf(),
            old(self).surgeries@.len() > 0,
            surgery.wf(),
            old(self).spec_can_schedule(surgery),
        ensures
            final(self).wf(),
            final(self).surgeries@ == old(self).surgeries@.push(surgery),
            final(self).scheduled_surgeons@ == old(self).scheduled_surgeons@.push(
                (old(self).spec_when_will_schedule(surgery), surgery.surgeon_id),
            ),
            final(self).speciality == old(self).speciality,
            final(self).current_used_slots == old(self).current_used_slots + 2
                + surgery.duration,
            idx == old(self).surgeries@.len(),
    {
        let last_time = self.scheduled_surgeons[self.scheduled_surgeons.len() - 1].0.end;
        let surgeon_id = surgery.surgeon_id;
        let surgery_duration = surgery.duration;

        self.current_used_slots = self.current_used_slots + 2 + surgery_duration;
        self.surgeries.push(surgery);
        self.scheduled_surgeons.push(
            (TimeRange { start: last_time, end: last_time + 2 + surgery_duration }, surgeon_id),
        );
        proof {
            lemma_slots_sum_push(old(self).surgeries@, surgery);
        }
        self.surgeries.len() - 1
    }

    /// Removes the surgery at `surgery_index` and gives its slots back; the
    /// spans of the other surgeries keep their places.
    pub fn unschedule_surgery(&mut self, surgery_index: usize, surgery: &Surgery)
        requires
            old(self).wf(),
            surgery_index < old(self).surgeries@.len(),
            old(self).surgeries@[surgery_index as int] == *surgery,
        ensures
            final(self).wf(),
            final(self).surgeries@ == old(self).surgeries@.remove(surgery_index as int),
            final(self).scheduled_surgeons@ == old(self).scheduled_surgeons@.remove(
                surgery_index as int,
            ),
            final(self).speciality == old(self).speciality,
            final(self).current_used_slots == old(self).current_used_slots - 2
                - surgery.duration,
    {
        proof {
            lemma_slots_sum_remove(old(self).surgeries@, surgery_index as int);
            lemma_slots_sum_nonneg(old(self).surgeries@.remove(surgery_index as int));
        }
        self.current_used_slots = self.current_used_slots - 2 - surgery.duration;
        let _ = self.surgeries.remove(surgery_index);
        let _ = self.scheduled_surgeons.remove(surgery_index);
        proof {
            let k = surgery_index as int;
            let pre = *old(self);
            assert forall|i: int| 0 <= i < self.surgeries@.len() - 1 implies (
                #[trigger] self.scheduled_surgeons@[i]).0.end
                <= self.scheduled_surgeons@[i + 1].0.start by {
                if i + 1 < k {
                    assert(self.scheduled_surgeons@[i] == pre.scheduled_surgeons@[i]);
                    assert(self.scheduled_surgeons@[i + 1] == pre.scheduled_surgeons@[i + 1]);
                } else if i < k {
                    assert(self.scheduled_surgeons@[i] == pre.scheduled_surgeons@[i]);
                    assert(self.scheduled_surgeons@[i + 1] == pre.scheduled_surgeons@[i + 2]);
                    assert(pre.scheduled_surgeons@[i].0.end
                        <= pre.scheduled_surgeons@[i + 1].0.start);
                    assert(pre.scheduled_surgeons@[i + 1].0.start
                        < pre.scheduled_surgeons@[i + 1].0.end);
                    assert(pre.scheduled_surgeons@[i + 1].0.end
                        <= pre.scheduled_surgeons@[i + 2].0.start);
                } else {
                    assert(self.scheduled_surgeons@[i] == pre.scheduled_surgeons@[i + 1]);
                    assert(self.scheduled_surgeons@[i + 1] == pre.scheduled_surgeons@[i + 2]);
                }
            }
        }
    }

    /// Checks every span of the given surgeon in this room against `time`.
    pub fn can_schedule_surgeon_in_another_room(
        &self,
        time: &TimeRange,
        surgeon_id: SurgeonID,
    ) -> (r: bool)
        ensures
            r == self.spec_clear_for_surgeon(*time, surgeon_id),
    {
        let mut i: usize = 0;
        while i < self.scheduled_surgeons.len()
            invariant
                0 <= i <= self.scheduled_surgeons@.len(),
                forall|j: int|
                    0 <= j < i && (#[trigger] self.scheduled_surgeons@[j]).1 == surgeon_id
                        ==> self.scheduled_surgeons@[j].0.clear_of(*time),
            decreases self.scheduled_surgeons@.len() - i,
        {
            let (t, sid) = self.scheduled_surgeons[i];
            if sid == surgeon_id && !(t.end < time.start || t.start > time.end) {
                return false;
            }
            i += 1;
        }
        true
    }
}

/// The parallel bookkeeping of a room never drifts apart: there is exactly
/// one span per surgery.
pub proof fn lemma_room_parallel_lengths(room: RoomPerDay)
    requires
        room.wf(),
    ensures
        room.surgeries@.len() == room.scheduled_surgeons@.len(),
{
}

/// A room's slot accounting is exact, and no span runs past the end of the
/// day: `current_used_slots` is the sum of `duration + 2` over its surgeries
/// and every span ends by slot 48.
pub proof fn lemma_room_slot_accounting(room: RoomPerDay)
    requires
        room.wf(),
    ensures
        room.current_used_slots == slots_sum(room.surgeries@),
        forall|i: int|
            0 <= i < room.scheduled_surgeons@.len() ==> (
            #[trigger] room.scheduled_surgeons@[i]).0.end <= LAST_SLOT,
{
    assert forall|i: int| 0 <= i < room.scheduled_surgeons@.len() implies (
        #[trigger] room.scheduled_surgeons@[i]).0.end <= LAST_SLOT by {
        assert(room.surgeries@[i].wf());
    }
}

} // verus!
