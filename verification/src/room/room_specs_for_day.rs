use vstd::prelude::*;
use vstd::seq_lib::*;

use crate::surgery::{Speciality, Surgery};

verus! {

/// The plan of one room on one day: its surgeries, the speciality the room
/// serves that day, and how many slots are still free.
#[verifier::ext_equal]
pub struct RoomSpecsForDay {
    pub day: usize,
    pub surgeries: Vec<Surgery>,
    pub speciality: Speciality,
    pub remaining_slots: u8,
}

/// The slots a sequence of planned surgeries consumes, cleaning included,
/// except for the first surgery whose cleaning-free setup fits the opening
/// allotment of 46 slots.
pub open spec fn planned_slots(surgeries: Seq<Surgery>) -> int
    decreases surgeries.len(),
{
    if surgeries.len() == 0 {
        0
    } else {
        planned_slots(surgeries.drop_last()) + surgeries.last().duration + if surgeries.len() == 1 {
            0int
        } else {
            2int
        }
    }
}

impl RoomSpecsForDay {
    pub open spec fn wf(self) -> bool {
        &&& self.surgeries@.len() >= 1
        &&& self.remaining_slots == 46 - planned_slots(self.surgeries@)
        &&& planned_slots(self.surgeries@) <= 46
        &&& forall|i: int|
            0 <= i < self.surgeries@.len() ==> (#[trigger] self.surgeries@[i]).wf()
                && self.surgeries@[i].speciality == self.speciality
    }

    /// The surgery still fits the day, cleaning gap included.
    pub open spec fn spec_have_available_slot(self, surgery: Surgery) -> bool {
        surgery.duration + 2 <= self.remaining_slots
    }

    pub fn new(day: usize, surgery: Surgery) -> (room: RoomSpecsForDay)
        requires
            surgery.wf(),
        ensures
            room.wf(),
            room.day == day,
            room.surgeries@ =~= seq![surgery],
            room.speciality == surgery.speciality,
            room.remaining_slots == 46 - surgery.duration,
    {
        let surgery_duration = surgery.duration;
        let surgery_speciality = surgery.speciality;
        let mut surgeries: Vec<Surgery> = Vec::new();
        surgeries.push(surgery);
        let room = RoomSpecsForDay {
            day,
            surgeries,
            speciality: surgery_speciality,
            remaining_slots: 46 - surgery_duration,
        };
        proof {
            assert(room.surgeries@.drop_last() =~= Seq::<Surgery>::empty());
            assert(planned_slots(Seq::<Surgery>::empty()) == 0);
            assert(planned_slots(room.surgeries@) == surgery.duration);
        }
        room
    }

    /// Plans one more surgery of the room's speciality into the day.
    pub fn add_surgery(&mut self, surgery: Surgery)
        requires
            old(self).wf(),
            surgery.wf(),
            old(self).spec_have_available_slot(surgery),
            surgery.speciality == old(self).speciality,
        ensures
            final(self).wf(),
            final(self).day == old(self).day,
            final(self).speciality == old(self).speciality,
            final(self).surgeries@ == old(self).surgeries@.push(surgery),
            final(self).remaining_slots == old(self).remaining_slots - 2 - surgery.duration,
    {
        self.remaining_slots = self.remaining_slots - (2 + surgery.duration);
        self.surgeries.push(surgery);
        proof {
            let v = old(self).surgeries@;
            assert(v.push(surgery).drop_last() =~= v);
            assert(v.push(surgery).last() == surgery);
            assert(planned_slots(v.push(surgery)) == planned_slots(v) + surgery.duration + 2);
        }
    }

    pub fn have_available_slot(&self, surgery: &Surgery) -> (r: bool)
        requires
            self.wf(),
            surgery.wf(),
        ensures
            r == self.spec_have_available_slot(*surgery),
    {
        surgery.duration + 2 <= self.remaining_slots
    }

    pub fn have_speciality_today(&self, surgery: &Surgery) -> (r: bool)
        ensures
            r == (self.speciality == surgery.speciality),
    {
        self.speciality == surgery.speciality
    }

    /// Drops from `surgeries` everything already planned into this room.
    pub fn filter_already_scheduled_surgeries(&self, surgeries: &Vec<Surgery>) -> (result: Vec<
        Surgery,
    >)
        ensures
            result@ == surgeries@.filter(
                |s: Surgery| !crate::room::room_specs_for_day::ids_contain(self.surgeries@, s.id),
            ),
    {
        let mut result: Vec<Surgery> = Vec::new();
        let mut i: usize = 0;
        proof {
            assert(surgeries@.subrange(0, 0) =~= Seq::<Surgery>::empty());
            reveal(Seq::filter);
        }
        while i < surgeries.len()
            invariant
                0 <= i <= surgeries@.len(),
                result@ == surgeries@.subrange(0, i as int).filter(
                    |s: Surgery| !ids_contain(self.surgeries@, s.id),
                ),
            decreases surgeries@.len() - i,
        {
            let s = surgeries[i];
            if !self.contains_id(s.id) {
                result.push(s);
            }
            proof {
                let pred = |s: Surgery| !ids_contain(self.surgeries@, s.id);
                let prefix = surgeries@.subrange(0, i as int);
                let ext = surgeries@.subrange(0, (i + 1) as int);
                assert(ext =~= prefix.push(surgeries@[i as int]));
                prefix.lemma_filter_push(surgeries@[i as int], pred);
            }
            i += 1;
        }
        proof {
            assert(surgeries@.subrange(0, surgeries@.len() as int) =~= surgeries@);
        }
        result
    }

    /// The not-yet-planned surgeries that still fit the day's free slots.
    pub fn available_surgeries(&self, surgeries: &Vec<Surgery>) -> (result: Vec<Surgery>)
        requires
            self.wf(),
            forall|i: int| 0 <= i < surgeries@.len() ==> (#[trigger] surgeries@[i]).wf(),
        ensures
            forall|j: int|
                0 <= j < result@.len() ==> {
                    let s = #[trigger] result@[j];
                    &&& !ids_contain(self.surgeries@, s.id)
                    &&& self.spec_have_available_slot(s)
                    &&& surgeries@.contains(s)
                },
    {
        let candidates = self.filter_already_scheduled_surgeries(surgeries);
        let mut result: Vec<Surgery> = Vec::new();
        let mut i: usize = 0;
        while i < candidates.len()
            invariant
                self.wf(),
                forall|k: int| 0 <= k < surgeries@.len() ==> (#[trigger] surgeries@[k]).wf(),
                candidates@ == surgeries@.filter(
                    |s: Surgery| !ids_contain(self.surgeries@, s.id),
                ),
                0 <= i <= candidates@.len(),
                forall|j: int|
                    0 <= j < result@.len() ==> {
                        let s = #[trigger] result@[j];
                        &&& !ids_contain(self.surgeries@, s.id)
                        &&& self.spec_have_available_slot(s)
                        &&& surgeries@.contains(s)
                    },
            decreases candidates@.len() - i,
        {
            let s = candidates[i];
            proof {
                let pred = |s2: Surgery| !ids_contain(self.surgeries@, s2.id);
                surgeries@.lemma_filter_pred(pred, i as int);
                assert(candidates@.contains(s));
                surgeries@.lemma_filter_contains_rev(pred, s);
                let k = choose|k: int| 0 <= k < surgeries@.len() && surgeries@[k] == s;
                assert(surgeries@[k].wf());
            }
            if self.have_available_slot(&s) {
                result.push(s);
            }
            i += 1;
        }
        result
    }

    fn contains_id(&self, id: u64) -> (r: bool)
        ensures
            r == ids_contain(self.surgeries@, id),
    {
        let mut i: usize = 0;
        while i < self.surgeries.len()
            invariant
                0 <= i <= self.surgeries@.len(),
                forall|j: int| 0 <= j < i ==> (#[trigger] self.surgeries@[j]).id != id,
            decreases self.surgeries@.len() - i,
        {
            if self.surgeries[i].id == id {
                return true;
            }
            i += 1;
        }
        false
    }
}

/// Some surgery of the sequence carries this identifier.
pub open spec fn ids_contain(surgeries: Seq<Surgery>, id: u64) -> bool {
    exists|i: int| 0 <= i < surgeries.len() && (#[trigger] surgeries[i]).id == id
}

} // verus!
