use vstd::prelude::*;

use crate::room::room_specs_for_day::RoomSpecsForDay;
use crate::surgery::Surgery;

verus! {

/// One planned week of a single room: at most five planned days.
#[verifier::ext_equal]
pub struct Week {
    pub days: Vec<RoomSpecsForDay>,
}

impl Week {
    pub open spec fn wf(self) -> bool {
        &&& self.days@.len() <= 5
        &&& forall|d: int| 0 <= d < self.days@.len() ==> (#[trigger] self.days@[d]).wf()
    }

    /// All five days of the week are planned.
    pub open spec fn spec_is_full(self) -> bool {
        self.days@.len() == 5
    }

    pub fn new() -> (week: Week)
        ensures
            week.wf(),
            week.days@.len() == 0,
    {
        Week { days: Vec::new() }
    }

    pub fn add_day(&mut self, room_specs_for_day: RoomSpecsForDay)
        requires
            old(self).wf(),
            old(self).days@.len() < 5,
            room_specs_for_day.wf(),
        ensures
            final(self).wf(),
            final(self).days@ == old(self).days@.push(room_specs_for_day),
    {
        self.days.push(room_specs_for_day);
    }

    pub fn is_full(&self) -> (r: bool)
        ensures
            r == self.spec_is_full(),
    {
        self.days.len() == 5
    }

    /// The first planned day with a free slot for the surgery, if any.
    pub fn have_available_slots_for_day(&self, surgery: &Surgery) -> (r: Option<usize>)
        requires
            self.wf(),
            surgery.wf(),
        ensures
            match r {
                Some(d) => {
                    &&& d < self.days@.len()
                    &&& self.days@[d as int].spec_have_available_slot(*surgery)
                    &&& forall|j: int|
                        0 <= j < d ==> !(#[trigger] self.days@[j]).spec_have_available_slot(
                            *surgery,
                        )
                },
                None => forall|j: int|
                    0 <= j < self.days@.len() ==> !(
                    #[trigger] self.days@[j]).spec_have_available_slot(*surgery),
            },
    {
        let mut d: usize = 0;
        while d < self.days.len()
            invariant
                self.wf(),
                surgery.wf(),
                0 <= d <= self.days@.len(),
                forall|j: int| 0 <= j < d ==> !(#[trigger] self.days@[j]).spec_have_available_slot(
                    *surgery,
                ),
            decreases self.days@.len() - d,
        {
            if self.days[d].have_available_slot(surgery) {
                return Some(d);
            }
            d += 1;
        }
        None
    }
}

} // verus!
