pub mod room_specs_for_day;
pub mod week;

use vstd::prelude::*;

use crate::room::room_specs_for_day::RoomSpecsForDay;
use crate::room::week::Week;

verus! {

/// One operating room over the whole planning horizon: the weeks it has
/// been open, newest last.
#[verifier::ext_equal]
pub struct Room {
    pub weeks: Vec<Week>,
}

impl Room {
    pub open spec fn wf(self) -> bool {
        forall|w: int| 0 <= w < self.weeks@.len() ==> (#[trigger] self.weeks@[w]).wf()
    }

    pub fn new() -> (room: Room)
        ensures
            room.wf(),
            room.weeks@.len() == 0,
    {
        Room { weeks: Vec::new() }
    }

    /// Opens a fresh, empty week at the end of the horizon.
    pub fn open_new_week(&mut self)
        requires
            old(self).wf(),
        ensures
            final(self).wf(),
            final(self).weeks@.len() == old(self).weeks@.len() + 1,
            forall|w: int|
                0 <= w < old(self).weeks@.len() ==> #[trigger] final(self).weeks@[w] == old(
                    self,
                ).weeks@[w],
            final(self).weeks@.last().days@.len() == 0,
    {
        self.weeks.push(Week::new());
    }

    /// Adds one planned day to the current week, opening a week first if
    /// none exists yet.
    pub fn add_day(&mut self, room_specs_for_day: RoomSpecsForDay)
        requires
            old(self).wf(),
            room_specs_for_day.wf(),
            old(self).weeks@.len() > 0 ==> !old(self).weeks@.last().spec_is_full(),
        ensures
            final(self).wf(),
            final(self).weeks@.len() > 0,
            final(self).weeks@.last().days@ == if old(self).weeks@.len() == 0 {
                seq![room_specs_for_day]
            } else {
                old(self).weeks@.last().days@.push(room_specs_for_day)
            },
            forall|w: int|
                0 <= w < final(self).weeks@.len() - 1 ==> #[trigger] final(self).weeks@[w] == old(
                    self,
                ).weeks@[w],
    {
        if self.weeks.is_empty() {
            self.open_new_week();
        }
        let n = self.weeks.len();
        let mut current_week = self.weeks.remove(n - 1);
        current_week.add_day(room_specs_for_day);
        self.weeks.push(current_week);
        proof {
            if old(self).weeks@.len() == 0 {
                assert(self.weeks@.last().days@ =~= seq![room_specs_for_day]);
            }
            assert forall|w: int| 0 <= w < self.weeks@.len() - 1 implies #[trigger] self.weeks@[w]
                == old(self).weeks@[w] by {
            }
        }
    }
}

} // verus!
