use vstd::prelude::*;

verus! {

/// Integer tag of a surgical speciality; a room admits only one speciality per day.
pub type Speciality = u32;

/// Urgency class of a surgery: 1 is the most urgent, 4 the least.
pub type Priority = usize;

/// Number of days a surgery has already been waiting when the instance is loaded.
pub type DaysWaiting = u32;

/// An elective surgery to be placed into a (week, day, room, slot) position.
///
/// `duration` is counted in 15-minute slots; a day has 48 of them and every
/// surgery is followed by 2 slots of cleaning time.
#[derive(Clone, Copy, PartialEq, Eq, Structural, Hash, Debug)]
pub struct Surgery {
    pub id: u64,
    pub duration: u8,
    pub days_waiting: DaysWaiting,
    pub priority: Priority,
    pub speciality: Speciality,
    pub surgeon_id: u64,
}

impl Surgery {
    /// A surgery fits in a day (1..=46 slots) and carries one of the four priorities.
    pub open spec fn wf(self) -> bool {
        &&& 1 <= self.duration <= 46
        &&& 1 <= self.priority <= 4
    }

    pub fn new(
        id: u64,
        duration: u8,
        days_waiting: DaysWaiting,
        priority: Priority,
        speciality: Speciality,
        surgeon_id: u64,
    ) -> (s: Surgery)
        requires
            1 <= duration <= 46,
            1 <= priority <= 4,
        ensures
            s == (Surgery { id, duration, days_waiting, priority, speciality, surgeon_id }),
            s.wf(),
    {
        Surgery { id, duration, days_waiting, priority, speciality, surgeon_id }
    }
}

} // verus!
