//! Verified core of an elective-surgery scheduler.
//!
//! Surgeries are placed into a hierarchy of weeks, days and rooms under
//! three resource rules: a room offers 48 quarter-hour slots per day and
//! needs a two-slot cleaning gap after every surgery, a surgeon may operate
//! at most 24 slots per day and 100 per week, and one surgeon can never sit
//! in two rooms at overlapping times. The library proves that every
//! operation keeps these invariants and that a tentative placement can be
//! undone exactly, which is what the surrounding search loop leans on when
//! it scores candidate placements by trying them out.

pub mod room;
pub mod surgeon;
pub mod surgeon_map;
pub mod surgery;
pub mod time_range;
pub mod week;
