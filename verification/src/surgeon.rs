use vstd::prelude::*;

use crate::surgeon_map::SurgeonMap;
use crate::surgery::Surgery;
use crate::time_range::TimeRange;

verus! {

/// Identifier of a surgeon.
pub type SurgeonID = u64;

/// How many slots a surgeon may operate in one week.
pub const MAX_WEEK_TIME: u8 = 100;

/// How many slots a surgeon may operate in one day.
pub const MAX_DAY_TIME: u8 = 24;

/// The weekly time budget of one surgeon: at most `max_week_time` slots of
/// surgery (cleaning time not counted) may be assigned within one week.
#[derive(Clone, Copy, PartialEq, Eq, Structural, Debug)]
pub struct SurgeonWeekly {
    pub max_week_time: u8,
    pub current_week_time: u8,
}

impl SurgeonWeekly {
    pub open spec fn wf(self) -> bool {
        &&& self.max_week_time == MAX_WEEK_TIME
        &&& self.current_week_time <= self.max_week_time
    }

    /// A fresh tracker: nothing assigned yet.
    pub open spec fn initial() -> SurgeonWeekly {
        SurgeonWeekly { max_week_time: MAX_WEEK_TIME, current_week_time: 0 }
    }

    pub open spec fn spec_has_availability(self, surgery: Surgery) -> bool {
        self.current_week_time + surgery.duration <= self.max_week_time
    }

    pub fn new() -> (s: SurgeonWeekly)
        ensures
            s == SurgeonWeekly::initial(),
            s.wf(),
    {
        SurgeonWeekly { max_week_time: MAX_WEEK_TIME, current_week_time: 0 }
    }

    pub fn has_availability(&self, surgery: &Surgery) -> (r: bool)
        requires
            self.wf(),
            surgery.wf(),
        ensures
            r == self.spec_has_availability(*surgery),
    {
        self.current_week_time + surgery.duration <= self.max_week_time
    }

    pub fn allocate(&mut self, surgery: &Surgery)
        requires
            old(self).wf(),
            surgery.wf(),
            old(self).spec_has_availability(*surgery),
        ensures
            final(self).wf(),
            final(self).max_week_time == old(self).max_week_time,
            final(self).current_week_time == old(self).current_week_time + surgery.duration,
    {
        self.current_week_time = self.current_week_time + surgery.duration;
    }

    pub fn deallocate(&mut self, surgery: &Surgery)
        requires
            old(self).wf(),
            surgery.wf(),
            old(self).current_week_time >= surgery.duration,
        ensures
            final(self).wf(),
            final(self).max_week_time == old(self).max_week_time,
            final(self).current_week_time == old(self).current_week_time - surgery.duration,
    {
        self.current_week_time = self.current_week_time - surgery.duration;
    }

    /// One fresh weekly tracker per distinct identifier in `ids`.
    pub fn many_from_ids(ids: &Vec<SurgeonID>) -> (m: SurgeonMap<SurgeonWeekly>)
        ensures
            m.wf(),
            forall|k: u64| m.contains_spec(k) <==> ids@.contains(k),
            forall|k: u64|
                m.contains_spec(k) ==> #[trigger] m.spec_get(k) == SurgeonWeekly::initial(),
    {
        let mut m: SurgeonMap<SurgeonWeekly> = SurgeonMap::new();
        let mut i: usize = 0;
        while i < ids.len()
            invariant
                m.wf(),
                0 <= i <= ids@.len(),
                forall|k: u64| m.contains_spec(k) <==> ids@.subrange(0, i as int).contains(k),
                forall|k: u64|
                    m.contains_spec(k) ==> #[trigger] m.spec_get(k) == SurgeonWeekly::initial(),
            decreases ids@.len() - i,
        {
            let id = ids[i];
            let ghost pre = m;
            if !m.contains_key(id) {
                m.insert_new(id, SurgeonWeekly::new());
            }
            proof {
                let prefix = ids@.subrange(0, i as int);
                assert(ids@.subrange(0, (i + 1) as int) =~= prefix.push(ids@[i as int]));
                assert forall|k: u64|
                    m.contains_spec(k) <==> ids@.subrange(0, (i + 1) as int).contains(k) by {
                    assert(m.contains_spec(k) <==> (pre.contains_spec(k) || k == id));
                    assert(prefix.push(id).contains(k) <==> (prefix.contains(k) || k == id))
                        by {
                        if prefix.contains(k) {
                            let j = choose|j: int| 0 <= j < prefix.len() && prefix[j] == k;
                            assert(prefix.push(id)[j] == k);
                        }
                        if k == id {
                            assert(prefix.push(id)[prefix.len() as int] == k);
                        }
                        if prefix.push(id).contains(k) {
                            let j = choose|j: int|
                                0 <= j < prefix.push(id).len() && prefix.push(id)[j] == k;
                            if j < prefix.len() {
                                assert(prefix[j] == k);
                            }
                        }
                    }
                }
            }
            i += 1;
        }
        proof {
            assert(ids@.subrange(0, ids@.len() as int) =~= ids@);
        }
        m
    }
}

/// The daily time budget and the intra-day timeline of one surgeon.
///
/// `scheduled_times` records, in order of allocation, the slot span of every
/// surgery this surgeon performs on the day, across all rooms of that day.
#[verifier::ext_equal]
#[derive(Debug)]
pub struct SurgeonDaily {
    pub max_day_time: u8,
    pub current_day_time: u8,
    pub scheduled_times: Vec<(TimeRange, Surgery)>,
}

/// The slots of surgery (cleaning not counted) in a timeline.
pub open spec fn times_duration_sum(times: Seq<(TimeRange, Surgery)>) -> int
    decreases times.len(),
{
    if times.len() == 0 {
        0
    } else {
        times_duration_sum(times.drop_last()) + times.last().1.duration
    }
}

/// A timeline never mentions the same surgery twice.
pub open spec fn times_ids_distinct(times: Seq<(TimeRange, Surgery)>) -> bool {
    forall|i: int, j: int| 0 <= i < j < times.len() ==> times[i].1.id != times[j].1.id
}

pub open spec fn times_contains_id(times: Seq<(TimeRange, Surgery)>, id: u64) -> bool {
    exists|i: int| 0 <= i < times.len() && times[i].1.id == id
}

impl SurgeonDaily {
    pub open spec fn wf(self) -> bool {
        &&& self.max_day_time == MAX_DAY_TIME
        &&& self.current_day_time <= self.max_day_time
        &&& self.current_day_time == times_duration_sum(self.scheduled_times@)
        &&& times_ids_distinct(self.scheduled_times@)
        &&& forall|i: int|
            0 <= i < self.scheduled_times@.len() ==> {
                let (t, s) = #[trigger] self.scheduled_times@[i];
                &&& s.wf()
                &&& 1 <= t.start < t.end <= 48
            }
    }

    /// A fresh tracker: empty timeline, nothing assigned.
    pub open spec fn is_initial(self) -> bool {
        &&& self.max_day_time == MAX_DAY_TIME
        &&& self.current_day_time == 0
        &&& self.scheduled_times@.len() == 0
    }

    pub open spec fn spec_has_availability(self, surgery: Surgery) -> bool {
        self.current_day_time + surgery.duration <= self.max_day_time
    }

    /// Every recorded span is strictly separated from `time`.
    pub open spec fn spec_can_be_allocated(self, time: TimeRange) -> bool {
        forall|i: int|
            0 <= i < self.scheduled_times@.len() ==> (
            #[trigger] self.scheduled_times@[i]).0.clear_of(time)
    }

    pub fn new() -> (s: SurgeonDaily)
        ensures
            s.max_day_time == MAX_DAY_TIME,
            s.current_day_time == 0,
            s.scheduled_times@.len() == 0,
            s.is_initial(),
            s.wf(),
    {
        SurgeonDaily {
            max_day_time: MAX_DAY_TIME,
            current_day_time: 0,
            scheduled_times: Vec::new(),
        }
    }

    pub fn has_availability(&self, surgery: &Surgery) -> (r: bool)
        requires
            self.wf(),
            surgery.wf(),
        ensures
            r == self.spec_has_availability(*surgery),
    {
        self.current_day_time + surgery.duration <= self.max_day_time
    }

    pub fn can_be_allocated(&self, schedule_time: &TimeRange) -> (r: bool)
        ensures
            r == self.spec_can_be_allocated(*schedule_time),
    {
        let mut i: usize = 0;
        while i < self.scheduled_times.len()
            invariant
                0 <= i <= self.scheduled_times@.len(),
                forall|j: int|
                    0 <= j < i ==> (#[trigger] self.scheduled_times@[j]).0.clear_of(
                        *schedule_time,
                    ),
            decreases self.scheduled_times@.len() - i,
        {
            let (t, _) = self.scheduled_times[i];
            if !(t.end < schedule_time.start || t.start > schedule_time.end) {
                return false;
            }
            i += 1;
        }
        true
    }

    pub fn last_scheduled_time(&self) -> (r: TimeRange)
        requires
            self.scheduled_times@.len() > 0,
        ensures
            r == self.scheduled_times@.last().0,
    {
        self.scheduled_times[self.scheduled_times.len() - 1].0
    }

    /// Appends a span that starts where the previous one ended (or at slot 1
    /// on an empty day), exactly as a room would place it at its own tail.
    pub fn allocate_next(&mut self, surgery: Surgery)
        requires
            old(self).wf(),
            surgery.wf(),
            old(self).spec_has_availability(surgery),
            !times_contains_id(old(self).scheduled_times@, surgery.id),
            old(self).scheduled_times@.len() == 0 ==> 1 + 2 + surgery.duration <= 48,
            old(self).scheduled_times@.len() > 0 ==> old(self).scheduled_times@.last().0.end + 2
                + surgery.duration <= 48,
        ensures
            final(self).wf(),
            final(self).max_day_time == old(self).max_day_time,
            final(self).current_day_time == old(self).current_day_time + surgery.duration,
            final(self).scheduled_times@ == old(self).scheduled_times@.push(
                (
                    if old(self).scheduled_times@.len() == 0 {
                        TimeRange { start: 1, end: (3 + surgery.duration) as u8 }
                    } else {
                        TimeRange {
                            start: old(self).scheduled_times@.last().0.end,
                            end: (old(self).scheduled_times@.last().0.end + 2
                                + surgery.duration) as u8,
                        }
                    },
                    surgery,
                ),
            ),
    {
        self.current_day_time = self.current_day_time + surgery.duration;
        if self.scheduled_times.is_empty() {
            let time = TimeRange { start: 1, end: 3 + surgery.duration };
            self.scheduled_times.push((time, surgery));
            proof {
                lemma_times_sum_push(old(self).scheduled_times@, (time, surgery));
            }
        } else {
            let last_time = self.scheduled_times[self.scheduled_times.len() - 1].0.end;
            let time = TimeRange { start: last_time, end: last_time + 2 + surgery.duration };
            self.scheduled_times.push((time, surgery));
            proof {
                lemma_times_sum_push(old(self).scheduled_times@, (time, surgery));
            }
        }
    }

    /// Appends a span chosen by the caller, as when a room places the surgery
    /// somewhere other than the surgeon's own tail.
    pub fn allocate_by_schedule(&mut self, schedule_time: TimeRange, surgery: Surgery)
        requires
            old(self).wf(),
            surgery.wf(),
            old(self).spec_has_availability(surgery),
            !times_contains_id(old(self).scheduled_times@, surgery.id),
            1 <= schedule_time.start < schedule_time.end <= 48,
        ensures
            final(self).wf(),
            final(self).max_day_time == old(self).max_day_time,
            final(self).current_day_time == old(self).current_day_time + surgery.duration,
            final(self).scheduled_times@ == old(self).scheduled_times@.push(
                (schedule_time, surgery),
            ),
    {
        self.current_day_time = self.current_day_time + surgery.duration;
        self.scheduled_times.push((schedule_time, surgery));
        proof {
            lemma_times_sum_push(old(self).scheduled_times@, (schedule_time, surgery));
        }
    }

    /// Removes the timeline entry of `surgery` (found by its identifier) and
    /// gives its slots back.
    pub fn deallocate(&mut self, surgery: &Surgery)
        requires
            old(self).wf(),
            surgery.wf(),
            old(self).current_day_time >= surgery.duration,
            times_contains_id(old(self).scheduled_times@, surgery.id),
            old(self).scheduled_times@[times_id_index(
                old(self).scheduled_times@,
                surgery.id,
            )].1 == *surgery,
        ensures
            final(self).wf(),
            final(self).max_day_time == old(self).max_day_time,
            final(self).current_day_time == old(self).current_day_time - surgery.duration,
            final(self).scheduled_times@ == old(self).scheduled_times@.remove(
                times_id_index(old(self).scheduled_times@, surgery.id),
            ),
    {
        self.current_day_time = self.current_day_time - surgery.duration;
        let mut i: usize = 0;
        let ghost times = self.scheduled_times@;
        let ghost target = times_id_index(times, surgery.id);
        proof {
            lemma_times_id_index(times, surgery.id);
        }
        while i < self.scheduled_times.len()
            invariant
                old(self).wf(),
                surgery.wf(),
                times == old(self).scheduled_times@,
                self.scheduled_times@ == times,
                self.max_day_time == old(self).max_day_time,
                old(self).current_day_time >= surgery.duration,
                self.current_day_time == old(self).current_day_time - surgery.duration,
                0 <= i <= times.len(),
                target == times_id_index(times, surgery.id),
                0 <= target < times.len(),
                times[target].1 == *surgery,
                forall|j: int| 0 <= j < i ==> times[j].1.id != surgery.id,
                i <= target,
            decreases times.len() - i,
        {
            if self.scheduled_times[i].1.id == surgery.id {
                let removed = self.scheduled_times.remove(i);
                proof {
                    lemma_times_id_index(times, surgery.id);
                    assert(i == target);
                    lemma_times_sum_remove(times, i as int);
                    assert(removed.1 == *surgery);
                    assert forall|a: int, b: int|
                        0 <= a < b < self.scheduled_times@.len() implies self.scheduled_times@[a].1.id
                        != self.scheduled_times@[b].1.id by {
                        assert(self.scheduled_times@[a] == times[if a < i as int {
                            a
                        } else {
                            a + 1
                        }]);
                        assert(self.scheduled_times@[b] == times[if b < i as int {
                            b
                        } else {
                            b + 1
                        }]);
                    }
                }
                return;
            }
            i += 1;
        }
        proof {
            assert(false);
        }
    }

    /// One fresh daily tracker per distinct identifier in `ids`.
    pub fn many_from_ids(ids: &Vec<SurgeonID>) -> (m: SurgeonMap<SurgeonDaily>)
        ensures
            m.wf(),
            forall|k: u64| m.contains_spec(k) <==> ids@.contains(k),
            forall|k: u64|
                m.contains_spec(k) ==> (#[trigger] m.spec_get(k)).is_initial(),
    {
        let mut m: SurgeonMap<SurgeonDaily> = SurgeonMap::new();
        let mut i: usize = 0;
        while i < ids.len()
            invariant
                m.wf(),
                0 <= i <= ids@.len(),
                forall|k: u64| m.contains_spec(k) <==> ids@.subrange(0, i as int).contains(k),
                forall|k: u64|
                    m.contains_spec(k) ==> (#[trigger] m.spec_get(k)).is_initial(),
            decreases ids@.len() - i,
        {
            let id = ids[i];
            let ghost pre = m;
            if !m.contains_key(id) {
                m.insert_new(id, SurgeonDaily::new());
            }
            proof {
                let prefix = ids@.subrange(0, i as int);
                assert(ids@.subrange(0, (i + 1) as int) =~= prefix.push(ids@[i as int]));
                assert forall|k: u64|
                    m.contains_spec(k) <==> ids@.subrange(0, (i + 1) as int).contains(k) by {
                    assert(m.contains_spec(k) <==> (pre.contains_spec(k) || k == id));
                    assert(prefix.push(id).contains(k) <==> (prefix.contains(k) || k == id))
                        by {
                        if prefix.contains(k) {
                            let j = choose|j: int| 0 <= j < prefix.len() && prefix[j] == k;
                            assert(prefix.push(id)[j] == k);
                        }
                        if k == id {
                            assert(prefix.push(id)[prefix.len() as int] == k);
                        }
                        if prefix.push(id).contains(k) {
                            let j = choose|j: int|
                                0 <= j < prefix.push(id).len() && prefix.push(id)[j] == k;
                            if j < prefix.len() {
                                assert(prefix[j] == k);
                            }
                        }
                    }
                }
            }
            i += 1;
        }
        proof {
            assert(ids@.subrange(0, ids@.len() as int) =~= ids@);
        }
        m
    }
}

impl Clone for SurgeonDaily {
    /// A clone carries the same budget and the same timeline.
    fn clone(&self) -> (r: Self)
        ensures
            r.max_day_time == self.max_day_time,
            r.current_day_time == self.current_day_time,
            r.scheduled_times@ == self.scheduled_times@,
    {
        let mut times: Vec<(TimeRange, Surgery)> = Vec::new();
        let mut i: usize = 0;
        while i < self.scheduled_times.len()
            invariant
                0 <= i <= self.scheduled_times@.len(),
                times@ == self.scheduled_times@.subrange(0, i as int),
            decreases self.scheduled_times@.len() - i,
        {
            times.push(self.scheduled_times[i]);
            proof {
                assert(self.scheduled_times@.subrange(0, (i + 1) as int)
                    =~= self.scheduled_times@.subrange(0, i as int).push(
                    self.scheduled_times@[i as int],
                ));
            }
            i += 1;
        }
        let r = SurgeonDaily {
            max_day_time: self.max_day_time,
            current_day_time: self.current_day_time,
            scheduled_times: times,
        };
        proof {
            assert(self.scheduled_times@.subrange(0, self.scheduled_times@.len() as int)
                =~= self.scheduled_times@);
        }
        r
    }
}

/// The position of the (unique) timeline entry that carries `id`.
pub open spec fn times_id_index(times: Seq<(TimeRange, Surgery)>, id: u64) -> int {
    choose|i: int| 0 <= i < times.len() && times[i].1.id == id
}

pub proof fn lemma_times_id_index(times: Seq<(TimeRange, Surgery)>, id: u64)
    requires
        times_contains_id(times, id),
        times_ids_distinct(times),
    ensures
        0 <= times_id_index(times, id) < times.len(),
        times[times_id_index(times, id)].1.id == id,
        forall|i: int| 0 <= i < times.len() && times[i].1.id == id ==> i == times_id_index(
            times,
            id,
        ),
{
    let w = choose|i: int| 0 <= i < times.len() && times[i].1.id == id;
    assert(times[w].1.id == id);
}

/// Appending one entry adds exactly its surgery's slots to the total.
pub proof fn lemma_times_sum_push(times: Seq<(TimeRange, Surgery)>, e: (TimeRange, Surgery))
    ensures
        times_duration_sum(times.push(e)) == times_duration_sum(times) + e.1.duration,
{
    assert(times.push(e).drop_last() =~= times);
    assert(times.push(e).last() == e);
}

/// Removing one entry removes exactly its surgery's slots from the total.
pub proof fn lemma_times_sum_remove(times: Seq<(TimeRange, Surgery)>, i: int)
    requires
        0 <= i < times.len(),
    ensures
        times_duration_sum(times.remove(i)) == times_duration_sum(times)
            - times[i].1.duration,
    decreases times.len(),
{
    if i == times.len() - 1 {
        assert(times.remove(i) =~= times.drop_last());
    } else {
        let rest = times.drop_last();
        lemma_times_sum_remove(rest, i);
        assert(times.remove(i) =~= rest.remove(i).push(times.last()));
        assert(times.remove(i).drop_last() =~= rest.remove(i));
        assert(times.remove(i).last() == times.last());
    }
}

} // verus!
