//! Meetings and courses: a meeting is one weekly occurrence (day, half-open
//! start/end range, location); a course is a coded, titled container of
//! meetings in insertion order.

use vstd::prelude::*;

use crate::day::Day;
use crate::time::Time;

verus! {

#[derive(Debug)]
pub struct Meeting {
    pub day: Day,
    pub start: Time,
    pub end: Time,
    pub location: String,
}

#[derive(Debug)]
pub struct Course {
    pub code: String,
    pub title: String,
    pub meetings: Vec<Meeting>,
}

/// Two meetings overlap when they fall on the same day and their half-open
/// intervals `[start, end)` intersect. The location plays no part.
pub open spec fn overlap(a: Meeting, b: Meeting) -> bool {
    a.day == b.day && !(a.end.minutes <= b.start.minutes || b.end.minutes <= a.start.minutes)
}

/// Overlap is symmetric: `a.overlaps(b) == b.overlaps(a)` for all pairs.
pub proof fn lemma_overlap_symmetric(a: Meeting, b: Meeting)
    ensures
        overlap(a, b) == overlap(b, a),
{
}

/// Meetings on different days never overlap, whatever their times.
pub proof fn lemma_overlap_needs_same_day(a: Meeting, b: Meeting)
    ensures
        a.day != b.day ==> !overlap(a, b),
{
}

/// Meetings that only touch at a boundary do not overlap: with the
/// half-open ranges, one ending exactly when the other starts is no
/// conflict.
pub proof fn lemma_adjacent_meetings_no_overlap(a: Meeting, b: Meeting)
    ensures
        a.end.minutes <= b.start.minutes ==> !overlap(a, b),
        b.end.minutes <= a.start.minutes ==> !overlap(a, b),
{
}

impl Meeting {
    /// The half-open interval test against another meeting.
    pub fn overlaps(&self, other: &Meeting) -> (r: bool)
        ensures
            r == overlap(*self, *other),
    {
        if self.day != other.day {
            return false;
        }
        !(self.end.minutes <= other.start.minutes || other.end.minutes <= self.start.minutes)
    }

    /// A copy equal to this meeting.
    pub fn duplicate(&self) -> (r: Meeting)
        ensures
            r == *self,
    {
        Meeting {
            day: self.day,
            start: self.start,
            end: self.end,
            location: self.location.clone(),
        }
    }
}

impl Course {
    /// Whether this course is listed under the given code: the codes are
    /// equal ignoring ASCII case.
    pub open spec fn has_code(self, code: Seq<char>) -> bool {
        crate::chars::eq_ignore_case(self.code@, code)
    }

    /// Unconditional append: a meeting is added without any conflict check;
    /// conflicts are a separate schedule-level query.
    pub fn add_meeting(&mut self, meeting: Meeting)
        ensures
            final(self).meetings@ == old(self).meetings@.push(meeting),
            final(self).code == old(self).code,
            final(self).title == old(self).title,
    {
        self.meetings.push(meeting);
    }

    /// A copy of this course: same code, title and meeting sequence.
    pub fn duplicate(&self) -> (r: Course)
        ensures
            r.code == self.code,
            r.title == self.title,
            r.meetings@ == self.meetings@,
    {
        let mut meetings: Vec<Meeting> = Vec::new();
        let mut i: usize = 0;
        while i < self.meetings.len()
            invariant
                i <= self.meetings.len(),
                meetings@ == self.meetings@.subrange(0, i as int),
            decreases self.meetings.len() - i,
        {
            meetings.push(self.meetings[i].duplicate());
            proof {
                assert(meetings@ =~= self.meetings@.subrange(0, i as int + 1));
            }
            i += 1;
        }
        proof {
            assert(meetings@ =~= self.meetings@);
        }
        Course { code: self.code.clone(), title: self.title.clone(), meetings }
    }
}

} // verus!
