//! The schedule: the aggregate of all courses. Owns the course lifecycle
//! (add, remove, lookup) and the cross-cutting queries: a full listing, a
//! day-bucketed weekly view, and a global pairwise conflict scan.

use vstd::prelude::*;

use crate::chars::eq_ignore_case;
use crate::chars::str_eq_ignore_case;
use crate::day::Day;
use crate::day::all_days;
use crate::model::Course;
use crate::model::Meeting;
use crate::model::overlap;
use crate::time::Time;
use crate::time::TimeParseError;

verus! {

/// Why a schedule operation was refused. Every operation reports failure;
/// none panics.
#[derive(Clone, Copy, Debug, PartialEq, Eq, Structural)]
pub enum ScheduleError {
    /// A course with the same code, compared case-insensitively, exists.
    DuplicateCourseCode,
    /// No course carries the given code.
    CourseNotFound,
    /// The day text names no weekday.
    InvalidDay,
    /// The start time text was rejected, for the carried reason.
    InvalidStartTime(TimeParseError),
    /// The end time text was rejected, for the carried reason.
    InvalidEndTime(TimeParseError),
    /// The end time is not strictly after the start time.
    InvalidTimeRange,
    /// A required free-text field (title, location) is empty.
    EmptyRequiredField,
}

/// One meeting together with the code and title of the course that owns it:
/// an element of the flattened meeting list.
#[derive(Debug)]
pub struct CourseMeeting {
    pub code: String,
    pub title: String,
    pub meeting: Meeting,
}

impl CourseMeeting {
    /// A copy equal to this entry.
    pub fn duplicate(&self) -> (r: CourseMeeting)
        ensures
            r == *self,
    {
        CourseMeeting {
            code: self.code.clone(),
            title: self.title.clone(),
            meeting: self.meeting.duplicate(),
        }
    }
}

/// A pair of overlapping meetings, each side with its owning course.
#[derive(Debug)]
pub struct Conflict {
    pub first: CourseMeeting,
    pub second: CourseMeeting,
}

/// One day of the weekly view: the day and its meetings in chronological
/// order. Days without meetings appear with an empty entry list.
#[derive(Debug)]
pub struct DayAgenda {
    pub day: Day,
    pub entries: Vec<CourseMeeting>,
}

#[derive(Debug)]
pub struct Schedule {
    pub courses: Vec<Course>,
}

/// Some course in the sequence carries the code, case-insensitively.
pub open spec fn has_course(courses: Seq<Course>, code: Seq<char>) -> bool {
    exists|i: int| 0 <= i < courses.len() && (#[trigger] courses[i]).has_code(code)
}

/// The flattened entries of one course, in meeting insertion order.
pub open spec fn course_entries(c: Course) -> Seq<CourseMeeting> {
    c.meetings@.map_values(
        |m: Meeting| CourseMeeting { code: c.code, title: c.title, meeting: m },
    )
}

/// All (course, meeting) pairs of the schedule, flattened in course
/// insertion order and meeting insertion order within each course.
pub open spec fn flat_meetings(courses: Seq<Course>) -> Seq<CourseMeeting>
    decreases courses.len(),
{
    if courses.len() == 0 {
        Seq::empty()
    } else {
        course_entries(courses[0]) + flat_meetings(courses.drop_first())
    }
}

proof fn lemma_flat_meetings_push(courses: Seq<Course>, c: Course)
    ensures
        flat_meetings(courses.push(c)) == flat_meetings(courses) + course_entries(c),
    decreases courses.len(),
{
    if courses.len() == 0 {
        assert(courses.push(c).drop_first() =~= Seq::<Course>::empty());
        assert(courses.push(c)[0] == c);
        assert(flat_meetings(Seq::<Course>::empty()) == Seq::<CourseMeeting>::empty());
        assert(flat_meetings(courses.push(c)) == course_entries(c) + Seq::<CourseMeeting>::empty());
        assert(course_entries(c) + Seq::<CourseMeeting>::empty() =~= Seq::<
            CourseMeeting,
        >::empty() + course_entries(c));
        assert(flat_meetings(courses) == Seq::<CourseMeeting>::empty());
    } else {
        assert(courses.push(c).drop_first() =~= courses.drop_first().push(c));
        lemma_flat_meetings_push(courses.drop_first(), c);
        assert(courses.push(c)[0] == courses[0]);
        assert(flat_meetings(courses.push(c)) == course_entries(courses[0]) + (flat_meetings(
            courses.drop_first(),
        ) + course_entries(c)));
        assert(course_entries(courses[0]) + (flat_meetings(courses.drop_first())
            + course_entries(c)) =~= (course_entries(courses[0]) + flat_meetings(
            courses.drop_first(),
        )) + course_entries(c));
    }
}

/// What `add_course` returns, given the prior state and the arguments.
pub open spec fn add_course_outcome(courses: Seq<Course>, code: Seq<char>, title: Seq<char>) -> Result<
    (),
    ScheduleError,
> {
    if title.len() == 0 {
        Result::Err(ScheduleError::EmptyRequiredField)
    } else if has_course(courses, code) {
        Result::Err(ScheduleError::DuplicateCourseCode)
    } else {
        Result::Ok(())
    }
}

/// What `add_meeting` returns, given the prior state and the arguments:
/// the day, the two times and the range are validated in that order, then
/// the location, then the course lookup.
pub open spec fn add_meeting_outcome(
    courses: Seq<Course>,
    code: Seq<char>,
    day: Seq<char>,
    start: Seq<char>,
    end: Seq<char>,
    location: Seq<char>,
) -> Result<(), ScheduleError> {
    match Day::parse_spec(day) {
        Option::None => Result::Err(ScheduleError::InvalidDay),
        Option::Some(_) => match Time::parse_spec(start) {
            Result::Err(te) => Result::Err(ScheduleError::InvalidStartTime(te)),
            Result::Ok(st) => match Time::parse_spec(end) {
                Result::Err(te) => Result::Err(ScheduleError::InvalidEndTime(te)),
                Result::Ok(en) => if en.minutes <= st.minutes {
                    Result::Err(ScheduleError::InvalidTimeRange)
                } else if location.len() == 0 {
                    Result::Err(ScheduleError::EmptyRequiredField)
                } else if !has_course(courses, code) {
                    Result::Err(ScheduleError::CourseNotFound)
                } else {
                    Result::Ok(())
                },
            },
        },
    }
}

impl Schedule {
    /// No two courses share a code, compared case-insensitively. Holds of
    /// the empty schedule and is preserved by every operation.
    pub open spec fn wf(self) -> bool {
        forall|i: int, j: int|
            0 <= i < j < self.courses@.len() ==> !eq_ignore_case(
                (#[trigger] self.courses@[i]).code@,
                (#[trigger] self.courses@[j]).code@,
            )
    }

    /// An empty schedule.
    pub fn new() -> (r: Schedule)
        ensures
            r.courses@ == Seq::<Course>::empty(),
            r.wf(),
    {
        Schedule { courses: Vec::new() }
    }

    /// The position of the first course carrying the code, if any.
    pub fn find_index(&self, code: &str) -> (r: Option<usize>)
        ensures
            match r {
                Option::Some(i) => {
                    &&& i < self.courses@.len()
                    &&& self.courses@[i as int].has_code(code@)
                    &&& forall|j: int|
                        0 <= j < i ==> !(#[trigger] self.courses@[j]).has_code(code@)
                },
                Option::None => forall|j: int|
                    0 <= j < self.courses@.len() ==> !(#[trigger] self.courses@[j]).has_code(
                        code@,
                    ),
            },
    {
        let mut i: usize = 0;
        while i < self.courses.len()
            invariant
                i <= self.courses@.len(),
                forall|j: int| 0 <= j < i ==> !(#[trigger] self.courses@[j]).has_code(code@),
            decreases self.courses@.len() - i,
        {
            if str_eq_ignore_case(self.courses[i].code.as_str(), code) {
                return Some(i);
            }
            i += 1;
        }
        None
    }

    /// The first course carrying the code, if any; `None` rather than an
    /// error, leaving the caller to report a missing course.
    pub fn find_course(&self, code: &str) -> (r: Option<&Course>)
        ensures
            match r {
                Option::Some(c) => {
                    &&& has_course(self.courses@, code@)
                    &&& c.has_code(code@)
                    &&& exists|i: int|
                        {
                            &&& 0 <= i < self.courses@.len()
                            &&& *c == #[trigger] self.courses@[i]
                            &&& forall|j: int|
                                0 <= j < i ==> !(#[trigger] self.courses@[j]).has_code(code@)
                        }
                },
                Option::None => !has_course(self.courses@, code@),
            },
    {
        match self.find_index(code) {
            Some(i) => Some(&self.courses[i]),
            None => None,
        }
    }

    /// Adds a course with the given code and title and no meetings, at the
    /// end of the course list. Fails with `EmptyRequiredField` on an empty
    /// title and with `DuplicateCourseCode` when any course already carries
    /// the code in any case variant; on failure the schedule is unchanged.
    pub fn add_course(&mut self, code: &str, title: &str) -> (r: Result<(), ScheduleError>)
        ensures
            r == add_course_outcome(old(self).courses@, code@, title@),
            r is Err ==> final(self).courses@ == old(self).courses@,
            r is Ok ==> {
                &&& final(self).courses@.len() == old(self).courses@.len() + 1
                &&& final(self).courses@.subrange(0, old(self).courses@.len() as int) == old(
                    self,
                ).courses@
                &&& final(self).courses@.last().code@ == code@
                &&& final(self).courses@.last().title@ == title@
                &&& final(self).courses@.last().meetings@ == Seq::<Meeting>::empty()
            },
            old(self).wf() ==> final(self).wf(),
    {
        if title.unicode_len() == 0 {
            return Err(ScheduleError::EmptyRequiredField);
        }
        match self.find_index(code) {
            Some(_) => Err(ScheduleError::DuplicateCourseCode),
            None => {
                let course = Course {
                    code: String::from_str(code),
                    title: String::from_str(title),
                    meetings: Vec::new(),
                };
                self.courses.push(course);
                proof {
                    let olds = old(self).courses@;
                    let news = self.courses@;
                    assert(news.subrange(0, olds.len() as int) =~= olds);
                    if old(self).wf() {
                        assert forall|i: int, j: int| 0 <= i < j < news.len() implies !eq_ignore_case(
                            (#[trigger] news[i]).code@,
                            (#[trigger] news[j]).code@,
                        ) by {
                            if j < olds.len() {
                                assert(news[i] == olds[i] && news[j] == olds[j]);
                            } else {
                                assert(news[i] == olds[i]);
                                assert(!olds[i].has_code(code@));
                            }
                        }
                    }
                }
                Ok(())
            },
        }
    }

    /// Removes the first course carrying the code, with all its meetings,
    /// and reports whether one was removed. Without a match the schedule is
    /// unchanged.
    pub fn remove_course(&mut self, code: &str) -> (r: bool)
        ensures
            r == has_course(old(self).courses@, code@),
            !r ==> final(self).courses@ == old(self).courses@,
            r ==> exists|i: int|
                {
                    &&& 0 <= i < old(self).courses@.len()
                    &&& (#[trigger] old(self).courses@[i]).has_code(code@)
                    &&& forall|j: int|
                        0 <= j < i ==> !(#[trigger] old(self).courses@[j]).has_code(code@)
                    &&& final(self).courses@ == old(self).courses@.remove(i)
                },
            old(self).wf() ==> final(self).wf(),
    {
        match self.find_index(code) {
            Some(i) => {
                self.courses.remove(i);
                proof {
                    let olds = old(self).courses@;
                    let news = self.courses@;
                    olds.remove_ensures(i as int);
                    assert(olds[i as int].has_code(code@));
                    if old(self).wf() {
                        assert forall|a: int, b: int| 0 <= a < b < news.len() implies !eq_ignore_case(
                            (#[trigger] news[a]).code@,
                            (#[trigger] news[b]).code@,
                        ) by {
                            let a0: int = if a < i { a } else { a + 1 };
                            let b0: int = if b < i { b } else { b + 1 };
                            assert(news[a] == olds[a0] && news[b] == olds[b0]);
                        }
                    }
                }
                true
            },
            None => false,
        }
    }

    /// Parses the day, start and end, validates the half-open range and the
    /// location, and appends the meeting to the first course carrying the
    /// code. On any failure nothing is stored.
    pub fn add_meeting(
        &mut self,
        code: &str,
        day: &str,
        start: &str,
        end: &str,
        location: &str,
    ) -> (r: Result<(), ScheduleError>)
        ensures
            r == add_meeting_outcome(old(self).courses@, code@, day@, start@, end@, location@),
            r is Err ==> final(self).courses@ == old(self).courses@,
            r is Ok ==> exists|i: int|
                {
                    &&& 0 <= i < old(self).courses@.len()
                    &&& (#[trigger] old(self).courses@[i]).has_code(code@)
                    &&& forall|j: int|
                        0 <= j < i ==> !(#[trigger] old(self).courses@[j]).has_code(code@)
                    &&& final(self).courses@.len() == old(self).courses@.len()
                    &&& forall|j: int|
                        0 <= j < old(self).courses@.len() && j != i ==> final(self).courses@[j]
                            == #[trigger] old(self).courses@[j]
                    &&& final(self).courses@[i].code == old(self).courses@[i].code
                    &&& final(self).courses@[i].title == old(self).courses@[i].title
                    &&& final(self).courses@[i].meetings@.len() == old(
                        self,
                    ).courses@[i].meetings@.len() + 1
                    &&& final(self).courses@[i].meetings@.subrange(
                        0,
                        old(self).courses@[i].meetings@.len() as int,
                    ) == old(self).courses@[i].meetings@
                    &&& final(self).courses@[i].meetings@.last().day == Day::parse_spec(day@)->0
                    &&& final(self).courses@[i].meetings@.last().start == Time::parse_spec(
                        start@,
                    )->Ok_0
                    &&& final(self).courses@[i].meetings@.last().end == Time::parse_spec(
                        end@,
                    )->Ok_0
                    &&& final(self).courses@[i].meetings@.last().location@ == location@
                },
            old(self).wf() ==> final(self).wf(),
    {
        let d = match Day::parse(day) {
            Some(d) => d,
            None => {
                return Err(ScheduleError::InvalidDay);
            },
        };
        let st = match Time::parse(start) {
            Ok(t) => t,
            Err(te) => {
                return Err(ScheduleError::InvalidStartTime(te));
            },
        };
        let en = match Time::parse(end) {
            Ok(t) => t,
            Err(te) => {
                return Err(ScheduleError::InvalidEndTime(te));
            },
        };
        if en.minutes <= st.minutes {
            return Err(ScheduleError::InvalidTimeRange);
        }
        if location.unicode_len() == 0 {
            return Err(ScheduleError::EmptyRequiredField);
        }
        match self.find_index(code) {
            None => Err(ScheduleError::CourseNotFound),
            Some(i) => {
                let meeting = Meeting { day: d, start: st, end: en, location: String::from_str(location) };
                self.courses[i].add_meeting(meeting);
                proof {
                    let olds = old(self).courses@;
                    let news = self.courses@;
                    assert(news[i as int].meetings@.subrange(
                        0,
                        olds[i as int].meetings@.len() as int,
                    ) =~= olds[i as int].meetings@);
                    if old(self).wf() {
                        assert forall|a: int, b: int| 0 <= a < b < news.len() implies !eq_ignore_case(
                            (#[trigger] news[a]).code@,
                            (#[trigger] news[b]).code@,
                        ) by {
                            assert(news[a].code == olds[a].code && news[b].code == olds[b].code);
                        }
                    }
                }
                Ok(())
            },
        }
    }

    /// A snapshot of all courses in insertion order, each with its meetings
    /// in add order; a caller renders a course with no meetings distinctly.
    pub fn list(&self) -> (r: Vec<Course>)
        ensures
            r@.len() == self.courses@.len(),
            forall|i: int|
                0 <= i < self.courses@.len() ==> {
                    &&& (#[trigger] r@[i]).code == self.courses@[i].code
                    &&& r@[i].title == self.courses@[i].title
                    &&& r@[i].meetings@ == self.courses@[i].meetings@
                },
    {
        let mut r: Vec<Course> = Vec::new();
        let mut i: usize = 0;
        while i < self.courses.len()
            invariant
                i <= self.courses@.len(),
                r@.len() == i,
                forall|j: int|
                    0 <= j < i ==> {
                        &&& (#[trigger] r@[j]).code == self.courses@[j].code
                        &&& r@[j].title == self.courses@[j].title
                        &&& r@[j].meetings@ == self.courses@[j].meetings@
                    },
            decreases self.courses@.len() - i,
        {
            r.push(self.courses[i].duplicate());
            i += 1;
        }
        r
    }

    /// The flattened meeting list: every meeting of every course, paired
    /// with its course's code and title, in course-then-meeting insertion
    /// order. This is the enumeration order of the conflict scan.
    pub fn all_meetings(&self) -> (r: Vec<CourseMeeting>)
        ensures
            r@ == flat_meetings(self.courses@),
    {
        let mut r: Vec<CourseMeeting> = Vec::new();
        let mut i: usize = 0;
        while i < self.courses.len()
            invariant
                i <= self.courses@.len(),
                r@ == flat_meetings(self.courses@.subrange(0, i as int)),
            decreases self.courses@.len() - i,
        {
            let c = &self.courses[i];
            let mut j: usize = 0;
            while j < c.meetings.len()
                invariant
                    j <= c.meetings@.len(),
                    c == &self.courses@[i as int],
                    i < self.courses@.len(),
                    r@ == flat_meetings(self.courses@.subrange(0, i as int)) + course_entries(
                        *c,
                    ).subrange(0, j as int),
                decreases c.meetings@.len() - j,
            {
                r.push(
                    CourseMeeting {
                        code: c.code.clone(),
                        title: c.title.clone(),
                        meeting: c.meetings[j].duplicate(),
                    },
                );
                proof {
                    assert(course_entries(*c)[j as int] == CourseMeeting {
                        code: c.code,
                        title: c.title,
                        meeting: c.meetings@[j as int],
                    });
                    assert(r@ =~= flat_meetings(self.courses@.subrange(0, i as int))
                        + course_entries(*c).subrange(0, j as int + 1));
                }
                j += 1;
            }
            proof {
                assert(course_entries(*c).subrange(0, c.meetings@.len() as int) =~= course_entries(
                    *c,
                ));
                lemma_flat_meetings_push(self.courses@.subrange(0, i as int), *c);
                assert(self.courses@.subrange(0, i as int).push(*c) =~= self.courses@.subrange(
                    0,
                    i as int + 1,
                ));
            }
            i += 1;
        }
        proof {
            assert(self.courses@.subrange(0, self.courses@.len() as int) =~= self.courses@);
        }
        r
    }
}

/// The conflicts of the entry at `i` with every later entry from `j` on,
/// in index order.
pub open spec fn row_conflicts(entries: Seq<CourseMeeting>, i: int, j: int) -> Seq<Conflict>
    decreases entries.len() - j,
{
    if j < 0 || j >= entries.len() {
        Seq::empty()
    } else {
        let rest = row_conflicts(entries, i, j + 1);
        if overlap(entries[i].meeting, entries[j].meeting) {
            seq![Conflict { first: entries[i], second: entries[j] }] + rest
        } else {
            rest
        }
    }
}

/// All conflicts among pairs whose first index is at least `i`: for every
/// unordered pair of distinct entries that overlap, one record, in
/// outer-then-inner index order over the flattened meeting list.
pub open spec fn conflicts_after(entries: Seq<CourseMeeting>, i: int) -> Seq<Conflict>
    decreases entries.len() - i,
{
    if i < 0 || i >= entries.len() {
        Seq::empty()
    } else {
        row_conflicts(entries, i, i + 1) + conflicts_after(entries, i + 1)
    }
}

/// The full conflict scan over a schedule's flattened meeting list.
pub open spec fn conflicts_spec(courses: Seq<Course>) -> Seq<Conflict> {
    conflicts_after(flat_meetings(courses), 0)
}

impl Schedule {
    /// The exhaustive pairwise conflict scan: one record for every
    /// unordered pair of distinct meetings, across all courses, whose days
    /// match and whose half-open time ranges intersect. A meeting never
    /// conflicts with itself; two meetings of one course are compared like
    /// any other pair. Records come in pair-enumeration order over the
    /// flattened meeting list.
    pub fn conflicts(&self) -> (r: Vec<Conflict>)
        ensures
            r@ == conflicts_spec(self.courses@),
    {
        let entries = self.all_meetings();
        let ghost es = entries@;
        let n = entries.len();
        let mut r: Vec<Conflict> = Vec::new();
        proof {
            assert(r@ + conflicts_after(es, 0) =~= conflicts_after(es, 0));
        }
        let mut i: usize = 0;
        while i < n
            invariant
                n == es.len(),
                entries@ == es,
                i <= n,
                r@ + conflicts_after(es, i as int) == conflicts_after(es, 0),
            decreases n - i,
        {
            let mut j: usize = i + 1;
            proof {
                assert(conflicts_after(es, i as int) == row_conflicts(es, i as int, i as int + 1)
                    + conflicts_after(es, i as int + 1));
                assert(r@ + (row_conflicts(es, i as int, j as int) + conflicts_after(
                    es,
                    i as int + 1,
                )) =~= (r@ + row_conflicts(es, i as int, j as int)) + conflicts_after(
                    es,
                    i as int + 1,
                ));
            }
            while j < n
                invariant
                    n == es.len(),
                    entries@ == es,
                    i < n,
                    i < j <= n,
                    (r@ + row_conflicts(es, i as int, j as int)) + conflicts_after(
                        es,
                        i as int + 1,
                    ) == conflicts_after(es, 0),
                decreases n - j,
            {
                if entries[i].meeting.overlaps(&entries[j].meeting) {
                    let ghost r_old = r@;
                    let c = Conflict {
                        first: entries[i].duplicate(),
                        second: entries[j].duplicate(),
                    };
                    r.push(c);
                    proof {
                        assert(row_conflicts(es, i as int, j as int) == seq![
                            Conflict { first: es[i as int], second: es[j as int] },
                        ] + row_conflicts(es, i as int, j as int + 1));
                        assert((r_old + row_conflicts(es, i as int, j as int))
                            + conflicts_after(es, i as int + 1) =~= (r@ + row_conflicts(
                            es,
                            i as int,
                            j as int + 1,
                        )) + conflicts_after(es, i as int + 1));
                    }
                } else {
                    proof {
                        assert(row_conflicts(es, i as int, j as int) == row_conflicts(
                            es,
                            i as int,
                            j as int + 1,
                        ));
                    }
                }
                j += 1;
            }
            proof {
                assert(row_conflicts(es, i as int, n as int) == Seq::<Conflict>::empty());
                assert((r@ + Seq::<Conflict>::empty()) + conflicts_after(es, i as int + 1) =~= r@
                    + conflicts_after(es, i as int + 1));
            }
            i += 1;
        }
        proof {
            assert(conflicts_after(es, n as int) == Seq::<Conflict>::empty());
            assert(r@ + Seq::<Conflict>::empty() =~= r@);
        }
        r
    }
}

proof fn lemma_row_conflicts_empty(entries: Seq<CourseMeeting>, i: int, j: int)
    requires
        0 <= j,
    ensures
        row_conflicts(entries, i, j).len() == 0 <==> (forall|t: int|
            j <= t < entries.len() ==> !overlap(entries[i].meeting, (#[trigger] entries[t]).meeting)),
    decreases entries.len() - j,
{
    if j < entries.len() {
        lemma_row_conflicts_empty(entries, i, j + 1);
        if overlap(entries[i].meeting, entries[j].meeting) {
            assert(row_conflicts(entries, i, j).len() >= 1);
        }
    }
}

proof fn lemma_conflicts_after_empty(entries: Seq<CourseMeeting>, i: int)
    requires
        0 <= i,
    ensures
        conflicts_after(entries, i).len() == 0 <==> (forall|a: int, b: int|
            i <= a < b < entries.len() ==> !overlap(
                (#[trigger] entries[a]).meeting,
                (#[trigger] entries[b]).meeting,
            )),
    decreases entries.len() - i,
{
    if i < entries.len() {
        lemma_conflicts_after_empty(entries, i + 1);
        lemma_row_conflicts_empty(entries, i, i + 1);
    }
}

/// The conflict scan reports nothing exactly when no two distinct meetings
/// of the schedule overlap.
pub proof fn lemma_conflicts_empty_iff_no_overlap(courses: Seq<Course>)
    ensures
        conflicts_spec(courses).len() == 0 <==> (forall|a: int, b: int|
            0 <= a < b < flat_meetings(courses).len() ==> !overlap(
                (#[trigger] flat_meetings(courses)[a]).meeting,
                (#[trigger] flat_meetings(courses)[b]).meeting,
            )),
{
    lemma_conflicts_after_empty(flat_meetings(courses), 0);
}

/// The entries of one day, kept in flattened order.
pub open spec fn day_entries(entries: Seq<CourseMeeting>, d: Day) -> Seq<CourseMeeting>
    decreases entries.len(),
{
    if entries.len() == 0 {
        Seq::empty()
    } else {
        (if entries[0].meeting.day == d {
            seq![entries[0]]
        } else {
            Seq::empty()
        }) + day_entries(entries.drop_first(), d)
    }
}

proof fn lemma_day_entries_push(entries: Seq<CourseMeeting>, d: Day, e: CourseMeeting)
    ensures
        day_entries(entries.push(e), d) == day_entries(entries, d) + (if e.meeting.day == d {
            seq![e]
        } else {
            Seq::<CourseMeeting>::empty()
        }),
    decreases entries.len(),
{
    let tail = if e.meeting.day == d {
        seq![e]
    } else {
        Seq::<CourseMeeting>::empty()
    };
    if entries.len() == 0 {
        assert(entries.push(e).drop_first() =~= Seq::<CourseMeeting>::empty());
        assert(entries.push(e)[0] == e);
        assert(day_entries(Seq::<CourseMeeting>::empty(), d) == Seq::<CourseMeeting>::empty());
        assert(day_entries(entries.push(e), d) =~= day_entries(entries, d) + tail);
    } else {
        assert(entries.push(e).drop_first() =~= entries.drop_first().push(e));
        lemma_day_entries_push(entries.drop_first(), d, e);
        assert(entries.push(e)[0] == entries[0]);
        let head = if entries[0].meeting.day == d {
            seq![entries[0]]
        } else {
            Seq::<CourseMeeting>::empty()
        };
        assert(day_entries(entries.push(e), d) == head + (day_entries(entries.drop_first(), d)
            + tail));
        assert(head + (day_entries(entries.drop_first(), d) + tail) =~= (head + day_entries(
            entries.drop_first(),
            d,
        )) + tail);
    }
}

/// The chronological order of the weekly view: by start time, ties broken
/// by end time; entries that compare equal keep their flattened order.
pub open spec fn starts_no_later(a: CourseMeeting, b: CourseMeeting) -> bool {
    ||| a.meeting.start.minutes < b.meeting.start.minutes
    ||| (a.meeting.start.minutes == b.meeting.start.minutes && a.meeting.end.minutes
        <= b.meeting.end.minutes)
}

/// Stable insertion into a chronologically sorted sequence: the new entry
/// goes after every entry that starts no later than it.
pub open spec fn insert_chrono(s: Seq<CourseMeeting>, e: CourseMeeting) -> Seq<CourseMeeting>
    decreases s.len(),
{
    if s.len() == 0 {
        seq![e]
    } else if starts_no_later(s[0], e) {
        seq![s[0]] + insert_chrono(s.drop_first(), e)
    } else {
        seq![e] + s
    }
}

/// Stable insertion sort by (start, end): the exact result of sorting a
/// day's entries chronologically.
pub open spec fn sort_chrono(s: Seq<CourseMeeting>) -> Seq<CourseMeeting>
    decreases s.len(),
{
    if s.len() == 0 {
        Seq::empty()
    } else {
        insert_chrono(sort_chrono(s.drop_last()), s.last())
    }
}

/// Inserting at the first position whose entry starts later matches
/// `insert_chrono`.
proof fn lemma_insert_chrono_at(s: Seq<CourseMeeting>, e: CourseMeeting, k: int)
    requires
        0 <= k <= s.len(),
        forall|t: int| 0 <= t < k ==> starts_no_later(#[trigger] s[t], e),
        k < s.len() ==> !starts_no_later(s[k], e),
    ensures
        insert_chrono(s, e) == s.subrange(0, k) + seq![e] + s.subrange(k, s.len() as int),
    decreases s.len(),
{
    if s.len() == 0 {
        assert(insert_chrono(s, e) =~= s.subrange(0, k) + seq![e] + s.subrange(k, s.len() as int));
    } else if k == 0 {
        assert(!starts_no_later(s[0], e));
        assert(s.subrange(0, s.len() as int) =~= s);
        assert(insert_chrono(s, e) =~= s.subrange(0, 0) + seq![e] + s.subrange(0, s.len() as int));
    } else {
        assert(starts_no_later(s[0], e));
        let rest = s.drop_first();
        assert(forall|t: int| 0 <= t < k - 1 ==> starts_no_later(#[trigger] rest[t], e));
        lemma_insert_chrono_at(rest, e, k - 1);
        assert(insert_chrono(s, e) == seq![s[0]] + (rest.subrange(0, k - 1) + seq![e]
            + rest.subrange(k - 1, rest.len() as int)));
        assert(seq![s[0]] + (rest.subrange(0, k - 1) + seq![e] + rest.subrange(
            k - 1,
            rest.len() as int,
        )) =~= s.subrange(0, k) + seq![e] + s.subrange(k, s.len() as int));
    }
}

/// Chronologically sorted: every entry starts no later than each entry
/// after it.
pub open spec fn chrono_sorted(s: Seq<CourseMeeting>) -> bool {
    forall|a: int, b: int| 0 <= a < b < s.len() ==> starts_no_later(#[trigger] s[a], #[trigger] s[b])
}

/// Insertion into a sorted sequence keeps it sorted.
proof fn lemma_insert_chrono_sorted(s: Seq<CourseMeeting>, e: CourseMeeting)
    requires
        chrono_sorted(s),
    ensures
        chrono_sorted(insert_chrono(s, e)),
    decreases s.len(),
{
    broadcast use vstd::multiset::group_multiset_axioms;

    if s.len() == 0 {
    } else if starts_no_later(s[0], e) {
        let rest = s.drop_first();
        assert(chrono_sorted(rest)) by {
            assert(forall|a: int, b: int|
                0 <= a < b < rest.len() ==> #[trigger] rest[a] == s[a + 1] && #[trigger] rest[b]
                    == s[b + 1]);
        }
        lemma_insert_chrono_sorted(rest, e);
        lemma_insert_chrono_multiset(rest, e);
        let ich = insert_chrono(rest, e);
        ich.to_multiset_ensures();
        rest.to_multiset_ensures();
        let r = seq![s[0]] + ich;
        assert forall|a: int, b: int| 0 <= a < b < r.len() implies starts_no_later(
            #[trigger] r[a],
            #[trigger] r[b],
        ) by {
            if a == 0 {
                let y = r[b];
                assert(ich.contains(y)) by {
                    assert(ich[b - 1] == y);
                }
                assert(ich.to_multiset().count(y) > 0);
                assert(rest.to_multiset().insert(e).count(y) > 0);
                if y != e {
                    assert(rest.to_multiset().count(y) > 0);
                    assert(rest.contains(y));
                    let t = choose|t: int| 0 <= t < rest.len() && rest[t] == y;
                    assert(s[t + 1] == y);
                    assert(starts_no_later(s[0], s[t + 1]));
                }
            } else {
                assert(ich[a - 1] == r[a]);
                assert(ich[b - 1] == r[b]);
            }
        }
    } else {
        let r = seq![e] + s;
        assert forall|a: int, b: int| 0 <= a < b < r.len() implies starts_no_later(
            #[trigger] r[a],
            #[trigger] r[b],
        ) by {
            if a == 0 {
                assert(r[b] == s[b - 1]);
                if b > 1 {
                    assert(starts_no_later(s[0], s[b - 1]));
                }
            } else {
                assert(r[a] == s[a - 1] && r[b] == s[b - 1]);
            }
        }
    }
}

/// Insertion adds exactly the one entry to the contents.
proof fn lemma_insert_chrono_multiset(s: Seq<CourseMeeting>, e: CourseMeeting)
    ensures
        insert_chrono(s, e).to_multiset() == s.to_multiset().insert(e),
    decreases s.len(),
{
    broadcast use vstd::seq_lib::lemma_multiset_commutative;

    s.to_multiset_ensures();
    if s.len() == 0 {
        assert(seq![e] =~= Seq::<CourseMeeting>::empty().push(e));
        Seq::<CourseMeeting>::empty().to_multiset_ensures();
        assert(insert_chrono(s, e).to_multiset() =~= s.to_multiset().insert(e));
    } else if starts_no_later(s[0], e) {
        let rest = s.drop_first();
        lemma_insert_chrono_multiset(rest, e);
        assert(seq![s[0]] + rest =~= s);
        assert((seq![s[0]] + insert_chrono(rest, e)).to_multiset() =~= seq![
            s[0],
        ].to_multiset().add(insert_chrono(rest, e).to_multiset()));
        assert(seq![s[0]].to_multiset().add(rest.to_multiset().insert(e)) =~= (seq![
            s[0],
        ].to_multiset().add(rest.to_multiset())).insert(e));
        assert((seq![s[0]] + rest).to_multiset() =~= seq![s[0]].to_multiset().add(
            rest.to_multiset(),
        ));
    } else {
        assert((seq![e] + s).to_multiset() =~= seq![e].to_multiset().add(s.to_multiset()));
        assert(seq![e] =~= Seq::<CourseMeeting>::empty().push(e));
        Seq::<CourseMeeting>::empty().to_multiset_ensures();
        assert(seq![e].to_multiset().add(s.to_multiset()) =~= s.to_multiset().insert(e));
    }
}

/// The week-view sort really sorts: its result is in chronological order.
pub proof fn lemma_sort_chrono_sorted(s: Seq<CourseMeeting>)
    ensures
        chrono_sorted(sort_chrono(s)),
    decreases s.len(),
{
    if s.len() > 0 {
        lemma_sort_chrono_sorted(s.drop_last());
        lemma_insert_chrono_sorted(sort_chrono(s.drop_last()), s.last());
    }
}

/// The week-view sort keeps exactly the entries it was given: its result
/// is a permutation of its input.
pub proof fn lemma_sort_chrono_permutes(s: Seq<CourseMeeting>)
    ensures
        sort_chrono(s).to_multiset() == s.to_multiset(),
    decreases s.len(),
{
    if s.len() == 0 {
        assert(sort_chrono(s) =~= s);
    } else {
        lemma_sort_chrono_permutes(s.drop_last());
        lemma_insert_chrono_multiset(sort_chrono(s.drop_last()), s.last());
        s.drop_last().to_multiset_ensures();
        assert(s.drop_last().push(s.last()).to_multiset() =~= s.drop_last().to_multiset().insert(
            s.last(),
        ));
        assert(s.drop_last().push(s.last()) =~= s);
        assert(sort_chrono(s).to_multiset() =~= s.to_multiset());
    }
}

/// Exec comparison for the chronological order.
fn chrono_le(a: &CourseMeeting, b: &CourseMeeting) -> (r: bool)
    ensures
        r == starts_no_later(*a, *b),
{
    a.meeting.start.minutes < b.meeting.start.minutes || (a.meeting.start.minutes
        == b.meeting.start.minutes && a.meeting.end.minutes <= b.meeting.end.minutes)
}

/// Inserts an entry into a chronologically sorted vector, after every entry
/// that starts no later.
fn insert_sorted(v: &mut Vec<CourseMeeting>, e: CourseMeeting)
    ensures
        final(v)@ == insert_chrono(old(v)@, e),
{
    let mut k: usize = 0;
    while k < v.len() && chrono_le(&v[k], &e)
        invariant
            k <= v@.len(),
            forall|t: int| 0 <= t < k ==> starts_no_later(#[trigger] v@[t], e),
        decreases v@.len() - k,
    {
        k += 1;
    }
    proof {
        lemma_insert_chrono_at(v@, e, k as int);
    }
    v.insert(k, e);
    proof {
        assert(final(v)@ =~= old(v)@.subrange(0, k as int) + seq![e] + old(v)@.subrange(
            k as int,
            old(v)@.len() as int,
        ));
    }
}

impl Schedule {
    /// The weekly view: all seven days in Mon..Sun order, each present
    /// whether or not it has meetings, each holding that day's meetings
    /// sorted by start time and then end time, ties keeping flattened
    /// order.
    pub fn week_view(&self) -> (r: Vec<DayAgenda>)
        ensures
            r@.len() == 7,
            forall|k: int| 0 <= k < 7 ==> (#[trigger] r@[k]).day == all_days()[k],
            forall|k: int|
                0 <= k < 7 ==> (#[trigger] r@[k]).entries@ == sort_chrono(
                    day_entries(flat_meetings(self.courses@), all_days()[k]),
                ),
    {
        let entries = self.all_meetings();
        let ghost es = entries@;
        let days = Day::all();
        let mut r: Vec<DayAgenda> = Vec::new();
        let mut di: usize = 0;
        while di < days.len()
            invariant
                days@ == all_days(),
                entries@ == es,
                es == flat_meetings(self.courses@),
                di <= 7,
                r@.len() == di,
                forall|k: int| 0 <= k < di ==> (#[trigger] r@[k]).day == all_days()[k],
                forall|k: int|
                    0 <= k < di ==> (#[trigger] r@[k]).entries@ == sort_chrono(
                        day_entries(es, all_days()[k]),
                    ),
            decreases 7 - di,
        {
            let d = days[di];
            let mut sorted: Vec<CourseMeeting> = Vec::new();
            let mut ei: usize = 0;
            proof {
                assert(day_entries(es.subrange(0, 0), d) =~= Seq::<CourseMeeting>::empty());
                assert(sorted@ == sort_chrono(day_entries(es.subrange(0, 0), d)));
            }
            while ei < entries.len()
                invariant
                    entries@ == es,
                    ei <= es.len(),
                    sorted@ == sort_chrono(day_entries(es.subrange(0, ei as int), d)),
                decreases es.len() - ei,
            {
                let ghost prefix = es.subrange(0, ei as int);
                let ghost bucket = day_entries(prefix, d);
                proof {
                    assert(es.subrange(0, ei as int + 1) =~= prefix.push(es[ei as int]));
                    lemma_day_entries_push(prefix, d, es[ei as int]);
                }
                if entries[ei].meeting.day == d {
                    insert_sorted(&mut sorted, entries[ei].duplicate());
                    proof {
                        let grown = day_entries(es.subrange(0, ei as int + 1), d);
                        assert(grown == bucket + seq![es[ei as int]]);
                        assert(grown.drop_last() =~= bucket);
                        assert(grown.last() == es[ei as int]);
                        assert(sort_chrono(grown) == insert_chrono(sort_chrono(bucket), es[ei as int]));
                    }
                } else {
                    proof {
                        assert(day_entries(es.subrange(0, ei as int + 1), d) =~= bucket);
                    }
                }
                ei += 1;
            }
            proof {
                assert(es.subrange(0, es.len() as int) =~= es);
            }
            r.push(DayAgenda { day: d, entries: sorted });
            di += 1;
        }
        r
    }
}

impl Default for Schedule {
    /// The empty schedule: no courses, trivially well formed.
    fn default() -> (r: Schedule)
        ensures
            r.courses@ == Seq::<Course>::empty(),
            r.wf(),
    {
        Schedule { courses: Vec::new() }
    }
}

} // verus!
