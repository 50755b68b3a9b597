use class_scheduler::day::Day;
use class_scheduler::schedule::{Schedule, ScheduleError};
use class_scheduler::time::TimeParseError;

#[test]
fn test_add_class() {
    let mut s = Schedule::default();

    let ok = s.add_course("CS101", "Intro to CS");
    assert!(ok.is_ok());
    assert_eq!(s.courses.len(), 1);
    assert_eq!(s.courses[0].code, "CS101");
}

#[test]
fn test_delete_class() {
    let mut s = Schedule::default();

    s.add_course("CS423", "Rust").unwrap();
    assert_eq!(s.courses.len(), 1);

    let removed_class = s.remove_course("CS423");
    assert!(removed_class);
    assert_eq!(s.courses.len(), 0);
}

#[test]
fn test_add_course_empty_title() {
    let mut s = Schedule::new();
    assert_eq!(s.add_course("CS101", ""), Err(ScheduleError::EmptyRequiredField));
    assert_eq!(s.courses.len(), 0);
}

#[test]
fn test_add_course_duplicate_any_case() {
    let mut s = Schedule::new();
    s.add_course("CS101", "Intro to CS").unwrap();
    assert_eq!(
        s.add_course("cs101", "Another Title"),
        Err(ScheduleError::DuplicateCourseCode)
    );
    assert_eq!(
        s.add_course("Cs101", "Yet Another"),
        Err(ScheduleError::DuplicateCourseCode)
    );
    // The course list is unchanged.
    assert_eq!(s.courses.len(), 1);
    assert_eq!(s.courses[0].code, "CS101");
    assert_eq!(s.courses[0].title, "Intro to CS");
}

#[test]
fn test_remove_nonexistent_leaves_schedule_unchanged() {
    let mut s = Schedule::new();
    s.add_course("CS101", "Intro to CS").unwrap();
    assert!(!s.remove_course("CS999"));
    assert_eq!(s.courses.len(), 1);
    assert_eq!(s.courses[0].code, "CS101");
}

#[test]
fn test_remove_existing_removes_exactly_that_course() {
    let mut s = Schedule::new();
    s.add_course("CS101", "Intro to CS").unwrap();
    s.add_course("CS102", "Data Structures").unwrap();
    s.add_meeting("CS101", "Mon", "08:30", "10:00", "EB101").unwrap();
    assert!(s.remove_course("cs101"));
    assert_eq!(s.courses.len(), 1);
    assert_eq!(s.courses[0].code, "CS102");
}

#[test]
fn test_find_course_case_insensitive() {
    let mut s = Schedule::new();
    s.add_course("CS101", "Intro to CS").unwrap();
    assert!(s.find_course("cs101").is_some());
    assert_eq!(s.find_course("CS101").unwrap().title, "Intro to CS");
    assert!(s.find_course("CS102").is_none());
}

#[test]
fn test_add_meeting_stores_parsed_fields() {
    let mut s = Schedule::new();
    s.add_course("CS101", "Intro to CS").unwrap();
    s.add_meeting("CS101", "monday", "8:30", "10:00", "EB101").unwrap();
    assert_eq!(s.courses[0].meetings.len(), 1);
    let m = &s.courses[0].meetings[0];
    assert_eq!(m.day, Day::Mon);
    assert_eq!(m.start.minutes, 8 * 60 + 30);
    assert_eq!(m.end.minutes, 10 * 60);
    assert_eq!(m.location, "EB101");
}

#[test]
fn test_add_meeting_rejects_bad_inputs() {
    let mut s = Schedule::new();
    s.add_course("CS101", "Intro to CS").unwrap();
    assert_eq!(
        s.add_meeting("CS101", "someday", "08:30", "10:00", "EB101"),
        Err(ScheduleError::InvalidDay)
    );
    assert_eq!(
        s.add_meeting("CS101", "Mon", "8h30", "10:00", "EB101"),
        Err(ScheduleError::InvalidStartTime(TimeParseError::MissingSeparator))
    );
    assert_eq!(
        s.add_meeting("CS101", "Mon", "08:30", "25:00", "EB101"),
        Err(ScheduleError::InvalidEndTime(TimeParseError::OutOfRange))
    );
    assert_eq!(
        s.add_meeting("CS101", "Mon", "08:30", "10:00", ""),
        Err(ScheduleError::EmptyRequiredField)
    );
    assert_eq!(
        s.add_meeting("CS999", "Mon", "08:30", "10:00", "EB101"),
        Err(ScheduleError::CourseNotFound)
    );
    // Nothing was stored by any of the failures.
    assert_eq!(s.courses[0].meetings.len(), 0);
}

#[test]
fn test_add_meeting_rejects_inverted_range() {
    let mut s = Schedule::new();
    s.add_course("CS101", "Intro to CS").unwrap();
    assert_eq!(
        s.add_meeting("CS101", "Mon", "09:00", "08:00", "EB101"),
        Err(ScheduleError::InvalidTimeRange)
    );
    // An empty range is rejected too: the end must be strictly later.
    assert_eq!(
        s.add_meeting("CS101", "Mon", "09:00", "09:00", "EB101"),
        Err(ScheduleError::InvalidTimeRange)
    );
    assert_eq!(s.courses[0].meetings.len(), 0);
}

#[test]
fn test_list_snapshot() {
    let mut s = Schedule::new();
    s.add_course("CS101", "Intro to CS").unwrap();
    s.add_course("CS102", "Data Structures").unwrap();
    s.add_meeting("CS102", "Tue", "09:00", "10:30", "EB102").unwrap();
    let listing = s.list();
    assert_eq!(listing.len(), 2);
    assert_eq!(listing[0].code, "CS101");
    assert!(listing[0].meetings.is_empty());
    assert_eq!(listing[1].code, "CS102");
    assert_eq!(listing[1].meetings.len(), 1);
    assert_eq!(listing[1].meetings[0].location, "EB102");
}

#[test]
fn test_week_view_all_days_present_when_empty() {
    let s = Schedule::new();
    let week = s.week_view();
    assert_eq!(week.len(), 7);
    let days: Vec<Day> = week.iter().map(|a| a.day).collect();
    assert_eq!(days, Day::all());
    for agenda in &week {
        assert!(agenda.entries.is_empty());
    }
}

#[test]
fn test_week_view_all_days_present_with_meetings() {
    let mut s = Schedule::new();
    s.add_course("CS101", "Intro to CS").unwrap();
    s.add_meeting("CS101", "Wed", "08:30", "10:00", "EB101").unwrap();
    let week = s.week_view();
    assert_eq!(week.len(), 7);
    let days: Vec<Day> = week.iter().map(|a| a.day).collect();
    assert_eq!(days, Day::all());
    assert_eq!(week[2].entries.len(), 1);
    assert_eq!(week[2].entries[0].code, "CS101");
    for (k, agenda) in week.iter().enumerate() {
        if k != 2 {
            assert!(agenda.entries.is_empty());
        }
    }
}

#[test]
fn test_week_view_sorted_by_start_then_end() {
    let mut s = Schedule::new();
    s.add_course("CS101", "Intro to CS").unwrap();
    s.add_course("CS102", "Data Structures").unwrap();
    s.add_meeting("CS101", "Mon", "10:00", "11:00", "A").unwrap();
    s.add_meeting("CS101", "Mon", "08:00", "09:00", "B").unwrap();
    s.add_meeting("CS102", "Mon", "08:00", "08:30", "C").unwrap();
    s.add_meeting("CS102", "Mon", "09:30", "10:30", "D").unwrap();
    let week = s.week_view();
    let monday = &week[0];
    let locations: Vec<&str> =
        monday.entries.iter().map(|e| e.meeting.location.as_str()).collect();
    assert_eq!(locations, vec!["C", "B", "D", "A"]);
}

#[test]
fn test_week_view_equal_keys_keep_flattened_order() {
    let mut s = Schedule::new();
    s.add_course("CS101", "Intro to CS").unwrap();
    s.add_course("CS102", "Data Structures").unwrap();
    s.add_meeting("CS101", "Fri", "09:00", "10:00", "First").unwrap();
    s.add_meeting("CS102", "Fri", "09:00", "10:00", "Second").unwrap();
    let week = s.week_view();
    let friday = &week[4];
    assert_eq!(friday.entries.len(), 2);
    assert_eq!(friday.entries[0].code, "CS101");
    assert_eq!(friday.entries[1].code, "CS102");
}

#[test]
fn test_conflicts_reports_one_pair() {
    let mut s = Schedule::new();
    s.add_course("CS101", "Intro to CS").unwrap();
    s.add_meeting("CS101", "Mon", "08:30", "10:00", "EB101").unwrap();
    s.add_course("CS102", "Data Structures").unwrap();
    s.add_meeting("CS102", "Mon", "09:00", "10:30", "EB102").unwrap();
    let found = s.conflicts();
    assert_eq!(found.len(), 1);
    let c = &found[0];
    assert_eq!(c.first.code, "CS101");
    assert_eq!(c.first.meeting.day, Day::Mon);
    assert_eq!(c.first.meeting.start.fmt(), "08:30");
    assert_eq!(c.first.meeting.end.fmt(), "10:00");
    assert_eq!(c.first.meeting.location, "EB101");
    assert_eq!(c.second.code, "CS102");
    assert_eq!(c.second.meeting.start.fmt(), "09:00");
    assert_eq!(c.second.meeting.end.fmt(), "10:30");
    assert_eq!(c.second.meeting.location, "EB102");
}

#[test]
fn test_conflicts_none_on_different_days() {
    let mut s = Schedule::new();
    s.add_course("CS101", "Intro to CS").unwrap();
    s.add_meeting("CS101", "Mon", "08:30", "10:00", "EB101").unwrap();
    s.add_course("CS102", "Data Structures").unwrap();
    s.add_meeting("CS102", "Tue", "09:00", "10:30", "EB102").unwrap();
    assert!(s.conflicts().is_empty());
}

#[test]
fn test_conflicts_within_one_course() {
    let mut s = Schedule::new();
    s.add_course("CS101", "Intro to CS").unwrap();
    s.add_meeting("CS101", "Thu", "08:00", "10:00", "EB101").unwrap();
    s.add_meeting("CS101", "Thu", "09:00", "11:00", "EB102").unwrap();
    let found = s.conflicts();
    assert_eq!(found.len(), 1);
    assert_eq!(found[0].first.code, "CS101");
    assert_eq!(found[0].second.code, "CS101");
}

#[test]
fn test_conflicts_adjacent_meetings_do_not_conflict() {
    let mut s = Schedule::new();
    s.add_course("CS101", "Intro to CS").unwrap();
    s.add_meeting("CS101", "Mon", "09:00", "10:00", "EB101").unwrap();
    s.add_course("CS102", "Data Structures").unwrap();
    s.add_meeting("CS102", "Mon", "10:00", "11:00", "EB102").unwrap();
    assert!(s.conflicts().is_empty());
}

#[test]
fn test_conflicts_enumeration_order() {
    let mut s = Schedule::new();
    s.add_course("CS101", "Intro to CS").unwrap();
    s.add_course("CS102", "Data Structures").unwrap();
    s.add_course("CS103", "Algorithms").unwrap();
    s.add_meeting("CS101", "Mon", "09:00", "12:00", "A").unwrap();
    s.add_meeting("CS102", "Mon", "10:00", "11:00", "B").unwrap();
    s.add_meeting("CS103", "Mon", "10:30", "11:30", "C").unwrap();
    let found = s.conflicts();
    assert_eq!(found.len(), 3);
    assert_eq!((found[0].first.code.as_str(), found[0].second.code.as_str()), ("CS101", "CS102"));
    assert_eq!((found[1].first.code.as_str(), found[1].second.code.as_str()), ("CS101", "CS103"));
    assert_eq!((found[2].first.code.as_str(), found[2].second.code.as_str()), ("CS102", "CS103"));
}
