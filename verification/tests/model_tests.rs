use class_scheduler::day::Day;
use class_scheduler::model::Meeting;
use class_scheduler::time::{Time, TimeParseError};

fn meeting(day: Day, start: u16, end: u16, location: &str) -> Meeting {
    Meeting {
        day,
        start: Time { minutes: start },
        end: Time { minutes: end },
        location: location.to_string(),
    }
}

#[test]
fn test_day_parse_short_and_long() {
    assert_eq!(Day::parse("mon"), Some(Day::Mon));
    assert_eq!(Day::parse("Monday"), Some(Day::Mon));
    assert_eq!(Day::parse("TUE"), Some(Day::Tue));
    assert_eq!(Day::parse("tuesday"), Some(Day::Tue));
    assert_eq!(Day::parse("Wed"), Some(Day::Wed));
    assert_eq!(Day::parse("THURSDAY"), Some(Day::Thu));
    assert_eq!(Day::parse("fri"), Some(Day::Fri));
    assert_eq!(Day::parse("saturday"), Some(Day::Sat));
    assert_eq!(Day::parse("Sun"), Some(Day::Sun));
}

#[test]
fn test_day_parse_rejects() {
    assert_eq!(Day::parse(""), None);
    assert_eq!(Day::parse("mo"), None);
    assert_eq!(Day::parse("mondays"), None);
    assert_eq!(Day::parse(" mon"), None);
    assert_eq!(Day::parse("funday"), None);
}

#[test]
fn test_day_all_order_and_labels() {
    let all = Day::all();
    assert_eq!(all.len(), 7);
    assert_eq!(all[0], Day::Mon);
    assert_eq!(all[6], Day::Sun);
    let labels: Vec<&str> = all.iter().map(|d| d.short()).collect();
    assert_eq!(labels, vec!["Mon", "Tue", "Wed", "Thu", "Fri", "Sat", "Sun"]);
}

#[test]
fn test_time_parse_valid() {
    let t = Time::parse("08:30").unwrap();
    assert_eq!(t.minutes, 8 * 60 + 30);
    assert_eq!(Time::parse("00:00").unwrap().minutes, 0);
    assert_eq!(Time::parse("23:59").unwrap().minutes, 1439);
    // A one-digit hour is accepted and re-formats zero-padded.
    let t = Time::parse("8:05").unwrap();
    assert_eq!(t.minutes, 8 * 60 + 5);
    assert_eq!(t.fmt(), "08:05");
}

#[test]
fn test_time_parse_round_trip() {
    for s in ["00:00", "08:30", "09:00", "12:34", "23:59"] {
        let t = Time::parse(s).unwrap();
        assert_eq!(t.fmt(), s);
    }
}

#[test]
fn test_time_parse_out_of_range() {
    assert_eq!(Time::parse("24:00"), Err(TimeParseError::OutOfRange));
    assert_eq!(Time::parse("99:00"), Err(TimeParseError::OutOfRange));
    assert_eq!(Time::parse("12:60"), Err(TimeParseError::OutOfRange));
    assert_eq!(Time::parse("12:99"), Err(TimeParseError::OutOfRange));
}

#[test]
fn test_time_parse_missing_separator() {
    assert_eq!(Time::parse("1230"), Err(TimeParseError::MissingSeparator));
    assert_eq!(Time::parse(""), Err(TimeParseError::MissingSeparator));
}

#[test]
fn test_time_parse_bad_hour() {
    assert_eq!(Time::parse(":30"), Err(TimeParseError::InvalidHour));
    assert_eq!(Time::parse("ab:30"), Err(TimeParseError::InvalidHour));
    assert_eq!(Time::parse("123:30"), Err(TimeParseError::InvalidHour));
    assert_eq!(Time::parse("1a:30"), Err(TimeParseError::InvalidHour));
}

#[test]
fn test_time_parse_bad_minute() {
    assert_eq!(Time::parse("12:"), Err(TimeParseError::InvalidMinute));
    assert_eq!(Time::parse("12:3"), Err(TimeParseError::InvalidMinute));
    assert_eq!(Time::parse("12:345"), Err(TimeParseError::InvalidMinute));
    assert_eq!(Time::parse("12:3x"), Err(TimeParseError::InvalidMinute));
    // The minute field runs to the end of the text: a second colon spoils it.
    assert_eq!(Time::parse("12:30:00"), Err(TimeParseError::InvalidMinute));
}

#[test]
fn test_time_fmt_zero_padded() {
    assert_eq!(Time { minutes: 0 }.fmt(), "00:00");
    assert_eq!(Time { minutes: 510 }.fmt(), "08:30");
    assert_eq!(Time { minutes: 1439 }.fmt(), "23:59");
    assert_eq!(Time { minutes: 61 }.fmt(), "01:01");
}

#[test]
fn test_overlaps_same_day() {
    let a = meeting(Day::Mon, 510, 600, "EB101");
    let b = meeting(Day::Mon, 540, 630, "EB102");
    assert!(a.overlaps(&b));
    assert!(b.overlaps(&a));
}

#[test]
fn test_overlaps_symmetric() {
    let a = meeting(Day::Wed, 500, 700, "A");
    let b = meeting(Day::Wed, 650, 800, "B");
    assert_eq!(a.overlaps(&b), b.overlaps(&a));
    let c = meeting(Day::Wed, 700, 800, "C");
    assert_eq!(a.overlaps(&c), c.overlaps(&a));
}

#[test]
fn test_overlaps_different_days() {
    let a = meeting(Day::Mon, 510, 600, "EB101");
    let b = meeting(Day::Tue, 510, 600, "EB102");
    assert!(!a.overlaps(&b));
    assert!(!b.overlaps(&a));
}

#[test]
fn test_overlaps_adjacent_boundary() {
    // [9:00, 10:00) and [10:00, 11:00) share only the boundary: no overlap.
    let a = meeting(Day::Mon, 540, 600, "EB101");
    let b = meeting(Day::Mon, 600, 660, "EB102");
    assert!(!a.overlaps(&b));
    assert!(!b.overlaps(&a));
}

#[test]
fn test_overlaps_ignores_location() {
    let a = meeting(Day::Fri, 510, 600, "Here");
    let b = meeting(Day::Fri, 510, 600, "There");
    assert!(a.overlaps(&b));
}
