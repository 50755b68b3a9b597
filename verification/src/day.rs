//! The seven weekdays: a closed enumeration with a fixed Mon..Sun order,
//! three-letter labels, and case-insensitive parsing of both the
//! abbreviated and the full English names.

use vstd::prelude::*;

use crate::chars::eq_ignore_case;
use crate::chars::str_eq_ignore_case;

verus! {

#[derive(Clone, Copy, Debug, PartialEq, Eq, Structural)]
pub enum Day {
    Mon,
    Tue,
    Wed,
    Thu,
    Fri,
    Sat,
    Sun,
}

/// The canonical Mon..Sun order of the week.
pub open spec fn all_days() -> Seq<Day> {
    seq![Day::Mon, Day::Tue, Day::Wed, Day::Thu, Day::Fri, Day::Sat, Day::Sun]
}

impl Day {
    /// The three-letter label of this day.
    pub open spec fn short_spec(self) -> Seq<char> {
        match self {
            Day::Mon => "Mon"@,
            Day::Tue => "Tue"@,
            Day::Wed => "Wed"@,
            Day::Thu => "Thu"@,
            Day::Fri => "Fri"@,
            Day::Sat => "Sat"@,
            Day::Sun => "Sun"@,
        }
    }

    /// The full English name of this day, lower case.
    pub open spec fn long_spec(self) -> Seq<char> {
        match self {
            Day::Mon => "monday"@,
            Day::Tue => "tuesday"@,
            Day::Wed => "wednesday"@,
            Day::Thu => "thursday"@,
            Day::Fri => "friday"@,
            Day::Sat => "saturday"@,
            Day::Sun => "sunday"@,
        }
    }

    /// Whether the text names this day: it equals, ignoring ASCII case,
    /// either the three-letter label or the full name.
    pub open spec fn names(self, s: Seq<char>) -> bool {
        eq_ignore_case(s, self.short_spec()) || eq_ignore_case(s, self.long_spec())
    }

    /// What `parse` returns: the first day of the week, in Mon..Sun order,
    /// that the text names, if any.
    pub open spec fn parse_spec(s: Seq<char>) -> Option<Day> {
        if Day::Mon.names(s) {
            Some(Day::Mon)
        } else if Day::Tue.names(s) {
            Some(Day::Tue)
        } else if Day::Wed.names(s) {
            Some(Day::Wed)
        } else if Day::Thu.names(s) {
            Some(Day::Thu)
        } else if Day::Fri.names(s) {
            Some(Day::Fri)
        } else if Day::Sat.names(s) {
            Some(Day::Sat)
        } else if Day::Sun.names(s) {
            Some(Day::Sun)
        } else {
            None
        }
    }

    /// The three-letter label, e.g. `"Mon"`.
    pub fn short(&self) -> (r: &'static str)
        ensures
            r@ == self.short_spec(),
    {
        match self {
            Day::Mon => "Mon",
            Day::Tue => "Tue",
            Day::Wed => "Wed",
            Day::Thu => "Thu",
            Day::Fri => "Fri",
            Day::Sat => "Sat",
            Day::Sun => "Sun",
        }
    }

    /// All seven days in canonical Mon..Sun order, independent of any data.
    pub fn all() -> (r: Vec<Day>)
        ensures
            r@ == all_days(),
    {
        let mut v: Vec<Day> = Vec::new();
        v.push(Day::Mon);
        v.push(Day::Tue);
        v.push(Day::Wed);
        v.push(Day::Thu);
        v.push(Day::Fri);
        v.push(Day::Sat);
        v.push(Day::Sun);
        proof {
            assert(v@ =~= all_days());
        }
        v
    }

    /// Case-insensitive parsing of a day name, abbreviated or full.
    pub fn parse(s: &str) -> (r: Option<Day>)
        ensures
            r == Day::parse_spec(s@),
    {
        proof {
            lemma_lower_labels(s@);
        }
        if str_eq_ignore_case(s, "mon") || str_eq_ignore_case(s, "monday") {
            Some(Day::Mon)
        } else if str_eq_ignore_case(s, "tue") || str_eq_ignore_case(s, "tuesday") {
            Some(Day::Tue)
        } else if str_eq_ignore_case(s, "wed") || str_eq_ignore_case(s, "wednesday") {
            Some(Day::Wed)
        } else if str_eq_ignore_case(s, "thu") || str_eq_ignore_case(s, "thursday") {
            Some(Day::Thu)
        } else if str_eq_ignore_case(s, "fri") || str_eq_ignore_case(s, "friday") {
            Some(Day::Fri)
        } else if str_eq_ignore_case(s, "sat") || str_eq_ignore_case(s, "saturday") {
            Some(Day::Sat)
        } else if str_eq_ignore_case(s, "sun") || str_eq_ignore_case(s, "sunday") {
            Some(Day::Sun)
        } else {
            None
        }
    }
}

/// Comparing a text to a capitalized three-letter label, ignoring case, is
/// the same as comparing it to the label's lower-case spelling.
proof fn lemma_lower_labels(s: Seq<char>)
    ensures
        eq_ignore_case(s, "Mon"@) == eq_ignore_case(s, "mon"@),
        eq_ignore_case(s, "Tue"@) == eq_ignore_case(s, "tue"@),
        eq_ignore_case(s, "Wed"@) == eq_ignore_case(s, "wed"@),
        eq_ignore_case(s, "Thu"@) == eq_ignore_case(s, "thu"@),
        eq_ignore_case(s, "Fri"@) == eq_ignore_case(s, "fri"@),
        eq_ignore_case(s, "Sat"@) == eq_ignore_case(s, "sat"@),
        eq_ignore_case(s, "Sun"@) == eq_ignore_case(s, "sun"@),
{
    reveal_strlit("Mon");
    reveal_strlit("mon");
    reveal_strlit("Tue");
    reveal_strlit("tue");
    reveal_strlit("Wed");
    reveal_strlit("wed");
    reveal_strlit("Thu");
    reveal_strlit("thu");
    reveal_strlit("Fri");
    reveal_strlit("fri");
    reveal_strlit("Sat");
    reveal_strlit("sat");
    reveal_strlit("Sun");
    reveal_strlit("sun");
    assert(crate::chars::lower_seq("Mon"@) =~= crate::chars::lower_seq("mon"@));
    assert(crate::chars::lower_seq("Tue"@) =~= crate::chars::lower_seq("tue"@));
    assert(crate::chars::lower_seq("Wed"@) =~= crate::chars::lower_seq("wed"@));
    assert(crate::chars::lower_seq("Thu"@) =~= crate::chars::lower_seq("thu"@));
    assert(crate::chars::lower_seq("Fri"@) =~= crate::chars::lower_seq("fri"@));
    assert(crate::chars::lower_seq("Sat"@) =~= crate::chars::lower_seq("sat"@));
    assert(crate::chars::lower_seq("Sun"@) =~= crate::chars::lower_seq("sun"@));
}

} // verus!
