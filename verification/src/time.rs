//! Time of day as minutes since midnight, in `[0, 1439]`, with
//! bounds-checked parsing from the `H:MM` / `HH:MM` textual form and
//! canonical zero-padded re-formatting.

use vstd::prelude::*;

use crate::chars::digit_char;
use crate::chars::digit_of;
use crate::chars::exec_digit_of;
use crate::chars::is_digit;

verus! {

#[derive(Clone, Copy, Debug, PartialEq, Eq, Structural)]
pub struct Time {
    pub minutes: u16,
}

/// Why a time string was rejected.
#[derive(Clone, Copy, Debug, PartialEq, Eq, Structural)]
pub enum TimeParseError {
    /// No `:` anywhere in the text.
    MissingSeparator,
    /// The part before the colon is not one or two ASCII digits.
    InvalidHour,
    /// The part after the colon is not exactly two ASCII digits.
    InvalidMinute,
    /// Hour above 23 or minute above 59.
    OutOfRange,
}

/// Every character of the string is an ASCII digit.
pub open spec fn all_digits(s: Seq<char>) -> bool {
    forall|i: int| 0 <= i < s.len() ==> is_digit(#[trigger] s[i])
}

/// The value of a one- or two-digit string.
pub open spec fn digits_val(s: Seq<char>) -> int
    recommends
        1 <= s.len() <= 2,
{
    if s.len() == 1 {
        digit_of(s[0])
    } else {
        10 * digit_of(s[0]) + digit_of(s[1])
    }
}

/// The part before the colon is a valid hour field: one or two digits.
pub open spec fn hour_field_ok(h: Seq<char>) -> bool {
    1 <= h.len() <= 2 && all_digits(h)
}

/// The part after the colon is a valid minute field: exactly two digits.
pub open spec fn minute_field_ok(m: Seq<char>) -> bool {
    m.len() == 2 && all_digits(m)
}

/// The text is a well-formed time: digits, a colon, two digits, with the
/// hour at most 23 and the minute at most 59.
pub open spec fn well_formed_time(s: Seq<char>) -> bool {
    exists|i: int|
        {
            &&& 0 <= i < s.len()
            &&& #[trigger] s[i] == ':'
            &&& hour_field_ok(s.subrange(0, i))
            &&& minute_field_ok(s.subrange(i + 1, s.len() as int))
            &&& digits_val(s.subrange(0, i)) <= 23
            &&& digits_val(s.subrange(i + 1, s.len() as int)) <= 59
        }
}

impl Time {
    /// The minute count stays inside a single day.
    pub open spec fn valid(self) -> bool {
        self.minutes < 1440
    }

    /// What `parse` returns: the text is split at the first colon, the hour
    /// field must be one or two digits, the minute field exactly two, and
    /// both values must be in range; the result counts minutes since 00:00.
    pub open spec fn parse_spec(s: Seq<char>) -> Result<Time, TimeParseError> {
        match s.index_of_first(':') {
            Option::None => Result::Err(TimeParseError::MissingSeparator),
            Option::Some(i) => {
                let h = s.subrange(0, i);
                let m = s.subrange(i + 1, s.len() as int);
                if !hour_field_ok(h) {
                    Result::Err(TimeParseError::InvalidHour)
                } else if !minute_field_ok(m) {
                    Result::Err(TimeParseError::InvalidMinute)
                } else if digits_val(h) > 23 || digits_val(m) > 59 {
                    Result::Err(TimeParseError::OutOfRange)
                } else {
                    Result::Ok(Time { minutes: (digits_val(h) * 60 + digits_val(m)) as u16 })
                }
            },
        }
    }

    /// The canonical `HH:MM` rendering, both fields zero-padded to two
    /// digits.
    pub open spec fn fmt_spec(self) -> Seq<char> {
        let h = self.minutes as int / 60;
        let m = self.minutes as int % 60;
        seq![digit_char(h / 10), digit_char(h % 10), ':', digit_char(m / 10), digit_char(m % 10)]
    }

    /// Parses `H:MM` / `HH:MM` with hour in `[0, 23]` and minute in
    /// `[0, 59]`; any other form is rejected with the reason.
    pub fn parse(s: &str) -> (r: Result<Time, TimeParseError>)
        ensures
            r == Time::parse_spec(s@),
            r matches Ok(t) ==> t.valid(),
    {
        let n = s.unicode_len();
        let mut k: usize = 0;
        while k < n && s.get_char(k) != ':'
            invariant
                n == s@.len(),
                k <= n,
                forall|j: int| 0 <= j < k ==> s@[j] != ':',
            decreases n - k,
        {
            k += 1;
        }
        proof {
            s@.index_of_first_ensures(':');
        }
        if k == n {
            return Err(TimeParseError::MissingSeparator);
        }
        let ghost h = s@.subrange(0, k as int);
        let ghost m = s@.subrange(k as int + 1, s@.len() as int);
        proof {
            assert(s@.index_of_first(':') == Some(k as int));
        }
        if k < 1 || k > 2 {
            return Err(TimeParseError::InvalidHour);
        }
        let d0 = exec_digit_of(s.get_char(0));
        if d0 >= 10 {
            proof {
                assert(h[0] == s@[0]);
                assert(!all_digits(h));
            }
            return Err(TimeParseError::InvalidHour);
        }
        let hv: u32 = if k == 2 {
            let d1 = exec_digit_of(s.get_char(1));
            if d1 >= 10 {
                proof {
                    assert(h[1] == s@[1]);
                    assert(!all_digits(h));
                }
                return Err(TimeParseError::InvalidHour);
            }
            10 * d0 + d1
        } else {
            d0
        };
        proof {
            assert(hour_field_ok(h));
            assert(hv == digits_val(h));
        }
        if n - k - 1 != 2 {
            return Err(TimeParseError::InvalidMinute);
        }
        let m0 = exec_digit_of(s.get_char(k + 1));
        if m0 >= 10 {
            proof {
                assert(m[0] == s@[k as int + 1]);
                assert(!all_digits(m));
            }
            return Err(TimeParseError::InvalidMinute);
        }
        let m1 = exec_digit_of(s.get_char(k + 2));
        if m1 >= 10 {
            proof {
                assert(m[1] == s@[k as int + 2]);
                assert(!all_digits(m));
            }
            return Err(TimeParseError::InvalidMinute);
        }
        let mv: u32 = 10 * m0 + m1;
        proof {
            assert(minute_field_ok(m));
            assert(mv == digits_val(m));
        }
        if hv > 23 || mv > 59 {
            return Err(TimeParseError::OutOfRange);
        }
        Ok(Time { minutes: (hv * 60 + mv) as u16 })
    }

    /// Renders the time as zero-padded `HH:MM`.
    pub fn fmt(&self) -> (r: String)
        requires
            self.valid(),
        ensures
            r@ == self.fmt_spec(),
    {
        let h: u16 = self.minutes / 60;
        let m: u16 = self.minutes % 60;
        let mut r = String::new();
        r.append(digit_str(h / 10));
        r.append(digit_str(h % 10));
        r.append(":");
        r.append(digit_str(m / 10));
        r.append(digit_str(m % 10));
        proof {
            reveal_strlit(":");
            assert(r@ =~= self.fmt_spec());
        }
        r
    }
}

/// Formatting then parsing gives the time back: for every valid time `t`,
/// `parse(format(t))` succeeds with exactly `t`.
pub proof fn lemma_format_then_parse(t: Time)
    requires
        t.valid(),
    ensures
        Time::parse_spec(t.fmt_spec()) == Ok::<Time, TimeParseError>(t),
{
    let s = t.fmt_spec();
    let h = t.minutes as int / 60;
    let m = t.minutes as int % 60;
    assert(0 <= h <= 23 && 0 <= m <= 59) by {
        vstd::arithmetic::div_mod::lemma_fundamental_div_mod(t.minutes as int, 60);
    }
    s.index_of_first_ensures(':');
    assert(is_digit(s[0]) && is_digit(s[1]) && is_digit(s[3]) && is_digit(s[4]));
    assert(s.index_of_first(':') == Some(2int));
    let hf = s.subrange(0, 2);
    let mf = s.subrange(3, 5);
    assert(hour_field_ok(hf));
    assert(minute_field_ok(mf));
    assert(digits_val(hf) == 10 * (h / 10) + h % 10);
    assert(digits_val(hf) == h) by {
        vstd::arithmetic::div_mod::lemma_fundamental_div_mod(h, 10);
    }
    assert(digits_val(mf) == m) by {
        vstd::arithmetic::div_mod::lemma_fundamental_div_mod(m, 10);
    }
    assert(h * 60 + m == t.minutes as int) by {
        vstd::arithmetic::div_mod::lemma_fundamental_div_mod(t.minutes as int, 60);
    }
}

/// Parsing then formatting gives the text back, for every zero-padded
/// two-digit `HH:MM` with hour in `[0, 23]` and minute in `[0, 59]`.
pub proof fn lemma_parse_then_format(s: Seq<char>)
    requires
        s.len() == 5,
        is_digit(s[0]),
        is_digit(s[1]),
        s[2] == ':',
        is_digit(s[3]),
        is_digit(s[4]),
        10 * digit_of(s[0]) + digit_of(s[1]) <= 23,
        10 * digit_of(s[3]) + digit_of(s[4]) <= 59,
    ensures
        Time::parse_spec(s) is Ok,
        Time::parse_spec(s)->Ok_0.fmt_spec() == s,
{
    s.index_of_first_ensures(':');
    assert(s.index_of_first(':') == Some(2int));
    let hf = s.subrange(0, 2);
    let mf = s.subrange(3, 5);
    assert(hf[0] == s[0] && hf[1] == s[1] && mf[0] == s[3] && mf[1] == s[4]);
    assert(hour_field_ok(hf));
    assert(minute_field_ok(mf));
    let h = digits_val(hf);
    let m = digits_val(mf);
    let t = Time::parse_spec(s)->Ok_0;
    assert(t.minutes == h * 60 + m);
    assert(t.minutes as int / 60 == h && t.minutes as int % 60 == m) by {
        vstd::arithmetic::div_mod::lemma_fundamental_div_mod_converse(h * 60 + m, 60, h, m);
    }
    assert(h / 10 == digit_of(s[0]) && h % 10 == digit_of(s[1])) by {
        vstd::arithmetic::div_mod::lemma_fundamental_div_mod_converse(
            h,
            10,
            digit_of(s[0]),
            digit_of(s[1]),
        );
    }
    assert(m / 10 == digit_of(s[3]) && m % 10 == digit_of(s[4])) by {
        vstd::arithmetic::div_mod::lemma_fundamental_div_mod_converse(
            m,
            10,
            digit_of(s[3]),
            digit_of(s[4]),
        );
    }
    crate::chars::lemma_digit_char_of(s[0]);
    crate::chars::lemma_digit_char_of(s[1]);
    crate::chars::lemma_digit_char_of(s[3]);
    crate::chars::lemma_digit_char_of(s[4]);
    assert(t.fmt_spec() =~= s);
}

/// Exactly the well-formed time strings parse: parsing succeeds if and only
/// if the text is digits, a colon, two digits, with both values in range.
/// In particular a text without a colon, with a non-numeric or missing
/// component, or with hour above 23 or minute above 59 is rejected.
pub proof fn lemma_parse_ok_iff_well_formed(s: Seq<char>)
    ensures
        Time::parse_spec(s) is Ok <==> well_formed_time(s),
        (forall|i: int| 0 <= i < s.len() ==> s[i] != ':') ==> Time::parse_spec(s) == Err::<
            Time,
            TimeParseError,
        >(TimeParseError::MissingSeparator),
{
    s.index_of_first_ensures(':');
    if Time::parse_spec(s) is Ok {
        let i = s.index_of_first(':')->0;
        assert(well_formed_time(s));
    }
    if well_formed_time(s) {
        let i = choose|i: int|
            {
                &&& 0 <= i < s.len()
                &&& #[trigger] s[i] == ':'
                &&& hour_field_ok(s.subrange(0, i))
                &&& minute_field_ok(s.subrange(i + 1, s.len() as int))
                &&& digits_val(s.subrange(0, i)) <= 23
                &&& digits_val(s.subrange(i + 1, s.len() as int)) <= 59
            };
        assert(forall|j: int| 0 <= j < i ==> is_digit(#[trigger] s[j]) && s[j] != ':') by {
            assert(forall|j: int| 0 <= j < i ==> s.subrange(0, i)[j] == #[trigger] s[j]);
        }
        assert(s.index_of_first(':') == Some(i));
        assert(Time::parse_spec(s) is Ok);
    }
}

/// The one-character string for a decimal digit value.
fn digit_str(d: u16) -> (r: &'static str)
    requires
        d <= 9,
    ensures
        r@ == seq![digit_char(d as int)],
{
    proof {
        reveal_strlit("0");
        reveal_strlit("1");
        reveal_strlit("2");
        reveal_strlit("3");
        reveal_strlit("4");
        reveal_strlit("5");
        reveal_strlit("6");
        reveal_strlit("7");
        reveal_strlit("8");
        reveal_strlit("9");
    }
    let r = match d {
        0 => "0",
        1 => "1",
        2 => "2",
        3 => "3",
        4 => "4",
        5 => "5",
        6 => "6",
        7 => "7",
        8 => "8",
        _ => "9",
    };
    proof {
        assert(r@ =~= seq![digit_char(d as int)]);
    }
    r
}

} // verus!
