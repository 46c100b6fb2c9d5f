//! Times of day as they stand in a timetable: four digits, hours and
//! minutes.

use std::str::FromStr;

use vstd::prelude::*;
use vstd::string::{StrSliceExecFns, StringExecFns};

verus! {

/// A time of day, to the minute.
#[derive(Copy, Clone, Debug, PartialEq, Eq, PartialOrd, Ord)]
pub struct Time {
    h: u8,
    m: u8,
}

/// Why a text is no time.
#[derive(Copy, Clone, Debug, PartialEq, Eq, Structural)]
pub enum TimeError {
    /// The text is not made of exactly four digits.
    InvalidFormat,
}

/// `c` is one of the digits `0` to `9`.
pub open spec fn is_digit(c: char) -> bool {
    48 <= c as u32 <= 57
}

/// The value of the digit `c`.
pub open spec fn digit_value(c: char) -> int {
    c as u32 - 48
}

/// The digit that stands for `d`.
pub open spec fn digit_char(d: int) -> char {
    (d + 48) as u8 as char
}

/// `s` is made of exactly four digits.
pub open spec fn is_hhmm(s: Seq<char>) -> bool {
    s.len() == 4 && is_digit(s[0]) && is_digit(s[1]) && is_digit(s[2]) && is_digit(s[3])
}

impl Time {
    /// The hour, from 0 to 23.
    pub closed spec fn hour(&self) -> int {
        self.h as int
    }

    /// The minute, from 0 to 59.
    pub closed spec fn minute(&self) -> int {
        self.m as int
    }

    /// Hours are below 24 and minutes below 60.
    #[verifier::type_invariant]
    spec fn wf(&self) -> bool {
        self.h < 24 && self.m < 60
    }

    /// The time that is `m` minutes after the full hour `h`, where whole
    /// hours among the minutes are carried over and days are dropped.
    pub fn from_hm(h: u8, m: u8) -> (t: Time)
        ensures
            t.hour() == (h + m / 60) % 24,
            t.minute() == m % 60,
    {
        let hours: u16 = (h as u16 + (m / 60) as u16) % 24;
        Time { h: hours as u8, m: m % 60 }
    }

    /// The hour, from 0 to 23.
    pub fn hours(&self) -> (h: u8)
        ensures
            h == self.hour(),
            h < 24,
    {
        proof {
            use_type_invariant(self);
        }
        self.h
    }

    /// The minute, from 0 to 59.
    pub fn minutes(&self) -> (m: u8)
        ensures
            m == self.minute(),
            m < 60,
    {
        proof {
            use_type_invariant(self);
        }
        self.m
    }

    /// The same time with whole hours among the minutes carried over and
    /// days dropped; a time of day is always in that form.
    pub fn simplified(self) -> (t: Time)
        ensures
            t == self,
            0 <= t.hour() < 24,
            0 <= t.minute() < 60,
    {
        proof {
            use_type_invariant(self);
        }
        self
    }

    /// The time that the four digits of `s` stand for: two for the hour and
    /// two for the minute, carried over as in `from_hm`. Any other text is
    /// refused.
    pub fn parse(s: &str) -> (r: Result<Time, TimeError>)
        ensures
            r is Ok <==> is_hhmm(s@),
            r matches Ok(t) ==> {
                let h = 10 * digit_value(s@[0]) + digit_value(s@[1]);
                let m = 10 * digit_value(s@[2]) + digit_value(s@[3]);
                t.hour() == (h + m / 60) % 24 && t.minute() == m % 60
            },
            r matches Err(e) ==> e == TimeError::InvalidFormat,
    {
        if s.unicode_len() != 4 {
            return Err(TimeError::InvalidFormat);
        }
        let a = s.get_char(0);
        let b = s.get_char(1);
        let c = s.get_char(2);
        let d = s.get_char(3);
        match (digit_of(a), digit_of(b), digit_of(c), digit_of(d)) {
            (Some(a), Some(b), Some(c), Some(d)) => Ok(Time::from_hm(10 * a + b, 10 * c + d)),
            _ => Err(TimeError::InvalidFormat),
        }
    }

    /// The time as four digits, hour first.
    pub fn to_string(&self) -> (r: String)
        ensures
            r@ == seq![
                digit_char(self.hour() / 10),
                digit_char(self.hour() % 10),
                digit_char(self.minute() / 10),
                digit_char(self.minute() % 10),
            ],
    {
        proof {
            use_type_invariant(self);
        }
        let mut out = String::new();
        out.append(digit_text(self.h / 10));
        out.append(digit_text(self.h % 10));
        out.append(digit_text(self.m / 10));
        out.append(digit_text(self.m % 10));
        proof {
            assert(out@ =~= seq![
                digit_char(self.hour() / 10),
                digit_char(self.hour() % 10),
                digit_char(self.minute() / 10),
                digit_char(self.minute() % 10),
            ]);
        }
        out
    }
}

/// The value of `c` if it is a digit.
fn digit_of(c: char) -> (r: Option<u8>)
    ensures
        r is Some <==> is_digit(c),
        r matches Some(d) ==> d == digit_value(c) && d < 10,
{
    let n = c as u32;
    if 48 <= n && n <= 57 {
        Some((n - 48) as u8)
    } else {
        None
    }
}

/// The digit that stands for `d`, as a text.
fn digit_text(d: u8) -> (r: &'static str)
    requires
        d < 10,
    ensures
        r@ == seq![digit_char(d as int)],
{
    proof {
        reveal_strlit("0");
        reveal_strlit("1");
        reveal_strlit("2");
        reveal_strlit("3");
        reveal_strlit("4");
        reveal_strlit("5");
        reveal_strlit("6");
        reveal_strlit("7");
        reveal_strlit("8");
        reveal_strlit("9");
    }
    let r = match d {
        0 => "0",
        1 => "1",
        2 => "2",
        3 => "3",
        4 => "4",
        5 => "5",
        6 => "6",
        7 => "7",
        8 => "8",
        _ => "9",
    };
    proof {
        assert(r@ =~= seq![digit_char(d as int)]);
    }
    r
}

impl FromStr for Time {
    type Err = TimeError;

    /// As `Time::parse`: the time that the four digits of `s` stand for,
    /// and `InvalidFormat` for any other text.
    fn from_str(s: &str) -> (r: Result<Time, TimeError>)
        ensures
            r is Ok <==> is_hhmm(s@),
            r matches Ok(t) ==> {
                let h = 10 * digit_value(s@[0]) + digit_value(s@[1]);
                let m = 10 * digit_value(s@[2]) + digit_value(s@[3]);
                t.hour() == (h + m / 60) % 24 && t.minute() == m % 60
            },
            r matches Err(e) ==> e == TimeError::InvalidFormat,
    {
        Time::parse(s)
    }
}

} // verus!
