//! Calendar dates, held as plain year, month and day numbers.
//!
//! Counters are keyed by calendar day. The store compares dates structurally;
//! at its boundary each date is rendered as a fixed-width, zero-padded
//! `YYYY-MM-DD` string, so that the rendered strings order lexicographically
//! exactly as the dates order chronologically.

use vstd::prelude::*;

verus! {

use vstd::string::StrSliceExecFns;
use vstd::string::StringExecFns;

/// A calendar date. A value is meaningful when `wf()` holds: the year has at
/// most four digits and the month and day denote a real day of that month.
#[derive(Clone, Copy, PartialEq, Eq, Structural, Debug)]
pub struct Date {
    pub year: u32,
    pub month: u32,
    pub day: u32,
}

/// Gregorian leap-year rule.
pub open spec fn leap_year(y: int) -> bool {
    (y % 4 == 0 && y % 100 != 0) || y % 400 == 0
}

/// Number of days in a month of a given year.
pub open spec fn days_in_month(y: int, m: int) -> int {
    if m == 2 {
        if leap_year(y) {
            29
        } else {
            28
        }
    } else if m == 4 || m == 6 || m == 9 || m == 11 {
        30
    } else {
        31
    }
}

impl Date {
    /// A date is well formed when it names a real day of the Gregorian
    /// calendar and its year fits in four digits, so that the rendered
    /// `YYYY-MM-DD` form is fixed-width.
    pub open spec fn wf(self) -> bool {
        &&& 1 <= self.year <= 9999
        &&& 1 <= self.month <= 12
        &&& 1 <= self.day <= days_in_month(self.year as int, self.month as int)
    }

    /// Chronological order, non-strict.
    pub open spec fn le(self, other: Date) -> bool {
        ||| self.year < other.year
        ||| (self.year == other.year && self.month < other.month)
        ||| (self.year == other.year && self.month == other.month && self.day <= other.day)
    }

    /// Chronological order, strict.
    pub open spec fn lt(self, other: Date) -> bool {
        self.le(other) && self != other
    }
}

/// Chronological order is antisymmetric: two dates that each precede or equal
/// the other are the same date.
pub proof fn lemma_date_le_antisym(a: Date, b: Date)
    requires
        a.le(b),
        b.le(a),
    ensures
        a == b,
{
}

/// Number of days in a month of a given year.
pub fn month_length(year: u32, month: u32) -> (r: u32)
    requires
        1 <= month <= 12,
    ensures
        r == days_in_month(year as int, month as int),
{
    if month == 2 {
        if (year % 4 == 0 && year % 100 != 0) || year % 400 == 0 {
            29
        } else {
            28
        }
    } else if month == 4 || month == 6 || month == 9 || month == 11 {
        30
    } else {
        31
    }
}

impl Date {
    /// Whether this value names a real, four-digit-year calendar day.
    pub fn valid(&self) -> (r: bool)
        ensures
            r == self.wf(),
    {
        1 <= self.year && self.year <= 9999 && 1 <= self.month && self.month <= 12 && 1
            <= self.day && self.day <= month_length(self.year, self.month)
    }

    /// Non-strict chronological comparison.
    pub fn is_le(&self, other: &Date) -> (r: bool)
        ensures
            r == self.le(*other),
    {
        if self.year != other.year {
            self.year < other.year
        } else if self.month != other.month {
            self.month < other.month
        } else {
            self.day <= other.day
        }
    }

    /// Builds a well-formed date from plain year, month and day numbers, or
    /// `None` when they name no real four-digit-year day.
    pub fn from_ymd(year: i32, month: u32, day: u32) -> (r: Option<Date>)
        ensures
            r matches Some(d) ==> d.wf() && d.year as int == year as int && d.month == month
                && d.day == day,
            r is None <==> !(1 <= year <= 9999 && 1 <= month <= 12 && 1 <= day && day
                <= days_in_month(year as int, month as int)),
    {
        if year < 1 || year > 9999 || month < 1 || month > 12 {
            return None;
        }
        let d = Date { year: year as u32, month: month, day: day };
        if d.valid() {
            Some(d)
        } else {
            None
        }
    }

    /// Strict chronological comparison.
    pub fn is_lt(&self, other: &Date) -> (r: bool)
        ensures
            r == self.lt(*other),
    {
        if self.year != other.year {
            self.year < other.year
        } else if self.month != other.month {
            self.month < other.month
        } else {
            self.day < other.day
        }
    }

    /// The day after this one, or `None` past the last representable day.
    pub fn next_day(&self) -> (r: Option<Date>)
        requires
            self.wf(),
        ensures
            *self == (Date { year: 9999, month: 12, day: 31 }) ==> r is None,
            *self != (Date { year: 9999, month: 12, day: 31 }) ==> r == Some(succ_date(*self)),
            r matches Some(n) ==> n.wf() && self.lt(n),
    {
        if self.day < month_length(self.year, self.month) {
            Some(Date { year: self.year, month: self.month, day: self.day + 1 })
        } else if self.month < 12 {
            Some(Date { year: self.year, month: self.month + 1, day: 1 })
        } else if self.year < 9999 {
            Some(Date { year: self.year + 1, month: 1, day: 1 })
        } else {
            None
        }
    }
}

/// The calendar day after `d`, for any well-formed `d` but the last one.
pub open spec fn succ_date(d: Date) -> Date {
    if d.day < days_in_month(d.year as int, d.month as int) {
        Date { year: d.year, month: d.month, day: (d.day + 1) as u32 }
    } else if d.month < 12 {
        Date { year: d.year, month: (d.month + 1) as u32, day: 1 }
    } else {
        Date { year: (d.year + 1) as u32, month: 1, day: 1 }
    }
}

/// The decimal digit character for a value below ten.
pub open spec fn digit_char(v: int) -> char {
    if v == 0 {
        '0'
    } else if v == 1 {
        '1'
    } else if v == 2 {
        '2'
    } else if v == 3 {
        '3'
    } else if v == 4 {
        '4'
    } else if v == 5 {
        '5'
    } else if v == 6 {
        '6'
    } else if v == 7 {
        '7'
    } else if v == 8 {
        '8'
    } else {
        '9'
    }
}

/// The value of a decimal digit character, or a negative number for any
/// other character.
pub open spec fn digit_val(c: char) -> int {
    if c == '0' {
        0
    } else if c == '1' {
        1
    } else if c == '2' {
        2
    } else if c == '3' {
        3
    } else if c == '4' {
        4
    } else if c == '5' {
        5
    } else if c == '6' {
        6
    } else if c == '7' {
        7
    } else if c == '8' {
        8
    } else if c == '9' {
        9
    } else {
        -1
    }
}

/// The canonical rendering of a date: fixed-width, zero-padded `YYYY-MM-DD`.
pub open spec fn date_seq(d: Date) -> Seq<char> {
    seq![
        digit_char(d.year as int / 1000),
        digit_char((d.year as int / 100) % 10),
        digit_char((d.year as int / 10) % 10),
        digit_char(d.year as int % 10),
        '-',
        digit_char(d.month as int / 10),
        digit_char(d.month as int % 10),
        '-',
        digit_char(d.day as int / 10),
        digit_char(d.day as int % 10),
    ]
}

/// Appends the digit character for `v` to `s`.
fn push_digit(s: &mut String, v: u32)
    requires
        v < 10,
    ensures
        final(s)@ == old(s)@.push(digit_char(v as int)),
{
    proof {
        reveal_strlit("0");
        reveal_strlit("1");
        reveal_strlit("2");
        reveal_strlit("3");
        reveal_strlit("4");
        reveal_strlit("5");
        reveal_strlit("6");
        reveal_strlit("7");
        reveal_strlit("8");
        reveal_strlit("9");
    }
    let ghost before = s@;
    match v {
        0 => s.append("0"),
        1 => s.append("1"),
        2 => s.append("2"),
        3 => s.append("3"),
        4 => s.append("4"),
        5 => s.append("5"),
        6 => s.append("6"),
        7 => s.append("7"),
        8 => s.append("8"),
        _ => s.append("9"),
    }
    proof {
        assert(s@ =~= before.push(digit_char(v as int)));
    }
}

impl Date {
    /// Renders this date as its canonical zero-padded `YYYY-MM-DD` string.
    pub fn format(&self) -> (r: String)
        requires
            self.wf(),
        ensures
            r@ == date_seq(*self),
    {
        let mut s = String::new();
        push_digit(&mut s, self.year / 1000);
        push_digit(&mut s, (self.year / 100) % 10);
        push_digit(&mut s, (self.year / 10) % 10);
        push_digit(&mut s, self.year % 10);
        proof {
            reveal_strlit("-");
        }
        s.append("-");
        push_digit(&mut s, self.month / 10);
        push_digit(&mut s, self.month % 10);
        s.append("-");
        push_digit(&mut s, self.day / 10);
        push_digit(&mut s, self.day % 10);
        proof {
            assert(s@ =~= date_seq(*self));
        }
        s
    }
}

/// What `YYYY-MM-DD` text denotes: `Some` exactly for the canonical rendering
/// of a well-formed date, `None` for everything else.
pub open spec fn parse_spec(t: Seq<char>) -> Option<Date> {
    if t.len() == 10 && digit_val(t[0]) >= 0 && digit_val(t[1]) >= 0 && digit_val(t[2]) >= 0
        && digit_val(t[3]) >= 0 && t[4] == '-' && digit_val(t[5]) >= 0 && digit_val(t[6]) >= 0
        && t[7] == '-' && digit_val(t[8]) >= 0 && digit_val(t[9]) >= 0 {
        let d = Date {
            year: (digit_val(t[0]) * 1000 + digit_val(t[1]) * 100 + digit_val(t[2]) * 10
                + digit_val(t[3])) as u32,
            month: (digit_val(t[5]) * 10 + digit_val(t[6])) as u32,
            day: (digit_val(t[8]) * 10 + digit_val(t[9])) as u32,
        };
        if d.wf() {
            Some(d)
        } else {
            None
        }
    } else {
        None
    }
}

/// The value of a decimal digit character, or `None` for any other character.
fn digit_of(c: char) -> (r: Option<u32>)
    ensures
        digit_val(c) >= 0 ==> r == Some(digit_val(c) as u32),
        digit_val(c) < 0 ==> r is None,
{
    match c {
        '0' => Some(0),
        '1' => Some(1),
        '2' => Some(2),
        '3' => Some(3),
        '4' => Some(4),
        '5' => Some(5),
        '6' => Some(6),
        '7' => Some(7),
        '8' => Some(8),
        '9' => Some(9),
        _ => None,
    }
}

/// Parses canonical `YYYY-MM-DD` text into a date. Accepts exactly the
/// fixed-width, zero-padded renderings of well-formed dates.
pub fn parse_date(s: &str) -> (r: Option<Date>)
    ensures
        r == parse_spec(s@),
{
    if s.unicode_len() != 10 {
        return None;
    }
    let c4 = s.get_char(4);
    let c7 = s.get_char(7);
    if c4 != '-' || c7 != '-' {
        return None;
    }
    let y0 = digit_of(s.get_char(0));
    let y1 = digit_of(s.get_char(1));
    let y2 = digit_of(s.get_char(2));
    let y3 = digit_of(s.get_char(3));
    let m0 = digit_of(s.get_char(5));
    let m1 = digit_of(s.get_char(6));
    let d0 = digit_of(s.get_char(8));
    let d1 = digit_of(s.get_char(9));
    match (y0, y1, y2, y3, m0, m1, d0, d1) {
        (
            Some(y0),
            Some(y1),
            Some(y2),
            Some(y3),
            Some(m0),
            Some(m1),
            Some(d0),
            Some(d1),
        ) => {
            let d = Date {
                year: y0 * 1000 + y1 * 100 + y2 * 10 + y3,
                month: m0 * 10 + m1,
                day: d0 * 10 + d1,
            };
            if d.valid() {
                Some(d)
            } else {
                None
            }
        },
        _ => None,
    }
}

/// Rendering then parsing gives back the same date: the canonical string
/// form loses nothing.
pub proof fn lemma_parse_format_round_trip(d: Date)
    requires
        d.wf(),
    ensures
        parse_spec(date_seq(d)) == Some(d),
{
    let t = date_seq(d);
    let y = d.year as int;
    let m = d.month as int;
    let dd = d.day as int;
    assert(digit_val(digit_char(y / 1000)) == y / 1000);
    assert(digit_val(digit_char((y / 100) % 10)) == (y / 100) % 10);
    assert(digit_val(digit_char((y / 10) % 10)) == (y / 10) % 10);
    assert(digit_val(digit_char(y % 10)) == y % 10);
    assert(digit_val(digit_char(m / 10)) == m / 10);
    assert(digit_val(digit_char(m % 10)) == m % 10);
    assert(digit_val(digit_char(dd / 10)) == dd / 10);
    assert(digit_val(digit_char(dd % 10)) == dd % 10);
    assert((y / 1000) * 1000 + ((y / 100) % 10) * 100 + ((y / 10) % 10) * 10 + y % 10 == y)
        by (nonlinear_arith)
        requires
            1 <= y <= 9999,
    ;
    assert((m / 10) * 10 + m % 10 == m) by (nonlinear_arith)
        requires
            1 <= m <= 12,
    ;
    assert((dd / 10) * 10 + dd % 10 == dd) by (nonlinear_arith)
        requires
            1 <= dd <= 31,
    ;
}


/// Lexicographic order on character sequences, as a text-keyed store
/// compares its date keys.
pub open spec fn lex_le(a: Seq<char>, b: Seq<char>) -> bool {
    ||| a == b
    ||| (a.len() < b.len() && a == b.take(a.len() as int))
    ||| exists|i: int|
        #![trigger a[i], b[i]]
        0 <= i < a.len() && i < b.len() && (forall|j: int| 0 <= j < i ==> a[j] == b[j]) && (
        a[i] as int) < (b[i] as int)
}

/// Digit characters order and compare exactly as their values do.
pub proof fn lemma_digit_char_order(u: int, v: int)
    requires
        0 <= u <= 9,
        0 <= v <= 9,
    ensures
        ((digit_char(u) as int) < (digit_char(v) as int)) <==> u < v,
        (digit_char(u) == digit_char(v)) <==> u == v,
{
}

/// The canonical renderings order lexicographically exactly as the dates
/// order chronologically. This is what makes string range comparisons over
/// the fixed-width, zero-padded form correct, and it holds of no other
/// formatting.
pub proof fn lemma_lex_order_matches_chronology(d1: Date, d2: Date)
    requires
        d1.wf(),
        d2.wf(),
    ensures
        lex_le(date_seq(d1), date_seq(d2)) <==> d1.le(d2),
{
    let a = date_seq(d1);
    let b = date_seq(d2);
    let y1 = d1.year as int;
    let y2 = d2.year as int;
    let m1 = d1.month as int;
    let m2 = d2.month as int;
    let t1 = d1.day as int;
    let t2 = d2.day as int;
    assert(y1 == (y1 / 1000) * 1000 + ((y1 / 100) % 10) * 100 + ((y1 / 10) % 10) * 10 + y1 % 10
        && 0 <= y1 / 1000 <= 9 && 0 <= (y1 / 100) % 10 <= 9 && 0 <= (y1 / 10) % 10 <= 9 && 0 <= y1
        % 10 <= 9) by (nonlinear_arith)
        requires
            1 <= y1 <= 9999,
    ;
    assert(y2 == (y2 / 1000) * 1000 + ((y2 / 100) % 10) * 100 + ((y2 / 10) % 10) * 10 + y2 % 10
        && 0 <= y2 / 1000 <= 9 && 0 <= (y2 / 100) % 10 <= 9 && 0 <= (y2 / 10) % 10 <= 9 && 0 <= y2
        % 10 <= 9) by (nonlinear_arith)
        requires
            1 <= y2 <= 9999,
    ;
    assert(m1 == (m1 / 10) * 10 + m1 % 10 && 0 <= m1 / 10 <= 9 && 0 <= m1 % 10 <= 9)
        by (nonlinear_arith)
        requires
            1 <= m1 <= 12,
    ;
    assert(m2 == (m2 / 10) * 10 + m2 % 10 && 0 <= m2 / 10 <= 9 && 0 <= m2 % 10 <= 9)
        by (nonlinear_arith)
        requires
            1 <= m2 <= 12,
    ;
    assert(t1 == (t1 / 10) * 10 + t1 % 10 && 0 <= t1 / 10 <= 9 && 0 <= t1 % 10 <= 9)
        by (nonlinear_arith)
        requires
            1 <= t1 <= 31,
    ;
    assert(t2 == (t2 / 10) * 10 + t2 % 10 && 0 <= t2 / 10 <= 9 && 0 <= t2 % 10 <= 9)
        by (nonlinear_arith)
        requires
            1 <= t2 <= 31,
    ;
    lemma_digit_char_order(y1 / 1000, y2 / 1000);
    lemma_digit_char_order((y1 / 100) % 10, (y2 / 100) % 10);
    lemma_digit_char_order((y1 / 10) % 10, (y2 / 10) % 10);
    lemma_digit_char_order(y1 % 10, y2 % 10);
    lemma_digit_char_order(m1 / 10, m2 / 10);
    lemma_digit_char_order(m1 % 10, m2 % 10);
    lemma_digit_char_order(t1 / 10, t2 / 10);
    lemma_digit_char_order(t1 % 10, t2 % 10);
    if lex_le(a, b) {
        if a == b {
            assert(a[0] == b[0] && a[1] == b[1] && a[2] == b[2] && a[3] == b[3]);
            assert(a[5] == b[5] && a[6] == b[6] && a[8] == b[8] && a[9] == b[9]);
            assert(y1 == y2 && m1 == m2 && t1 == t2);
            assert(d1 == d2);
        } else {
            let i = choose|i: int|
                0 <= i < a.len() && i < b.len() && (forall|j: int| 0 <= j < i ==> a[j] == b[j])
                    && (#[trigger] a[i] as int) < (#[trigger] b[i] as int);
            if i == 0 {
                assert(y1 < y2);
            } else if i == 1 {
                assert(y1 / 1000 == y2 / 1000 && (y1 / 100) % 10 < (y2 / 100) % 10);
                assert(y1 < y2);
            } else if i == 2 {
                assert(y1 < y2);
            } else if i == 3 {
                assert(y1 < y2);
            } else if i == 4 {
                assert(false);
            } else if i == 5 {
                assert(y1 == y2 && m1 / 10 < m2 / 10);
                assert(m1 < m2);
            } else if i == 6 {
                assert(y1 == y2 && m1 < m2);
            } else if i == 7 {
                assert(false);
            } else if i == 8 {
                assert(y1 == y2 && m1 == m2 && t1 < t2);
            } else {
                assert(y1 == y2 && m1 == m2 && t1 < t2);
            }
        }
    }
    if d1.le(d2) {
        if d1 == d2 {
            assert(a =~= b);
        } else if y1 != y2 {
            if y1 / 1000 != y2 / 1000 {
                assert(y1 / 1000 < y2 / 1000);
                assert((a[0] as int) < (b[0] as int) && (forall|j: int| 0 <= j < 0 ==> a[j]
                    == b[j]));
            } else if (y1 / 100) % 10 != (y2 / 100) % 10 {
                assert((y1 / 100) % 10 < (y2 / 100) % 10);
                assert((a[1] as int) < (b[1] as int));
                assert(forall|j: int| 0 <= j < 1 ==> a[j] == b[j]);
            } else if (y1 / 10) % 10 != (y2 / 10) % 10 {
                assert((y1 / 10) % 10 < (y2 / 10) % 10);
                assert((a[2] as int) < (b[2] as int));
                assert(forall|j: int| 0 <= j < 2 ==> a[j] == b[j]);
            } else {
                assert(y1 % 10 < y2 % 10);
                assert((a[3] as int) < (b[3] as int));
                assert(forall|j: int| 0 <= j < 3 ==> a[j] == b[j]);
            }
        } else if m1 != m2 {
            if m1 / 10 != m2 / 10 {
                assert(m1 / 10 < m2 / 10);
                assert((a[5] as int) < (b[5] as int));
                assert(forall|j: int| 0 <= j < 5 ==> a[j] == b[j]);
            } else {
                assert(m1 % 10 < m2 % 10);
                assert((a[6] as int) < (b[6] as int));
                assert(forall|j: int| 0 <= j < 6 ==> a[j] == b[j]);
            }
        } else {
            if t1 / 10 != t2 / 10 {
                assert(t1 / 10 < t2 / 10);
                assert((a[8] as int) < (b[8] as int));
                assert(forall|j: int| 0 <= j < 8 ==> a[j] == b[j]);
            } else {
                assert(t1 % 10 < t2 % 10);
                assert((a[9] as int) < (b[9] as int));
                assert(forall|j: int| 0 <= j < 9 ==> a[j] == b[j]);
            }
        }
    }
}

} // verus!
