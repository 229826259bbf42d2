//! The typed cell-value model and its two renderings: a human-formatted
//! display string (thousands separators, date decoding) and a raw export
//! string (unformatted, round-trippable).

use vstd::prelude::*;

verus! {

// ===== Decimal text: spec level =====

/// True for the ten ASCII digit characters.
pub open spec fn is_digit_char(c: char) -> bool {
    '0' <= c && c <= '9'
}

/// The digit character for a value in `0..=9`.
pub open spec fn digit_char(d: int) -> char {
    if d == 0 {
        '0'
    } else if d == 1 {
        '1'
    } else if d == 2 {
        '2'
    } else if d == 3 {
        '3'
    } else if d == 4 {
        '4'
    } else if d == 5 {
        '5'
    } else if d == 6 {
        '6'
    } else if d == 7 {
        '7'
    } else if d == 8 {
        '8'
    } else {
        '9'
    }
}

/// Decimal digits of `n`, most significant first.
pub open spec fn dec_digits(n: nat) -> Seq<char>
    decreases n,
{
    if n < 10 {
        seq![digit_char(n as int)]
    } else {
        dec_digits(n / 10).push(digit_char((n % 10) as int))
    }
}

/// Signed decimal text of `i`.
pub open spec fn int_text(i: int) -> Seq<char> {
    if i < 0 {
        seq!['-'] + dec_digits((-i) as nat)
    } else {
        dec_digits(i as nat)
    }
}

proof fn lemma_dec_digits_all_digits(n: nat)
    ensures
        dec_digits(n).len() >= 1,
        forall|i: int| 0 <= i < dec_digits(n).len() ==> is_digit_char(#[trigger] dec_digits(n)[i]),
    decreases n,
{
    if n >= 10 {
        lemma_dec_digits_all_digits(n / 10);
    }
}

// ===== Decimal text: exec level =====

/// The one-character string for a digit value.
fn digit_str(d: u64) -> (r: &'static str)
    requires
        d < 10,
    ensures
        r@ =~= seq![digit_char(d as int)],
{
    proof {
        reveal_strlit("0");
        reveal_strlit("1");
        reveal_strlit("2");
        reveal_strlit("3");
        reveal_strlit("4");
        reveal_strlit("5");
        reveal_strlit("6");
        reveal_strlit("7");
        reveal_strlit("8");
        reveal_strlit("9");
    }
    if d == 0 {
        "0"
    } else if d == 1 {
        "1"
    } else if d == 2 {
        "2"
    } else if d == 3 {
        "3"
    } else if d == 4 {
        "4"
    } else if d == 5 {
        "5"
    } else if d == 6 {
        "6"
    } else if d == 7 {
        "7"
    } else if d == 8 {
        "8"
    } else {
        "9"
    }
}

/// Decimal rendering of an unsigned machine integer.
pub fn u64_to_string(n: u64) -> (s: String)
    ensures
        s@ == dec_digits(n as nat),
    decreases n,
{
    if n < 10 {
        let s = digit_str(n).to_owned();
        assert(s@ =~= dec_digits(n as nat));
        s
    } else {
        let mut s = u64_to_string(n / 10);
        s.append(digit_str(n % 10));
        assert(s@ =~= dec_digits(n as nat));
        s
    }
}

/// Decimal rendering of a signed machine integer.
pub fn i64_to_string(i: i64) -> (s: String)
    ensures
        s@ == int_text(i as int),
{
    if i >= 0 {
        let s = u64_to_string(i as u64);
        assert(s@ =~= int_text(i as int));
        s
    } else {
        let mag: u64 = ((-(i + 1)) as u64) + 1;
        assert(mag as nat == (-(i as int)) as nat);
        let mut s = "-".to_owned();
        proof {
            reveal_strlit("-");
        }
        s.append(u64_to_string(mag).as_str());
        assert(s@ =~= int_text(i as int));
        s
    }
}

// ===== Grouping by thousands =====

/// Digits grouped by three from the least significant, comma-separated.
pub open spec fn grouped(s: Seq<char>) -> Seq<char>
    decreases s.len(),
{
    if s.len() <= 3 {
        s
    } else {
        grouped(s.subrange(0, s.len() - 3)) + seq![','] + s.subrange(s.len() - 3, s.len() as int)
    }
}

/// Signed decimal text of `i` with the digits grouped by thousands; the
/// sign stays outside the grouping.
pub open spec fn grouped_int_text(i: int) -> Seq<char> {
    if i < 0 {
        seq!['-'] + grouped(dec_digits((-i) as nat))
    } else {
        grouped(dec_digits(i as nat))
    }
}

proof fn lemma_digit_chars_ascii(s: Seq<char>)
    requires
        forall|i: int| 0 <= i < s.len() ==> is_digit_char(#[trigger] s[i]),
    ensures
        vstd::utf8::is_ascii_chars(s),
{
}

/// Insert thousands separators into a string of digits.
fn group_digits(s: &str) -> (r: String)
    requires
        forall|i: int| 0 <= i < s@.len() ==> is_digit_char(#[trigger] s@[i]),
    ensures
        r@ == grouped(s@),
    decreases s@.len(),
{
    proof {
        lemma_digit_chars_ascii(s@);
    }
    let n = s.unicode_len();
    if n <= 3 {
        s.to_owned()
    } else {
        let head = s.substring_ascii(0, n - 3);
        let tail = s.substring_ascii(n - 3, n);
        let mut r = group_digits(head);
        r.append(",");
        proof {
            reveal_strlit(",");
        }
        r.append(tail);
        assert(r@ =~= grouped(s@));
        r
    }
}

// ===== The cell value model =====

/// The integer part of a value with a nonzero fractional part stays below
/// this bound (a binary double with a fractional part always does).
pub const FRACTIONAL_WHOLE_BOUND: u64 = 0x10_0000_0000_0000;

/// A non-integral numeric cell, decomposed into plain decimal parts: the
/// sign, the integer part, and the fractional digits of the value's
/// shortest decimal form (empty when the value is whole).
#[derive(Debug, Clone, PartialEq)]
pub struct RealValue {
    /// True for a negative value (also for a negative zero).
    pub neg: bool,
    /// Absolute value of the integer part.
    pub whole: u64,
    /// Fractional decimal digits, most significant first; empty when whole.
    pub frac: String,
}

/// A date-serial cell in the 1900 date system, decomposed into plain
/// parts: the floor of the serial and the time-of-day it carries.
#[derive(Debug, Clone, PartialEq)]
pub struct DateValue {
    /// Floor of the serial: days counted from the 1899-12-31 epoch.
    pub days: i64,
    /// The serial's fractional part, as seconds rounded to the nearest
    /// whole second; zero when the serial carries no time of day.
    pub secs: u32,
}

/// A single cell: a closed set of scalar variants.  Absence of data is the
/// `Empty` variant, never the absence of a value.
#[derive(Debug, Clone, PartialEq)]
pub enum CellValue {
    Empty,
    Text(String),
    Int(i64),
    Float(RealValue),
    Bool(bool),
    Error(String),
    DateTime(DateValue),
}

impl RealValue {
    /// Validity: the fractional part holds digits only, and a value with a
    /// fractional part has its integer part in the range a binary double
    /// could put it.
    pub open spec fn wf(self) -> bool {
        &&& forall|i: int| 0 <= i < self.frac@.len() ==> is_digit_char(#[trigger] self.frac@[i])
        &&& self.frac@.len() > 0 ==> self.whole < FRACTIONAL_WHOLE_BOUND
    }

    /// Raw text: sign, integer digits, then the fractional digits if any.
    pub open spec fn raw_text(self) -> Seq<char> {
        let sign: Seq<char> = if self.neg {
            seq!['-']
        } else {
            Seq::<char>::empty()
        };
        if self.frac@.len() == 0 {
            sign + dec_digits(self.whole as nat)
        } else {
            sign + dec_digits(self.whole as nat) + seq!['.'] + self.frac@
        }
    }

    /// Display text: the value rounded half-up to two decimal places and
    /// grouped by thousands; a whole value renders without decimals.
    pub open spec fn display_text(self) -> Seq<char> {
        let sign: Seq<char> = if self.neg {
            seq!['-']
        } else {
            Seq::<char>::empty()
        };
        if self.frac@.len() == 0 {
            sign + grouped(dec_digits(self.whole as nat))
        } else {
            let c = cents_rounded(self.frac@);
            let w: nat = if c == 100 {
                self.whole as nat + 1
            } else {
                self.whole as nat
            };
            let cents: int = if c == 100 {
                0
            } else {
                c
            };
            sign + grouped(dec_digits(w)) + seq!['.'] + two_digit_text(cents)
        }
    }
}

/// Value of the digit at position `i`, or zero past the end.
pub open spec fn frac_digit_val(s: Seq<char>, i: int) -> int {
    if 0 <= i < s.len() {
        (s[i] as int) - 48
    } else {
        0
    }
}

/// The fractional digits rounded half-up to hundredths; `100` means the
/// rounding carries into the integer part.
pub open spec fn cents_rounded(frac: Seq<char>) -> int {
    let base = frac_digit_val(frac, 0) * 10 + frac_digit_val(frac, 1);
    if frac.len() > 2 && frac_digit_val(frac, 2) >= 5 {
        base + 1
    } else {
        base
    }
}

/// Exactly two digits for a value in `0..=99`.
pub open spec fn two_digit_text(v: int) -> Seq<char> {
    seq![digit_char(v / 10), digit_char(v % 10)]
}

/// At least two digits, zero-padded, for a nonnegative value.
pub open spec fn pad2_text(v: int) -> Seq<char> {
    if v < 10 {
        seq!['0', digit_char(v)]
    } else {
        dec_digits(v as nat)
    }
}

/// `HH:MM:SS` text for a count of seconds.
pub open spec fn time_text(secs: int) -> Seq<char> {
    pad2_text(secs / 3600) + seq![':'] + pad2_text((secs % 3600) / 60) + seq![':'] + pad2_text(
        secs % 60,
    )
}

// ===== Date decoding =====

/// The `YYYY-MM-DD` text of the calendar date `days` days after
/// 1899-12-31, or `None` when the calendar library's range is exceeded.
pub uninterp spec fn date_text_of(days: int) -> Option<Seq<char>>;

/// True when an optional string carries exactly the named optional text.
pub open spec fn text_option_matches(r: Option<String>, m: Option<Seq<char>>) -> bool {
    match (r, m) {
        (Option::Some(s), Option::Some(t)) => s@ == t,
        (Option::None, Option::None) => true,
        _ => false,
    }
}

/// Relies on chrono (`NaiveDate::checked_add_signed` over `1899-12-31`,
/// `TimeDelta::try_days`, and `%Y-%m-%d` formatting) for the calendar date
/// `days` days after 1899-12-31; `None` when the date leaves chrono's
/// range.  The result depends on `days` alone.
#[verifier::external_body]
fn date_text(days: i64) -> (r: Option<String>)
    ensures
        text_option_matches(r, date_text_of(days as int)),
{
    let epoch = match chrono::NaiveDate::from_ymd_opt(1899, 12, 31) {
        Some(d) => d,
        None => return None,
    };
    let delta = match chrono::TimeDelta::try_days(days) {
        Some(d) => d,
        None => return None,
    };
    epoch.checked_add_signed(delta).map(|d| d.format("%Y-%m-%d").to_string())
}

/// The shared date decoding: serials above the nonexistent 1900-02-29
/// (day 60) shift down by one day; a nonzero time of day appends
/// `HH:MM:SS`; a date out of calendar range falls back to `Date[n]`.
pub open spec fn date_serial_text(d: DateValue) -> Seq<char> {
    let adj: int = if d.days > 60 {
        d.days - 1
    } else {
        d.days as int
    };
    match date_text_of(adj) {
        Option::Some(t) => if d.secs != 0 {
            t + seq![' '] + time_text(d.secs as int)
        } else {
            t
        },
        Option::None => "Date["@ + int_text(d.days as int) + "]"@,
    }
}

/// At least two digits, zero-padded.
fn pad2(v: u64) -> (s: String)
    ensures
        s@ == pad2_text(v as int),
{
    if v < 10 {
        let mut s = "0".to_owned();
        proof {
            reveal_strlit("0");
        }
        s.append(digit_str(v));
        assert(s@ =~= pad2_text(v as int));
        s
    } else {
        u64_to_string(v)
    }
}

/// Renders a date-serial cell.
fn date_value_string(d: &DateValue) -> (r: String)
    ensures
        r@ == date_serial_text(*d),
{
    let adj: i64 = if d.days > 60 {
        d.days - 1
    } else {
        d.days
    };
    match date_text(adj) {
        Some(t) => {
            if d.secs != 0 {
                let mut r = t;
                r.append(" ");
                proof {
                    reveal_strlit(" ");
                    reveal_strlit(":");
                }
                let secs: u64 = d.secs as u64;
                r.append(pad2(secs / 3600).as_str());
                r.append(":");
                r.append(pad2((secs % 3600) / 60).as_str());
                r.append(":");
                r.append(pad2(secs % 60).as_str());
                assert(r@ =~= date_serial_text(*d));
                r
            } else {
                t
            }
        },
        None => {
            let mut r = "Date[".to_owned();
            proof {
                reveal_strlit("Date[");
                reveal_strlit("]");
            }
            r.append(i64_to_string(d.days).as_str());
            r.append("]");
            assert(r@ =~= date_serial_text(*d));
            r
        },
    }
}

/// Decimal rendering of a signed integer with thousands separators.
pub fn i64_to_grouped_string(i: i64) -> (s: String)
    ensures
        s@ == grouped_int_text(i as int),
{
    if i >= 0 {
        let digits = u64_to_string(i as u64);
        proof {
            lemma_dec_digits_all_digits(i as nat);
        }
        let s = group_digits(digits.as_str());
        assert(s@ =~= grouped_int_text(i as int));
        s
    } else {
        let mag: u64 = ((-(i + 1)) as u64) + 1;
        assert(mag as nat == (-(i as int)) as nat);
        let digits = u64_to_string(mag);
        proof {
            lemma_dec_digits_all_digits(mag as nat);
        }
        let mut s = "-".to_owned();
        proof {
            reveal_strlit("-");
        }
        s.append(group_digits(digits.as_str()).as_str());
        assert(s@ =~= grouped_int_text(i as int));
        s
    }
}

// ===== Rendering the cell variants =====

/// Value of the digit character at `i`.
fn digit_val_at(s: &str, i: usize) -> (d: u64)
    requires
        i < s@.len(),
        is_digit_char(s@[i as int]),
    ensures
        d == frac_digit_val(s@, i as int),
        d < 10,
{
    let c = s.get_char(i);
    (((c as u32) - 48) as u64)
}

/// Raw rendering of a non-integral numeric cell: no grouping, the natural
/// decimal form.
fn real_raw_string(r: &RealValue) -> (s: String)
    ensures
        s@ == r.raw_text(),
{
    let mut s = if r.neg {
        "-".to_owned()
    } else {
        String::new()
    };
    proof {
        reveal_strlit("-");
    }
    s.append(u64_to_string(r.whole).as_str());
    if !r.frac.as_str().is_empty() {
        s.append(".");
        proof {
            reveal_strlit(".");
        }
        s.append(r.frac.as_str());
    }
    assert(s@ =~= r.raw_text());
    s
}

/// Display rendering of a non-integral numeric cell: rounded half-up to
/// two decimal places unless whole, grouped by thousands.
fn real_display_string(r: &RealValue) -> (s: String)
    requires
        r.wf(),
    ensures
        s@ == r.display_text(),
{
    let mut s = if r.neg {
        "-".to_owned()
    } else {
        String::new()
    };
    proof {
        reveal_strlit("-");
    }
    let frac = r.frac.as_str();
    if frac.is_empty() {
        let digits = u64_to_string(r.whole);
        proof {
            lemma_dec_digits_all_digits(r.whole as nat);
        }
        s.append(group_digits(digits.as_str()).as_str());
        assert(s@ =~= r.display_text());
        s
    } else {
        let n = frac.unicode_len();
        let d0 = digit_val_at(frac, 0);
        let d1 = if n > 1 {
            digit_val_at(frac, 1)
        } else {
            0
        };
        let base = d0 * 10 + d1;
        let round_up = n > 2 && digit_val_at(frac, 2) >= 5;
        let cents: u64 = if round_up {
            base + 1
        } else {
            base
        };
        let (whole, cents): (u64, u64) = if cents == 100 {
            (r.whole + 1, 0)
        } else {
            (r.whole, cents)
        };
        let digits = u64_to_string(whole);
        proof {
            lemma_dec_digits_all_digits(whole as nat);
        }
        s.append(group_digits(digits.as_str()).as_str());
        s.append(".");
        proof {
            reveal_strlit(".");
        }
        s.append(digit_str(cents / 10));
        s.append(digit_str(cents % 10));
        assert(s@ =~= r.display_text());
        s
    }
}

impl CellValue {
    /// Validity: a non-integral numeric cell carries well-formed decimal
    /// parts; every other variant is unconstrained.
    pub open spec fn wf(self) -> bool {
        match self {
            CellValue::Float(r) => r.wf(),
            _ => true,
        }
    }

    /// The human-formatted rendering: thousands separators on numbers,
    /// date decoding on serials, `ERROR: e` on error cells.
    pub open spec fn display_text(self) -> Seq<char> {
        match self {
            CellValue::Empty => Seq::<char>::empty(),
            CellValue::Text(s) => s@,
            CellValue::Int(i) => grouped_int_text(i as int),
            CellValue::Float(r) => r.display_text(),
            CellValue::Bool(b) => if b {
                "true"@
            } else {
                "false"@
            },
            CellValue::Error(e) => "ERROR: "@ + e@,
            CellValue::DateTime(d) => date_serial_text(d),
        }
    }

    /// The raw export rendering: no grouping, `#e` on error cells, the
    /// same date decoding as the display rendering.
    pub open spec fn raw_text(self) -> Seq<char> {
        match self {
            CellValue::Empty => Seq::<char>::empty(),
            CellValue::Text(s) => s@,
            CellValue::Int(i) => int_text(i as int),
            CellValue::Float(r) => r.raw_text(),
            CellValue::Bool(b) => if b {
                "true"@
            } else {
                "false"@
            },
            CellValue::Error(e) => seq!['#'] + e@,
            CellValue::DateTime(d) => date_serial_text(d),
        }
    }

    /// The rendering of a header cell: as the display rendering but with
    /// no grouping on numbers.
    pub open spec fn header_text(self) -> Seq<char> {
        match self {
            CellValue::Empty => Seq::<char>::empty(),
            CellValue::Text(s) => s@,
            CellValue::Int(i) => int_text(i as int),
            CellValue::Float(r) => r.raw_text(),
            CellValue::Bool(b) => if b {
                "true"@
            } else {
                "false"@
            },
            CellValue::Error(e) => "ERROR: "@ + e@,
            CellValue::DateTime(d) => date_serial_text(d),
        }
    }

    /// True only for the `Empty` variant.
    pub fn is_empty(&self) -> (r: bool)
        ensures
            r == (self is Empty),
    {
        matches!(self, CellValue::Empty)
    }

    /// True for the two numeric variants.
    pub fn is_numeric(&self) -> (r: bool)
        ensures
            r == (self is Int || self is Float),
    {
        matches!(self, CellValue::Int(_) | CellValue::Float(_))
    }

    /// Human-formatted rendering of the cell.
    pub fn display(&self) -> (r: String)
        requires
            self.wf(),
        ensures
            r@ == self.display_text(),
    {
        match self {
            CellValue::Empty => String::new(),
            CellValue::Text(s) => s.clone(),
            CellValue::Int(i) => i64_to_grouped_string(*i),
            CellValue::Float(r) => real_display_string(r),
            CellValue::Bool(b) => {
                proof {
                    reveal_strlit("true");
                    reveal_strlit("false");
                }
                if *b {
                    "true".to_owned()
                } else {
                    "false".to_owned()
                }
            },
            CellValue::Error(e) => {
                let mut r = "ERROR: ".to_owned();
                proof {
                    reveal_strlit("ERROR: ");
                }
                r.append(e.as_str());
                r
            },
            CellValue::DateTime(d) => date_value_string(d),
        }
    }

    /// Unformatted rendering for export and copying.
    pub fn to_raw_string(&self) -> (r: String)
        ensures
            r@ == self.raw_text(),
    {
        match self {
            CellValue::Empty => String::new(),
            CellValue::Text(s) => s.clone(),
            CellValue::Int(i) => i64_to_string(*i),
            CellValue::Float(r) => real_raw_string(r),
            CellValue::Bool(b) => {
                proof {
                    reveal_strlit("true");
                    reveal_strlit("false");
                }
                if *b {
                    "true".to_owned()
                } else {
                    "false".to_owned()
                }
            },
            CellValue::Error(e) => {
                let mut r = "#".to_owned();
                proof {
                    reveal_strlit("#");
                }
                r.append(e.as_str());
                r
            },
            CellValue::DateTime(d) => date_value_string(d),
        }
    }

    /// An explicit copy with a contract (a derived clone would say
    /// nothing about its result).
    pub fn duplicate(&self) -> (r: CellValue)
        ensures
            r == *self,
    {
        match self {
            CellValue::Empty => CellValue::Empty,
            CellValue::Text(s) => CellValue::Text(s.clone()),
            CellValue::Int(i) => CellValue::Int(*i),
            CellValue::Float(r) => CellValue::Float(
                RealValue { neg: r.neg, whole: r.whole, frac: r.frac.clone() },
            ),
            CellValue::Bool(b) => CellValue::Bool(*b),
            CellValue::Error(e) => CellValue::Error(e.clone()),
            CellValue::DateTime(d) => CellValue::DateTime(DateValue { days: d.days, secs: d.secs }),
        }
    }
}

/// Rendering of a header cell.
pub fn cell_to_string(c: &CellValue) -> (r: String)
    ensures
        r@ == c.header_text(),
{
    match c {
        CellValue::Empty => String::new(),
        CellValue::Text(s) => s.clone(),
        CellValue::Int(i) => i64_to_string(*i),
        CellValue::Float(r) => real_raw_string(r),
        CellValue::Bool(b) => {
            proof {
                reveal_strlit("true");
                reveal_strlit("false");
            }
            if *b {
                "true".to_owned()
            } else {
                "false".to_owned()
            }
        },
        CellValue::Error(e) => {
            let mut r = "ERROR: ".to_owned();
            proof {
                reveal_strlit("ERROR: ");
            }
            r.append(e.as_str());
            r
        },
        CellValue::DateTime(d) => date_value_string(d),
    }
}

// ===== Coercion of text fields =====

/// True when every character of `s` is a decimal digit.
pub open spec fn all_digits(s: Seq<char>) -> bool {
    forall|i: int| 0 <= i < s.len() ==> is_digit_char(#[trigger] s[i])
}

/// Numeric value of a digit string, most significant first.
pub open spec fn digits_value(s: Seq<char>) -> int
    decreases s.len(),
{
    if s.len() == 0 {
        0
    } else {
        digits_value(s.drop_last()) * 10 + (s.last() as int - 48)
    }
}

/// True when the field opens with an explicit sign.
pub open spec fn has_sign(s: Seq<char>) -> bool {
    s.len() > 0 && (s[0] == '+' || s[0] == '-')
}

/// True when the field opens with a minus sign.
pub open spec fn sign_negative(s: Seq<char>) -> bool {
    s.len() > 0 && s[0] == '-'
}

/// The field with an explicit sign stripped.
pub open spec fn body_of(s: Seq<char>) -> Seq<char> {
    if has_sign(s) {
        s.subrange(1, s.len() as int)
    } else {
        s
    }
}

/// Index of the first `'.'`, or `-1` when there is none.
pub open spec fn find_dot(s: Seq<char>) -> int
    decreases s.len(),
{
    if s.len() == 0 {
        -1
    } else if s[0] == '.' {
        0
    } else {
        let r = find_dot(s.drop_first());
        if r < 0 {
            -1
        } else {
            r + 1
        }
    }
}

proof fn lemma_find_dot(s: Seq<char>)
    ensures
        find_dot(s) == -1 ==> forall|i: int| 0 <= i < s.len() ==> s[i] != '.',
        find_dot(s) >= 0 ==> 0 <= find_dot(s) < s.len() && s[find_dot(s)] == '.' && forall|i: int|
            0 <= i < find_dot(s) ==> s[i] != '.',
        (exists|i: int| 0 <= i < s.len() && s[i] == '.') ==> find_dot(s) >= 0,
    decreases s.len(),
{
    if s.len() > 0 && s[0] != '.' {
        let t = s.drop_first();
        lemma_find_dot(t);
        assert(forall|i: int| 1 <= i < s.len() ==> s[i] == t[i - 1]);
        if exists|i: int| 0 <= i < s.len() && s[i] == '.' {
            let w = choose|i: int| 0 <= i < s.len() && s[i] == '.';
            assert(t[w - 1] == '.');
        }
        if find_dot(t) >= 0 {
            assert(s[find_dot(t) + 1] == t[find_dot(t)]);
        }
    }
}

/// A signed string of digits: the integer-parse grammar.
pub open spec fn is_int_input(s: Seq<char>) -> bool {
    body_of(s).len() > 0 && all_digits(body_of(s))
}

/// The signed value of an integer-grammar field.
pub open spec fn int_input_value(s: Seq<char>) -> int {
    if sign_negative(s) {
        -digits_value(body_of(s))
    } else {
        digits_value(body_of(s))
    }
}

/// A signed simple decimal: digits with exactly one `'.'` among them and
/// at least one digit somewhere.
pub open spec fn is_real_input(s: Seq<char>) -> bool {
    let b = body_of(s);
    let k = find_dot(b);
    &&& k >= 0
    &&& b.len() > 1
    &&& all_digits(b.subrange(0, k))
    &&& all_digits(b.subrange(k + 1, b.len() as int))
}

/// Digit string with trailing zeros removed.
pub open spec fn strip_trailing_zeros(s: Seq<char>) -> Seq<char>
    decreases s.len(),
{
    if s.len() > 0 && s.last() == '0' {
        strip_trailing_zeros(s.drop_last())
    } else {
        s
    }
}

/// The integer-part value of a decimal-grammar field.
pub open spec fn real_whole_value(s: Seq<char>) -> int {
    let b = body_of(s);
    digits_value(b.subrange(0, find_dot(b)))
}

/// The fractional digits of a decimal-grammar field, in shortest form.
pub open spec fn real_frac_canon(s: Seq<char>) -> Seq<char> {
    let b = body_of(s);
    strip_trailing_zeros(b.subrange(find_dot(b) + 1, b.len() as int))
}

/// The integer part of a decimal-grammar field is small enough to model:
/// it fits the machine word, and fits [`FRACTIONAL_WHOLE_BOUND`] when a
/// fractional part remains.
pub open spec fn real_whole_ok(s: Seq<char>) -> bool {
    &&& real_whole_value(s) <= u64::MAX
    &&& real_frac_canon(s).len() > 0 ==> real_whole_value(s) < FRACTIONAL_WHOLE_BOUND
}

// ----- The exponent grammar -----

/// A field may shift its decimal point by at most this many places: a
/// larger shift would ask for a digit string the model does not
/// materialize (such magnitudes lie far outside a binary double's range).
pub const EXPONENT_BOUND: u64 = 10000;

/// Index of the first `'e'` or `'E'`, or `-1` when there is none.
pub open spec fn find_exp_mark(s: Seq<char>) -> int
    decreases s.len(),
{
    if s.len() == 0 {
        -1
    } else if s[0] == 'e' || s[0] == 'E' {
        0
    } else {
        let r = find_exp_mark(s.drop_first());
        if r < 0 {
            -1
        } else {
            r + 1
        }
    }
}

proof fn lemma_find_exp_mark(s: Seq<char>)
    ensures
        find_exp_mark(s) == -1 ==> forall|i: int| 0 <= i < s.len() ==> s[i] != 'e' && s[i] != 'E',
        find_exp_mark(s) >= 0 ==> 0 <= find_exp_mark(s) < s.len() && (s[find_exp_mark(s)] == 'e'
            || s[find_exp_mark(s)] == 'E') && forall|i: int|
            0 <= i < find_exp_mark(s) ==> s[i] != 'e' && s[i] != 'E',
        (exists|i: int| 0 <= i < s.len() && (s[i] == 'e' || s[i] == 'E')) ==> find_exp_mark(s) >= 0,
    decreases s.len(),
{
    if s.len() > 0 && s[0] != 'e' && s[0] != 'E' {
        let t = s.drop_first();
        lemma_find_exp_mark(t);
        assert(forall|i: int| 1 <= i < s.len() ==> s[i] == t[i - 1]);
        if exists|i: int| 0 <= i < s.len() && (s[i] == 'e' || s[i] == 'E') {
            let w = choose|i: int| 0 <= i < s.len() && (s[i] == 'e' || s[i] == 'E');
            assert(t[w - 1] == 'e' || t[w - 1] == 'E');
        }
        if find_exp_mark(t) >= 0 {
            assert(s[find_exp_mark(t) + 1] == t[find_exp_mark(t)]);
        }
    }
}

/// The shape of a mantissa: digits with at most one `'.'` among them and
/// at least one digit somewhere.
pub open spec fn mantissa_shape(m: Seq<char>) -> bool {
    let kd = find_dot(m);
    if kd < 0 {
        m.len() >= 1 && all_digits(m)
    } else {
        m.len() > 1 && all_digits(m.subrange(0, kd)) && all_digits(
            m.subrange(kd + 1, m.len() as int),
        )
    }
}

/// The shape of an exponent field: an optional sign, then digits.
pub open spec fn exp_part_shape(x: Seq<char>) -> bool {
    if x.len() == 0 {
        false
    } else if x[0] == '+' || x[0] == '-' {
        x.len() >= 2 && all_digits(x.subrange(1, x.len() as int))
    } else {
        all_digits(x)
    }
}

/// The scientific-notation grammar: a mantissa, an `'e'` or `'E'`, and a
/// signed exponent field.
pub open spec fn is_exp_input(s: Seq<char>) -> bool {
    let b = body_of(s);
    let k = find_exp_mark(b);
    &&& k >= 1
    &&& mantissa_shape(b.subrange(0, k))
    &&& exp_part_shape(b.subrange(k + 1, b.len() as int))
}

/// The mantissa's digits with the dot removed.
pub open spec fn exp_mantissa(s: Seq<char>) -> Seq<char> {
    let b = body_of(s);
    let m = b.subrange(0, find_exp_mark(b));
    let kd = find_dot(m);
    if kd < 0 {
        m
    } else {
        m.subrange(0, kd) + m.subrange(kd + 1, m.len() as int)
    }
}

/// How many mantissa digits stand before the decimal point.
pub open spec fn exp_dot_index(s: Seq<char>) -> int {
    let b = body_of(s);
    let m = b.subrange(0, find_exp_mark(b));
    let kd = find_dot(m);
    if kd < 0 {
        m.len() as int
    } else {
        kd
    }
}

/// The signed value of the exponent field.
pub open spec fn exp_value(s: Seq<char>) -> int {
    let b = body_of(s);
    let x = b.subrange(find_exp_mark(b) + 1, b.len() as int);
    if x[0] == '-' {
        -digits_value(x.subrange(1, x.len() as int))
    } else if x[0] == '+' {
        digits_value(x.subrange(1, x.len() as int))
    } else {
        digits_value(x)
    }
}

/// Where the decimal point lands among the mantissa digits once the
/// exponent shifts it.
pub open spec fn exp_point(s: Seq<char>) -> int {
    exp_dot_index(s) + exp_value(s)
}

/// `10^k`.
pub open spec fn pow10(k: nat) -> int
    decreases k,
{
    if k == 0 {
        1
    } else {
        10 * pow10((k - 1) as nat)
    }
}

/// `k` zero digits.
pub open spec fn zero_seq(k: nat) -> Seq<char> {
    Seq::new(k, |i: int| '0')
}

/// The integer part of a scientific-notation field after the shift.
pub open spec fn exp_scaled_whole(s: Seq<char>) -> int {
    let d = exp_mantissa(s);
    let p = exp_point(s);
    if p >= d.len() {
        digits_value(d) * pow10((p - d.len()) as nat)
    } else if p <= 0 {
        0
    } else {
        digits_value(d.subrange(0, p))
    }
}

/// The fractional digits of a scientific-notation field after the
/// shift, in shortest form.
pub open spec fn exp_scaled_frac(s: Seq<char>) -> Seq<char> {
    let d = exp_mantissa(s);
    let p = exp_point(s);
    if p >= d.len() {
        Seq::<char>::empty()
    } else if p <= 0 {
        strip_trailing_zeros(zero_seq((0 - p) as nat) + d)
    } else {
        strip_trailing_zeros(d.subrange(p, d.len() as int))
    }
}

/// The shifted value fits the decimal model: the point moves by at most
/// [`EXPONENT_BOUND`] places (unless the mantissa is zero), the integer
/// part fits the machine word, and fits [`FRACTIONAL_WHOLE_BOUND`] when
/// fractional digits remain.
pub open spec fn exp_fits(s: Seq<char>) -> bool {
    &&& (digits_value(exp_mantissa(s)) == 0 || (-(EXPONENT_BOUND as int) <= exp_value(s)
        <= EXPONENT_BOUND as int))
    &&& exp_scaled_whole(s) <= u64::MAX
    &&& exp_scaled_frac(s).len() > 0 ==> exp_scaled_whole(s) < FRACTIONAL_WHOLE_BOUND
}

/// How a text field coerces: empty to `Empty`; the integer grammar to
/// `Int` when the value fits a signed word; a signed string of digits too
/// wide for `Int` but fitting an unsigned word to a whole `Float`; the
/// simple-decimal and scientific-notation grammars to `Float`; anything
/// else stays `Text`.
///
/// What the decimal model cannot hold at all falls back to `Text`: the
/// words `inf` and `NaN`, integer parts past the unsigned machine word,
/// and point shifts past [`EXPONENT_BOUND`].
pub open spec fn coerces_to(s: Seq<char>, c: CellValue) -> bool {
    if s.len() == 0 {
        c is Empty
    } else if is_int_input(s) && i64::MIN <= int_input_value(s) <= i64::MAX {
        c matches CellValue::Int(i) && i as int == int_input_value(s)
    } else if is_int_input(s) && digits_value(body_of(s)) <= u64::MAX {
        c matches CellValue::Float(r) && r.neg == sign_negative(s) && r.whole as int
            == digits_value(body_of(s)) && r.frac@ =~= Seq::<char>::empty()
    } else if is_real_input(s) && real_whole_ok(s) {
        c matches CellValue::Float(r) && r.neg == sign_negative(s) && r.whole as int
            == real_whole_value(s) && r.frac@ =~= real_frac_canon(s)
    } else if is_exp_input(s) && exp_fits(s) {
        c matches CellValue::Float(r) && r.neg == sign_negative(s) && r.whole as int
            == exp_scaled_whole(s) && r.frac@ =~= exp_scaled_frac(s)
    } else {
        c matches CellValue::Text(t) && t@ =~= s
    }
}

proof fn lemma_digits_value_bounds(s: Seq<char>)
    requires
        all_digits(s),
    ensures
        digits_value(s) >= 0,
    decreases s.len(),
{
    if s.len() > 0 {
        assert(all_digits(s.drop_last()));
        lemma_digits_value_bounds(s.drop_last());
    }
}

proof fn lemma_digits_value_monotone(s: Seq<char>, j: int)
    requires
        all_digits(s),
        0 <= j <= s.len(),
    ensures
        digits_value(s) >= digits_value(s.subrange(0, j)),
    decreases s.len() - j,
{
    if j < s.len() {
        let a = s.subrange(0, j);
        let b = s.subrange(0, j + 1);
        assert(b.drop_last() =~= a);
        assert(all_digits(a)) by {
            assert(forall|i: int| 0 <= i < a.len() ==> a[i] == s[i]);
        }
        lemma_digits_value_bounds(a);
        assert(digits_value(b) == digits_value(a) * 10 + (s[j] as int - 48));
        lemma_digits_value_monotone(s, j + 1);
    } else {
        assert(s.subrange(0, j) =~= s);
    }
}

/// A non-digit character in the body (or a second dot) rules out both
/// numeric grammars.
proof fn lemma_bad_char(s: Seq<char>, j: int)
    requires
        0 <= j < body_of(s).len(),
        !is_digit_char(body_of(s)[j]),
        body_of(s)[j] == '.' ==> exists|m: int| 0 <= m < j && body_of(s)[m] == '.',
    ensures
        !is_int_input(s),
        !is_real_input(s),
{
    let b = body_of(s);
    lemma_find_dot(b);
    let k = find_dot(b);
    if k >= 0 && b.len() > 1 && all_digits(b.subrange(0, k)) && all_digits(
        b.subrange(k + 1, b.len() as int),
    ) {
        if b[j] != '.' {
            if j < k {
                assert(b.subrange(0, k)[j] == b[j]);
            } else if j > k {
                assert(b.subrange(k + 1, b.len() as int)[j - k - 1] == b[j]);
            }
            assert(false);
        } else {
            let m = choose|m: int| 0 <= m < j && b[m] == '.';
            assert(k <= m);
            assert(b.subrange(k + 1, b.len() as int)[j - k - 1] == b[j]);
            assert(false);
        }
    }
}

/// A non-digit character (or a second dot) rules out the mantissa shape.
proof fn lemma_shape_bad_char(m: Seq<char>, j: int)
    requires
        0 <= j < m.len(),
        !is_digit_char(m[j]),
        m[j] == '.' ==> exists|q: int| 0 <= q < j && m[q] == '.',
    ensures
        !mantissa_shape(m),
{
    lemma_find_dot(m);
    let k = find_dot(m);
    if mantissa_shape(m) {
        if k < 0 {
            assert(false);
        } else if m[j] != '.' {
            if j < k {
                assert(m.subrange(0, k)[j] == m[j]);
            } else if j > k {
                assert(m.subrange(k + 1, m.len() as int)[j - k - 1] == m[j]);
            }
            assert(false);
        } else {
            let q = choose|q: int| 0 <= q < j && m[q] == '.';
            assert(k <= q);
            assert(m.subrange(k + 1, m.len() as int)[j - k - 1] == m[j]);
            assert(false);
        }
    }
}

/// A digit string's value is zero exactly when every digit is zero.
proof fn lemma_digits_value_zero(s: Seq<char>)
    requires
        all_digits(s),
    ensures
        (digits_value(s) == 0) <==> (forall|i: int| 0 <= i < s.len() ==> s[i] == '0'),
    decreases s.len(),
{
    if s.len() > 0 {
        assert(all_digits(s.drop_last()));
        lemma_digits_value_zero(s.drop_last());
        lemma_digits_value_bounds(s.drop_last());
        assert(forall|i: int| 0 <= i < s.len() - 1 ==> s[i] == s.drop_last()[i]);
        if digits_value(s) == 0 {
            assert(digits_value(s.drop_last()) == 0 && s.last() as int - 48 == 0);
            assert(s.last() == '0');
        }
    }
}

/// Stripping trailing zeros from an all-zero string leaves nothing.
proof fn lemma_strip_all_zeros(s: Seq<char>)
    requires
        forall|i: int| 0 <= i < s.len() ==> s[i] == '0',
    ensures
        strip_trailing_zeros(s) =~= Seq::<char>::empty(),
    decreases s.len(),
{
    if s.len() > 0 {
        assert(forall|i: int| 0 <= i < s.len() - 1 ==> s.drop_last()[i] == s[i]);
        lemma_strip_all_zeros(s.drop_last());
    }
}

/// Stripping trailing zeros keeps only digit characters.
proof fn lemma_strip_digits(s: Seq<char>)
    requires
        all_digits(s),
    ensures
        all_digits(strip_trailing_zeros(s)),
    decreases s.len(),
{
    if s.len() > 0 && s.last() == '0' {
        assert(all_digits(s.drop_last()));
        lemma_strip_digits(s.drop_last());
    }
}

/// Scaling a nonnegative value by a power of ten never shrinks it.
proof fn lemma_mul_pow10_lower(a: int, k: nat)
    requires
        a >= 0,
    ensures
        a * pow10(k) >= a,
    decreases k,
{
    if k > 0 {
        lemma_mul_pow10_lower(a, (k - 1) as nat);
        assert(a * pow10(k) == (a * pow10((k - 1) as nat)) * 10) by (nonlinear_arith)
            requires
                pow10(k) == 10 * pow10((k - 1) as nat),
        ;
    }
}

/// Powers of ten multiply by adding exponents.
proof fn lemma_pow10_add(a: nat, b: nat)
    ensures
        pow10(a + b) == pow10(a) * pow10(b),
    decreases b,
{
    if b > 0 {
        lemma_pow10_add(a, (b - 1) as nat);
        assert((a + b - 1) as nat + 1 == a + b);
        assert(pow10(a + b) == 10 * pow10((a + b - 1) as nat));
        assert(pow10(a) * pow10(b) == 10 * (pow10(a) * pow10((b - 1) as nat))) by (nonlinear_arith)
            requires
                pow10(b) == 10 * pow10((b - 1) as nat),
        ;
    }
}

/// Multiplies a value by `10^rp`, reporting overflow of the machine word.
fn shift_whole_left(v: u64, rp: u64) -> (r: Option<u64>)
    ensures
        r matches Some(x) ==> x as int == v as int * pow10(rp as nat),
        r is None ==> v as int * pow10(rp as nat) > u64::MAX,
{
    let mut acc = v;
    let mut k: u64 = 0;
    while k < rp
        invariant
            k <= rp,
            acc as int == v as int * pow10(k as nat),
        decreases rp - k,
    {
        proof {
            assert(pow10((k + 1) as nat) == 10 * pow10(k as nat));
        }
        match acc.checked_mul(10) {
            Some(x) => {
                proof {
                    assert(v as int * pow10((k + 1) as nat) == acc as int * 10)
                        by (nonlinear_arith)
                        requires
                            acc as int == v as int * pow10(k as nat),
                            pow10((k + 1) as nat) == 10 * pow10(k as nat),
                    ;
                }
                acc = x;
                k = k + 1;
            },
            None => {
                proof {
                    let stepped = v as int * pow10((k + 1) as nat);
                    assert(stepped == acc as int * 10) by (nonlinear_arith)
                        requires
                            stepped == v as int * pow10((k + 1) as nat),
                            acc as int == v as int * pow10(k as nat),
                            pow10((k + 1) as nat) == 10 * pow10(k as nat),
                    ;
                    lemma_pow10_add((k + 1) as nat, (rp - k - 1) as nat);
                    assert(v as int * pow10(rp as nat) == stepped * pow10((rp - k - 1) as nat))
                        by (nonlinear_arith)
                        requires
                            pow10(rp as nat) == pow10((k + 1) as nat) * pow10((rp - k - 1) as nat),
                            stepped == v as int * pow10((k + 1) as nat),
                    ;
                    lemma_mul_pow10_lower(stepped, (rp - k - 1) as nat);
                }
                return None;
            },
        }
    }
    Some(acc)
}

/// Drops trailing zero digits.
fn strip_zeros(d: &str) -> (r: String)
    ensures
        r@ == strip_trailing_zeros(d@),
{
    let n = d.unicode_len();
    let mut end = n;
    proof {
        assert(d@.subrange(0, n as int) =~= d@);
    }
    while end > 0 && d.get_char(end - 1) == '0'
        invariant
            end <= n,
            n == d@.len(),
            strip_trailing_zeros(d@) == strip_trailing_zeros(d@.subrange(0, end as int)),
        decreases end,
    {
        proof {
            assert(d@.subrange(0, end as int).last() == d@[end - 1]);
            assert(d@.subrange(0, end as int).drop_last() =~= d@.subrange(0, end - 1));
        }
        end = end - 1;
    }
    proof {
        let t = d@.subrange(0, end as int);
        if t.len() > 0 {
            assert(t.last() == d@[end - 1]);
            assert(t.last() != '0');
        }
        assert(strip_trailing_zeros(t) == t);
    }
    d.substring_char(0, end).to_owned()
}

/// Numeric value of a span of digit characters; `None` when it exceeds
/// the unsigned machine word.
fn digits_to_u64(s: &str, from: usize, to: usize) -> (r: Option<u64>)
    requires
        from <= to <= s@.len(),
        all_digits(s@.subrange(from as int, to as int)),
    ensures
        r matches Some(v) ==> v as int == digits_value(s@.subrange(from as int, to as int)),
        r is None ==> digits_value(s@.subrange(from as int, to as int)) > u64::MAX,
{
    let ghost seg = s@.subrange(from as int, to as int);
    let mut acc: u64 = 0;
    let mut i = from;
    while i < to
        invariant
            from <= i <= to <= s@.len(),
            all_digits(seg),
            seg == s@.subrange(from as int, to as int),
            acc as int == digits_value(s@.subrange(from as int, i as int)),
        decreases to - i,
    {
        proof {
            assert(seg[i - from] == s@[i as int]);
        }
        let d = digit_val_at(s, i);
        let ghost a = s@.subrange(from as int, i as int);
        let ghost b = s@.subrange(from as int, i + 1);
        proof {
            assert(b.drop_last() =~= a);
            assert(b.last() == s@[i as int]);
        }
        let stepped = match acc.checked_mul(10) {
            Some(m) => m.checked_add(d),
            None => None,
        };
        match stepped {
            Some(v) => {
                acc = v;
                i = i + 1;
            },
            None => {
                proof {
                    assert(digits_value(b) > u64::MAX);
                    assert(seg.subrange(0, i + 1 - from) =~= b);
                    lemma_digits_value_monotone(seg, i + 1 - from);
                }
                return None;
            },
        }
    }
    proof {
        assert(s@.subrange(from as int, i as int) =~= seg);
    }
    Some(acc)
}

/// The cell for a scientific-notation field whose shifted point lands at
/// `p`: the first `p` mantissa digits stay whole, the rest are
/// fractional.
#[verifier::rlimit(100)]
fn exp_point_inside(s: &str, neg: bool, mant: &String, p: usize) -> (c: CellValue)
    requires
        s@.len() > 0,
        !is_int_input(s@),
        !is_real_input(s@),
        is_exp_input(s@),
        neg == sign_negative(s@),
        mant@ == exp_mantissa(s@),
        all_digits(mant@),
        digits_value(exp_mantissa(s@)) != 0,
        -(EXPONENT_BOUND as int) <= exp_value(s@) <= EXPONENT_BOUND as int,
        exp_point(s@) == p,
        p < mant@.len(),
    ensures
        coerces_to(s@, c),
        c.wf(),
{
    let ghost d = exp_mantissa(s@);
    let dlen = mant.as_str().unicode_len();
    proof {
        assert(mant@.subrange(0, p as int) =~= d.subrange(0, p as int));
        assert(all_digits(mant@.subrange(0, p as int)));
    }
    match digits_to_u64(mant.as_str(), 0, p) {
        None => {
            proof {
                // the whole digits alone exceed the machine word
                assert(exp_scaled_whole(s@) > u64::MAX);
                assert(!exp_fits(s@));
            }
            CellValue::Text(s.to_owned())
        },
        Some(w) => {
            let fr = strip_zeros(mant.as_str().substring_char(p, dlen));
            proof {
                assert(mant@.subrange(p as int, dlen as int) =~= d.subrange(
                    p as int,
                    d.len() as int,
                ));
                assert(dlen == d.len());
                assert(fr@ == strip_trailing_zeros(mant@.subrange(p as int, dlen as int)));
                if p == 0 {
                    assert(zero_seq((0 - exp_point(s@)) as nat) + d =~= d);
                    assert(mant@.subrange(0, dlen as int) =~= d);
                    assert(mant@.subrange(0, 0) =~= Seq::<char>::empty());
                    assert(exp_scaled_frac(s@) == strip_trailing_zeros(
                        zero_seq((0 - exp_point(s@)) as nat) + d,
                    ));
                } else {
                    assert(exp_scaled_frac(s@) == strip_trailing_zeros(
                        d.subrange(p as int, d.len() as int),
                    ));
                }
                assert(fr@ =~= exp_scaled_frac(s@));
                assert(w as int == exp_scaled_whole(s@));
                assert(all_digits(d.subrange(p as int, d.len() as int)));
                lemma_strip_digits(d.subrange(p as int, d.len() as int));
            }
            if fr.as_str().is_empty() {
                CellValue::Float(RealValue { neg, whole: w, frac: fr })
            } else if w < FRACTIONAL_WHOLE_BOUND {
                CellValue::Float(RealValue { neg, whole: w, frac: fr })
            } else {
                proof {
                    assert(!exp_fits(s@));
                }
                CellValue::Text(s.to_owned())
            }
        },
    }
}

/// Coerces a field that carries a scientific-notation marker at `epos`.
#[verifier::rlimit(100)]
fn parse_exp_field(s: &str, n: usize, start: usize, neg: bool, epos: usize) -> (c: CellValue)
    requires
        n == s@.len(),
        0 < n,
        start <= 1,
        start <= epos < n,
        body_of(s@) =~= s@.subrange(start as int, n as int),
        neg == sign_negative(s@),
        s@[epos as int] == 'e' || s@[epos as int] == 'E',
        forall|q: int| start <= q < epos ==> s@[q] != 'e' && s@[q] != 'E',
    ensures
        coerces_to(s@, c),
        c.wf(),
{
    let ghost b = body_of(s@);
    proof {
        // the marker is the first of its kind in the body
        lemma_find_exp_mark(b);
        assert(b[epos - start] == s@[epos as int]);
        assert(find_exp_mark(b) >= 0);
        let fem = find_exp_mark(b);
        if fem < epos - start {
            assert(s@[start + fem] == b[fem]);
            assert(false);
        }
        if fem > epos - start {
            assert(false);
        }
        // a marker is neither a digit nor a dot: the plain grammars fail
        lemma_bad_char(s@, epos - start);
    }
    if epos == start {
        // no mantissa before the marker
        return CellValue::Text(s.to_owned());
    }
    let ghost m = b.subrange(0, epos - start);
    proof {
        assert(m =~= s@.subrange(start as int, epos as int));
    }
    // scan the mantissa: digits with at most one dot
    let mut dot_pos: usize = epos;  // `epos` means no dot seen yet
    let mut i = start;
    while i < epos
        invariant
            start <= i <= epos < n,
            n == s@.len(),
            start <= 1,
            start < epos,
            b == body_of(s@),
            b =~= s@.subrange(start as int, n as int),
            m == b.subrange(0, epos - start),
            m =~= s@.subrange(start as int, epos as int),
            dot_pos == epos || (start <= dot_pos < i && s@[dot_pos as int] == '.'),
            dot_pos == epos ==> all_digits(s@.subrange(start as int, i as int)),
            dot_pos < epos ==> all_digits(s@.subrange(start as int, dot_pos as int)) && all_digits(
                s@.subrange(dot_pos + 1, i as int),
            ),
            !is_int_input(s@),
            !is_real_input(s@),
            find_exp_mark(b) == epos - start,
        decreases epos - i,
    {
        let c = s.get_char(i);
        let u = c as u32;
        if c == '.' {
            if dot_pos == epos {
                dot_pos = i;
                proof {
                    assert(s@.subrange(dot_pos + 1, i + 1) =~= Seq::<char>::empty());
                }
            } else {
                proof {
                    assert(m[dot_pos - start] == '.');
                    assert(m[i - start] == '.');
                    lemma_shape_bad_char(m, i - start);
                }
                return CellValue::Text(s.to_owned());
            }
        } else if 48 <= u && u <= 57 {
            proof {
                if dot_pos == epos {
                    assert(s@.subrange(start as int, i + 1).drop_last() =~= s@.subrange(
                        start as int,
                        i as int,
                    ));
                } else {
                    assert(s@.subrange(dot_pos + 1, i + 1).drop_last() =~= s@.subrange(
                        dot_pos + 1,
                        i as int,
                    ));
                }
            }
        } else {
            proof {
                assert(m[i - start] == s@[i as int]);
                lemma_shape_bad_char(m, i - start);
            }
            return CellValue::Text(s.to_owned());
        }
        i = i + 1;
    }
    if dot_pos < epos && epos - start == 1 {
        // the mantissa is a lone dot
        proof {
            assert(m.len() == 1);
            assert(m[0] == '.');
            lemma_find_dot(m);
            assert(!mantissa_shape(m));
        }
        return CellValue::Text(s.to_owned());
    }
    proof {
        lemma_find_dot(m);
        if dot_pos == epos {
            if find_dot(m) >= 0 {
                assert(m[find_dot(m)] == s@.subrange(start as int, epos as int)[find_dot(m)]);
                assert(false);  // that character is a digit, not a dot
            }
            assert(mantissa_shape(m));
        } else {
            assert(m[dot_pos - start] == '.');
            assert(find_dot(m) >= 0);
            if find_dot(m) < dot_pos - start {
                assert(m[find_dot(m)] == s@.subrange(start as int, dot_pos as int)[find_dot(m)]);
                assert(false);  // a dot inside the all-digit prefix
            }
            assert(find_dot(m) == dot_pos - start);
            assert(m.subrange(0, find_dot(m)) =~= s@.subrange(start as int, dot_pos as int));
            assert(m.subrange(find_dot(m) + 1, m.len() as int) =~= s@.subrange(
                dot_pos + 1,
                epos as int,
            ));
            assert(mantissa_shape(m));
        }
    }
    // the exponent field: an optional sign, then digits
    let ghost x = b.subrange(epos - start + 1, b.len() as int);
    proof {
        assert(x =~= s@.subrange(epos + 1, n as int));
    }
    let estart = epos + 1;
    if estart == n {
        proof {
            assert(x.len() == 0);
        }
        return CellValue::Text(s.to_owned());
    }
    proof {
        assert(x[0] == s@[estart as int]);
    }
    let e0 = s.get_char(estart);
    let eneg = e0 == '-';
    let esigned = eneg || e0 == '+';
    let digstart = if esigned {
        estart + 1
    } else {
        estart
    };
    if digstart == n {
        // a sign with no digits after it
        proof {
            assert(x.len() == 1);
        }
        return CellValue::Text(s.to_owned());
    }
    let mut i = digstart;
    while i < n
        invariant
            digstart <= i <= n,
            n == s@.len(),
            start <= 1,
            start < epos < estart,
            estart == epos + 1,
            esigned ==> digstart == estart + 1,
            !esigned ==> digstart == estart,
            digstart < n,
            b == body_of(s@),
            b =~= s@.subrange(start as int, n as int),
            m == b.subrange(0, epos - start),
            x == b.subrange(epos - start + 1, b.len() as int),
            x =~= s@.subrange(epos + 1, n as int),
            eneg == (s@[estart as int] == '-'),
            esigned == (s@[estart as int] == '-' || s@[estart as int] == '+'),
            mantissa_shape(m),
            !is_int_input(s@),
            !is_real_input(s@),
            find_exp_mark(b) == epos - start,
            all_digits(s@.subrange(digstart as int, i as int)),
        decreases n - i,
    {
        let c = s.get_char(i);
        let u = c as u32;
        if 48 <= u && u <= 57 {
            proof {
                assert(s@.subrange(digstart as int, i + 1).drop_last() =~= s@.subrange(
                    digstart as int,
                    i as int,
                ));
            }
        } else {
            proof {
                assert(x[i - estart] == s@[i as int]);
                if esigned {
                    assert(x.subrange(1, x.len() as int)[i - digstart] == x[i - estart]);
                }
                assert(!exp_part_shape(x));
            }
            return CellValue::Text(s.to_owned());
        }
        i = i + 1;
    }
    proof {
        if esigned {
            assert(x.subrange(1, x.len() as int) =~= s@.subrange(digstart as int, n as int));
            assert(x.len() >= 2);
        } else {
            assert(x =~= s@.subrange(digstart as int, n as int));
        }
        assert(exp_part_shape(x));
        assert(is_exp_input(s@));
        lemma_digits_value_bounds(s@.subrange(digstart as int, n as int));
    }
    // the mantissa digits with the dot removed
    let mant: String = if dot_pos == epos {
        s.substring_char(start, epos).to_owned()
    } else {
        let mut t = s.substring_char(start, dot_pos).to_owned();
        t.append(s.substring_char(dot_pos + 1, epos));
        t
    };
    let ghost d = exp_mantissa(s@);
    proof {
        assert(mant@ =~= d);
        assert forall|q: int| 0 <= q < mant@.len() implies is_digit_char(mant@[q]) by {
            if dot_pos == epos {
                assert(mant@[q] == s@.subrange(start as int, epos as int)[q]);
            } else {
                let alen = dot_pos - start;
                if q < alen {
                    assert(mant@[q] == s@.subrange(start as int, dot_pos as int)[q]);
                } else {
                    assert(mant@[q] == s@.subrange(dot_pos + 1, epos as int)[q - alen]);
                }
            }
        }
        assert(all_digits(mant@));
    }
    let dlen = mant.as_str().unicode_len();
    let apos: usize = if dot_pos == epos {
        dlen
    } else {
        dot_pos - start
    };
    proof {
        assert(dlen == d.len());
        lemma_find_dot(m);
        assert(apos as int == exp_dot_index(s@));
        assert(apos <= dlen);
        assert(mant@.subrange(0, dlen as int) =~= mant@);
    }
    proof {
        if esigned {
            if eneg {
                assert(exp_value(s@) == -digits_value(s@.subrange(digstart as int, n as int)));
            } else {
                assert(exp_value(s@) == digits_value(s@.subrange(digstart as int, n as int)));
            }
        } else {
            assert(exp_value(s@) == digits_value(s@.subrange(digstart as int, n as int)));
        }
    }
    exp_shift_cell(s, n, neg, mant, apos, digstart, eneg)
}

/// The cell for a well-formed scientific-notation field: shifts the
/// point through the mantissa digits and fits the result into the
/// decimal model.
#[verifier::rlimit(100)]
fn exp_shift_cell(
    s: &str,
    n: usize,
    neg: bool,
    mant: String,
    apos: usize,
    digstart: usize,
    eneg: bool,
) -> (c: CellValue)
    requires
        n == s@.len(),
        0 < n,
        !is_int_input(s@),
        !is_real_input(s@),
        is_exp_input(s@),
        neg == sign_negative(s@),
        mant@ == exp_mantissa(s@),
        all_digits(mant@),
        apos as int == exp_dot_index(s@),
        apos <= mant@.len(),
        digstart < n,
        all_digits(s@.subrange(digstart as int, n as int)),
        exp_value(s@) == (if eneg {
            -digits_value(s@.subrange(digstart as int, n as int))
        } else {
            digits_value(s@.subrange(digstart as int, n as int))
        }),
    ensures
        coerces_to(s@, c),
        c.wf(),
{
    let ghost d = exp_mantissa(s@);
    let dlen = mant.as_str().unicode_len();
    proof {
        assert(dlen == d.len());
        assert(mant@.subrange(0, dlen as int) =~= mant@);
        lemma_digits_value_bounds(s@.subrange(digstart as int, n as int));
    }
    let mv_opt = digits_to_u64(mant.as_str(), 0, dlen);
    let ghost dv = digits_value(d);
    // a zero mantissa scales to zero whatever the exponent says
    let mant_zero = match mv_opt {
        Some(v) => v == 0,
        None => false,
    };
    if mant_zero {
        proof {
            lemma_digits_value_zero(d);
            let p = exp_point(s@);
            if p >= d.len() {
            } else if p <= 0 {
                let t = zero_seq((0 - p) as nat) + d;
                assert forall|q: int| 0 <= q < t.len() implies t[q] == '0' by {
                    if q < 0 - p {
                        assert(t[q] == zero_seq((0 - p) as nat)[q]);
                    } else {
                        assert(t[q] == d[q - (0 - p)]);
                    }
                }
                lemma_strip_all_zeros(t);
            } else {
                let pre = d.subrange(0, p);
                assert(all_digits(pre));
                lemma_digits_value_zero(pre);
                let post = d.subrange(p, d.len() as int);
                assert(forall|q: int| 0 <= q < post.len() ==> post[q] == d[q + p]);
                lemma_strip_all_zeros(post);
            }
            assert(exp_scaled_whole(s@) == 0);
            assert(exp_scaled_frac(s@) =~= Seq::<char>::empty());
            assert(exp_fits(s@));
        }
        return CellValue::Float(RealValue { neg, whole: 0, frac: String::new() });
    }
    proof {
        assert(dv != 0);
    }
    let ghost e = exp_value(s@);
    let ev = match digits_to_u64(s, digstart, n) {
        Some(v) => v,
        None => {
            proof {
                // the exponent field alone overflows the machine word
                assert(!exp_fits(s@));
            }
            return CellValue::Text(s.to_owned());
        },
    };
    proof {
        assert(e == if eneg {
            -(ev as int)
        } else {
            ev as int
        });
    }
    if ev > EXPONENT_BOUND {
        proof {
            assert(!exp_fits(s@));
        }
        return CellValue::Text(s.to_owned());
    }
    let blen = dlen - apos;
    if !eneg || ev == 0 {
        proof {
            assert(e == ev as int);
        }
        if ev >= blen as u64 {
            // the point passes every digit: a whole value
            let rp = ev - blen as u64;
            proof {
                assert(exp_point(s@) == d.len() + rp);
            }
            match mv_opt {
                None => {
                    proof {
                        lemma_mul_pow10_lower(dv, rp as nat);
                        assert(exp_scaled_whole(s@) > u64::MAX);
                        assert(!exp_fits(s@));
                    }
                    CellValue::Text(s.to_owned())
                },
                Some(v) => {
                    match shift_whole_left(v, rp) {
                        Some(w) => {
                            proof {
                                assert(exp_scaled_whole(s@) == w);
                                assert(exp_fits(s@));
                            }
                            CellValue::Float(RealValue { neg, whole: w, frac: String::new() })
                        },
                        None => {
                            proof {
                                assert(exp_scaled_whole(s@) > u64::MAX);
                                assert(!exp_fits(s@));
                            }
                            CellValue::Text(s.to_owned())
                        },
                    }
                },
            }
        } else {
            // the point stays inside the digits
            let p = apos + (ev as usize);
            proof {
                assert(exp_point(s@) == p);
                assert(p < d.len());
            }
            exp_point_inside(s, neg, &mant, p)
        }
    } else {
        proof {
            assert(e == -(ev as int));
            assert(ev >= 1);
        }
        if ev >= apos as u64 {
            // every digit falls behind the point
            let kz = (ev - apos as u64) as usize;
            proof {
                assert(exp_point(s@) <= 0);
                assert(kz as int == 0 - exp_point(s@));
            }
            let mut zf = String::new();
            proof {
                assert(zf@ =~= zero_seq(0));
            }
            let mut z: usize = 0;
            while z < kz
                invariant
                    z <= kz,
                    zf@ == zero_seq(z as nat),
                decreases kz - z,
            {
                zf.append("0");
                proof {
                    reveal_strlit("0");
                    assert(zf@ =~= zero_seq((z + 1) as nat));
                }
                z = z + 1;
            }
            zf.append(mant.as_str());
            let fr = strip_zeros(zf.as_str());
            proof {
                let t = zero_seq(kz as nat) + d;
                assert(zf@ == t);
                assert(fr@ =~= exp_scaled_frac(s@));
                assert(exp_scaled_whole(s@) == 0);
                assert(exp_fits(s@));
                assert forall|q: int| 0 <= q < t.len() implies is_digit_char(t[q]) by {
                    if q < kz {
                        assert(t[q] == zero_seq(kz as nat)[q]);
                    } else {
                        assert(t[q] == d[q - kz]);
                    }
                }
                lemma_strip_digits(t);
            }
            CellValue::Float(RealValue { neg, whole: 0, frac: fr })
        } else {
            let p = apos - (ev as usize);
            proof {
                assert(exp_point(s@) == p);
                assert(p < d.len());
            }
            exp_point_inside(s, neg, &mant, p)
        }
    }
}

/// Coerces a text field: signed 64-bit integer first, then a simple
/// decimal, then scientific notation, else the text itself; an empty
/// field becomes `Empty`.
#[verifier::rlimit(100)]
pub fn parse_string_to_cellvalue(s: &str) -> (c: CellValue)
    ensures
        coerces_to(s@, c),
        c.wf(),
{
    let n = s.unicode_len();
    if n == 0 {
        return CellValue::Empty;
    }
    let first = s.get_char(0);
    let neg = first == '-';
    let signed = neg || first == '+';
    let start: usize = if signed {
        1
    } else {
        0
    };
    proof {
        assert(body_of(s@) =~= s@.subrange(start as int, n as int));
        assert(sign_negative(s@) == neg);
    }
    let ghost b = body_of(s@);
    // Find the scientific-notation marker, if any.
    let mut epos: usize = n;  // `n` means none seen yet
    let mut i = start;
    while i < n
        invariant
            start <= i <= n,
            n == s@.len(),
            start <= 1,
            epos <= n,
            b == body_of(s@),
            b =~= s@.subrange(start as int, n as int),
            epos == n ==> forall|q: int| start <= q < i ==> s@[q] != 'e' && s@[q] != 'E',
            epos < n ==> start <= epos < i && (s@[epos as int] == 'e' || s@[epos as int] == 'E')
                && forall|q: int| start <= q < epos ==> s@[q] != 'e' && s@[q] != 'E',
        decreases n - i,
    {
        let c = s.get_char(i);
        if epos == n && (c == 'e' || c == 'E') {
            epos = i;
        }
        i = i + 1;
    }
    if epos < n {
        return parse_exp_field(s, n, start, neg, epos);
    }
    proof {
        lemma_find_exp_mark(b);
        if find_exp_mark(b) >= 0 {
            assert(s@[start + find_exp_mark(b)] == b[find_exp_mark(b)]);
            assert(false);
        }
        assert(!is_exp_input(s@));
    }
    parse_plain_field(s, n, start, neg)
}

/// Coerces a field with no scientific-notation marker: the integer and
/// simple-decimal grammars, else the text itself.
#[verifier::rlimit(100)]
fn parse_plain_field(s: &str, n: usize, start: usize, neg: bool) -> (c: CellValue)
    requires
        n == s@.len(),
        0 < n,
        start <= 1,
        start <= n,
        body_of(s@) =~= s@.subrange(start as int, n as int),
        neg == sign_negative(s@),
        !is_exp_input(s@),
    ensures
        coerces_to(s@, c),
        c.wf(),
{
    // Scan the body: find the single dot, reject anything non-numeric.
    let mut dot_pos: usize = n;  // `n` means no dot seen yet
    let mut i = start;
    while i < n
        invariant
            start <= i <= n,
            n == s@.len(),
            start <= 1,
            body_of(s@) =~= s@.subrange(start as int, n as int),
            !is_exp_input(s@),
            dot_pos == n || (start <= dot_pos < i && s@[dot_pos as int] == '.'),
            dot_pos == n ==> all_digits(s@.subrange(start as int, i as int)),
            dot_pos < n ==> all_digits(s@.subrange(start as int, dot_pos as int)) && all_digits(
                s@.subrange(dot_pos + 1, i as int),
            ),
        decreases n - i,
    {
        let c = s.get_char(i);
        let u = c as u32;
        if c == '.' {
            if dot_pos == n {
                dot_pos = i;
                proof {
                    assert(s@.subrange(dot_pos + 1, i + 1) =~= Seq::<char>::empty());
                }
            } else {
                proof {
                    assert(body_of(s@)[dot_pos - start] == '.');
                    lemma_bad_char(s@, i - start);
                }
                return CellValue::Text(s.to_owned());
            }
        } else if 48 <= u && u <= 57 {
            proof {
                if dot_pos == n {
                    assert(s@.subrange(start as int, i + 1).drop_last() =~= s@.subrange(
                        start as int,
                        i as int,
                    ));
                } else {
                    assert(s@.subrange(dot_pos + 1, i + 1).drop_last() =~= s@.subrange(
                        dot_pos + 1,
                        i as int,
                    ));
                }
            }
        } else {
            proof {
                lemma_bad_char(s@, i - start);
            }
            return CellValue::Text(s.to_owned());
        }
        i = i + 1;
    }
    let ghost b = body_of(s@);
    if dot_pos == n {
        // no dot: either the integer grammar or nothing numeric at all
        if n == start {
            proof {
                lemma_find_dot(b);
            }
            return CellValue::Text(s.to_owned());
        }
        match digits_to_u64(s, start, n) {
            Some(mag) => {
                if !neg && mag <= 0x7fff_ffff_ffff_ffff {
                    CellValue::Int(mag as i64)
                } else if neg && mag <= 0x8000_0000_0000_0000 {
                    if mag == 0x8000_0000_0000_0000 {
                        CellValue::Int(i64::MIN)
                    } else {
                        CellValue::Int(-(mag as i64))
                    }
                } else {
                    proof {
                        lemma_digits_value_bounds(b);
                    }
                    CellValue::Float(RealValue { neg, whole: mag, frac: String::new() })
                }
            },
            None => {
                proof {
                    lemma_find_dot(b);
                    lemma_digits_value_bounds(b);
                }
                CellValue::Text(s.to_owned())
            },
        }
    } else {
        // one dot: the simple-decimal grammar, if anything flanks the dot
        proof {
            assert(b[dot_pos - start] == '.');
            lemma_find_dot(b);
            let k = find_dot(b);
            assert(k >= 0);
            if k < dot_pos - start {
                assert(s@.subrange(start as int, dot_pos as int)[k] == b[k]);
                assert(false);
            }
            assert(k == dot_pos - start);
            assert(b.subrange(0, k) =~= s@.subrange(start as int, dot_pos as int));
            assert(b.subrange(k + 1, b.len() as int) =~= s@.subrange(dot_pos + 1, n as int));
        }
        if n - start == 1 {
            return CellValue::Text(s.to_owned());
        }
        match digits_to_u64(s, start, dot_pos) {
            Some(whole) => {
                // drop trailing zeros of the fractional digits
                let mut end = n;
                while end > dot_pos + 1 && s.get_char(end - 1) == '0'
                    invariant
                        dot_pos + 1 <= end <= n,
                        n == s@.len(),
                        dot_pos < n,
                        strip_trailing_zeros(s@.subrange(dot_pos + 1, n as int))
                            == strip_trailing_zeros(s@.subrange(dot_pos + 1, end as int)),
                    decreases end,
                {
                    proof {
                        assert(s@.subrange(dot_pos + 1, end as int).last() == s@[end - 1]);
                        assert(s@.subrange(dot_pos + 1, end as int).drop_last() =~= s@.subrange(
                            dot_pos + 1,
                            end - 1,
                        ));
                    }
                    end = end - 1;
                }
                proof {
                    let t = s@.subrange(dot_pos + 1, end as int);
                    if t.len() > 0 {
                        assert(t.last() == s@[end - 1]);
                        assert(t.last() != '0');
                    }
                    assert(strip_trailing_zeros(t) == t);
                    assert(real_frac_canon(s@) =~= t);
                }
                let frac = s.substring_char(dot_pos + 1, end).to_owned();
                if frac.as_str().is_empty() {
                    CellValue::Float(RealValue { neg, whole, frac })
                } else if whole < FRACTIONAL_WHOLE_BOUND {
                    proof {
                        assert(forall|j: int|
                            0 <= j < frac@.len() ==> frac@[j] == s@.subrange(
                                dot_pos + 1,
                                n as int,
                            )[j]);
                    }
                    CellValue::Float(RealValue { neg, whole, frac })
                } else {
                    CellValue::Text(s.to_owned())
                }
            },
            None => {
                proof {
                    lemma_digits_value_bounds(b.subrange(0, dot_pos - start));
                }
                CellValue::Text(s.to_owned())
            },
        }
    }
}

} // verus!
