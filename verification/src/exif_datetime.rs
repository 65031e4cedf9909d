//! The EXIF date-time "YYYY:MM:DD HH:MM:SS" as a value type.
//!
//! A value of this type is always a valid calendar date-time: it is only made
//! by parsing or by stepping a valid value one second forward. Parsing yields
//! only years 0..=9999, which the EXIF format can hold; stepping forward can
//! leave that range, which `fits_exif` tells before `to_exif_bytes` is used.

use crate::error::ExifError;
use chrono::{Datelike, Duration, NaiveDate, NaiveDateTime, Timelike};
use vstd::prelude::*;
use vstd::utf8::{decode_utf8, encode_utf8, valid_utf8};

verus! {

/// EXIF date-time format (colon-separated, fixed 19 bytes)
pub const EXIF_DATETIME_FORMAT: &'static str = "%Y:%m:%d %H:%M:%S";

/// First year that a calendar date may have.
pub open spec fn min_year() -> int {
    -262143
}

/// Last year that a calendar date may have.
pub open spec fn max_year() -> int {
    262142
}

/// Proleptic Gregorian leap year.
pub open spec fn is_leap_year(y: int) -> bool {
    y % 4 == 0 && (y % 100 != 0 || y % 400 == 0)
}

/// Number of days of month `m` (1-based) in year `y`.
pub open spec fn days_in_month(y: int, m: int) -> int {
    if m == 2 {
        if is_leap_year(y) {
            29
        } else {
            28
        }
    } else if m == 4 || m == 6 || m == 9 || m == 11 {
        30
    } else {
        31
    }
}

/// The calendar fields of a date-time. A leap second is represented, as the
/// `nanosecond` field of a `chrono` time does, as second 59 with a nanosecond
/// count of one billion.
pub struct DateTimeFields {
    pub year: int,
    pub month: int,
    pub day: int,
    pub hour: int,
    pub minute: int,
    pub second: int,
    pub nanosecond: int,
}

impl DateTimeFields {
    /// An existing calendar date within the supported years, a time of day,
    /// and a whole second (possibly a leap second).
    pub open spec fn valid(self) -> bool {
        &&& min_year() <= self.year <= max_year()
        &&& 1 <= self.month <= 12
        &&& 1 <= self.day <= days_in_month(self.year, self.month)
        &&& 0 <= self.hour < 24
        &&& 0 <= self.minute < 60
        &&& 0 <= self.second < 60
        &&& (self.nanosecond == 0 || (self.nanosecond == 1_000_000_000 && self.second == 59))
    }

    /// Chronological order: lexicographic on (date, time, nanosecond).
    pub open spec fn before(self, other: DateTimeFields) -> bool {
        if self.year != other.year {
            self.year < other.year
        } else if self.month != other.month {
            self.month < other.month
        } else if self.day != other.day {
            self.day < other.day
        } else if self.hour != other.hour {
            self.hour < other.hour
        } else if self.minute != other.minute {
            self.minute < other.minute
        } else if self.second != other.second {
            self.second < other.second
        } else {
            self.nanosecond < other.nanosecond
        }
    }

    /// The latest second that can be represented: one second later overflows.
    pub open spec fn is_last(self) -> bool {
        self.year == max_year() && self.month == 12 && self.day == 31 && self.hour == 23
            && self.minute == 59 && self.second == 59
    }

    /// The date-time one second later, carrying into minute, hour, day, month
    /// and year. One second after a leap second is the start of the next minute.
    pub open spec fn next_second(self) -> DateTimeFields {
        let nano = if self.nanosecond >= 1_000_000_000 {
            self.nanosecond - 1_000_000_000
        } else {
            self.nanosecond
        };
        if self.second < 59 {
            DateTimeFields {
                year: self.year,
                month: self.month,
                day: self.day,
                hour: self.hour,
                minute: self.minute,
                second: self.second + 1,
                nanosecond: nano,
            }
        } else if self.minute < 59 {
            DateTimeFields {
                year: self.year,
                month: self.month,
                day: self.day,
                hour: self.hour,
                minute: self.minute + 1,
                second: 0,
                nanosecond: nano,
            }
        } else if self.hour < 23 {
            DateTimeFields {
                year: self.year,
                month: self.month,
                day: self.day,
                hour: self.hour + 1,
                minute: 0,
                second: 0,
                nanosecond: nano,
            }
        } else if self.day < days_in_month(self.year, self.month) {
            DateTimeFields {
                year: self.year,
                month: self.month,
                day: self.day + 1,
                hour: 0,
                minute: 0,
                second: 0,
                nanosecond: nano,
            }
        } else if self.month < 12 {
            DateTimeFields {
                year: self.year,
                month: self.month + 1,
                day: 1,
                hour: 0,
                minute: 0,
                second: 0,
                nanosecond: nano,
            }
        } else {
            DateTimeFields {
                year: self.year + 1,
                month: 1,
                day: 1,
                hour: 0,
                minute: 0,
                second: 0,
                nanosecond: nano,
            }
        }
    }

    /// The year fits the four digits of the EXIF date-time format.
    pub open spec fn fits_exif(self) -> bool {
        0 <= self.year <= 9999
    }

    /// The second as written: 60 for a leap second.
    pub open spec fn written_second(self) -> int {
        self.second + self.nanosecond / 1_000_000_000
    }

    /// The text "MM:DD HH:MM:SS" after the year (with its leading colon).
    pub open spec fn text_after_year(self) -> Seq<char> {
        seq![':'] + two_digits(self.month) + seq![':'] + two_digits(self.day) + seq![' ']
            + two_digits(self.hour) + seq![':'] + two_digits(self.minute) + seq![':'] + two_digits(
            self.written_second(),
        )
    }

    /// The "YYYY:MM:DD HH:MM:SS" text of a date-time whose year fits four digits.
    pub open spec fn exif_text(self) -> Seq<char> {
        four_digits(self.year) + self.text_after_year()
    }

    /// The text of any date-time: years outside 0..=9999 are written with an
    /// explicit sign and at least four digits.
    pub open spec fn display_text(self) -> Seq<char> {
        if self.fits_exif() {
            self.exif_text()
        } else {
            seq![if self.year < 0 { '-' } else { '+' }] + zero_padded(
                decimal(if self.year < 0 { -self.year } else { self.year } as nat),
                4,
            ) + self.text_after_year()
        }
    }

    /// The 19 bytes of the EXIF date-time text.
    pub open spec fn exif_bytes(self) -> Seq<u8> {
        self.exif_text().map_values(|c: char| c as u8)
    }
}

/// The decimal digit `d` (0..=9) as a character.
pub open spec fn digit(d: int) -> char {
    (48 + d) as char
}

/// Two decimal digits, zero-padded.
pub open spec fn two_digits(n: int) -> Seq<char> {
    seq![digit(n / 10), digit(n % 10)]
}

/// Four decimal digits, zero-padded.
pub open spec fn four_digits(n: int) -> Seq<char> {
    seq![digit(n / 1000), digit((n / 100) % 10), digit((n / 10) % 10), digit(n % 10)]
}

/// The shortest decimal representation of `n`.
pub open spec fn decimal(n: nat) -> Seq<char>
    decreases n,
{
    if n < 10 {
        seq![digit(n as int)]
    } else {
        decimal(n / 10) + seq![digit((n % 10) as int)]
    }
}

/// `s` preceded by as many '0' as needed to reach `width` characters.
pub open spec fn zero_padded(s: Seq<char>, width: nat) -> Seq<char> {
    if s.len() >= width {
        s
    } else {
        Seq::new((width - s.len()) as nat, |i: int| '0') + s
    }
}

/// Unicode White_Space, the characters that `char::is_whitespace` accepts.
pub open spec fn is_white_space(c: char) -> bool {
    let u = c as u32;
    (0x09 <= u <= 0x0D) || u == 0x20 || u == 0x85 || u == 0xA0 || u == 0x1680 || (0x2000 <= u
        <= 0x200A) || u == 0x2028 || u == 0x2029 || u == 0x202F || u == 0x205F || u == 0x3000
}

/// `t` is `s` with its leading and trailing white space removed.
pub open spec fn is_trimmed_of(t: Seq<char>, s: Seq<char>) -> bool {
    exists|a: int, b: int|
        0 <= a <= b <= s.len() && t == s.subrange(a, b) && (forall|i: int|
            0 <= i < a ==> is_white_space(#[trigger] s[i])) && (forall|i: int|
            b <= i < s.len() ==> is_white_space(#[trigger] s[i])) && (a < b ==> !is_white_space(s[a])
            && !is_white_space(s[b - 1]))
}

/// When `t` is the EXIF text of a valid date-time, `r` is that date-time.
pub open spec fn parses_back_canonical(t: Seq<char>, r: Option<ExifDateTime>) -> bool {
    forall|x: DateTimeFields|
        x.valid() && x.fits_exif() && t == #[trigger] x.exif_text() ==> (r matches Some(d) && d@
            == x)
}

/// `s` without its leading and trailing white space.
pub open spec fn trimmed(s: Seq<char>) -> Seq<char> {
    choose|t: Seq<char>| is_trimmed_of(t, s)
}

/// The date-time that a text parses as: `chrono`'s parse of the text
/// without its surrounding white space, provided its year fits the four
/// digits of the EXIF date-time format.
pub open spec fn parse_text(s: Seq<char>) -> Result<DateTimeFields, ExifError> {
    match chrono_parse_exif(trimmed(s)) {
        Some(f) => if f.fits_exif() {
            Ok(f)
        } else {
            Err(ExifError::DateTimeUnparsable)
        },
        None => Err(ExifError::DateTimeUnparsable),
    }
}

/// The date-time that the bytes of a date-time value area read as: an error
/// when they are not UTF-8 text, otherwise what the text parses as.
pub open spec fn parse_bytes(bytes: Seq<u8>) -> Result<DateTimeFields, ExifError> {
    if !valid_utf8(bytes) {
        Err(ExifError::DateTimeNotText)
    } else {
        parse_text(decode_utf8(bytes))
    }
}

/// The fields of a successful result.
pub open spec fn result_view(r: Result<ExifDateTime, ExifError>) -> Result<DateTimeFields, ExifError> {
    match r {
        Ok(d) => Ok(d@),
        Err(e) => Err(e),
    }
}

/// `r` is what the bytes of a date-time value area read as; in particular,
/// the EXIF bytes of a valid date-time read as that date-time.
pub open spec fn reads_as(bytes: Seq<u8>, r: Result<ExifDateTime, ExifError>) -> bool {
    &&& result_view(r) == parse_bytes(bytes)
    &&& r matches Ok(d) ==> d@.valid()
    &&& forall|x: DateTimeFields|
        x.valid() && x.fits_exif() && bytes == #[trigger] x.exif_bytes() ==> (r matches Ok(d) && d@
            == x)
}

/// What `chrono` parses from a string with the EXIF date-time format.
pub uninterp spec fn chrono_parse_exif(s: Seq<char>) -> Option<DateTimeFields>;

/// A date-time "YYYY:MM:DD HH:MM:SS" with one-second resolution.
#[derive(Clone, Copy, Debug, PartialEq, Eq, PartialOrd, Ord)]
pub struct ExifDateTime {
    year: i32,
    month: u32,
    day: u32,
    hour: u32,
    minute: u32,
    second: u32,
    nanosecond: u32,
}

impl View for ExifDateTime {
    type V = DateTimeFields;

    closed spec fn view(&self) -> DateTimeFields {
        DateTimeFields {
            year: self.year as int,
            month: self.month as int,
            day: self.day as int,
            hour: self.hour as int,
            minute: self.minute as int,
            second: self.second as int,
            nanosecond: self.nanosecond as int,
        }
    }
}

impl ExifDateTime {
    #[verifier::type_invariant]
    closed spec fn inv(self) -> bool {
        self@.valid()
    }

    /// Whether `self` is strictly earlier than `other`.
    pub fn is_before(&self, other: &Self) -> (r: bool)
        ensures
            r == self@.before(other@),
    {
        if self.year != other.year {
            self.year < other.year
        } else if self.month != other.month {
            self.month < other.month
        } else if self.day != other.day {
            self.day < other.day
        } else if self.hour != other.hour {
            self.hour < other.hour
        } else if self.minute != other.minute {
            self.minute < other.minute
        } else if self.second != other.second {
            self.second < other.second
        } else {
            self.nanosecond < other.nanosecond
        }
    }

    /// Whether the year fits the four digits of an EXIF date-time, i.e.
    /// whether `to_exif_bytes` can represent the value.
    pub fn fits_exif(&self) -> (r: bool)
        ensures
            r == self@.fits_exif(),
            self@.valid(),
    {
        proof {
            use_type_invariant(self);
        }
        0 <= self.year && self.year <= 9999
    }

    /// Whether this is the latest representable second, which has no successor.
    pub fn is_last(&self) -> (r: bool)
        ensures
            r == self@.is_last(),
    {
        self.year == 262142 && self.month == 12 && self.day == 31 && self.hour == 23
            && self.minute == 59 && self.second == 59
    }

    /// The date-time one second later. Minute/hour/day carry-over is handled
    /// by chrono.
    pub fn succ(self) -> (r: Self)
        requires
            !self@.is_last(),
        ensures
            r@ == self@.next_second(),
            r@.valid(),
    {
        proof {
            use_type_invariant(&self);
            lemma_next_second_valid(self@);
        }
        chrono_add_second(&self)
    }

    /// The fixed 19-byte representation written into EXIF tags.
    pub fn to_exif_bytes(self) -> (r: [u8; 19])
        requires
            self@.fits_exif(),
        ensures
            r@ == self@.exif_bytes(),
    {
        proof {
            use_type_invariant(&self);
        }
        let text = chrono_format(&self);
        let text_str = text.as_str();
        proof {
            lemma_exif_text_ascii(self@);
            vstd::string::is_ascii_spec_bytes(text_str);
            lemma_ascii_bytes_decode(self@.exif_text());
        }
        let bytes = text_str.as_bytes();
        assert(bytes@.len() == 19);
        let mut out = [0u8; 19];
        let mut i: usize = 0;
        while i < 19
            invariant
                0 <= i <= 19,
                bytes@ == self@.exif_bytes(),
                self@.exif_bytes().len() == 19,
                out@.len() == 19,
                forall|j: int| 0 <= j < i ==> out@[j] == bytes@[j],
            decreases 19 - i,
        {
            out[i] = bytes[i];
            i = i + 1;
        }
        assert(out@ =~= self@.exif_bytes());
        out
    }

    /// The text of the date-time, "YYYY:MM:DD HH:MM:SS".
    pub fn to_string(&self) -> (r: String)
        ensures
            r@ == self@.display_text(),
    {
        proof {
            use_type_invariant(self);
        }
        chrono_format(self)
    }

    /// Parses a date-time "YYYY:MM:DD HH:MM:SS", ignoring surrounding white
    /// space. Years outside 0..=9999, which the EXIF format cannot hold, are
    /// rejected.
    pub fn parse_str(s: &str) -> (r: Result<Self, ExifError>)
        ensures
            result_view(r) == parse_text(s@),
            r matches Ok(d) ==> d@.valid() && d@.fits_exif(),
            forall|x: DateTimeFields|
                x.valid() && x.fits_exif() && s@ == #[trigger] x.exif_text() ==> (r matches Ok(d)
                    && d@ == x),
            forall|x: DateTimeFields|
                x.valid() && x.fits_exif() && is_trimmed_of(#[trigger] x.exif_text(), s@) ==> (
                r matches Ok(d) && d@ == x),
    {
        let t = trim_str(s);
        proof {
            lemma_trim_unique(s@);
            assert(trimmed(s@) == t@);
        }
        let p = chrono_parse(t);
        assert forall|x: DateTimeFields|
            x.valid() && x.fits_exif() && is_trimmed_of(#[trigger] x.exif_text(), s@) implies (
            p matches Some(d) && d@ == x) by {
            assert(t@ == x.exif_text());
        }
        assert forall|x: DateTimeFields|
            x.valid() && x.fits_exif() && s@ == #[trigger] x.exif_text() implies (p matches Some(d)
                && d@ == x) by {
            lemma_exif_text_trimmed(x);
        }
        match p {
            Some(d) => if d.fits_exif() {
                Ok(d)
            } else {
                Err(ExifError::DateTimeUnparsable)
            },
            None => Err(ExifError::DateTimeUnparsable),
        }
    }

    /// Parses from the bytes of an EXIF tag value area.
    pub fn from_exif_bytes(bytes: &[u8]) -> (r: Result<Self, ExifError>)
        ensures
            reads_as(bytes@, r),
    {
        match str_from_utf8(bytes) {
            None => {
                assert forall|x: DateTimeFields|
                    x.valid() && x.fits_exif() && bytes@ == #[trigger] x.exif_bytes() implies false by {
                    lemma_exif_text_ascii(x);
                    lemma_ascii_bytes_decode(x.exif_text());
                }
                Err(ExifError::DateTimeNotText)
            },
            Some(s) => {
                let r = Self::parse_str(s);
                assert forall|x: DateTimeFields|
                    x.valid() && x.fits_exif() && bytes@ == #[trigger] x.exif_bytes() implies (
                    r matches Ok(d) && d@ == x) by {
                    lemma_exif_text_ascii(x);
                    lemma_ascii_bytes_decode(x.exif_text());
                    lemma_exif_text_trimmed(x);
                }
                r
            },
        }
    }
}

impl core::str::FromStr for ExifDateTime {
    type Err = ExifError;

    fn from_str(s: &str) -> (r: Result<Self, ExifError>)
        ensures
            result_view(r) == parse_text(s@),
            r matches Ok(d) ==> d@.valid() && d@.fits_exif(),
            forall|x: DateTimeFields|
                x.valid() && x.fits_exif() && s@ == #[trigger] x.exif_text() ==> (r matches Ok(d)
                    && d@ == x),
            forall|x: DateTimeFields|
                x.valid() && x.fits_exif() && is_trimmed_of(#[trigger] x.exif_text(), s@) ==> (
                r matches Ok(d) && d@ == x),
    {
        Self::parse_str(s)
    }
}


/// Lexicographic order of byte strings: `a` comes before `b` at the first
/// position where they differ.
pub open spec fn bytes_before(a: Seq<u8>, b: Seq<u8>) -> bool
    decreases a.len(),
{
    if a.len() == 0 || b.len() == 0 {
        a.len() < b.len()
    } else if a[0] != b[0] {
        a[0] < b[0]
    } else {
        bytes_before(a.drop_first(), b.drop_first())
    }
}

/// The ASCII byte of decimal digit `d`.
pub open spec fn digit_byte(d: int) -> u8 {
    (48 + d) as u8
}

/// Two decimal digits as bytes, zero-padded.
pub open spec fn two_digit_bytes(n: int) -> Seq<u8> {
    seq![digit_byte(n / 10), digit_byte(n % 10)]
}

/// Comparing two concatenations of equally long parts compares the first
/// parts, then the second ones.
proof fn lemma_bytes_before_concat(p1: Seq<u8>, q1: Seq<u8>, p2: Seq<u8>, q2: Seq<u8>)
    requires
        p1.len() == p2.len(),
        q1.len() == q2.len(),
    ensures
        bytes_before(p1 + q1, p2 + q2) == (bytes_before(p1, p2) || (p1 == p2 && bytes_before(
            q1,
            q2,
        ))),
        (p1 + q1 == p2 + q2) == (p1 == p2 && q1 == q2),
    decreases p1.len(),
{
    if p1 + q1 == p2 + q2 {
        assert(p1 =~= (p1 + q1).take(p1.len() as int));
        assert(p2 =~= (p2 + q2).take(p2.len() as int));
        assert(q1 =~= (p1 + q1).skip(p1.len() as int));
        assert(q2 =~= (p2 + q2).skip(p2.len() as int));
    }
    if p1.len() == 0 {
        assert(p1 + q1 =~= q1);
        assert(p2 + q2 =~= q2);
        assert(p1 =~= p2);
    } else {
        assert((p1 + q1).drop_first() =~= p1.drop_first() + q1);
        assert((p2 + q2).drop_first() =~= p2.drop_first() + q2);
        assert((p1 + q1)[0] == p1[0]);
        assert((p2 + q2)[0] == p2[0]);
        lemma_bytes_before_concat(p1.drop_first(), q1, p2.drop_first(), q2);
        if p1[0] == p2[0] && p1.drop_first() == p2.drop_first() {
            assert(p1 =~= p2) by {
                assert forall|i: int| 0 <= i < p1.len() implies p1[i] == p2[i] by {
                    if i > 0 {
                        assert(p1[i] == p1.drop_first()[i - 1]);
                        assert(p2[i] == p2.drop_first()[i - 1]);
                    }
                }
            }
        }
        if p1 == p2 {
            assert(p1.drop_first() == p2.drop_first());
        }
    }
}

/// Two-digit blocks compare as their numbers do.
proof fn lemma_two_digit_bytes_order(n: int, m: int)
    requires
        0 <= n < 100,
        0 <= m < 100,
    ensures
        bytes_before(two_digit_bytes(n), two_digit_bytes(m)) == (n < m),
        (two_digit_bytes(n) == two_digit_bytes(m)) == (n == m),
{
    let a = two_digit_bytes(n);
    let b = two_digit_bytes(m);
    assert(0 <= n / 10 < 10 && 0 <= m / 10 < 10 && 0 <= n % 10 < 10 && 0 <= m % 10 < 10);
    assert(n == 10 * (n / 10) + n % 10 && m == 10 * (m / 10) + m % 10);
    assert(a.drop_first() =~= seq![digit_byte(n % 10)]);
    assert(b.drop_first() =~= seq![digit_byte(m % 10)]);
    assert(a.drop_first().drop_first().len() == 0);
    assert(b.drop_first().drop_first().len() == 0);
    assert(!bytes_before(a.drop_first().drop_first(), b.drop_first().drop_first()));
    assert(bytes_before(a.drop_first(), b.drop_first()) == (n % 10 < m % 10));
    assert(digit_byte(n / 10) as int == 48 + n / 10 && digit_byte(m / 10) as int == 48 + m / 10);
    assert(digit_byte(n % 10) as int == 48 + n % 10 && digit_byte(m % 10) as int == 48 + m % 10);
    if a == b {
        assert(a[0] == b[0] && a[1] == b[1]);
    }
    if n == m {
        assert(a =~= b);
    }
}

/// Four-digit blocks split into two two-digit blocks.
proof fn lemma_four_digit_bytes(n: int)
    requires
        0 <= n <= 9999,
    ensures
        four_digits(n).map_values(|c: char| c as u8) == two_digit_bytes(n / 100) + two_digit_bytes(
            n % 100,
        ),
{
    assert((n / 100) / 10 == n / 1000) by (nonlinear_arith)
        requires
            0 <= n,
    ;
    assert((n % 100) / 10 == (n / 10) % 10) by (nonlinear_arith)
        requires
            0 <= n,
    ;
    assert((n % 100) % 10 == n % 10) by (nonlinear_arith)
        requires
            0 <= n,
    ;
    assert(0 <= n / 1000 < 10 && 0 <= (n / 100) % 10 < 10 && 0 <= (n / 10) % 10 < 10);
    assert(four_digits(n).map_values(|c: char| c as u8) =~= two_digit_bytes(n / 100)
        + two_digit_bytes(n % 100));
}

/// The EXIF bytes of a date-time, block by block.
proof fn lemma_exif_bytes_blocks(x: DateTimeFields)
    requires
        x.valid(),
        x.fits_exif(),
    ensures
        x.exif_bytes() == two_digit_bytes(x.year / 100) + two_digit_bytes(x.year % 100) + seq![58u8]
            + two_digit_bytes(x.month) + seq![58u8] + two_digit_bytes(x.day) + seq![32u8]
            + two_digit_bytes(x.hour) + seq![58u8] + two_digit_bytes(x.minute) + seq![58u8]
            + two_digit_bytes(x.written_second()),
{
    lemma_four_digit_bytes(x.year);
    assert(0 <= x.written_second() <= 60);
    let y = four_digits(x.year).map_values(|c: char| c as u8);
    assert(x.exif_text() =~= four_digits(x.year) + x.text_after_year());
    assert(x.exif_bytes() =~= y + x.text_after_year().map_values(|c: char| c as u8));
    assert(x.text_after_year().map_values(|c: char| c as u8) =~= seq![58u8] + two_digit_bytes(
        x.month,
    ) + seq![58u8] + two_digit_bytes(x.day) + seq![32u8] + two_digit_bytes(x.hour) + seq![58u8]
        + two_digit_bytes(x.minute) + seq![58u8] + two_digit_bytes(x.written_second()));
    assert(x.exif_bytes() =~= two_digit_bytes(x.year / 100) + two_digit_bytes(x.year % 100)
        + seq![58u8] + two_digit_bytes(x.month) + seq![58u8] + two_digit_bytes(x.day) + seq![32u8]
        + two_digit_bytes(x.hour) + seq![58u8] + two_digit_bytes(x.minute) + seq![58u8]
        + two_digit_bytes(x.written_second()));
}

/// Appending one more block to equally long prefixes.
proof fn lemma_extend(p1: Seq<u8>, p2: Seq<u8>, q1: Seq<u8>, q2: Seq<u8>, lt: bool, eq: bool, qlt: bool, qeq: bool)
    requires
        p1.len() == p2.len(),
        q1.len() == q2.len(),
        bytes_before(p1, p2) == lt,
        (p1 == p2) == eq,
        bytes_before(q1, q2) == qlt,
        (q1 == q2) == qeq,
    ensures
        bytes_before(p1 + q1, p2 + q2) == (lt || (eq && qlt)),
        (p1 + q1 == p2 + q2) == (eq && qeq),
{
    lemma_bytes_before_concat(p1, q1, p2, q2);
}

/// A separator compared with itself.
proof fn lemma_same_separator(s: Seq<u8>)
    requires
        s.len() == 1,
    ensures
        !bytes_before(s, s),
{
    assert(s.drop_first().len() == 0);
    assert(!bytes_before(s.drop_first(), s.drop_first()));
}

/// For date-times whose year fits four digits, the byte order of their EXIF
/// bytes is their chronological order, and equal bytes mean equal date-times.
pub proof fn lemma_exif_bytes_order(a: DateTimeFields, b: DateTimeFields)
    requires
        a.valid(),
        a.fits_exif(),
        b.valid(),
        b.fits_exif(),
    ensures
        a.before(b) == bytes_before(a.exif_bytes(), b.exif_bytes()),
        (a == b) == (a.exif_bytes() == b.exif_bytes()),
{
    lemma_exif_bytes_blocks(a);
    lemma_exif_bytes_blocks(b);
    let colon = seq![58u8];
    let space = seq![32u8];
    lemma_same_separator(colon);
    lemma_same_separator(space);
    lemma_two_digit_bytes_order(a.year / 100, b.year / 100);
    lemma_two_digit_bytes_order(a.year % 100, b.year % 100);
    lemma_two_digit_bytes_order(a.month, b.month);
    lemma_two_digit_bytes_order(a.day, b.day);
    lemma_two_digit_bytes_order(a.hour, b.hour);
    lemma_two_digit_bytes_order(a.minute, b.minute);
    lemma_two_digit_bytes_order(a.written_second(), b.written_second());
    let ya = two_digit_bytes(a.year / 100) + two_digit_bytes(a.year % 100);
    let yb = two_digit_bytes(b.year / 100) + two_digit_bytes(b.year % 100);
    lemma_bytes_before_concat(
        two_digit_bytes(a.year / 100),
        two_digit_bytes(a.year % 100),
        two_digit_bytes(b.year / 100),
        two_digit_bytes(b.year % 100),
    );
    assert(a.year == 100 * (a.year / 100) + a.year % 100);
    assert(b.year == 100 * (b.year / 100) + b.year % 100);
    assert(bytes_before(ya, yb) == (a.year < b.year));
    assert((ya == yb) == (a.year == b.year));
    let a1 = ya + colon;
    let b1 = yb + colon;
    lemma_extend(ya, yb, colon, colon, a.year < b.year, a.year == b.year, false, true);
    let a2 = a1 + two_digit_bytes(a.month);
    let b2 = b1 + two_digit_bytes(b.month);
    lemma_extend(a1, b1, two_digit_bytes(a.month), two_digit_bytes(b.month), a.year < b.year, a.year == b.year, a.month < b.month, a.month == b.month);
    let lt2 = a.year < b.year || (a.year == b.year && a.month < b.month);
    let eq2 = a.year == b.year && a.month == b.month;
    let a3 = a2 + colon;
    let b3 = b2 + colon;
    lemma_extend(a2, b2, colon, colon, lt2, eq2, false, true);
    let a4 = a3 + two_digit_bytes(a.day);
    let b4 = b3 + two_digit_bytes(b.day);
    lemma_extend(a3, b3, two_digit_bytes(a.day), two_digit_bytes(b.day), lt2, eq2, a.day < b.day, a.day == b.day);
    let lt4 = lt2 || (eq2 && a.day < b.day);
    let eq4 = eq2 && a.day == b.day;
    let a5 = a4 + space;
    let b5 = b4 + space;
    lemma_extend(a4, b4, space, space, lt4, eq4, false, true);
    let a6 = a5 + two_digit_bytes(a.hour);
    let b6 = b5 + two_digit_bytes(b.hour);
    lemma_extend(a5, b5, two_digit_bytes(a.hour), two_digit_bytes(b.hour), lt4, eq4, a.hour < b.hour, a.hour == b.hour);
    let lt6 = lt4 || (eq4 && a.hour < b.hour);
    let eq6 = eq4 && a.hour == b.hour;
    let a7 = a6 + colon;
    let b7 = b6 + colon;
    lemma_extend(a6, b6, colon, colon, lt6, eq6, false, true);
    let a8 = a7 + two_digit_bytes(a.minute);
    let b8 = b7 + two_digit_bytes(b.minute);
    lemma_extend(a7, b7, two_digit_bytes(a.minute), two_digit_bytes(b.minute), lt6, eq6, a.minute < b.minute, a.minute == b.minute);
    let lt8 = lt6 || (eq6 && a.minute < b.minute);
    let eq8 = eq6 && a.minute == b.minute;
    let a9 = a8 + colon;
    let b9 = b8 + colon;
    lemma_extend(a8, b8, colon, colon, lt8, eq8, false, true);
    lemma_extend(a9, b9, two_digit_bytes(a.written_second()), two_digit_bytes(b.written_second()), lt8, eq8, a.written_second() < b.written_second(), a.written_second() == b.written_second());
    assert(a.exif_bytes() == a9 + two_digit_bytes(a.written_second()));
    assert(b.exif_bytes() == b9 + two_digit_bytes(b.written_second()));
}

/// Every character of the EXIF date-time text is ASCII and the text has 19 characters.
proof fn lemma_exif_text_ascii(x: DateTimeFields)
    requires
        x.valid(),
        x.fits_exif(),
    ensures
        x.exif_text().len() == 19,
        vstd::utf8::is_ascii_chars(x.exif_text()),
        x.exif_bytes().len() == 19,
        forall|i: int| 0 <= i < 19 ==> '0' <= #[trigger] x.exif_text()[i] <= '9' || x.exif_text()[i] == ':' || x.exif_text()[i] == ' ',
        '0' <= x.exif_text()[0] <= '9',
        '0' <= x.exif_text()[18] <= '9',
{
    let t = x.exif_text();
    assert(t =~= seq![
        digit(x.year / 1000), digit((x.year / 100) % 10), digit((x.year / 10) % 10), digit(x.year % 10),
        ':', digit(x.month / 10), digit(x.month % 10), ':', digit(x.day / 10), digit(x.day % 10), ' ',
        digit(x.hour / 10), digit(x.hour % 10), ':', digit(x.minute / 10), digit(x.minute % 10), ':',
        digit(x.written_second() / 10), digit(x.written_second() % 10)]);
    assert(0 <= x.written_second() <= 60);
}

/// Chronological order is irreflexive and transitive.
pub proof fn lemma_before_strict_order(a: DateTimeFields, b: DateTimeFields, c: DateTimeFields)
    ensures
        !a.before(a),
        a.before(b) && b.before(c) ==> a.before(c),
        a.before(b) ==> !b.before(a),
{
}

/// Any two distinct date-times are ordered one way or the other.
pub proof fn lemma_before_total(a: DateTimeFields, b: DateTimeFields)
    ensures
        a == b || a.before(b) || b.before(a),
{
}

/// One second after a valid date-time that is not the last one is valid.
pub proof fn lemma_next_second_valid(a: DateTimeFields)
    requires
        a.valid(),
        !a.is_last(),
    ensures
        a.next_second().valid(),
{
}

/// One second later is later.
pub proof fn lemma_next_second_is_later(a: DateTimeFields)
    ensures
        a.before(a.next_second()),
{
}

/// The EXIF bytes of a date-time are 19 bytes long.
pub proof fn lemma_exif_bytes_len(x: DateTimeFields)
    ensures
        x.exif_bytes().len() == 19,
{
}

/// ASCII text encodes to one byte per character and decodes back.
proof fn lemma_ascii_bytes_decode(t: Seq<char>)
    requires
        vstd::utf8::is_ascii_chars(t),
    ensures
        encode_utf8(t) == t.map_values(|c: char| c as u8),
        valid_utf8(t.map_values(|c: char| c as u8)),
        decode_utf8(t.map_values(|c: char| c as u8)) == t,
{
    vstd::utf8::is_ascii_chars_encode_utf8(t);
    assert(encode_utf8(t) =~= t.map_values(|c: char| c as u8));
    vstd::utf8::encode_utf8_valid_utf8(t);
    vstd::utf8::encode_utf8_decode_utf8(t);
}

/// The EXIF date-time text has no surrounding white space.
proof fn lemma_exif_text_trimmed(x: DateTimeFields)
    requires
        x.valid(),
        x.fits_exif(),
    ensures
        is_trimmed_of(x.exif_text(), x.exif_text()),
        forall|t: Seq<char>| is_trimmed_of(t, x.exif_text()) ==> t == x.exif_text(),
{
    lemma_exif_text_ascii(x);
    let s = x.exif_text();
    assert(s.subrange(0, 19) =~= s);
    assert(!is_white_space(s[0]));
    assert(!is_white_space(s[18]));
    lemma_trim_unique(s);
}

/// The trimmed form of a string is unique.
proof fn lemma_trim_unique(s: Seq<char>)
    ensures
        forall|t1: Seq<char>, t2: Seq<char>|
            is_trimmed_of(t1, s) && is_trimmed_of(t2, s) ==> t1 == t2,
{
    assert forall|t1: Seq<char>, t2: Seq<char>|
        is_trimmed_of(t1, s) && is_trimmed_of(t2, s) implies t1 == t2 by {
        let (a1, b1) = choose|a: int, b: int|
            0 <= a <= b <= s.len() && t1 == s.subrange(a, b) && (forall|i: int|
                0 <= i < a ==> is_white_space(#[trigger] s[i])) && (forall|i: int|
                b <= i < s.len() ==> is_white_space(#[trigger] s[i])) && (a < b ==> !is_white_space(
                s[a]) && !is_white_space(s[b - 1]));
        let (a2, b2) = choose|a: int, b: int|
            0 <= a <= b <= s.len() && t2 == s.subrange(a, b) && (forall|i: int|
                0 <= i < a ==> is_white_space(#[trigger] s[i])) && (forall|i: int|
                b <= i < s.len() ==> is_white_space(#[trigger] s[i])) && (a < b ==> !is_white_space(
                s[a]) && !is_white_space(s[b - 1]));
        if a1 < b1 && a2 < b2 {
            if a1 < a2 {
                assert(is_white_space(s[a1]));
            }
            if a2 < a1 {
                assert(is_white_space(s[a2]));
            }
            if b1 < b2 {
                assert(is_white_space(s[b2 - 1]));
            }
            if b2 < b1 {
                assert(is_white_space(s[b1 - 1]));
            }
        } else if a1 < b1 {
            // t2 is empty: every character is white space
            if a2 <= a1 {
                assert(is_white_space(s[a1])) by {
                    if a1 < b2 {
                    }
                }
            }
        } else if a2 < b2 {
            if a1 <= a2 {
                assert(is_white_space(s[a2]));
            }
        }
        assert(t1 =~= t2);
    }
}

/// `std::str::from_utf8`: the bytes as text when they are valid UTF-8.
#[verifier::external_body]
fn str_from_utf8(bytes: &[u8]) -> (r: Option<&str>)
    ensures
        r is Some <==> valid_utf8(bytes@),
        r matches Some(s) ==> s@ == decode_utf8(bytes@),
{
    std::str::from_utf8(bytes).ok()
}

/// `str::trim`: the string without leading and trailing white space.
#[verifier::external_body]
fn trim_str(s: &str) -> (r: &str)
    ensures
        is_trimmed_of(r@, s@),
{
    s.trim()
}

/// `chrono::NaiveDateTime::parse_from_str` with the EXIF date-time format.
/// The result depends on the text alone; it is always a valid date-time
/// without a fractional second (a leap second is written as second 60), and
/// the canonical text of a valid date-time parses back to that date-time.
#[verifier::external_body]
fn chrono_parse(s: &str) -> (r: Option<ExifDateTime>)
    ensures
        r matches Some(d) ==> chrono_parse_exif(s@) == Some(d@) && d@.valid(),
        r is None ==> chrono_parse_exif(s@) is None,
        parses_back_canonical(s@, r),
{
    match NaiveDateTime::parse_from_str(s, EXIF_DATETIME_FORMAT) {
        Ok(n) => Some(
            ExifDateTime {
                year: n.year(),
                month: n.month(),
                day: n.day(),
                hour: n.hour(),
                minute: n.minute(),
                second: n.second(),
                nanosecond: n.nanosecond(),
            },
        ),
        Err(_) => None,
    }
}

/// `NaiveDateTime::format` with the EXIF date-time format: four zero-padded
/// year digits (a sign and at least four digits outside 0..=9999), two
/// zero-padded digits for the other fields, second 60 for a leap second.
#[verifier::external_body]
fn chrono_format(dt: &ExifDateTime) -> (r: String)
    requires
        dt@.valid(),
    ensures
        r@ == dt@.display_text(),
{
    NaiveDate::from_ymd_opt(dt.year, dt.month, dt.day).unwrap().and_hms_nano_opt(
        dt.hour,
        dt.minute,
        dt.second,
        dt.nanosecond,
    ).unwrap().format(EXIF_DATETIME_FORMAT).to_string()
}

/// `NaiveDateTime + Duration::seconds(1)`: the next second of the proleptic
/// Gregorian calendar; after a leap second, the start of the next minute.
#[verifier::external_body]
fn chrono_add_second(dt: &ExifDateTime) -> (r: ExifDateTime)
    requires
        dt@.valid(),
        !dt@.is_last(),
    ensures
        r@ == dt@.next_second(),
{
    let n = NaiveDate::from_ymd_opt(dt.year, dt.month, dt.day).unwrap().and_hms_nano_opt(
        dt.hour,
        dt.minute,
        dt.second,
        dt.nanosecond,
    ).unwrap() + Duration::seconds(1);
    ExifDateTime {
        year: n.year(),
        month: n.month(),
        day: n.day(),
        hour: n.hour(),
        minute: n.minute(),
        second: n.second(),
        nanosecond: n.nanosecond(),
    }
}

} // verus!
