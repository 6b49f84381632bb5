//! A calendar date and the three ways this library writes one.

use crate::text::{
    all_digits, append_padded_decimal, bytes_le_from, digit_char, lemma_padded_decimal_shape,
    padded_decimal, pow10, text_le,
};
use vstd::utf8::{encode_utf8, is_ascii_chars, is_ascii_chars_encode_utf8};
use vstd::prelude::*;
use vstd::string::StringExecFns;

verus! {

/// A date: a year of at most four digits, a month from 1 to 12 and a day
/// from 1 to 31. Whether the month has that day is not looked at.
#[derive(Debug, Clone, Copy, PartialEq, Eq)]
pub struct CalendarDate {
    year: u16,
    month: u8,
    day: u8,
}

/// `YYYY-MM-DD`.
pub open spec fn iso_text(year: nat, month: nat, day: nat) -> Seq<char> {
    padded_decimal(year, 4) + seq!['-'] + padded_decimal(month, 2) + seq!['-'] + padded_decimal(
        day,
        2,
    )
}

/// `YYYYMMDD`.
pub open spec fn compact_text(year: nat, month: nat, day: nat) -> Seq<char> {
    padded_decimal(year, 4) + padded_decimal(month, 2) + padded_decimal(day, 2)
}

/// `DD.MM.YYYY`.
pub open spec fn dotted_text(year: nat, month: nat, day: nat) -> Seq<char> {
    padded_decimal(day, 2) + seq!['.'] + padded_decimal(month, 2) + seq!['.'] + padded_decimal(
        year,
        4,
    )
}

/// The numbers that can stand for a date here: a year of at most four
/// digits, a month from 1 to 12, a day from 1 to 31. Whether the month has
/// that day is not looked at.
pub open spec fn is_calendar_date(year: int, month: int, day: int) -> bool {
    0 <= year <= 9999 && 1 <= month <= 12 && 1 <= day <= 31
}

/// The numbers that the three forms have room for: four digits for the
/// year, two for the month, two for the day.
pub open spec fn fits_date_form(year: nat, month: nat, day: nat) -> bool {
    year < 10000 && month < 100 && day < 100
}

/// The digits of a date: those of its year, its month and its day, each
/// run made of digits alone and of the length of its form.
pub proof fn lemma_date_digits(year: nat, month: nat, day: nat)
    requires
        fits_date_form(year, month, day),
    ensures
        padded_decimal(year, 4).len() == 4,
        padded_decimal(month, 2).len() == 2,
        padded_decimal(day, 2).len() == 2,
        all_digits(padded_decimal(year, 4)),
        all_digits(padded_decimal(month, 2)),
        all_digits(padded_decimal(day, 2)),
{
    assert(pow10(4) == 10000 && pow10(2) == 100) by {
        reveal_with_fuel(pow10, 5);
    }
    lemma_padded_decimal_shape(year, 4);
    lemma_padded_decimal_shape(month, 2);
    lemma_padded_decimal_shape(day, 2);
}

/// A date in any of the three forms has the length of the form: four
/// digits for the year, two for the month, two for the day.
pub proof fn lemma_date_text_lengths(year: nat, month: nat, day: nat)
    requires
        fits_date_form(year, month, day),
    ensures
        iso_text(year, month, day).len() == 10,
        compact_text(year, month, day).len() == 8,
        dotted_text(year, month, day).len() == 10,
        all_digits(compact_text(year, month, day)),
{
    lemma_date_digits(year, month, day);
}

/// The first day is the second or comes before it.
pub open spec fn day_le(
    year: nat,
    month: nat,
    day: nat,
    other_year: nat,
    other_month: nat,
    other_day: nat,
) -> bool {
    year < other_year || (year == other_year && (month < other_month || (month == other_month
        && day <= other_day)))
}

/// The ten characters of a date in the form `YYYY-MM-DD`.
proof fn lemma_iso_characters(year: nat, month: nat, day: nat)
    requires
        fits_date_form(year, month, day),
    ensures
        iso_text(year, month, day) == seq![
            digit_char(year / 1000),
            digit_char(year / 100 % 10),
            digit_char(year / 10 % 10),
            digit_char(year % 10),
            '-',
            digit_char(month / 10),
            digit_char(month % 10),
            '-',
            digit_char(day / 10),
            digit_char(day % 10),
        ],
{
    reveal_with_fuel(padded_decimal, 5);
    assert(padded_decimal(year, 4) =~= seq![
        digit_char(year / 1000),
        digit_char(year / 100 % 10),
        digit_char(year / 10 % 10),
        digit_char(year % 10),
    ]);
    assert(padded_decimal(month, 2) =~= seq![digit_char(month / 10), digit_char(month % 10)]);
    assert(padded_decimal(day, 2) =~= seq![digit_char(day / 10), digit_char(day % 10)]);
    assert(iso_text(year, month, day) =~= seq![
        digit_char(year / 1000),
        digit_char(year / 100 % 10),
        digit_char(year / 10 % 10),
        digit_char(year % 10),
        '-',
        digit_char(month / 10),
        digit_char(month % 10),
        '-',
        digit_char(day / 10),
        digit_char(day % 10),
    ]);
}

/// The ten bytes of a date in the form `YYYY-MM-DD`.
proof fn lemma_iso_bytes(year: nat, month: nat, day: nat)
    requires
        fits_date_form(year, month, day),
    ensures
        encode_utf8(iso_text(year, month, day)).len() == 10,
        encode_utf8(iso_text(year, month, day))[0] == 48 + year / 1000,
        encode_utf8(iso_text(year, month, day))[1] == 48 + year / 100 % 10,
        encode_utf8(iso_text(year, month, day))[2] == 48 + year / 10 % 10,
        encode_utf8(iso_text(year, month, day))[3] == 48 + year % 10,
        encode_utf8(iso_text(year, month, day))[4] == 45,
        encode_utf8(iso_text(year, month, day))[5] == 48 + month / 10,
        encode_utf8(iso_text(year, month, day))[6] == 48 + month % 10,
        encode_utf8(iso_text(year, month, day))[7] == 45,
        encode_utf8(iso_text(year, month, day))[8] == 48 + day / 10,
        encode_utf8(iso_text(year, month, day))[9] == 48 + day % 10,
{
    let text = iso_text(year, month, day);
    lemma_iso_characters(year, month, day);
    assert(is_ascii_chars(text));
    is_ascii_chars_encode_utf8(text);
    let bytes = encode_utf8(text);
    assert(bytes[0] == text[0] as u8);
    assert(bytes[1] == text[1] as u8);
    assert(bytes[2] == text[2] as u8);
    assert(bytes[3] == text[3] as u8);
    assert(bytes[4] == text[4] as u8);
    assert(bytes[5] == text[5] as u8);
    assert(bytes[6] == text[6] as u8);
    assert(bytes[7] == text[7] as u8);
    assert(bytes[8] == text[8] as u8);
    assert(bytes[9] == text[9] as u8);
}

/// Dates in the form `YYYY-MM-DD` are ordered as strings just as the days
/// are ordered in time: this is why a cutoff can be compared as a string.
pub proof fn lemma_iso_order(
    year: nat,
    month: nat,
    day: nat,
    other_year: nat,
    other_month: nat,
    other_day: nat,
)
    requires
        fits_date_form(year, month, day),
        fits_date_form(other_year, other_month, other_day),
    ensures
        text_le(iso_text(year, month, day), iso_text(other_year, other_month, other_day))
            <==> day_le(year, month, day, other_year, other_month, other_day),
{
    let a = encode_utf8(iso_text(year, month, day));
    let b = encode_utf8(iso_text(other_year, other_month, other_day));
    lemma_iso_bytes(year, month, day);
    lemma_iso_bytes(other_year, other_month, other_day);
    let from10 = bytes_le_from(a, b, 10);
    let from9 = bytes_le_from(a, b, 9);
    let from8 = bytes_le_from(a, b, 8);
    let from7 = bytes_le_from(a, b, 7);
    let from6 = bytes_le_from(a, b, 6);
    let from5 = bytes_le_from(a, b, 5);
    let from4 = bytes_le_from(a, b, 4);
    let from3 = bytes_le_from(a, b, 3);
    let from2 = bytes_le_from(a, b, 2);
    let from1 = bytes_le_from(a, b, 1);
    let from0 = bytes_le_from(a, b, 0);
    assert(from10);
    assert(from9 == if a[9] != b[9] { a[9] < b[9] } else { from10 });
    assert(from8 == if a[8] != b[8] { a[8] < b[8] } else { from9 });
    assert(from7 == from8);
    assert(from6 == if a[6] != b[6] { a[6] < b[6] } else { from7 });
    assert(from5 == if a[5] != b[5] { a[5] < b[5] } else { from6 });
    assert(from4 == from5);
    assert(from3 == if a[3] != b[3] { a[3] < b[3] } else { from4 });
    assert(from2 == if a[2] != b[2] { a[2] < b[2] } else { from3 });
    assert(from1 == if a[1] != b[1] { a[1] < b[1] } else { from2 });
    assert(from0 == if a[0] != b[0] { a[0] < b[0] } else { from1 });
    lemma_two_digits(day, other_day);
    assert(from8 == (day <= other_day));
    lemma_two_digits(month, other_month);
    assert(from5 == (month < other_month || (month == other_month && day <= other_day)));
    lemma_four_digits(year, other_year);
}

/// Numbers below a hundred are ordered as their two digits are.
proof fn lemma_two_digits(n: nat, m: nat)
    requires
        n < 100,
        m < 100,
    ensures
        n / 10 == m / 10 && n % 10 == m % 10 <==> n == m,
        n < m <==> n / 10 < m / 10 || (n / 10 == m / 10 && n % 10 < m % 10),
        n / 10 < 10,
        m / 10 < 10,
{
}

/// Numbers below ten thousand are ordered as their four digits are.
proof fn lemma_four_digits(n: nat, m: nat)
    requires
        n < 10000,
        m < 10000,
    ensures
        n == m <==> n / 1000 == m / 1000 && n / 100 % 10 == m / 100 % 10 && n / 10 % 10 == m / 10
            % 10 && n % 10 == m % 10,
        n < m <==> n / 1000 < m / 1000 || (n / 1000 == m / 1000 && (n / 100 % 10 < m / 100 % 10
            || (n / 100 % 10 == m / 100 % 10 && (n / 10 % 10 < m / 10 % 10 || (n / 10 % 10 == m
            / 10 % 10 && n % 10 < m % 10))))),
        n / 1000 < 10,
        m / 1000 < 10,
{
    lemma_two_digits(n / 100, m / 100);
    lemma_two_digits(n % 100, m % 100);
    assert(n == 100 * (n / 100) + n % 100);
    assert(m == 100 * (m / 100) + m % 100);
    assert(n / 1000 == n / 100 / 10);
    assert(m / 1000 == m / 100 / 10);
    assert(n / 10 % 10 == n % 100 / 10);
    assert(m / 10 % 10 == m % 100 / 10);
    assert(n % 10 == n % 100 % 10);
    assert(m % 10 == m % 100 % 10);
}

impl CalendarDate {
    #[verifier::type_invariant]
    spec fn well_formed(self) -> bool {
        is_calendar_date(self.year as int, self.month as int, self.day as int)
    }

    /// The year, 0 to 9999.
    pub closed spec fn year(self) -> nat {
        self.year as nat
    }

    /// The month, 1 to 12.
    pub closed spec fn month(self) -> nat {
        self.month as nat
    }

    /// The day of the month, 1 to 31.
    pub closed spec fn day(self) -> nat {
        self.day as nat
    }

    /// Year, month and day as numbers; they are always in range.
    pub fn fields(&self) -> (r: (u16, u8, u8))
        ensures
            r.0 == self.year(),
            r.1 == self.month(),
            r.2 == self.day(),
            is_calendar_date(r.0 as int, r.1 as int, r.2 as int),
    {
        proof {
            use_type_invariant(self);
        }
        (self.year, self.month, self.day)
    }

    /// The date of the given numbers, where they can stand for one.
    pub fn new(year: i32, month: u32, day: u32) -> (r: Option<CalendarDate>)
        ensures
            r is Some <==> is_calendar_date(year as int, month as int, day as int),
            r matches Some(d) ==> d.year() == year && d.month() == month && d.day() == day,
    {
        if 0 <= year && year <= 9999 && 1 <= month && month <= 12 && 1 <= day && day <= 31 {
            Some(CalendarDate { year: year as u16, month: month as u8, day: day as u8 })
        } else {
            None
        }
    }

    /// The date as `YYYY-MM-DD`.
    pub fn iso(&self) -> (r: String)
        ensures
            r@ == iso_text(self.year(), self.month(), self.day()),
    {
        let mut out = String::new();
        append_padded_decimal(&mut out, self.year as u32, 4);
        out.append("-");
        append_padded_decimal(&mut out, self.month as u32, 2);
        out.append("-");
        append_padded_decimal(&mut out, self.day as u32, 2);
        proof {
            reveal_strlit("-");
            assert("-"@ =~= seq!['-']);
            assert(out@ =~= iso_text(self.year(), self.month(), self.day()));
        }
        out
    }

    /// The date as `YYYYMMDD`.
    pub fn compact(&self) -> (r: String)
        ensures
            r@ == compact_text(self.year(), self.month(), self.day()),
    {
        let mut out = String::new();
        append_padded_decimal(&mut out, self.year as u32, 4);
        append_padded_decimal(&mut out, self.month as u32, 2);
        append_padded_decimal(&mut out, self.day as u32, 2);
        assert(out@ =~= compact_text(self.year(), self.month(), self.day()));
        out
    }

    /// The date as `DD.MM.YYYY`.
    pub fn dotted(&self) -> (r: String)
        ensures
            r@ == dotted_text(self.year(), self.month(), self.day()),
    {
        let mut out = String::new();
        append_padded_decimal(&mut out, self.day as u32, 2);
        out.append(".");
        append_padded_decimal(&mut out, self.month as u32, 2);
        out.append(".");
        append_padded_decimal(&mut out, self.year as u32, 4);
        proof {
            reveal_strlit(".");
            assert("."@ =~= seq!['.']);
            assert(out@ =~= dotted_text(self.year(), self.month(), self.day()));
        }
        out
    }

    /// The date that the local clock shows, where its year has at most four
    /// digits.
    pub fn today() -> (r: Option<CalendarDate>)
        ensures
            r matches Some(date) ==> is_calendar_date(
                date.year() as int,
                date.month() as int,
                date.day() as int,
            ),
    {
        let (year, month, day) = local_date_fields();
        CalendarDate::new(year, month, day)
    }
}

/// Year, month and day of `chrono::Local::now()`, read with `Datelike`.
/// Claimed: the month is 1 to 12 and the day 1 to 31, as `Datelike` documents
/// them; nothing is claimed of the year.
#[verifier::external_body]
fn local_date_fields() -> (r: (i32, u32, u32))
    ensures
        1 <= r.1 <= 12,
        1 <= r.2 <= 31,
{
    let now = chrono::Local::now();
    (chrono::Datelike::year(&now), chrono::Datelike::month(&now), chrono::Datelike::day(&now))
}

} // verus!
