//! What a run is asked to do: the filters as the user writes them, and the
//! name of the file that the report goes to.

use crate::archive::document_name;
use crate::calendar::{
    compact_text, day_le, dotted_text, fits_date_form, is_calendar_date, iso_text,
    lemma_date_digits, lemma_iso_order, CalendarDate,
};
use crate::record::text_views;
use crate::text::{
    all_digits, append_padded_decimal, chars_of, decimal_value, is_digit, is_digit_char,
    is_digit_run, is_run_of_digits, lemma_decimal_value_bound, lemma_length_before,
    lemma_padded_decimal_of_digits, length_before, occurs_at, padded_decimal, parse_u32,
    parsed_u32, part_at, pow10, same_text, text_le,
};
use vstd::prelude::*;
use vstd::string::StrSliceExecFns;
use vstd::string::StringExecFns;

verus! {

/// The pieces of `s` between the occurrences of `separator`; one more piece
/// than there are separators.
pub open spec fn parts(s: Seq<char>, separator: char) -> Seq<Seq<char>>
    decreases s.len(),
{
    let k = length_before(s, separator) as int;
    if k >= s.len() {
        seq![s]
    } else {
        seq![s.take(k)] + parts(s.skip(k + 1), separator)
    }
}

/// Cuts `s` at every `separator`.
pub fn split_on(s: &str, separator: char) -> (pieces: Vec<String>)
    ensures
        text_views(pieces@) == parts(s@, separator),
{
    let chars = chars_of(s);
    let mut pieces: Vec<String> = Vec::new();
    let mut start: usize = 0;
    assert(s@.skip(0) =~= s@);
    assert(text_views(pieces@) =~= Seq::empty());
    loop
        invariant
            start <= chars.len(),
            chars@ == s@,
            parts(s@, separator) == text_views(pieces@) + parts(s@.skip(start as int), separator),
        decreases chars.len() - start,
    {
        let mut k: usize = start;
        while k < chars.len() && chars[k] != separator
            invariant
                start <= k <= chars.len(),
                forall|j: int| start <= j < k ==> chars@[j] != separator,
            decreases chars.len() - k,
        {
            k += 1;
        }
        let ghost rest = s@.skip(start as int);
        proof {
            lemma_length_before(rest, separator, k - start);
        }
        let piece = s.substring_char(start, k).to_owned();
        assert(piece@ =~= rest.take(k - start));
        let ghost before = text_views(pieces@);
        pieces.push(piece);
        assert(text_views(pieces@) =~= before.push(piece@));
        if k == chars.len() {
            assert(rest.take(k - start) =~= rest);
            assert(text_views(pieces@) =~= before + seq![rest]);
            return pieces;
        }
        assert(rest.skip(k - start + 1) =~= s@.skip(k + 1));
        assert(before + (seq![rest.take(k - start)] + parts(s@.skip(k + 1), separator))
            =~= text_views(pieces@) + parts(s@.skip(k + 1), separator));
        start = k + 1;
    }
}

/// The cutoff that `DD.MM.YYYY` stands for, as `YYYY-MM-DD`: the text must
/// have three pieces between its dots, of two, two and four digits.
pub open spec fn date_filter(s: Seq<char>) -> Option<Seq<char>> {
    let pieces = parts(s, '.');
    if pieces.len() == 3 && is_digit_run(pieces[0], 2) && is_digit_run(pieces[1], 2)
        && is_digit_run(pieces[2], 4) {
        Some(pieces[2] + seq!['-'] + pieces[1] + seq!['-'] + pieces[0])
    } else {
        None
    }
}

/// Year, month and day as the numbers that the pieces of `DD.MM.YYYY` write.
pub open spec fn cutoff_numbers(s: Seq<char>) -> (nat, nat, nat) {
    let pieces = parts(s, '.');
    (decimal_value(pieces[2]), decimal_value(pieces[1]), decimal_value(pieces[0]))
}

/// A cutoff is the `YYYY-MM-DD` of the numbers that its text writes, and
/// these are below ten thousand, a hundred and a hundred.
pub proof fn lemma_cutoff_is_iso(s: Seq<char>)
    requires
        date_filter(s) is Some,
    ensures
        date_filter(s) == Some(
            iso_text(cutoff_numbers(s).0, cutoff_numbers(s).1, cutoff_numbers(s).2),
        ),
        cutoff_numbers(s).0 < 10000,
        cutoff_numbers(s).1 < 100,
        cutoff_numbers(s).2 < 100,
{
    let pieces = parts(s, '.');
    assert(pow10(4) == 10000 && pow10(2) == 100) by {
        reveal_with_fuel(pow10, 5);
    }
    lemma_decimal_value_bound(pieces[0]);
    lemma_decimal_value_bound(pieces[1]);
    lemma_decimal_value_bound(pieces[2]);
    lemma_padded_decimal_of_digits(pieces[0]);
    lemma_padded_decimal_of_digits(pieces[1]);
    lemma_padded_decimal_of_digits(pieces[2]);
}

/// Two cutoffs are ordered as strings just as their days are ordered as
/// numbers, whatever digits they are written with: comparing a date with a
/// cutoff as strings is comparing days.
pub proof fn lemma_cutoff_order(first: Seq<char>, second: Seq<char>)
    requires
        date_filter(first) is Some,
        date_filter(second) is Some,
    ensures
        text_le(date_filter(first)->0, date_filter(second)->0) <==> day_le(
            cutoff_numbers(first).0,
            cutoff_numbers(first).1,
            cutoff_numbers(first).2,
            cutoff_numbers(second).0,
            cutoff_numbers(second).1,
            cutoff_numbers(second).2,
        ),
{
    lemma_cutoff_is_iso(first);
    lemma_cutoff_is_iso(second);
    lemma_iso_order(
        cutoff_numbers(first).0,
        cutoff_numbers(first).1,
        cutoff_numbers(first).2,
        cutoff_numbers(second).0,
        cutoff_numbers(second).1,
        cutoff_numbers(second).2,
    );
}

/// A day written `DD.MM.YYYY` is read as a cutoff, and the cutoff is that
/// day written `YYYY-MM-DD`.
pub proof fn lemma_date_filter_of_day(year: nat, month: nat, day: nat)
    requires
        is_calendar_date(year as int, month as int, day as int),
    ensures
        date_filter(dotted_text(year, month, day)) == Some(iso_text(year, month, day)),
{
    let yyyy = padded_decimal(year, 4);
    let mm = padded_decimal(month, 2);
    let dd = padded_decimal(day, 2);
    let text = dotted_text(year, month, day);
    lemma_date_digits(year, month, day);
    assert(is_digit(dd[0]) && is_digit(dd[1]));
    assert(is_digit(mm[0]) && is_digit(mm[1]));
    assert(is_digit(yyyy[0]) && is_digit(yyyy[1]) && is_digit(yyyy[2]) && is_digit(yyyy[3]));
    assert(text.len() == 10);
    assert(text[0] == dd[0] && text[1] == dd[1] && text[2] == '.');
    lemma_length_before(text, '.', 2);
    assert(text.take(2) =~= dd);
    let rest = text.skip(3);
    assert(rest =~= mm + seq!['.'] + yyyy);
    assert(rest[0] == mm[0] && rest[1] == mm[1] && rest[2] == '.');
    lemma_length_before(rest, '.', 2);
    assert(rest.take(2) =~= mm);
    let last = rest.skip(3);
    assert(last =~= yyyy);
    lemma_length_before(last, '.', 4);
    assert(parts(last, '.') =~= seq![yyyy]);
    assert(parts(rest, '.') =~= seq![mm, yyyy]);
    assert(parts(text, '.') =~= seq![dd, mm, yyyy]);
    assert(iso_text(year, month, day) =~= yyyy + seq!['-'] + mm + seq!['-'] + dd);
}

/// Comparing a date of the form `YYYY-MM-DD` with a cutoff as strings is
/// comparing the two days: the date passes just where its day is the
/// cutoff's day or a later one.
pub proof fn lemma_cutoff_test_is_on_days(cutoff: Seq<char>, year: nat, month: nat, day: nat)
    requires
        date_filter(cutoff) is Some,
        fits_date_form(year, month, day),
    ensures
        text_le(date_filter(cutoff)->0, iso_text(year, month, day)) <==> day_le(
            cutoff_numbers(cutoff).0,
            cutoff_numbers(cutoff).1,
            cutoff_numbers(cutoff).2,
            year,
            month,
            day,
        ),
{
    lemma_cutoff_is_iso(cutoff);
    lemma_iso_order(
        cutoff_numbers(cutoff).0,
        cutoff_numbers(cutoff).1,
        cutoff_numbers(cutoff).2,
        year,
        month,
        day,
    );
}

/// Turns a date written `DD.MM.YYYY` into the `YYYY-MM-DD` that record
/// dates are compared with. Day, month and year must be two, two and four
/// digits; whether the month has that day is not looked at.
pub fn parse_date_filter(date_str: &str) -> (r: Result<String, String>)
    ensures
        match r {
            Ok(cutoff) => date_filter(date_str@) == Some(cutoff@),
            Err(message) => date_filter(date_str@) is None && message@
                == "Date must be in format DD.MM.YYYY"@,
        },
{
    let pieces = split_on(date_str, '.');
    if pieces.len() != 3 {
        return Err("Date must be in format DD.MM.YYYY".to_owned());
    }
    let day = pieces[0].as_str();
    let month = pieces[1].as_str();
    let year = pieces[2].as_str();
    assert(text_views(pieces@)[0] == day@);
    assert(text_views(pieces@)[1] == month@);
    assert(text_views(pieces@)[2] == year@);
    let day_fits = is_run_of_digits(day, 2);
    let month_fits = is_run_of_digits(month, 2);
    let year_fits = is_run_of_digits(year, 4);
    if !day_fits || !month_fits || !year_fits {
        return Err("Date must be in format DD.MM.YYYY".to_owned());
    }
    let mut out = year.to_owned();
    out.append("-");
    out.append(month);
    out.append("-");
    out.append(day);
    proof {
        reveal_strlit("-");
        assert("-"@ =~= seq!['-']);
        assert(out@ =~= year@ + seq!['-'] + month@ + seq!['-'] + day@);
    }
    Ok(out)
}

/// Reads the threshold: an unsigned 32-bit decimal number.
pub fn parse_threshold_filter(threshold_str: &str) -> (r: Result<u32, String>)
    ensures
        match r {
            Ok(threshold) => parsed_u32(threshold_str@) == Some(threshold),
            Err(message) => parsed_u32(threshold_str@) is None && message@
                == "Threshold must be a valid number"@,
        },
{
    match parse_u32(threshold_str) {
        Some(threshold) => Ok(threshold),
        None => Err("Threshold must be a valid number".to_owned()),
    }
}

/// The eight digits that stand in `name` between `prefix` and `suffix`,
/// where the name is made of just these three.
pub open spec fn token_between(name: Seq<char>, prefix: Seq<char>, suffix: Seq<char>) -> Option<
    Seq<char>,
> {
    let from = prefix.len() as int;
    if name.len() == prefix.len() + 8 + suffix.len() && occurs_at(name, prefix, 0) && occurs_at(
        name,
        suffix,
        from + 8,
    ) && all_digits(name.subrange(from, from + 8)) {
        Some(name.subrange(from, from + 8))
    } else {
        None
    }
}

/// The `YYYYMMDD` in the name of a source: the name is `AipsDownload`, eight
/// digits and `.xml`; an underscore may stand before the digits.
pub open spec fn filename_token(name: Seq<char>) -> Option<Seq<char>> {
    match token_between(name, "AipsDownload"@, ".xml"@) {
        Some(token) => Some(token),
        None => token_between(name, "AipsDownload_"@, ".xml"@),
    }
}

/// `YYYYMMDD` turned into `DD.MM.YYYY`.
pub open spec fn dotted_token(token: Seq<char>) -> Seq<char> {
    token.subrange(6, 8) + seq!['.'] + token.subrange(4, 6) + seq!['.'] + token.subrange(0, 4)
}

/// The date that the name of a source carries, as `DD.MM.YYYY`.
pub open spec fn filename_date(name: Seq<char>) -> Option<Seq<char>> {
    match filename_token(name) {
        Some(token) => Some(dotted_token(token)),
        None => None,
    }
}

/// The name under which the document of a day is kept carries that day.
pub proof fn lemma_filename_date_of_document_name(year: nat, month: nat, day: nat)
    requires
        is_calendar_date(year as int, month as int, day as int),
    ensures
        filename_date(document_name(year, month, day)) == Some(dotted_text(year, month, day)),
{
    let prefix = "AipsDownload"@;
    let suffix = ".xml"@;
    let stamp = compact_text(year, month, day);
    let name = document_name(year, month, day);
    lemma_date_digits(year, month, day);
    let yyyy = padded_decimal(year, 4);
    let mm = padded_decimal(month, 2);
    let dd = padded_decimal(day, 2);
    assert(stamp.len() == 8);
    assert forall|i: int| 0 <= i < stamp.len() implies is_digit(#[trigger] stamp[i]) by {
        if i < 4 {
            assert(stamp[i] == yyyy[i]);
        } else if i < 6 {
            assert(stamp[i] == mm[i - 4]);
        } else {
            assert(stamp[i] == dd[i - 6]);
        }
    }
    let from = prefix.len() as int;
    assert(name.subrange(0, from) =~= prefix);
    assert(name.subrange(from, from + 8) =~= stamp);
    assert(name.subrange(from + 8, from + 8 + suffix.len()) =~= suffix);
    assert(token_between(name, prefix, suffix) == Some(stamp));
    assert(stamp.subrange(0, 4) =~= yyyy);
    assert(stamp.subrange(4, 6) =~= mm);
    assert(stamp.subrange(6, 8) =~= dd);
}

/// Where the eight digits start that stand in `chars` between `prefix` and
/// `suffix`.
fn find_token(chars: &Vec<char>, prefix: &str, suffix: &str) -> (r: Option<usize>)
    ensures
        r is Some <==> token_between(chars@, prefix@, suffix@) is Some,
        r matches Some(from) ==> from == prefix@.len() && from + 8 <= chars@.len(),
{
    let before = chars_of(prefix);
    let after = chars_of(suffix);
    if chars.len() < before.len() || chars.len() - before.len() < 8 || chars.len() - before.len()
        - 8 != after.len() {
        return None;
    }
    let from = before.len();
    if !part_at(chars, &before, 0) || !part_at(chars, &after, from + 8) {
        return None;
    }
    let mut i: usize = 0;
    while i < 8
        invariant
            i <= 8,
            from + 8 <= chars.len(),
            from == prefix@.len(),
            forall|j: int| 0 <= j < i ==> is_digit(#[trigger] chars@[from + j]),
        decreases 8 - i,
    {
        let c = chars[from + i];
        if !is_digit_char(c) {
            assert(!is_digit(chars@.subrange(from as int, from + 8)[i as int]));
            return None;
        }
        i += 1;
    }
    assert forall|j: int| 0 <= j < 8 implies is_digit(
        #[trigger] chars@.subrange(from as int, from + 8)[j],
    ) by {
        assert(is_digit(chars@[from + j]));
    }
    Some(from)
}

/// Reads the date out of the name of a source: `AipsDownloadYYYYMMDD.xml`,
/// or the same with an underscore before the digits.
pub fn date_from_filename(filename: &str) -> (r: Option<String>)
    ensures
        r is Some <==> filename_date(filename@) is Some,
        r matches Some(date) ==> filename_date(filename@) == Some(date@),
{
    let chars = chars_of(filename);
    let from = match find_token(&chars, "AipsDownload", ".xml") {
        Some(from) => from,
        None => match find_token(&chars, "AipsDownload_", ".xml") {
            Some(from) => from,
            None => {
                return None;
            },
        },
    };
    assert(from + 8 <= chars.len());
    let ghost token = filename@.subrange(from as int, from + 8);
    assert(filename_token(filename@) == Some(token));
    let mut out = filename.substring_char(from + 6, from + 8).to_owned();
    out.append(".");
    out.append(filename.substring_char(from + 4, from + 6));
    out.append(".");
    out.append(filename.substring_char(from, from + 4));
    proof {
        reveal_strlit(".");
        assert("."@ =~= seq!['.']);
        assert(filename@.subrange(from + 6, from + 8) =~= token.subrange(6, 8));
        assert(filename@.subrange(from + 4, from + 6) =~= token.subrange(4, 6));
        assert(filename@.subrange(from as int, from + 4) =~= token.subrange(0, 4));
        assert(out@ =~= dotted_token(token));
    }
    Some(out)
}

/// The date for the name of the report: the one that the name of the source
/// file carries, else the given day.
pub fn extract_date_from_filename(filename: &str, today: &CalendarDate) -> (r: String)
    ensures
        r@ == match filename_date(filename@) {
            Some(date) => date,
            None => dotted_text(today.year(), today.month(), today.day()),
        },
{
    match date_from_filename(filename) {
        Some(date) => date,
        None => today.dotted(),
    }
}

/// What a run is asked for.
#[derive(Debug, PartialEq, Eq)]
pub struct FilterRequest {
    /// The cutoff as `YYYY-MM-DD`: only records of that day or later count.
    pub since: Option<String>,
    /// Only identifiers above this number count, each once.
    pub larger_threshold: Option<u32>,
    /// Only the records of the current day count, and the report is the
    /// list of their numbers.
    pub today_mode: bool,
}

/// What a `FilterRequest` holds, as sequences.
pub struct FilterRequestView {
    pub since: Option<Seq<char>>,
    pub larger_threshold: Option<u32>,
    pub today_mode: bool,
}

impl View for FilterRequest {
    type V = FilterRequestView;

    open spec fn view(&self) -> FilterRequestView {
        FilterRequestView {
            since: match self.since {
                Some(cutoff) => Some(cutoff@),
                None => None,
            },
            larger_threshold: self.larger_threshold,
            today_mode: self.today_mode,
        }
    }
}

/// The shape of the report.
#[derive(Debug, Clone, Copy, PartialEq, Eq, Structural)]
pub enum Mode {
    Today,
    Larger(u32),
    Default,
}

/// The mode of a request: the day's list where it is asked for, whatever
/// else is; else the threshold where there is one.
pub open spec fn mode_of(request: FilterRequestView) -> Mode {
    if request.today_mode {
        Mode::Today
    } else {
        match request.larger_threshold {
            Some(threshold) => Mode::Larger(threshold),
            None => Mode::Default,
        }
    }
}

impl FilterRequest {
    /// The mode of the request.
    pub fn mode(&self) -> (mode: Mode)
        ensures
            mode == mode_of(self@),
    {
        if self.today_mode {
            Mode::Today
        } else {
            match self.larger_threshold {
                Some(threshold) => Mode::Larger(threshold),
                None => Mode::Default,
            }
        }
    }
}

/// The name of the file that the report goes to; `stamp` is the date
/// as `DD.MM.YYYY`.
pub open spec fn output_name(mode: Mode, stamp: Seq<char>) -> Seq<char> {
    match mode {
        Mode::Today => "today"@,
        Mode::Larger(threshold) => "larger_"@ + padded_decimal(threshold as nat, 1) + "_"@ + stamp
            + ".csv"@,
        Mode::Default => "swissmedicinfo_"@ + stamp + ".csv"@,
    }
}

/// The name of the file that the report of the given mode goes to.
pub fn output_file_name(mode: Mode, stamp: &str) -> (r: String)
    ensures
        r@ == output_name(mode, stamp@),
{
    match mode {
        Mode::Today => "today".to_owned(),
        Mode::Larger(threshold) => {
            let mut out = "larger_".to_owned();
            append_padded_decimal(&mut out, threshold, 1);
            out.append("_");
            out.append(stamp);
            out.append(".csv");
            out
        },
        Mode::Default => {
            let mut out = "swissmedicinfo_".to_owned();
            out.append(stamp);
            out.append(".csv");
            out
        },
    }
}

/// Why the arguments give no request.
#[derive(Debug, Clone, Copy, PartialEq, Eq, Structural)]
pub enum ValidationError {
    /// `--since` is the last argument.
    SinceWithoutDate,
    /// What follows `--since` is no `DD.MM.YYYY`.
    BadDate,
    /// `--larger` is the last argument.
    LargerWithoutNumber,
    /// What follows `--larger` is no number.
    BadThreshold,
}

/// The message of each error.
pub open spec fn validation_text(e: ValidationError) -> Seq<char> {
    match e {
        ValidationError::SinceWithoutDate => "--since requires a date argument"@,
        ValidationError::BadDate => "Date must be in format DD.MM.YYYY"@,
        ValidationError::LargerWithoutNumber => "--larger requires a threshold number"@,
        ValidationError::BadThreshold => "Threshold must be a valid number"@,
    }
}

impl ValidationError {
    /// The message for the user.
    pub fn message(&self) -> (r: String)
        ensures
            r@ == validation_text(*self),
    {
        match self {
            ValidationError::SinceWithoutDate => "--since requires a date argument".to_owned(),
            ValidationError::BadDate => "Date must be in format DD.MM.YYYY".to_owned(),
            ValidationError::LargerWithoutNumber => "--larger requires a threshold number".to_owned(),
            ValidationError::BadThreshold => "Threshold must be a valid number".to_owned(),
        }
    }
}

/// The index of the first argument that is `flag`; the number of arguments
/// where none is.
pub open spec fn first_index(args: Seq<Seq<char>>, flag: Seq<char>) -> int
    decreases args.len(),
{
    if args.len() == 0 || args[0] == flag {
        0
    } else {
        1 + first_index(args.drop_first(), flag)
    }
}

/// `first_index` is the least index that holds the flag, or the length.
pub proof fn lemma_first_index(args: Seq<Seq<char>>, flag: Seq<char>, k: int)
    requires
        0 <= k <= args.len(),
        forall|j: int| 0 <= j < k ==> args[j] != flag,
        k < args.len() ==> args[k] == flag,
    ensures
        first_index(args, flag) == k,
    decreases args.len(),
{
    if k > 0 {
        lemma_first_index(args.drop_first(), flag, k - 1);
    }
}

/// What the arguments say of an option that takes a value.
pub enum Lookup {
    /// The option is not there.
    Absent,
    /// The option is the last argument.
    Unfinished,
    /// The argument that follows the option.
    Value(Seq<char>),
}

/// Looks for `flag` among the arguments, the name of the program and the
/// source included; fewer than three arguments hold no option.
pub open spec fn option_value(args: Seq<Seq<char>>, flag: Seq<char>) -> Lookup {
    let at = first_index(args, flag);
    if args.len() < 3 || at >= args.len() {
        Lookup::Absent
    } else if at + 1 >= args.len() {
        Lookup::Unfinished
    } else {
        Lookup::Value(args[at + 1])
    }
}

/// The request that the arguments make: the cutoff after `--since`, the
/// threshold after `--larger`, the day's list with `--today`. What is wrong
/// with `--since` is reported before what is wrong with `--larger`.
pub open spec fn request_of(args: Seq<Seq<char>>) -> Result<FilterRequestView, ValidationError> {
    let since = match option_value(args, "--since"@) {
        Lookup::Absent => Ok(None),
        Lookup::Unfinished => Err(ValidationError::SinceWithoutDate),
        Lookup::Value(text) => match date_filter(text) {
            Some(cutoff) => Ok(Some(cutoff)),
            None => Err(ValidationError::BadDate),
        },
    };
    let larger = match option_value(args, "--larger"@) {
        Lookup::Absent => Ok(None),
        Lookup::Unfinished => Err(ValidationError::LargerWithoutNumber),
        Lookup::Value(text) => match parsed_u32(text) {
            Some(threshold) => Ok(Some(threshold)),
            None => Err(ValidationError::BadThreshold),
        },
    };
    match (since, larger) {
        (Err(e), _) => Err(e),
        (Ok(_), Err(e)) => Err(e),
        (Ok(cutoff), Ok(threshold)) => Ok(
            FilterRequestView {
                since: cutoff,
                larger_threshold: threshold,
                today_mode: args.contains("--today"@),
            },
        ),
    }
}

/// The index of the first argument that is `flag`, or the number of
/// arguments.
fn find_argument(args: &Vec<String>, flag: &str) -> (at: usize)
    ensures
        at == first_index(text_views(args@), flag@),
        at <= args@.len(),
        at < args@.len() <==> text_views(args@).contains(flag@),
{
    let mut k: usize = 0;
    while k < args.len() && !same_text(args[k].as_str(), flag)
        invariant
            k <= args.len(),
            forall|j: int| 0 <= j < k ==> text_views(args@)[j] != flag@,
        decreases args.len() - k,
    {
        k += 1;
    }
    proof {
        lemma_first_index(text_views(args@), flag@, k as int);
        if k < args.len() {
            assert(text_views(args@)[k as int] == flag@);
        }
    }
    k
}

/// The view of an outcome that holds a request.
pub open spec fn request_outcome(r: Result<FilterRequest, ValidationError>) -> Result<
    FilterRequestView,
    ValidationError,
> {
    match r {
        Ok(request) => Ok(request@),
        Err(e) => Err(e),
    }
}

/// Reads the request out of the arguments of the program; the first is the
/// program's name, the second the source.
pub fn parse_request(args: &Vec<String>) -> (r: Result<FilterRequest, ValidationError>)
    ensures
        request_outcome(r) == request_of(text_views(args@)),
{
    let mut since: Option<String> = None;
    let mut larger_threshold: Option<u32> = None;
    if args.len() >= 3 {
        let at = find_argument(args, "--since");
        if at < args.len() {
            if at + 1 >= args.len() {
                return Err(ValidationError::SinceWithoutDate);
            }
            assert(text_views(args@)[at + 1] == args@[at + 1]@);
            match parse_date_filter(args[at + 1].as_str()) {
                Ok(cutoff) => {
                    since = Some(cutoff);
                },
                Err(_) => {
                    return Err(ValidationError::BadDate);
                },
            }
        }
        let at = find_argument(args, "--larger");
        if at < args.len() {
            if at + 1 >= args.len() {
                return Err(ValidationError::LargerWithoutNumber);
            }
            assert(text_views(args@)[at + 1] == args@[at + 1]@);
            match parse_threshold_filter(args[at + 1].as_str()) {
                Ok(threshold) => {
                    larger_threshold = Some(threshold);
                },
                Err(_) => {
                    return Err(ValidationError::BadThreshold);
                },
            }
        }
    }
    let today_mode = find_argument(args, "--today") < args.len();
    Ok(FilterRequest { since, larger_threshold, today_mode })
}

} // verus!
