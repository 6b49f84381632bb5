//! Helpers on strings: digits and numbers, the order of strings, white
//! space, and looking for one text in another.

use vstd::prelude::*;
use vstd::string::StringExecFns;
use vstd::string::StringSliceAdditionalSpecFns;
use vstd::string::StrSliceExecFns;
use vstd::utf8::*;

verus! {

/// The characters of `s`, in order.
pub fn chars_of(s: &str) -> (v: Vec<char>)
    ensures
        v@ == s@,
{
    let mut v: Vec<char> = Vec::new();
    for c in it: s.chars()
        invariant
            v@ == it.seq().take(it.index() as int),
            it.seq() == s@,
    {
        v.push(c);
    }
    v
}

/// An ASCII decimal digit.
pub open spec fn is_digit(c: char) -> bool {
    '0' <= c <= '9'
}

/// The number that a decimal digit stands for.
pub open spec fn digit_value(c: char) -> nat {
    (c as u32 - '0' as u32) as nat
}

/// The decimal digit of a number below ten.
pub open spec fn digit_char(d: nat) -> char {
    (d + '0' as u32) as u32 as char
}

/// Every character is a decimal digit.
pub open spec fn all_digits(s: Seq<char>) -> bool {
    forall|i: int| 0 <= i < s.len() ==> is_digit(#[trigger] s[i])
}

/// The number written by a run of decimal digits, most significant first.
pub open spec fn decimal_value(digits: Seq<char>) -> nat
    decreases digits.len(),
{
    if digits.len() == 0 {
        0
    } else {
        decimal_value(digits.drop_last()) * 10 + digit_value(digits.last())
    }
}

/// Whether `c` is an ASCII decimal digit.
pub fn is_digit_char(c: char) -> (b: bool)
    ensures
        b == is_digit(c),
{
    '0' <= c && c <= '9'
}

/// Whether every character is an ASCII decimal digit.
pub fn all_digit_chars(s: &Vec<char>) -> (b: bool)
    ensures
        b == all_digits(s@),
{
    let mut i: usize = 0;
    while i < s.len()
        invariant
            i <= s.len(),
            forall|j: int| 0 <= j < i ==> is_digit(#[trigger] s@[j]),
        decreases s.len() - i,
    {
        if !is_digit_char(s[i]) {
            return false;
        }
        i += 1;
    }
    true
}

/// Exactly `n` characters, each a decimal digit.
pub open spec fn is_digit_run(s: Seq<char>, n: nat) -> bool {
    s.len() == n && all_digits(s)
}

/// Whether `s` is made of exactly `n` decimal digits.
pub fn is_run_of_digits(s: &str, n: usize) -> (b: bool)
    ensures
        b == is_digit_run(s@, n as nat),
{
    let chars = chars_of(s);
    chars.len() == n && all_digit_chars(&chars)
}

/// A number in decimal stays at least as large as any of its leading parts.
pub proof fn lemma_decimal_value_prefix(digits: Seq<char>, k: int)
    requires
        0 <= k <= digits.len(),
    ensures
        decimal_value(digits.take(k)) <= decimal_value(digits),
    decreases digits.len(),
{
    if k == digits.len() {
        assert(digits.take(k) == digits);
    } else {
        lemma_decimal_value_prefix(digits.drop_last(), k);
        assert(digits.drop_last().take(k) == digits.take(k));
    }
}

/// The digits that remain once one leading `+` is set aside.
pub open spec fn unsigned_part(s: Seq<char>) -> Seq<char> {
    if s.len() > 0 && s[0] == '+' {
        s.drop_first()
    } else {
        s
    }
}

/// The value of `s` read as an unsigned 32-bit decimal number: an optional
/// `+`, then one or more digits and nothing else, the value within range.
pub open spec fn parsed_u32(s: Seq<char>) -> Option<u32> {
    let digits = unsigned_part(s);
    if digits.len() > 0 && all_digits(digits) && decimal_value(digits) <= u32::MAX {
        Some(decimal_value(digits) as u32)
    } else {
        None
    }
}

/// Reads `s` as an unsigned 32-bit decimal number.
pub fn parse_u32(s: &str) -> (r: Option<u32>)
    ensures
        r == parsed_u32(s@),
{
    let chars = chars_of(s);
    let start: usize = if chars.len() > 0 && chars[0] == '+' {
        1
    } else {
        0
    };
    let ghost digits = unsigned_part(s@);
    assert(digits == chars@.skip(start as int));
    if chars.len() == start {
        return None;
    }
    let mut value: u64 = 0;
    let mut i: usize = start;
    assert(digits.take(0) == Seq::<char>::empty());
    while i < chars.len()
        invariant
            start <= i <= chars.len(),
            digits == chars@.skip(start as int),
            digits == unsigned_part(s@),
            all_digits(digits.take(i - start)),
            value == decimal_value(digits.take(i - start)),
            value <= u32::MAX,
        decreases chars.len() - i,
    {
        let c = chars[i];
        let ghost before = digits.take(i - start);
        let ghost after = digits.take(i - start + 1);
        assert(after.drop_last() == before);
        assert(after.last() == c);
        if !is_digit_char(c) {
            assert(!is_digit(digits[i - start]));
            return None;
        }
        let d: u64 = (c as u32 - '0' as u32) as u64;
        value = value * 10 + d;
        if value > 0xffff_ffff {
            proof {
                lemma_decimal_value_prefix(digits, i - start + 1);
            }
            return None;
        }
        assert forall|j: int| 0 <= j < after.len() implies is_digit(#[trigger] after[j]) by {
            if j < before.len() {
                assert(after[j] == before[j]);
            }
        }
        i += 1;
    }
    assert(digits.take(i - start) == digits);
    Some(value as u32)
}

/// `n` in decimal, with zeros in front until it has at least `width` digits.
pub open spec fn padded_decimal(n: nat, width: nat) -> Seq<char>
    decreases n, width,
{
    if n < 10 && width <= 1 {
        seq![digit_char(n)]
    } else {
        padded_decimal(
            n / 10,
            if width == 0 {
                0
            } else {
                (width - 1) as nat
            },
        ).push(digit_char(n % 10))
    }
}

/// Ten to the power of `k`.
pub open spec fn pow10(k: nat) -> nat
    decreases k,
{
    if k == 0 {
        1
    } else {
        10 * pow10((k - 1) as nat)
    }
}

/// A run of `k` digits writes a number below ten to the power of `k`.
pub proof fn lemma_decimal_value_bound(digits: Seq<char>)
    requires
        all_digits(digits),
    ensures
        decimal_value(digits) < pow10(digits.len()),
    decreases digits.len(),
{
    if digits.len() > 0 {
        let shorter = digits.drop_last();
        assert forall|i: int| 0 <= i < shorter.len() implies is_digit(#[trigger] shorter[i]) by {
            assert(shorter[i] == digits[i]);
        }
        lemma_decimal_value_bound(shorter);
        assert(is_digit(digits[digits.len() - 1]));
    }
}

/// Writing the number of a run of digits with as many digits as the run has
/// gives the run back: padding undoes what reading dropped.
pub proof fn lemma_padded_decimal_of_digits(digits: Seq<char>)
    requires
        all_digits(digits),
        digits.len() >= 1,
    ensures
        padded_decimal(decimal_value(digits), digits.len()) == digits,
    decreases digits.len(),
{
    let shorter = digits.drop_last();
    let last = digits.last();
    assert(is_digit(digits[digits.len() - 1]));
    assert(digit_char(digit_value(last)) == last) by {
        vstd::utf8::char_u32_cast(last, last as u32);
    }
    let n = decimal_value(digits);
    assert(n == decimal_value(shorter) * 10 + digit_value(last));
    assert(n / 10 == decimal_value(shorter) && n % 10 == digit_value(last));
    if digits.len() == 1 {
        assert(shorter.len() == 0);
        assert(decimal_value(shorter) == 0);
        assert(padded_decimal(n, 1) =~= digits);
    } else {
        assert forall|i: int| 0 <= i < shorter.len() implies is_digit(#[trigger] shorter[i]) by {
            assert(shorter[i] == digits[i]);
        }
        lemma_padded_decimal_of_digits(shorter);
        assert(padded_decimal(n, digits.len()) =~= digits);
    }
}

/// A padded number is made of digits, has at least `width` of them and at
/// least one, and has just `width` where the number is below ten to the
/// power of `width`.
pub proof fn lemma_padded_decimal_shape(n: nat, width: nat)
    ensures
        all_digits(padded_decimal(n, width)),
        padded_decimal(n, width).len() >= width,
        padded_decimal(n, width).len() >= 1,
        width >= 1 && n < pow10(width) ==> padded_decimal(n, width).len() == width,
    decreases n, width,
{
    let text = padded_decimal(n, width);
    assert(is_digit(digit_char(n % 10)));
    if n < 10 && width <= 1 {
        assert(text[0] == digit_char(n));
        assert(pow10(1) == 10) by {
            reveal_with_fuel(pow10, 2);
        }
    } else {
        let rest: nat = if width == 0 {
            0
        } else {
            (width - 1) as nat
        };
        lemma_padded_decimal_shape(n / 10, rest);
        let before = padded_decimal(n / 10, rest);
        assert forall|i: int| 0 <= i < text.len() implies is_digit(#[trigger] text[i]) by {
            if i < before.len() {
                assert(text[i] == before[i]);
            }
        }
        if width >= 1 && n < pow10(width) {
            assert(pow10(1) == 10) by {
                reveal_with_fuel(pow10, 2);
            }
            assert(width >= 2);
            assert(pow10(width) == 10 * pow10(rest));
            assert(n / 10 < pow10(rest));
        }
    }
}

/// A text of five digits reads as a number, and that number padded to five
/// digits is the text again.
pub proof fn lemma_five_digits_round_trip(text: Seq<char>)
    requires
        text.len() == 5,
        all_digits(text),
    ensures
        parsed_u32(text) is Some,
        padded_decimal(parsed_u32(text)->0 as nat, 5) == text,
{
    assert(is_digit(text[0]));
    assert(unsigned_part(text) == text);
    lemma_decimal_value_bound(text);
    assert(pow10(5) == 100000) by {
        reveal_with_fuel(pow10, 6);
    }
    lemma_padded_decimal_of_digits(text);
}

/// The one-character text of a digit.
fn digit_text(d: u8) -> (r: &'static str)
    requires
        d < 10,
    ensures
        r@ == seq![digit_char(d as nat)],
{
    proof {
        reveal_strlit("0");
        reveal_strlit("1");
        reveal_strlit("2");
        reveal_strlit("3");
        reveal_strlit("4");
        reveal_strlit("5");
        reveal_strlit("6");
        reveal_strlit("7");
        reveal_strlit("8");
        reveal_strlit("9");
    }
    let r = match d {
        0 => "0",
        1 => "1",
        2 => "2",
        3 => "3",
        4 => "4",
        5 => "5",
        6 => "6",
        7 => "7",
        8 => "8",
        _ => "9",
    };
    assert(r@ =~= seq![digit_char(d as nat)]);
    r
}

/// Appends `n` in decimal to `out`, zero-padded to at least `width` digits.
pub fn append_padded_decimal(out: &mut String, n: u32, width: usize)
    ensures
        final(out)@ == old(out)@ + padded_decimal(n as nat, width as nat),
{
    let mut low_digits: Vec<u8> = Vec::new();
    let mut rest: u32 = n;
    let mut left: usize = width;
    while !(rest < 10 && left <= 1)
        invariant
            forall|j: int| 0 <= j < low_digits.len() ==> low_digits@[j] < 10,
            padded_decimal(n as nat, width as nat) == padded_decimal(rest as nat, left as nat)
                + Seq::new(
                low_digits.len() as nat,
                |j: int| digit_char(low_digits@[low_digits.len() - 1 - j] as nat),
            ),
        decreases rest, left,
    {
        let ghost old_digits = low_digits@;
        let ghost old_rest = rest;
        let ghost old_left = left;
        low_digits.push((rest % 10) as u8);
        rest = rest / 10;
        left = if left == 0 {
            0
        } else {
            left - 1
        };
        assert(padded_decimal(old_rest as nat, old_left as nat) + Seq::new(
            old_digits.len() as nat,
            |j: int| digit_char(old_digits[old_digits.len() - 1 - j] as nat),
        ) =~= padded_decimal(rest as nat, left as nat) + Seq::new(
            low_digits.len() as nat,
            |j: int| digit_char(low_digits@[low_digits.len() - 1 - j] as nat),
        ));
    }
    out.append(digit_text(rest as u8));
    let ghost tail = Seq::new(
        low_digits.len() as nat,
        |j: int| digit_char(low_digits@[low_digits.len() - 1 - j] as nat),
    );
    let mut k: usize = low_digits.len();
    while k > 0
        invariant
            k <= low_digits.len(),
            forall|j: int| 0 <= j < low_digits.len() ==> low_digits@[j] < 10,
            tail == Seq::new(
                low_digits.len() as nat,
                |j: int| digit_char(low_digits@[low_digits.len() - 1 - j] as nat),
            ),
            out@ == old(out)@ + padded_decimal(rest as nat, left as nat) + tail.take(
                low_digits.len() - k,
            ),
        decreases k,
    {
        k -= 1;
        out.append(digit_text(low_digits[k]));
        assert(tail.take(low_digits.len() - k) =~= tail.take(low_digits.len() - k - 1).push(
            digit_char(low_digits@[k as int] as nat),
        ));
    }
    assert(tail.take(low_digits.len() as int) =~= tail);
}

/// `n` in decimal, zero-padded to at least `width` digits.
pub fn padded_decimal_text(n: u32, width: usize) -> (r: String)
    ensures
        r@ == padded_decimal(n as nat, width as nat),
{
    let mut out = String::new();
    append_padded_decimal(&mut out, n, width);
    out
}

/// Dictionary order on byte strings, read from index `i` on: the first byte
/// that differs decides, and a string comes before those that extend it.
pub open spec fn bytes_le_from(a: Seq<u8>, b: Seq<u8>, i: int) -> bool
    decreases a.len() - i,
{
    if i >= a.len() {
        true
    } else if i >= b.len() {
        false
    } else if a[i] != b[i] {
        a[i] < b[i]
    } else {
        bytes_le_from(a, b, i + 1)
    }
}

/// The order of strings: dictionary order on their UTF-8 bytes.
pub open spec fn text_le(a: Seq<char>, b: Seq<char>) -> bool {
    bytes_le_from(encode_utf8(a), encode_utf8(b), 0)
}

/// Every byte string is at most itself.
pub proof fn lemma_bytes_le_reflexive(a: Seq<u8>, i: int)
    requires
        0 <= i,
    ensures
        bytes_le_from(a, a, i),
    decreases a.len() - i,
{
    if i < a.len() {
        lemma_bytes_le_reflexive(a, i + 1);
    }
}

/// Of two byte strings, one is at most the other.
pub proof fn lemma_bytes_le_total(a: Seq<u8>, b: Seq<u8>, i: int)
    requires
        0 <= i,
    ensures
        bytes_le_from(a, b, i) || bytes_le_from(b, a, i),
    decreases a.len() - i,
{
    if i < a.len() && i < b.len() && a[i] == b[i] {
        lemma_bytes_le_total(a, b, i + 1);
    }
}

/// The order of byte strings is transitive.
pub proof fn lemma_bytes_le_transitive(a: Seq<u8>, b: Seq<u8>, c: Seq<u8>, i: int)
    requires
        0 <= i,
        bytes_le_from(a, b, i),
        bytes_le_from(b, c, i),
    ensures
        bytes_le_from(a, c, i),
    decreases a.len() - i,
{
    if i < a.len() && i < b.len() && i < c.len() && a[i] == b[i] && b[i] == c[i] {
        lemma_bytes_le_transitive(a, b, c, i + 1);
    }
}

/// Two byte strings that are each at most the other agree from `i` on.
pub proof fn lemma_bytes_le_antisymmetric(a: Seq<u8>, b: Seq<u8>, i: int)
    requires
        0 <= i <= a.len(),
        i <= b.len(),
        bytes_le_from(a, b, i),
        bytes_le_from(b, a, i),
    ensures
        a.skip(i) == b.skip(i),
    decreases a.len() - i,
{
    if i < a.len() && i < b.len() {
        lemma_bytes_le_antisymmetric(a, b, i + 1);
        assert(a.skip(i) =~= seq![a[i]] + a.skip(i + 1));
        assert(b.skip(i) =~= seq![b[i]] + b.skip(i + 1));
    } else {
        assert(a.skip(i) =~= b.skip(i));
    }
}

/// Every string is at most itself.
pub proof fn lemma_text_le_reflexive(a: Seq<char>)
    ensures
        text_le(a, a),
{
    lemma_bytes_le_reflexive(encode_utf8(a), 0);
}

/// Of two strings, one is at most the other.
pub proof fn lemma_text_le_total(a: Seq<char>, b: Seq<char>)
    ensures
        text_le(a, b) || text_le(b, a),
{
    lemma_bytes_le_total(encode_utf8(a), encode_utf8(b), 0);
}

/// The order of strings is transitive.
pub proof fn lemma_text_le_transitive(a: Seq<char>, b: Seq<char>, c: Seq<char>)
    requires
        text_le(a, b),
        text_le(b, c),
    ensures
        text_le(a, c),
{
    lemma_bytes_le_transitive(encode_utf8(a), encode_utf8(b), encode_utf8(c), 0);
}

/// Two strings that are each at most the other are the same string.
pub proof fn lemma_text_le_antisymmetric(a: Seq<char>, b: Seq<char>)
    requires
        text_le(a, b),
        text_le(b, a),
    ensures
        a == b,
{
    lemma_bytes_le_antisymmetric(encode_utf8(a), encode_utf8(b), 0);
    assert(encode_utf8(a).skip(0) =~= encode_utf8(a));
    assert(encode_utf8(b).skip(0) =~= encode_utf8(b));
    encode_utf8_decode_utf8(a);
    encode_utf8_decode_utf8(b);
}

/// Whether `a` comes before `b` in the order of strings, or equals it.
pub fn text_at_most(a: &str, b: &str) -> (r: bool)
    ensures
        r == text_le(a@, b@),
{
    let x = a.as_bytes();
    let y = b.as_bytes();
    let mut i: usize = 0;
    while i < x.len() && i < y.len() && x[i] == y[i]
        invariant
            i <= x.len(),
            i <= y.len(),
            x@ == encode_utf8(a@),
            y@ == encode_utf8(b@),
            bytes_le_from(x@, y@, 0) == bytes_le_from(x@, y@, i as int),
        decreases x.len() - i,
    {
        i += 1;
    }
    if i >= x.len() {
        true
    } else if i >= y.len() {
        false
    } else {
        x[i] < y[i]
    }
}

/// White space as Unicode defines it.
pub open spec fn is_whitespace(c: char) -> bool {
    let u = c as u32;
    ||| 0x09 <= u <= 0x0d
    ||| u == 0x20
    ||| u == 0x85
    ||| u == 0xa0
    ||| u == 0x1680
    ||| 0x2000 <= u <= 0x200a
    ||| u == 0x2028
    ||| u == 0x2029
    ||| u == 0x202f
    ||| u == 0x205f
    ||| u == 0x3000
}

/// Whether `c` is white space.
pub fn is_whitespace_char(c: char) -> (b: bool)
    ensures
        b == is_whitespace(c),
{
    let u: u32 = c as u32;
    (0x09 <= u && u <= 0x0d) || u == 0x20 || u == 0x85 || u == 0xa0 || u == 0x1680 || (0x2000 <= u
        && u <= 0x200a) || u == 0x2028 || u == 0x2029 || u == 0x202f || u == 0x205f || u == 0x3000
}

/// `s` without the white space at its start.
pub open spec fn without_leading_whitespace(s: Seq<char>) -> Seq<char>
    decreases s.len(),
{
    if s.len() > 0 && is_whitespace(s[0]) {
        without_leading_whitespace(s.drop_first())
    } else {
        s
    }
}

/// `s` without the white space at its end.
pub open spec fn without_trailing_whitespace(s: Seq<char>) -> Seq<char>
    decreases s.len(),
{
    if s.len() > 0 && is_whitespace(s.last()) {
        without_trailing_whitespace(s.drop_last())
    } else {
        s
    }
}

/// `s` without the white space at either end.
pub open spec fn trimmed(s: Seq<char>) -> Seq<char> {
    without_trailing_whitespace(without_leading_whitespace(s))
}

/// The part of `s` that is left when the white space at both ends is taken off.
pub fn trim(s: &str) -> (r: &str)
    ensures
        r@ == trimmed(s@),
{
    let chars = chars_of(s);
    let mut start: usize = 0;
    assert(chars@.skip(0) =~= chars@);
    while start < chars.len() && is_whitespace_char(chars[start])
        invariant
            start <= chars.len(),
            without_leading_whitespace(chars@) == without_leading_whitespace(
                chars@.skip(start as int),
            ),
        decreases chars.len() - start,
    {
        assert(chars@.skip(start as int).drop_first() =~= chars@.skip(start as int + 1));
        start += 1;
    }
    let mut end: usize = chars.len();
    assert(chars@.subrange(start as int, end as int) =~= chars@.skip(start as int));
    while end > start && is_whitespace_char(chars[end - 1])
        invariant
            start <= end <= chars.len(),
            trimmed(chars@) == without_trailing_whitespace(
                chars@.subrange(start as int, end as int),
            ),
        decreases end,
    {
        assert(chars@.subrange(start as int, end as int).drop_last() =~= chars@.subrange(
            start as int,
            end as int - 1,
        ));
        end -= 1;
    }
    s.substring_char(start, end)
}

/// How many characters of `s` stand before the first `stop`; all of them
/// where `s` holds none.
pub open spec fn length_before(s: Seq<char>, stop: char) -> nat
    decreases s.len(),
{
    if s.len() == 0 || s[0] == stop {
        0
    } else {
        1 + length_before(s.drop_first(), stop)
    }
}

/// The part of `s` before the first `stop`; all of `s` where it holds none.
pub open spec fn prefix_before(s: Seq<char>, stop: char) -> Seq<char> {
    s.take(length_before(s, stop) as int)
}

/// `length_before` is the least index that holds `stop`, or the length.
pub proof fn lemma_length_before(s: Seq<char>, stop: char, k: int)
    requires
        0 <= k <= s.len(),
        forall|j: int| 0 <= j < k ==> s[j] != stop,
        k < s.len() ==> s[k] == stop,
    ensures
        length_before(s, stop) == k,
    decreases s.len(),
{
    if k > 0 {
        lemma_length_before(s.drop_first(), stop, k - 1);
    }
}

/// The part of `s` before the first `stop`.
pub fn take_before(s: &str, stop: char) -> (r: &str)
    ensures
        r@ == prefix_before(s@, stop),
{
    let chars = chars_of(s);
    let mut k: usize = 0;
    while k < chars.len() && chars[k] != stop
        invariant
            k <= chars.len(),
            forall|j: int| 0 <= j < k ==> chars@[j] != stop,
        decreases chars.len() - k,
    {
        k += 1;
    }
    proof {
        lemma_length_before(s@, stop, k as int);
    }
    s.substring_char(0, k)
}

/// `s` ends with `suffix`.
pub open spec fn has_suffix(s: Seq<char>, suffix: Seq<char>) -> bool {
    suffix.len() <= s.len() && s.skip(s.len() - suffix.len()) == suffix
}

/// `part` stands in `s` at index `at`.
pub open spec fn occurs_at(s: Seq<char>, part: Seq<char>, at: int) -> bool {
    0 <= at && at + part.len() <= s.len() && s.subrange(at, at + part.len()) == part
}

/// `part` stands somewhere in `s`.
pub open spec fn has_part(s: Seq<char>, part: Seq<char>) -> bool {
    exists|at: int| occurs_at(s, part, at)
}

/// Whether `part` stands in `s` at index `at`.
pub fn part_at(s: &Vec<char>, part: &Vec<char>, at: usize) -> (r: bool)
    ensures
        r == occurs_at(s@, part@, at as int),
{
    if at > s.len() || part.len() > s.len() - at {
        return false;
    }
    let mut j: usize = 0;
    while j < part.len()
        invariant
            j <= part.len(),
            at + part.len() <= s.len(),
            forall|k: int| 0 <= k < j ==> s@[at + k] == part@[k],
        decreases part.len() - j,
    {
        if s[at + j] != part[j] {
            assert(s@.subrange(at as int, at + part.len())[j as int] != part@[j as int]);
            return false;
        }
        j += 1;
    }
    assert(s@.subrange(at as int, at + part.len()) =~= part@);
    true
}

/// Whether `s` ends with `suffix`.
pub fn ends_with(s: &str, suffix: &str) -> (r: bool)
    ensures
        r == has_suffix(s@, suffix@),
{
    let a = chars_of(s);
    let b = chars_of(suffix);
    if b.len() > a.len() {
        return false;
    }
    let r = part_at(&a, &b, a.len() - b.len());
    assert(a@.skip(a.len() - b.len()) =~= a@.subrange(a.len() - b.len(), a.len() as int));
    r
}

/// Whether `part` stands somewhere in `s`.
pub fn contains(s: &str, part: &str) -> (r: bool)
    ensures
        r == has_part(s@, part@),
{
    let a = chars_of(s);
    let b = chars_of(part);
    if b.len() > a.len() {
        return false;
    }
    let last: usize = a.len() - b.len();
    let mut at: usize = 0;
    loop
        invariant
            at <= last,
            last == a.len() - b.len(),
            a@ == s@,
            b@ == part@,
            forall|k: int| 0 <= k < at ==> !occurs_at(a@, b@, k),
        decreases last - at,
    {
        if part_at(&a, &b, at) {
            assert(occurs_at(s@, part@, at as int));
            return true;
        }
        if at == last {
            return false;
        }
        at += 1;
    }
}

/// Whether two byte strings are the same.
pub fn same_bytes(a: &[u8], b: &[u8]) -> (r: bool)
    ensures
        r == (a@ == b@),
{
    if a.len() != b.len() {
        return false;
    }
    let mut i: usize = 0;
    while i < a.len()
        invariant
            i <= a.len(),
            a.len() == b.len(),
            forall|j: int| 0 <= j < i ==> a@[j] == b@[j],
        decreases a.len() - i,
    {
        if a[i] != b[i] {
            return false;
        }
        i += 1;
    }
    assert(a@ =~= b@);
    true
}

/// Whether two texts are the same.
pub fn same_text(a: &str, b: &str) -> (r: bool)
    ensures
        r == (a@ == b@),
{
    proof {
        encode_utf8_decode_utf8(a@);
        encode_utf8_decode_utf8(b@);
    }
    same_bytes(a.as_bytes(), b.as_bytes())
}

} // verus!
