//! Character-level text helpers shared by the reader, the codec and the
//! orchestration layer: padding, truncation, decimal numbers, trimming and
//! searching, each with an exact contract over `Seq<char>`.

use vstd::prelude::*;

verus! {

// ---------------------------------------------------------------------------
// Models
// ---------------------------------------------------------------------------

/// `n` space characters.
pub open spec fn spaces(n: nat) -> Seq<char> {
    Seq::new(n, |i: int| ' ')
}

/// `s` followed by as many spaces as it takes to reach `width` characters;
/// `s` itself when it is already that long.
pub open spec fn pad_right(s: Seq<char>, width: nat) -> Seq<char> {
    if s.len() >= width {
        s
    } else {
        s + spaces((width - s.len()) as nat)
    }
}

/// `s` preceded by as many spaces as it takes to reach `width` characters;
/// `s` itself when it is already that long.
pub open spec fn pad_left(s: Seq<char>, width: nat) -> Seq<char> {
    if s.len() >= width {
        s
    } else {
        spaces((width - s.len()) as nat) + s
    }
}

/// The first `width` characters of `s`, or all of it when it is shorter.
pub open spec fn truncated(s: Seq<char>, width: nat) -> Seq<char> {
    if s.len() <= width {
        s
    } else {
        s.take(width as int)
    }
}

/// The character of a decimal digit `d`, `0 <= d <= 9`.
pub open spec fn digit_char(d: nat) -> char {
    (('0' as u8) + d) as u8 as char
}

/// The decimal numeral of `n`, without sign or leading zeros.
pub open spec fn decimal(n: nat) -> Seq<char>
    decreases n,
{
    if n < 10 {
        seq![digit_char(n)]
    } else {
        decimal(n / 10).push(digit_char(n % 10))
    }
}

/// Whether `c` is one of the ten ASCII decimal digits.
pub open spec fn is_digit(c: char) -> bool {
    '0' <= c && c <= '9'
}

/// The value of the decimal digit `c`.
pub open spec fn digit_value(c: char) -> nat
    recommends
        is_digit(c),
{
    ((c as u32) - ('0' as u32)) as nat
}

/// Whether every character of `s` is a decimal digit.
pub open spec fn all_digits(s: Seq<char>) -> bool {
    forall|i: int| 0 <= i < s.len() ==> is_digit(#[trigger] s[i])
}

/// The number that the digit string `s` denotes (leading zeros allowed).
pub open spec fn digits_value(s: Seq<char>) -> nat
    decreases s.len(),
{
    if s.len() == 0 {
        0
    } else {
        10 * digits_value(s.drop_last()) + digit_value(s.last())
    }
}

/// Why a text is not a number that fits.
#[derive(Clone, Copy, Debug, PartialEq, Eq, Structural)]
pub enum ParseNumberError {
    /// The text is empty.
    Empty,
    /// The text holds something that is no digit, or a sign alone.
    InvalidDigit,
    /// The number is larger than the largest that fits.
    Overflow,
}

/// The number that `digits` writes, read from the left: the first
/// character that is no digit, or with which the number passes `max`, makes
/// the error.
pub open spec fn scanned_number(digits: Seq<char>, max: nat) -> Result<nat, ParseNumberError>
    decreases digits.len(),
{
    if digits.len() == 0 {
        Ok(0)
    } else {
        match scanned_number(digits.drop_last(), max) {
            Err(e) => Err(e),
            Ok(value) => if !is_digit(digits.last()) {
                Err(ParseNumberError::InvalidDigit)
            } else if 10 * value + digit_value(digits.last()) > max {
                Err(ParseNumberError::Overflow)
            } else {
                Ok(10 * value + digit_value(digits.last()))
            },
        }
    }
}

/// The unsigned number that `text` writes in decimal, a plus sign allowed
/// before it, as the standard library reads a number no larger than `max`.
pub open spec fn parsed_number(text: Seq<char>, max: nat) -> Result<nat, ParseNumberError> {
    if text.len() == 0 {
        Err(ParseNumberError::Empty)
    } else if text.len() == 1 && (text[0] == '+' || text[0] == '-') {
        Err(ParseNumberError::InvalidDigit)
    } else if text[0] == '+' {
        scanned_number(text.drop_first(), max)
    } else {
        scanned_number(text, max)
    }
}

/// Whether the standard library counts a character beyond ASCII as white
/// space (the Unicode property `White_Space`).
pub uninterp spec fn is_wide_white_space(c: char) -> bool;

/// Whether the standard library counts `c` as white space (the Unicode
/// property `White_Space`): of the ASCII characters the space and the five
/// from the tabulator to the carriage return, and beyond ASCII what
/// [`is_wide_white_space`] names.
pub open spec fn is_white_space(c: char) -> bool {
    if (c as u32) < 0x80 {
        c == ' ' || (0x09 <= (c as u32) && (c as u32) <= 0x0D)
    } else {
        is_wide_white_space(c)
    }
}

/// `s` without its leading white space.
pub open spec fn strip_leading(s: Seq<char>) -> Seq<char>
    decreases s.len(),
{
    if s.len() > 0 && is_white_space(s[0]) {
        strip_leading(s.drop_first())
    } else {
        s
    }
}

/// `s` without its trailing white space.
pub open spec fn strip_trailing(s: Seq<char>) -> Seq<char>
    decreases s.len(),
{
    if s.len() > 0 && is_white_space(s.last()) {
        strip_trailing(s.drop_last())
    } else {
        s
    }
}

/// `s` without its leading and trailing white space.
pub open spec fn trimmed(s: Seq<char>) -> Seq<char> {
    strip_trailing(strip_leading(s))
}

/// The texts that a sequence of strings holds.
pub open spec fn texts_of(strings: Seq<String>) -> Seq<Seq<char>> {
    strings.map_values(|s: String| s@)
}

/// Whether `pattern` occurs in `s` at position `at`.
pub open spec fn occurs_at(s: Seq<char>, pattern: Seq<char>, at: int) -> bool {
    0 <= at && at + pattern.len() <= s.len() && s.subrange(at, at + pattern.len()) == pattern
}

/// Whether `at` is the first position at or after `from` where `pattern`
/// occurs in `s`.
pub open spec fn first_occurrence(s: Seq<char>, pattern: Seq<char>, from: int, at: int) -> bool {
    &&& from <= at
    &&& occurs_at(s, pattern, at)
    &&& forall|k: int| from <= k < at ==> !occurs_at(s, pattern, k)
}

/// Whether `pattern` occurs nowhere in `s` at or after `from`.
pub open spec fn no_occurrence(s: Seq<char>, pattern: Seq<char>, from: int) -> bool {
    forall|k: int| from <= k ==> !occurs_at(s, pattern, k)
}

/// `c` with an ASCII capital letter replaced by its small letter.
pub open spec fn ascii_lower(c: char) -> char {
    if 'A' <= c && c <= 'Z' {
        ((c as u8) + 32) as u8 as char
    } else {
        c
    }
}

/// `s` with every ASCII capital letter replaced by its small letter.
pub open spec fn ascii_lowercase(s: Seq<char>) -> Seq<char> {
    Seq::new(s.len(), |i: int| ascii_lower(s[i]))
}

/// Equality of two texts up to the case of ASCII letters.
pub open spec fn eq_ignoring_ascii_case(a: Seq<char>, b: Seq<char>) -> bool {
    ascii_lowercase(a) == ascii_lowercase(b)
}

// ---------------------------------------------------------------------------
// Trusted wrappers of the standard library
// ---------------------------------------------------------------------------

/// Appends one character to a string.
///
/// Trusted: `String::push` of the standard library appends exactly the given
/// character and changes nothing else.
#[verifier::external_body]
pub(crate) fn push_char(s: &mut String, c: char)
    ensures
        final(s)@ == old(s)@.push(c),
{
    s.push(c);
}

/// Whether a character is white space.
///
/// Trusted: `char::is_whitespace` of the standard library decides the Unicode
/// property `White_Space`. Of the ASCII characters it holds of the space and
/// of U+0009 to U+000D and of no other; beyond ASCII the library knows it
/// only by the name [`is_wide_white_space`].
#[verifier::external_body]
pub(crate) fn char_is_white_space(c: char) -> (b: bool)
    ensures
        b == is_white_space(c),
        (c as u32) < 0x80 ==> b == (c == ' ' || (0x09 <= (c as u32) && (c as u32) <= 0x0D)),
        (c as u32) >= 0x80 ==> b == is_wide_white_space(c),
{
    c.is_whitespace()
}

// ---------------------------------------------------------------------------
// Verified helpers
// ---------------------------------------------------------------------------

/// The characters of a string, in order.
pub fn chars_of(s: &str) -> (v: Vec<char>)
    ensures
        v@ == s@,
{
    let mut v: Vec<char> = Vec::new();
    for c in it: s.chars()
        invariant
            it.seq() == s@,
            v@ == it.seq().take(it.index() as int),
    {
        assert(it.seq().take(it.index() + 1) == it.seq().take(it.index() as int).push(c));
        v.push(c);
    }
    assert(s@.take(s@.len() as int) == s@);
    v
}

/// The string made of the characters `chars[from..to]`.
pub fn string_of_range(chars: &Vec<char>, from: usize, to: usize) -> (s: String)
    requires
        from <= to <= chars.len(),
    ensures
        s@ == chars@.subrange(from as int, to as int),
{
    let mut s = String::new();
    let mut i: usize = from;
    while i < to
        invariant
            from <= i <= to <= chars.len(),
            s@ == chars@.subrange(from as int, i as int),
        decreases to - i,
    {
        push_char(&mut s, chars[i]);
        i += 1;
        assert(chars@.subrange(from as int, i as int) == chars@.subrange(
            from as int,
            i as int - 1,
        ).push(chars@[i as int - 1]));
    }
    s
}

/// A string that holds `text`.
pub fn string_from(text: &str) -> (s: String)
    ensures
        s@ == text@,
{
    let mut s = String::new();
    s.append(text);
    assert(s@ =~= text@);
    s
}

/// The string made of all of `chars`.
pub fn string_of(chars: &Vec<char>) -> (s: String)
    ensures
        s@ == chars@,
{
    let s = string_of_range(chars, 0, chars.len());
    assert(chars@.subrange(0, chars.len() as int) == chars@);
    s
}

/// Appends `n` spaces to `s`.
pub fn push_spaces(s: &mut String, n: usize)
    ensures
        final(s)@ == old(s)@ + spaces(n as nat),
{
    let mut i: usize = 0;
    assert(s@ == old(s)@ + spaces(0));
    while i < n
        invariant
            i <= n,
            s@ == old(s)@ + spaces(i as nat),
        decreases n - i,
    {
        push_char(s, ' ');
        i += 1;
        assert(spaces(i as nat) == spaces((i - 1) as nat).push(' '));
        assert(s@ == old(s)@ + spaces(i as nat));
    }
}

/// Appends `text` to `s`, then spaces up to `width` characters in all.
pub fn push_padded_right(s: &mut String, text: &str, width: usize)
    ensures
        final(s)@ == old(s)@ + pad_right(text@, width as nat),
{
    let n = text.unicode_len();
    s.append(text);
    if n < width {
        push_spaces(s, width - n);
        assert(s@ == old(s)@ + (text@ + spaces((width - n) as nat)));
    }
}

/// Appends spaces and then `text` to `s`, `width` characters in all when
/// `text` is shorter than that.
pub fn push_padded_left(s: &mut String, text: &str, width: usize)
    ensures
        final(s)@ == old(s)@ + pad_left(text@, width as nat),
{
    let n = text.unicode_len();
    if n < width {
        push_spaces(s, width - n);
    }
    s.append(text);
    if n < width {
        assert(s@ == old(s)@ + (spaces((width - n) as nat) + text@));
    }
}

/// Appends the decimal numeral of `n` to `s`.
pub fn push_decimal(s: &mut String, n: u128)
    ensures
        final(s)@ == old(s)@ + decimal(n as nat),
    decreases n,
{
    if n >= 10 {
        push_decimal(s, n / 10);
    }
    let d: u8 = (n % 10) as u8;
    push_char(s, (48u8 + d) as char);
    if n >= 10 {
        assert(s@ == old(s)@ + decimal(n as nat / 10).push(digit_char(n as nat % 10)));
    } else {
        assert(s@ == old(s)@ + seq![digit_char(n as nat)]);
    }
}

/// The decimal numeral of `n`.
pub fn decimal_string(n: u128) -> (s: String)
    ensures
        s@ == decimal(n as nat),
{
    let mut s = String::new();
    push_decimal(&mut s, n);
    assert(Seq::<char>::empty() + decimal(n as nat) == decimal(n as nat));
    s
}

/// Appends the decimal numeral of `n`, right-aligned in `width` characters.
pub fn push_decimal_right(s: &mut String, n: u128, width: usize)
    ensures
        final(s)@ == old(s)@ + pad_left(decimal(n as nat), width as nat),
{
    let numeral = decimal_string(n);
    push_padded_left(s, numeral.as_str(), width);
}

/// The first `width` characters of `text`.
pub fn take_chars(text: &str, width: usize) -> (out: String)
    ensures
        out@ == truncated(text@, width as nat),
{
    let chars = chars_of(text);
    if chars.len() <= width {
        string_of(&chars)
    } else {
        let out = string_of_range(&chars, 0, width);
        out
    }
}

/// Position of the first character of `chars[from..to]` that is not white
/// space, or `to` when there is none.
fn skip_white(chars: &Vec<char>, from: usize, to: usize) -> (at: usize)
    requires
        from <= to <= chars.len(),
    ensures
        from <= at <= to,
        chars@.subrange(at as int, to as int) == strip_leading(
            chars@.subrange(from as int, to as int),
        ),
{
    let mut i: usize = from;
    while i < to && char_is_white_space(chars[i])
        invariant
            from <= i <= to <= chars.len(),
            strip_leading(chars@.subrange(from as int, to as int)) == strip_leading(
                chars@.subrange(i as int, to as int),
            ),
        decreases to - i,
    {
        assert(chars@.subrange(i as int, to as int).drop_first() == chars@.subrange(
            i as int + 1,
            to as int,
        ));
        i += 1;
    }
    i
}

/// One past the last character of `chars[from..to]` that is not white space,
/// or `from` when there is none.
fn skip_white_back(chars: &Vec<char>, from: usize, to: usize) -> (at: usize)
    requires
        from <= to <= chars.len(),
    ensures
        from <= at <= to,
        chars@.subrange(from as int, at as int) == strip_trailing(
            chars@.subrange(from as int, to as int),
        ),
{
    let mut i: usize = to;
    while i > from && char_is_white_space(chars[i - 1])
        invariant
            from <= i <= to <= chars.len(),
            strip_trailing(chars@.subrange(from as int, to as int)) == strip_trailing(
                chars@.subrange(from as int, i as int),
            ),
        decreases i - from,
    {
        assert(chars@.subrange(from as int, i as int).drop_last() == chars@.subrange(
            from as int,
            i as int - 1,
        ));
        i -= 1;
    }
    i
}

/// The bounds of `chars[from..to]` without leading and trailing white space.
pub fn trim_range(chars: &Vec<char>, from: usize, to: usize) -> (r: (usize, usize))
    requires
        from <= to <= chars.len(),
    ensures
        from <= r.0 <= r.1 <= to,
        chars@.subrange(r.0 as int, r.1 as int) == trimmed(chars@.subrange(from as int, to as int)),
{
    let start = skip_white(chars, from, to);
    let end = skip_white_back(chars, start, to);
    (start, end)
}

/// `text` without its leading and trailing white space.
pub fn trim(text: &str) -> (out: String)
    ensures
        out@ == trimmed(text@),
{
    let chars = chars_of(text);
    assert(chars@.subrange(0, chars.len() as int) == chars@);
    let (start, end) = trim_range(&chars, 0, chars.len());
    string_of_range(&chars, start, end)
}

/// Whether two character vectors hold the same characters.
pub fn chars_equal(a: &Vec<char>, b: &Vec<char>) -> (same: bool)
    ensures
        same == (a@ == b@),
{
    if a.len() != b.len() {
        return false;
    }
    let mut i: usize = 0;
    while i < a.len()
        invariant
            i <= a.len(),
            a.len() == b.len(),
            a@.take(i as int) == b@.take(i as int),
        decreases a.len() - i,
    {
        if a[i] != b[i] {
            return false;
        }
        i += 1;
        assert(a@.take(i as int) == a@.take(i as int - 1).push(a@[i as int - 1]));
        assert(b@.take(i as int) == b@.take(i as int - 1).push(b@[i as int - 1]));
    }
    assert(a@.take(a.len() as int) == a@);
    assert(b@.take(b.len() as int) == b@);
    true
}

/// Whether two texts hold the same characters.
pub fn str_equal(a: &str, b: &str) -> (same: bool)
    ensures
        same == (a@ == b@),
{
    let ca = chars_of(a);
    let cb = chars_of(b);
    chars_equal(&ca, &cb)
}

/// Whether `pattern` stands in `chars` at position `at`.
pub fn matches_at(chars: &Vec<char>, pattern: &Vec<char>, at: usize) -> (found: bool)
    ensures
        found == occurs_at(chars@, pattern@, at as int),
{
    if pattern.len() > chars.len() || at > chars.len() - pattern.len() {
        return false;
    }
    let mut i: usize = 0;
    while i < pattern.len()
        invariant
            i <= pattern.len(),
            at + pattern.len() <= chars.len(),
            chars@.subrange(at as int, at + i) == pattern@.take(i as int),
        decreases pattern.len() - i,
    {
        if chars[at + i] != pattern[i] {
            assert(chars@.subrange(at as int, at + pattern.len())[i as int] != pattern@[i as int]);
            return false;
        }
        i += 1;
        assert(chars@.subrange(at as int, at + i) == chars@.subrange(at as int, at + i - 1).push(
            chars@[at + i - 1],
        ));
        assert(pattern@.take(i as int) == pattern@.take(i as int - 1).push(pattern@[i as int - 1]));
    }
    assert(pattern@.take(pattern.len() as int) == pattern@);
    true
}

/// Position of the first occurrence of `pattern` in `chars` at or after
/// `from`, if there is one.
pub fn find_from(chars: &Vec<char>, pattern: &Vec<char>, from: usize) -> (r: Option<usize>)
    ensures
        match r {
            Some(at) => first_occurrence(chars@, pattern@, from as int, at as int),
            None => no_occurrence(chars@, pattern@, from as int),
        },
{
    let mut i: usize = from;
    while i <= chars.len()
        invariant
            from <= i,
            forall|k: int| from <= k < i ==> !occurs_at(chars@, pattern@, k),
        decreases chars.len() + 1 - i,
    {
        if matches_at(chars, pattern, i) {
            return Some(i);
        }
        if i == chars.len() {
            return None;
        }
        i += 1;
    }
    None
}

/// The small letter of an ASCII capital letter; any other character as it is.
pub fn to_ascii_lower(c: char) -> (out: char)
    ensures
        out == ascii_lower(c),
{
    if 'A' <= c && c <= 'Z' {
        ((c as u8) + 32) as char
    } else {
        c
    }
}

/// The characters of `text`, ASCII capital letters made small.
pub fn lowercase_chars(text: &str) -> (out: Vec<char>)
    ensures
        out@ == ascii_lowercase(text@),
{
    let chars = chars_of(text);
    let mut out: Vec<char> = Vec::new();
    let mut i: usize = 0;
    while i < chars.len()
        invariant
            i <= chars.len(),
            chars@ == text@,
            out@ == ascii_lowercase(chars@.take(i as int)),
        decreases chars.len() - i,
    {
        out.push(to_ascii_lower(chars[i]));
        i += 1;
        assert(ascii_lowercase(chars@.take(i as int)) == ascii_lowercase(
            chars@.take(i as int - 1),
        ).push(ascii_lower(chars@[i as int - 1])));
    }
    assert(chars@.take(chars.len() as int) == chars@);
    out
}

/// Whether two texts are equal up to the case of ASCII letters.
pub fn eq_ignore_ascii_case(a: &str, b: &str) -> (same: bool)
    ensures
        same == eq_ignoring_ascii_case(a@, b@),
{
    let la = lowercase_chars(a);
    let lb = lowercase_chars(b);
    chars_equal(&la, &lb)
}

/// Reads the characters `chars[from..]` as a number no larger than `max`.
fn scan_number(chars: &Vec<char>, from: usize, max: u64) -> (r: Result<u64, ParseNumberError>)
    requires
        from <= chars.len(),
    ensures
        match r {
            Ok(value) => scanned_number(chars@.skip(from as int), max as nat) == Ok::<
                nat,
                ParseNumberError,
            >(value as nat),
            Err(e) => scanned_number(chars@.skip(from as int), max as nat) == Err::<
                nat,
                ParseNumberError,
            >(e),
        },
{
    let ghost digits = chars@.skip(from as int);
    let mut value: u64 = 0;
    let mut i: usize = from;
    while i < chars.len()
        invariant
            from <= i <= chars.len(),
            digits == chars@.skip(from as int),
            value <= max,
            scanned_number(digits.take(i - from), max as nat) == Ok::<nat, ParseNumberError>(
                value as nat,
            ),
        decreases chars.len() - i,
    {
        let c = chars[i];
        proof {
            assert(digits.take(i - from + 1).drop_last() == digits.take(i - from));
            assert(digits.take(i - from + 1).last() == c);
        }
        if !('0' <= c && c <= '9') {
            proof {
                lemma_scan_error_stays(digits, i - from + 1, max as nat);
            }
            return Err(ParseNumberError::InvalidDigit);
        }
        let d: u64 = ((c as u32) - ('0' as u32)) as u64;
        if d > max || value > (max - d) / 10 {
            proof {
                lemma_scan_error_stays(digits, i - from + 1, max as nat);
            }
            return Err(ParseNumberError::Overflow);
        }
        value = 10 * value + d;
        i += 1;
    }
    assert(digits.take(chars.len() - from) == digits);
    Ok(value)
}

/// An error among the first characters is the error of the whole.
pub proof fn lemma_scan_error_stays(digits: Seq<char>, upto: int, max: nat)
    requires
        0 <= upto <= digits.len(),
        scanned_number(digits.take(upto), max) is Err,
    ensures
        scanned_number(digits, max) == scanned_number(digits.take(upto), max),
    decreases digits.len() - upto,
{
    if upto < digits.len() {
        assert(digits.take(upto + 1).drop_last() == digits.take(upto));
        lemma_scan_error_stays(digits, upto + 1, max);
    } else {
        assert(digits.take(upto) == digits);
    }
}

/// Reads `text` as an unsigned decimal number no larger than `max`, as the
/// standard library reads the text of an unsigned integer: digits only, a
/// plus sign allowed before them.
pub fn parse_number(text: &str, max: u64) -> (r: Result<u64, ParseNumberError>)
    ensures
        match r {
            Ok(value) => parsed_number(text@, max as nat) == Ok::<nat, ParseNumberError>(
                value as nat,
            ),
            Err(e) => parsed_number(text@, max as nat) == Err::<nat, ParseNumberError>(e),
        },
{
    let chars = chars_of(text);
    if chars.len() == 0 {
        return Err(ParseNumberError::Empty);
    }
    if chars.len() == 1 && (chars[0] == '+' || chars[0] == '-') {
        return Err(ParseNumberError::InvalidDigit);
    }
    if chars[0] == '+' {
        assert(chars@.skip(1) == text@.drop_first());
        scan_number(&chars, 1, max)
    } else {
        assert(chars@.skip(0) == text@);
        scan_number(&chars, 0, max)
    }
}

/// What the standard library says of a number that it could not read.
pub fn parse_error_text(e: ParseNumberError) -> (text: &'static str)
    ensures
        text@ == parse_error_message(e),
{
    match e {
        ParseNumberError::Empty => "cannot parse integer from empty string",
        ParseNumberError::InvalidDigit => "invalid digit found in string",
        ParseNumberError::Overflow => "number too large to fit in target type",
    }
}

/// What the standard library says of a number that it could not read.
pub open spec fn parse_error_message(e: ParseNumberError) -> Seq<char> {
    match e {
        ParseNumberError::Empty => "cannot parse integer from empty string"@,
        ParseNumberError::InvalidDigit => "invalid digit found in string"@,
        ParseNumberError::Overflow => "number too large to fit in target type"@,
    }
}

// ---------------------------------------------------------------------------
// Order of texts
// ---------------------------------------------------------------------------

/// Whether `a` stands before `b` in the order of strings: at the first
/// place where they differ `a` has the smaller character, or `a` ends there
/// and `b` goes on.
pub open spec fn text_before(a: Seq<char>, b: Seq<char>) -> bool
    decreases a.len(),
{
    if b.len() == 0 {
        false
    } else if a.len() == 0 {
        true
    } else if a[0] != b[0] {
        a[0] < b[0]
    } else {
        text_before(a.drop_first(), b.drop_first())
    }
}

/// No text stands before itself.
pub proof fn lemma_text_before_irreflexive(a: Seq<char>)
    ensures
        !text_before(a, a),
    decreases a.len(),
{
    if a.len() > 0 {
        lemma_text_before_irreflexive(a.drop_first());
    }
}

/// What stands before a text stands before all that the text stands before.
pub proof fn lemma_text_before_transitive(a: Seq<char>, b: Seq<char>, c: Seq<char>)
    requires
        text_before(a, b),
        text_before(b, c),
    ensures
        text_before(a, c),
    decreases a.len(),
{
    if a.len() > 0 && a[0] == b[0] && b[0] == c[0] {
        lemma_text_before_transitive(a.drop_first(), b.drop_first(), c.drop_first());
    }
}

/// Of two different texts one stands before the other.
pub proof fn lemma_text_before_total(a: Seq<char>, b: Seq<char>)
    ensures
        a == b || text_before(a, b) || text_before(b, a),
    decreases a.len(),
{
    if a.len() > 0 && b.len() > 0 && a[0] == b[0] {
        lemma_text_before_total(a.drop_first(), b.drop_first());
        if a.drop_first() == b.drop_first() {
            assert(a =~= seq![a[0]] + a.drop_first());
            assert(b =~= seq![b[0]] + b.drop_first());
        }
    } else if a.len() == 0 && b.len() == 0 {
        assert(a =~= b);
    }
}

/// How two texts stand in the order of strings: -1 where `a` stands before
/// `b`, 0 where they are equal, 1 where `b` stands before `a`.
pub fn order_of_texts(a: &Vec<char>, b: &Vec<char>) -> (r: i8)
    ensures
        r == -1 <==> text_before(a@, b@),
        r == 0 <==> a@ == b@,
        r == 1 <==> text_before(b@, a@),
        -1 <= r <= 1,
{
    let mut i: usize = 0;
    proof {
        lemma_text_before_total(a@, b@);
        lemma_text_before_irreflexive(a@);
        if text_before(a@, b@) && text_before(b@, a@) {
            lemma_text_before_transitive(a@, b@, a@);
        }
        assert(a@.skip(0) == a@);
        assert(b@.skip(0) == b@);
    }
    while i < a.len() && i < b.len()
        invariant
            i <= a.len(),
            i <= b.len(),
            text_before(a@, b@) == text_before(a@.skip(i as int), b@.skip(i as int)),
            text_before(b@, a@) == text_before(b@.skip(i as int), a@.skip(i as int)),
            a@ == b@ || text_before(a@, b@) || text_before(b@, a@),
            !(text_before(a@, b@) && text_before(b@, a@)),
            a@ == b@ ==> !text_before(a@, b@),
        decreases a.len() - i,
    {
        if a[i] < b[i] {
            return -1;
        }
        if a[i] > b[i] {
            return 1;
        }
        proof {
            assert(a@.skip(i as int).drop_first() == a@.skip(i as int + 1));
            assert(b@.skip(i as int).drop_first() == b@.skip(i as int + 1));
        }
        i += 1;
    }
    if i < b.len() {
        -1
    } else if i < a.len() {
        1
    } else {
        0
    }
}

/// Whether `texts` rise strictly in the order of strings: sorted, and no
/// text twice.
pub open spec fn strictly_sorted(texts: Seq<Seq<char>>) -> bool {
    forall|i: int, j: int|
        0 <= i < j < texts.len() ==> text_before(#[trigger] texts[i], #[trigger] texts[j])
}

/// Whether `sorted` holds the texts of `items`, each once, in the order of
/// strings.
pub open spec fn is_sorted_set(sorted: Seq<Seq<char>>, items: Seq<Seq<char>>) -> bool {
    &&& strictly_sorted(sorted)
    &&& forall|t: Seq<char>| #[trigger] sorted.contains(t) <==> items.contains(t)
}

/// The texts of `items`, each once, in the order of strings.
pub open spec fn sorted_set(items: Seq<Seq<char>>) -> Seq<Seq<char>> {
    choose|sorted: Seq<Seq<char>>| is_sorted_set(sorted, items)
}

/// Two strictly sorted sequences that hold the same texts are the same.
pub proof fn lemma_strictly_sorted_unique(a: Seq<Seq<char>>, b: Seq<Seq<char>>)
    requires
        strictly_sorted(a),
        strictly_sorted(b),
        forall|t: Seq<char>| #[trigger] a.contains(t) <==> b.contains(t),
    ensures
        a == b,
    decreases a.len(),
{
    if a.len() == 0 {
        if b.len() > 0 {
            assert(b.contains(b[0]));
            assert(a.contains(b[0]));
        }
        assert(a =~= b);
    } else {
        assert(a.contains(a[0]));
        assert(b.contains(a[0]));
        let j = choose|j: int| 0 <= j < b.len() && b[j] == a[0];
        if j > 0 {
            assert(text_before(b[0], b[j]));
            assert(b.contains(b[0]));
            assert(a.contains(b[0]));
            let i = choose|i: int| 0 <= i < a.len() && a[i] == b[0];
            if i == 0 {
                lemma_text_before_irreflexive(a[0]);
            } else {
                assert(text_before(a[0], a[i]));
                lemma_text_before_transitive(a[0], b[0], a[0]);
                lemma_text_before_irreflexive(a[0]);
            }
        }
        assert(b[0] == a[0]);
        let ta = a.drop_first();
        let tb = b.drop_first();
        assert forall|t: Seq<char>| #[trigger] ta.contains(t) <==> tb.contains(t) by {
            if ta.contains(t) {
                let i = choose|i: int| 0 <= i < ta.len() && ta[i] == t;
                assert(a[i + 1] == t);
                assert(a.contains(t));
                assert(b.contains(t));
                let k = choose|k: int| 0 <= k < b.len() && b[k] == t;
                if k == 0 {
                    assert(text_before(a[0], a[i + 1]));
                    lemma_text_before_irreflexive(t);
                }
                assert(tb[k - 1] == t);
            }
            if tb.contains(t) {
                let i = choose|i: int| 0 <= i < tb.len() && tb[i] == t;
                assert(b[i + 1] == t);
                assert(b.contains(t));
                assert(a.contains(t));
                let k = choose|k: int| 0 <= k < a.len() && a[k] == t;
                if k == 0 {
                    assert(text_before(b[0], b[i + 1]));
                    lemma_text_before_irreflexive(t);
                }
                assert(ta[k - 1] == t);
            }
        }
        assert forall|i: int, j: int| 0 <= i < j < ta.len() implies text_before(
            #[trigger] ta[i],
            #[trigger] ta[j],
        ) by {
            assert(text_before(a[i + 1], a[j + 1]));
        }
        assert forall|i: int, j: int| 0 <= i < j < tb.len() implies text_before(
            #[trigger] tb[i],
            #[trigger] tb[j],
        ) by {
            assert(text_before(b[i + 1], b[j + 1]));
        }
        lemma_strictly_sorted_unique(ta, tb);
        assert(a =~= seq![a[0]] + ta);
        assert(b =~= seq![b[0]] + tb);
    }
}

/// Where a text that is not among strictly sorted texts belongs among
/// them: all before that place stand before it, all from that place on
/// stand behind it.
pub open spec fn splits_at(sorted: Seq<Seq<char>>, x: Seq<char>, p: int) -> bool {
    &&& 0 <= p <= sorted.len()
    &&& forall|k: int| 0 <= k < p ==> text_before(#[trigger] sorted[k], x)
    &&& forall|k: int| p <= k < sorted.len() ==> text_before(x, #[trigger] sorted[k])
}

/// A text that is not among strictly sorted texts has its place among them.
pub proof fn lemma_split_point(sorted: Seq<Seq<char>>, x: Seq<char>)
    requires
        strictly_sorted(sorted),
        !sorted.contains(x),
    ensures
        exists|p: int| splits_at(sorted, x, p),
    decreases sorted.len(),
{
    if sorted.len() == 0 {
        assert(splits_at(sorted, x, 0));
    } else {
        let front = sorted.drop_last();
        let last = sorted.last();
        assert forall|i: int, j: int| 0 <= i < j < front.len() implies text_before(
            #[trigger] front[i],
            #[trigger] front[j],
        ) by {
            assert(text_before(sorted[i], sorted[j]));
        }
        if front.contains(x) {
            let k = choose|k: int| 0 <= k < front.len() && front[k] == x;
            assert(sorted[k] == x);
        }
        lemma_split_point(front, x);
        let q = choose|q: int| splits_at(front, x, q);
        assert(sorted[sorted.len() - 1] == last);
        assert(last != x);
        lemma_text_before_total(last, x);
        if text_before(last, x) {
            assert forall|k: int| 0 <= k < sorted.len() implies text_before(
                #[trigger] sorted[k],
                x,
            ) by {
                if k < sorted.len() - 1 {
                    assert(text_before(sorted[k], sorted[sorted.len() - 1]));
                    lemma_text_before_transitive(sorted[k], last, x);
                }
            }
            assert(splits_at(sorted, x, sorted.len() as int));
        } else {
            assert forall|k: int| 0 <= k < q implies text_before(#[trigger] sorted[k], x) by {
                assert(sorted[k] == front[k]);
            }
            assert forall|k: int| q <= k < sorted.len() implies text_before(
                x,
                #[trigger] sorted[k],
            ) by {
                if k < sorted.len() - 1 {
                    assert(sorted[k] == front[k]);
                }
            }
            assert(splits_at(sorted, x, q));
        }
    }
}

/// For any texts there is a sequence that holds them in the order of
/// strings, each once: [`sorted_set`] is that sequence.
pub proof fn lemma_sorted_set_exists(items: Seq<Seq<char>>)
    ensures
        is_sorted_set(sorted_set(items), items),
    decreases items.len(),
{
    if items.len() == 0 {
        let empty = Seq::<Seq<char>>::empty();
        assert(is_sorted_set(empty, items));
    } else {
        let front = items.drop_last();
        let x = items.last();
        lemma_sorted_set_exists(front);
        let before = sorted_set(front);
        assert forall|t: Seq<char>| items.contains(t) <==> (front.contains(t) || t == x) by {
            if items.contains(t) {
                let k = choose|k: int| 0 <= k < items.len() && items[k] == t;
                if k < items.len() - 1 {
                    assert(front[k] == t);
                }
            }
            if front.contains(t) {
                let k = choose|k: int| 0 <= k < front.len() && front[k] == t;
                assert(items[k] == t);
            }
            if t == x {
                assert(items[items.len() - 1] == t);
            }
        }
        if before.contains(x) {
            assert(is_sorted_set(before, items));
        } else {
            lemma_split_point(before, x);
            let p = choose|p: int| splits_at(before, x, p);
            let after = before.insert(p, x);
            assert forall|a: int, b: int| 0 <= a < b < after.len() implies text_before(
                #[trigger] after[a],
                #[trigger] after[b],
            ) by {
                if b < p {
                    assert(after[a] == before[a] && after[b] == before[b]);
                } else if b == p {
                    assert(after[a] == before[a]);
                } else if a == p {
                    assert(after[b] == before[b - 1]);
                } else if a < p {
                    assert(after[a] == before[a] && after[b] == before[b - 1]);
                } else {
                    assert(after[a] == before[a - 1] && after[b] == before[b - 1]);
                }
            }
            assert forall|t: Seq<char>| #[trigger] after.contains(t) <==> items.contains(t) by {
                if after.contains(t) {
                    let k = choose|k: int| 0 <= k < after.len() && after[k] == t;
                    if k < p {
                        assert(before[k] == t);
                        assert(before.contains(t));
                    } else if k > p {
                        assert(before[k - 1] == t);
                        assert(before.contains(t));
                    }
                }
                if items.contains(t) {
                    if t == x {
                        assert(after[p] == t);
                    } else {
                        assert(before.contains(t));
                        let k = choose|k: int| 0 <= k < before.len() && before[k] == t;
                        if k < p {
                            assert(after[k] == t);
                        } else {
                            assert(after[k + 1] == t);
                        }
                    }
                }
            }
            assert(is_sorted_set(after, items));
        }
    }
}

/// A sequence that holds the texts of `items`, each once, in the order of
/// strings, is [`sorted_set`] of them.
pub proof fn lemma_sorted_set(sorted: Seq<Seq<char>>, items: Seq<Seq<char>>)
    requires
        is_sorted_set(sorted, items),
    ensures
        sorted == sorted_set(items),
        is_sorted_set(sorted_set(items), items),
{
    let chosen = sorted_set(items);
    assert(is_sorted_set(chosen, items));
    lemma_strictly_sorted_unique(sorted, chosen);
}

/// Where `item` belongs among the strictly sorted `keys`, and whether it
/// stands there already.
fn find_place(keys: &Vec<Vec<char>>, item: &Vec<char>) -> (r: (usize, bool))
    ensures
        r.0 <= keys@.len(),
        forall|k: int| 0 <= k < r.0 ==> text_before((#[trigger] keys@[k])@, item@),
        r.1 ==> r.0 < keys@.len() && keys@[r.0 as int]@ == item@,
        !r.1 && r.0 < keys@.len() ==> text_before(item@, keys@[r.0 as int]@),
{
    let mut place: usize = 0;
    while place < keys.len()
        invariant
            place <= keys@.len(),
            forall|k: int| 0 <= k < place ==> text_before((#[trigger] keys@[k])@, item@),
        decreases keys@.len() - place,
    {
        let order = order_of_texts(&keys[place], item);
        if order == 0 {
            return (place, true);
        }
        if order == 1 {
            return (place, false);
        }
        place += 1;
    }
    (place, false)
}

/// The texts of `items` in the order of strings, each once.
pub fn sort_dedup(items: &Vec<String>) -> (out: Vec<String>)
    ensures
        texts_of(out@) == sorted_set(texts_of(items@)),
        is_sorted_set(texts_of(out@), texts_of(items@)),
{
    let mut out: Vec<String> = Vec::new();
    let mut keys: Vec<Vec<char>> = Vec::new();
    let ghost given = texts_of(items@);
    let mut i: usize = 0;
    while i < items.len()
        invariant
            i <= items.len(),
            given == texts_of(items@),
            keys@.len() == out@.len(),
            forall|k: int| 0 <= k < out@.len() ==> (#[trigger] keys@[k])@ == out@[k]@,
            strictly_sorted(texts_of(out@)),
            forall|t: Seq<char>|
                #![trigger texts_of(out@).contains(t)]
                texts_of(out@).contains(t) <==> given.take(i as int).contains(t),
        decreases items.len() - i,
    {
        let item = chars_of(items[i].as_str());
        let ghost text = item@;
        let ghost before = texts_of(out@);
        let (place, found) = find_place(&keys, &item);
        proof {
            assert forall|k: int| 0 <= k < place implies text_before(#[trigger] before[k], text) by {
                assert(before[k] == keys@[k]@);
            }
            if place < keys@.len() {
                assert(before[place as int] == keys@[place as int]@);
            }
        }
        let ghost less = given.take(i as int);
        let ghost more = given.take(i as int + 1);
        proof {
            assert(more == less.push(text));
            assert(given[i as int] == text);
        }
        if found {
            proof {
                assert(before[place as int] == text);
                assert forall|t: Seq<char>| before.contains(t) <==> more.contains(t) by {
                    if more.contains(t) {
                        let k = choose|k: int| 0 <= k < more.len() && more[k] == t;
                        if k < i {
                            assert(less[k] == t);
                        }
                    }
                    if before.contains(t) {
                        assert(less.contains(t));
                        let k = choose|k: int| 0 <= k < less.len() && less[k] == t;
                        assert(more[k] == t);
                    }
                }
            }
        } else {
            out.insert(place, items[i].clone());
            keys.insert(place, item);
            proof {
                let after = texts_of(out@);
                assert(after =~= before.insert(place as int, text));
                assert forall|a: int, b: int| 0 <= a < b < after.len() implies text_before(
                    #[trigger] after[a],
                    #[trigger] after[b],
                ) by {
                    if b < place {
                        assert(after[a] == before[a] && after[b] == before[b]);
                    } else if b == place {
                        assert(after[a] == before[a]);
                    } else if a == place {
                        assert(after[b] == before[b - 1]);
                        if b - 1 > place {
                            assert(text_before(before[place as int], before[b - 1]));
                            lemma_text_before_transitive(text, before[place as int], before[b - 1]);
                        }
                    } else if a < place {
                        assert(after[a] == before[a] && after[b] == before[b - 1]);
                        if b - 1 > place {
                            assert(text_before(before[a], before[b - 1]));
                        }
                    } else {
                        assert(after[a] == before[a - 1] && after[b] == before[b - 1]);
                    }
                }
                assert forall|t: Seq<char>| after.contains(t) <==> more.contains(t) by {
                    if after.contains(t) {
                        let k = choose|k: int| 0 <= k < after.len() && after[k] == t;
                        if k == place {
                            assert(more[i as int] == t);
                        } else {
                            let k0 = if k < place {
                                k
                            } else {
                                k - 1
                            };
                            assert(before[k0] == t);
                            assert(before.contains(t));
                            let g = choose|g: int| 0 <= g < less.len() && less[g] == t;
                            assert(more[g] == t);
                        }
                    }
                    if more.contains(t) {
                        let g = choose|g: int| 0 <= g < more.len() && more[g] == t;
                        if g == i {
                            assert(after[place as int] == t);
                        } else {
                            assert(less[g] == t);
                            assert(before.contains(t));
                            let k = choose|k: int| 0 <= k < before.len() && before[k] == t;
                            if k < place {
                                assert(after[k] == t);
                            } else {
                                assert(after[k + 1] == t);
                            }
                        }
                    }
                }
            }
        }
        i += 1;
    }
    assert(given.take(items.len() as int) == given);
    proof {
        lemma_sorted_set(texts_of(out@), given);
    }
    out
}

// ---------------------------------------------------------------------------
// Lists
// ---------------------------------------------------------------------------

/// The first `upto` texts of `items`, `separator` between each two.
pub open spec fn joined(items: Seq<Seq<char>>, separator: Seq<char>, upto: int) -> Seq<char>
    decreases upto,
{
    if upto <= 0 {
        Seq::<char>::empty()
    } else if upto == 1 {
        items[0]
    } else {
        joined(items, separator, upto - 1) + separator + items[upto - 1]
    }
}

/// Appends to `s` the texts of `items`, `separator` between each two.
pub fn push_joined(s: &mut String, items: &Vec<String>, separator: &str)
    ensures
        final(s)@ == old(s)@ + joined(texts_of(items@), separator@, items@.len() as int),
{
    let ghost texts = texts_of(items@);
    let mut i: usize = 0;
    assert(s@ == old(s)@ + joined(texts, separator@, 0));
    while i < items.len()
        invariant
            i <= items.len(),
            texts == texts_of(items@),
            s@ == old(s)@ + joined(texts, separator@, i as int),
        decreases items.len() - i,
    {
        if i > 0 {
            s.append(separator);
        }
        s.append(items[i].as_str());
        i += 1;
        proof {
            assert(texts[i as int - 1] == items@[i as int - 1]@);
            if i == 1 {
                assert(s@ == old(s)@ + texts[0]);
            } else {
                assert(s@ == old(s)@ + (joined(texts, separator@, i as int - 1) + separator@
                    + texts[i as int - 1]));
            }
        }
    }
}

} // verus!
