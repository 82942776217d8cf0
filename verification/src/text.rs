//! Text as sequences of characters: searching, trimming, splitting, and the
//! decimal numbers that HTTP writes.
//!
//! The functions here work on slices of characters, so that an offset counts
//! characters and every offset is a boundary.

use vstd::prelude::*;
use vstd::slice::slice_subrange;
use vstd::string::StringExecFns;
use vstd::utf8::{decode_utf8, encode_utf8, valid_utf8};

verus! {

/// `String::push` puts one character after those already there.
pub assume_specification[ String::push ](s: &mut String, c: char)
    ensures
        final(s)@ == old(s)@.push(c),
;

/// What `String::from_utf8_lossy` makes of bytes that are not UTF-8.
pub uninterp spec fn lossy_text(bytes: Seq<u8>) -> Seq<char>;

/// The text that bytes are read as: what they encode in UTF-8, and where
/// they are not UTF-8 the next best.
pub open spec fn text_of(bytes: Seq<u8>) -> Seq<char> {
    if valid_utf8(bytes) {
        decode_utf8(bytes)
    } else {
        lossy_text(bytes)
    }
}

/// `String::from_utf8_lossy`: the text that the bytes encode, where they are
/// valid UTF-8. What it makes of bytes that are not is a function of those
/// bytes, and only named.
#[verifier::external_body]
pub(crate) fn from_utf8_lossy(bytes: &[u8]) -> (res: String)
    ensures
        valid_utf8(bytes@) ==> res@ == decode_utf8(bytes@),
        !valid_utf8(bytes@) ==> res@ == lossy_text(bytes@),
{
    String::from_utf8_lossy(bytes).into_owned()
}

/// Text that was encoded is the text that is read.
pub proof fn lemma_text_of(text: Seq<char>)
    ensures
        text_of(encode_utf8(text)) == text,
{
    vstd::utf8::encode_utf8_valid_utf8(text);
    vstd::utf8::encode_utf8_decode_utf8(text);
}

/// The same answer with a mathematical integer in it.
pub open spec fn as_offset(found: Option<usize>) -> Option<int> {
    match found {
        Some(i) => Some(i as int),
        None => None,
    }
}

// ---------------------------------------------------------------------
// Between strings and characters
// ---------------------------------------------------------------------

/// The characters of `s`.
pub fn chars_of(s: &str) -> (res: Vec<char>)
    ensures
        res@ == s@,
{
    let mut out: Vec<char> = Vec::new();
    for c in it: s.chars()
        invariant
            out@ == it.seq().take(it.index() as int),
    {
        out.push(c);
    }
    out
}

/// The string of these characters.
pub fn string_of(text: &[char]) -> (res: String)
    ensures
        res@ == text@,
{
    let mut out = String::new();
    push_chars(&mut out, text);
    out
}

/// Put the characters of `text` after those already in `out`.
pub fn push_chars(out: &mut String, text: &[char])
    ensures
        final(out)@ == old(out)@ + text@,
{
    let mut i: usize = 0;
    while i < text.len()
        invariant
            i <= text.len(),
            out@ == old(out)@ + text@.take(i as int),
        decreases text.len() - i,
    {
        out.push(text[i]);
        i += 1;
    }
}

/// Whether two runs of characters are the same.
pub fn same_chars(a: &[char], b: &[char]) -> (res: bool)
    ensures
        res == (a@ == b@),
{
    if a.len() != b.len() {
        return false;
    }
    let mut i: usize = 0;
    while i < a.len()
        invariant
            i <= a.len() == b.len(),
            forall|j: int| 0 <= j < i ==> a@[j] == b@[j],
        decreases a.len() - i,
    {
        if a[i] != b[i] {
            return false;
        }
        i += 1;
    }
    proof {
        assert(a@ == b@);
    }
    true
}

/// Whether two strings are the same.
pub fn same(a: &str, b: &str) -> (res: bool)
    ensures
        res == (a@ == b@),
{
    let x = a.as_bytes();
    let y = b.as_bytes();
    if x.len() != y.len() {
        return false;
    }
    let mut i: usize = 0;
    while i < x.len()
        invariant
            i <= x.len() == y.len(),
            x@ == encode_utf8(a@),
            y@ == encode_utf8(b@),
            forall|j: int| 0 <= j < i ==> x@[j] == y@[j],
        decreases x.len() - i,
    {
        if x[i] != y[i] {
            return false;
        }
        i += 1;
    }
    proof {
        assert(x@ == y@);
        vstd::utf8::encode_utf8_decode_utf8(a@);
        vstd::utf8::encode_utf8_decode_utf8(b@);
    }
    true
}

// ---------------------------------------------------------------------
// Searching
// ---------------------------------------------------------------------

/// Where the first `c` at or after `from` stands.
pub open spec fn find_from(s: Seq<char>, c: char, from: int) -> Option<int>
    decreases s.len() - from,
{
    if from < 0 || from >= s.len() {
        None
    } else if s[from] == c {
        Some(from)
    } else {
        find_from(s, c, from + 1)
    }
}

/// What [`find_from`] finds is the first there is.
pub proof fn lemma_find_from(s: Seq<char>, c: char, from: int)
    requires
        0 <= from,
    ensures
        match find_from(s, c, from) {
            Some(i) => from <= i < s.len() && s[i] == c && forall|j: int|
                from <= j < i ==> s[j] != c,
            None => forall|j: int| from <= j < s.len() ==> s[j] != c,
        },
    decreases s.len() - from,
{
    if from < s.len() && s[from] != c {
        lemma_find_from(s, c, from + 1);
    }
}

/// The first `c` is found where it stands.
pub proof fn lemma_find_first(s: Seq<char>, c: char, from: int, at: int)
    requires
        0 <= from <= at < s.len(),
        s[at] == c,
        forall|j: int| from <= j < at ==> s[j] != c,
    ensures
        find_from(s, c, from) == Some(at),
{
    lemma_find_from(s, c, from);
}

/// Where the first `c` at or after `from` stands.
pub fn find_char(text: &[char], c: char, from: usize) -> (res: Option<usize>)
    ensures
        as_offset(res) == find_from(text@, c, from as int),
        res matches Some(i) ==> from <= i < text.len(),
{
    let mut i: usize = from;
    while i < text.len()
        invariant
            from <= i,
            find_from(text@, c, from as int) == find_from(text@, c, i as int),
        decreases text.len() - i,
    {
        if text[i] == c {
            return Some(i);
        }
        i += 1;
    }
    None
}

/// Where the last `c` stands.
pub open spec fn rfind(s: Seq<char>, c: char) -> Option<int>
    decreases s.len(),
{
    if s.len() == 0 {
        None
    } else if s.last() == c {
        Some(s.len() - 1)
    } else {
        rfind(s.drop_last(), c)
    }
}

/// What [`rfind`] finds is the last there is.
pub proof fn lemma_rfind(s: Seq<char>, c: char)
    ensures
        match rfind(s, c) {
            Some(i) => 0 <= i < s.len() && s[i] == c && forall|j: int|
                i < j < s.len() ==> s[j] != c,
            None => forall|j: int| 0 <= j < s.len() ==> s[j] != c,
        },
    decreases s.len(),
{
    if s.len() > 0 && s.last() != c {
        lemma_rfind(s.drop_last(), c);
        assert forall|j: int| 0 <= j < s.len() - 1 implies s[j] == s.drop_last()[j] by {}
    }
}

/// Where the last `c` stands.
pub fn rfind_char(text: &[char], c: char) -> (res: Option<usize>)
    ensures
        as_offset(res) == rfind(text@, c),
        res matches Some(i) ==> i < text.len(),
{
    let mut n: usize = text.len();
    proof {
        assert(text@.take(n as int) == text@);
    }
    while n > 0
        invariant
            n <= text.len(),
            rfind(text@, c) == rfind(text@.take(n as int), c),
        decreases n,
    {
        if text[n - 1] == c {
            return Some(n - 1);
        }
        proof {
            assert(text@.take(n as int).drop_last() == text@.take(n - 1));
        }
        n -= 1;
    }
    None
}

/// Whether `part` stands in `s` at offset `at`.
pub open spec fn stands_at(s: Seq<char>, part: Seq<char>, at: int) -> bool {
    &&& 0 <= at
    &&& at + part.len() <= s.len()
    &&& s.subrange(at, at + part.len()) == part
}

/// Whether `part` stands in `s` at offset `at`.
pub fn is_at(text: &[char], part: &[char], at: usize) -> (res: bool)
    ensures
        res == stands_at(text@, part@, at as int),
{
    if at > text.len() || part.len() > text.len() - at {
        return false;
    }
    same_chars(slice_subrange(text, at, at + part.len()), part)
}

/// Whether `part` stands anywhere in `s`.
pub open spec fn holds_text(s: Seq<char>, part: Seq<char>) -> bool {
    exists|at: int| stands_at(s, part, at)
}

/// Whether `part` stands anywhere in `text`.
pub fn contains_text(text: &[char], part: &[char]) -> (res: bool)
    ensures
        res == holds_text(text@, part@),
{
    let mut i: usize = 0;
    while i <= text.len()
        invariant
            i <= text.len() + 1,
            forall|j: int| 0 <= j < i ==> !stands_at(text@, part@, j),
        decreases text.len() + 1 - i,
    {
        if is_at(text, part, i) {
            return true;
        }
        if i == text.len() {
            return false;
        }
        i += 1;
    }
    false
}

/// Whether `text` starts with `part`.
pub fn starts_with(text: &[char], part: &[char]) -> (res: bool)
    ensures
        res == part@.is_prefix_of(text@),
{
    is_at(text, part, 0)
}

// ---------------------------------------------------------------------
// Trimming
// ---------------------------------------------------------------------

/// The characters that are trimmed away together.
#[derive(Clone, Copy)]
pub enum Class {
    /// `/`.
    Slash,
    /// `<` and `>`.
    Angle,
    /// What Unicode calls white space.
    White,
}

/// Whether Unicode gives `c` the property `White_Space`.
pub open spec fn is_white(c: char) -> bool {
    ||| '\u{9}' <= c <= '\u{d}'
    ||| c == '\u{20}'
    ||| c == '\u{85}'
    ||| c == '\u{a0}'
    ||| c == '\u{1680}'
    ||| '\u{2000}' <= c <= '\u{200a}'
    ||| c == '\u{2028}'
    ||| c == '\u{2029}'
    ||| c == '\u{202f}'
    ||| c == '\u{205f}'
    ||| c == '\u{3000}'
}

/// Whether `c` is of the class.
pub open spec fn in_class(k: Class, c: char) -> bool {
    match k {
        Class::Slash => c == '/',
        Class::Angle => c == '<' || c == '>',
        Class::White => is_white(c),
    }
}

impl Class {
    /// Whether `c` is of this class.
    pub fn holds(self, c: char) -> (res: bool)
        ensures
            res == in_class(self, c),
    {
        match self {
            Class::Slash => c == '/',
            Class::Angle => c == '<' || c == '>',
            Class::White => {
                ('\u{9}' <= c && c <= '\u{d}') || c == '\u{20}' || c == '\u{85}' || c == '\u{a0}'
                    || c == '\u{1680}' || ('\u{2000}' <= c && c <= '\u{200a}') || c == '\u{2028}'
                    || c == '\u{2029}' || c == '\u{202f}' || c == '\u{205f}' || c == '\u{3000}'
            },
        }
    }
}

/// `s` without the characters of the class that it starts with.
pub open spec fn trim_start(s: Seq<char>, k: Class) -> Seq<char>
    decreases s.len(),
{
    if s.len() > 0 && in_class(k, s.first()) {
        trim_start(s.drop_first(), k)
    } else {
        s
    }
}

/// `s` without the characters of the class that it ends with.
pub open spec fn trim_end(s: Seq<char>, k: Class) -> Seq<char>
    decreases s.len(),
{
    if s.len() > 0 && in_class(k, s.last()) {
        trim_end(s.drop_last(), k)
    } else {
        s
    }
}

/// `s` without the characters of the class at either end.
pub open spec fn trim(s: Seq<char>, k: Class) -> Seq<char> {
    trim_end(trim_start(s, k), k)
}

/// Whether there is nothing to trim off `s`.
pub open spec fn is_trimmed(s: Seq<char>, k: Class) -> bool {
    s.len() > 0 ==> !in_class(k, s.first()) && !in_class(k, s.last())
}

/// `text` without the characters of the class that it starts with.
pub fn trim_start_of<'a>(text: &'a [char], k: Class) -> (res: &'a [char])
    ensures
        res@ == trim_start(text@, k),
{
    let mut i: usize = 0;
    proof {
        assert(text@.skip(0) == text@);
    }
    while i < text.len() && k.holds(text[i])
        invariant
            i <= text.len(),
            trim_start(text@, k) == trim_start(text@.skip(i as int), k),
        decreases text.len() - i,
    {
        proof {
            assert(text@.skip(i as int).drop_first() == text@.skip(i + 1));
        }
        i += 1;
    }
    proof {
        assert(text@.skip(i as int) == text@.subrange(i as int, text@.len() as int));
    }
    slice_subrange(text, i, text.len())
}

/// `text` without the characters of the class that it ends with.
pub fn trim_end_of<'a>(text: &'a [char], k: Class) -> (res: &'a [char])
    ensures
        res@ == trim_end(text@, k),
{
    let mut n: usize = text.len();
    proof {
        assert(text@.take(n as int) == text@);
    }
    while n > 0 && k.holds(text[n - 1])
        invariant
            n <= text.len(),
            trim_end(text@, k) == trim_end(text@.take(n as int), k),
        decreases n,
    {
        proof {
            assert(text@.take(n as int).drop_last() == text@.take(n - 1));
        }
        n -= 1;
    }
    slice_subrange(text, 0, n)
}

/// `text` without the characters of the class at either end.
pub fn trim_of<'a>(text: &'a [char], k: Class) -> (res: &'a [char])
    ensures
        res@ == trim(text@, k),
{
    trim_end_of(trim_start_of(text, k), k)
}

/// `s` without its trailing slashes, as a string.
pub fn without_end_slashes(s: &str) -> (res: String)
    ensures
        res@ == trim_end(s@, Class::Slash),
{
    let text = chars_of(s);
    string_of(trim_end_of(text.as_slice(), Class::Slash))
}

// ---------------------------------------------------------------------
// Splitting
// ---------------------------------------------------------------------

/// `s` before and after its first `c`.
pub open spec fn split_first(s: Seq<char>, c: char) -> Option<(Seq<char>, Seq<char>)> {
    match find_from(s, c, 0) {
        Some(i) => Some((s.take(i), s.skip(i + 1))),
        None => None,
    }
}

/// `s` before and after its last `c`.
pub open spec fn split_last(s: Seq<char>, c: char) -> Option<(Seq<char>, Seq<char>)> {
    match rfind(s, c) {
        Some(i) => Some((s.take(i), s.skip(i + 1))),
        None => None,
    }
}

/// Where the first white space at or after `from` stands, or the end.
pub open spec fn white_from(s: Seq<char>, from: int) -> int
    decreases s.len() - from,
{
    if from >= s.len() {
        s.len() as int
    } else if is_white(s[from]) {
        from
    } else {
        white_from(s, from + 1)
    }
}

/// The first word of `s`, and what follows it.
pub open spec fn first_word(s: Seq<char>) -> Option<(Seq<char>, Seq<char>)> {
    let t = trim_start(s, Class::White);
    if t.len() == 0 {
        None
    } else {
        let n = white_from(t, 0);
        Some((t.take(n), t.skip(n)))
    }
}

/// The first word of `text`, and what follows it.
pub fn split_word<'a>(text: &'a [char]) -> (res: Option<(&'a [char], &'a [char])>)
    ensures
        match res {
            Some(found) => first_word(text@) == Some((found.0@, found.1@)),
            None => first_word(text@) is None,
        },
{
    let rest = trim_start_of(text, Class::White);
    if rest.len() == 0 {
        return None;
    }
    let mut n: usize = 0;
    while n < rest.len() && !Class::White.holds(rest[n])
        invariant
            n <= rest.len(),
            white_from(rest@, 0) == white_from(rest@, n as int),
        decreases rest.len() - n,
    {
        n += 1;
    }
    proof {
        assert(rest@.take(n as int) == rest@.subrange(0, n as int));
        assert(rest@.skip(n as int) == rest@.subrange(n as int, rest@.len() as int));
    }
    Some((slice_subrange(rest, 0, n), slice_subrange(rest, n, rest.len())))
}

// ---------------------------------------------------------------------
// Letters, whatever their case
// ---------------------------------------------------------------------

/// The small letter for an ASCII capital; any other character as it is.
pub open spec fn lower(c: char) -> char {
    if 'A' <= c <= 'Z' {
        (c as u32 + 32) as char
    } else {
        c
    }
}

/// Whether two texts are the same but for the case of ASCII letters.
pub open spec fn same_letters(a: Seq<char>, b: Seq<char>) -> bool {
    a.len() == b.len() && forall|i: int| 0 <= i < a.len() ==> lower(#[trigger] a[i]) == lower(b[i])
}

/// The small letter for an ASCII capital; any other character as it is.
fn lowered(c: char) -> (res: char)
    ensures
        res == lower(c),
{
    if 'A' <= c && c <= 'Z' {
        ((c as u8) + 32) as char
    } else {
        c
    }
}

/// Whether two strings are the same but for the case of ASCII letters.
pub fn same_ignoring_case(a: &str, b: &str) -> (res: bool)
    ensures
        res == same_letters(a@, b@),
{
    let x = chars_of(a);
    let y = chars_of(b);
    if x.len() != y.len() {
        return false;
    }
    let mut i: usize = 0;
    while i < x.len()
        invariant
            i <= x.len() == y.len(),
            x@ == a@,
            y@ == b@,
            forall|j: int| 0 <= j < i ==> lower(#[trigger] a@[j]) == lower(b@[j]),
        decreases x.len() - i,
    {
        if lowered(x[i]) != lowered(y[i]) {
            return false;
        }
        i += 1;
    }
    true
}

/// Whether `part` stands in `s` at offset `at`, but for the case of ASCII
/// letters.
pub open spec fn letters_at(s: Seq<char>, part: Seq<char>, at: int) -> bool {
    &&& 0 <= at
    &&& at + part.len() <= s.len()
    &&& same_letters(s.subrange(at, at + part.len()), part)
}

/// Whether `part` stands anywhere in `s`, but for the case of ASCII letters.
pub open spec fn holds_letters(s: Seq<char>, part: Seq<char>) -> bool {
    exists|at: int| letters_at(s, part, at)
}

/// Whether `part` stands in `text` at offset `at`, but for the case of ASCII
/// letters.
fn is_at_ignoring_case(text: &[char], part: &[char], at: usize) -> (res: bool)
    ensures
        res == letters_at(text@, part@, at as int),
{
    if at > text.len() || part.len() > text.len() - at {
        return false;
    }
    let found = slice_subrange(text, at, at + part.len());
    let mut i: usize = 0;
    while i < part.len()
        invariant
            i <= part.len() == found.len(),
            at + part.len() <= text.len(),
            found@ == text@.subrange(at as int, at + part.len()),
            forall|j: int| 0 <= j < i ==> lower(#[trigger] found@[j]) == lower(part@[j]),
        decreases part.len() - i,
    {
        if lowered(found[i]) != lowered(part[i]) {
            return false;
        }
        i += 1;
    }
    true
}

/// Whether `part` stands anywhere in `text`, but for the case of ASCII
/// letters.
pub fn contains_letters(text: &[char], part: &[char]) -> (res: bool)
    ensures
        res == holds_letters(text@, part@),
{
    let mut i: usize = 0;
    while i <= text.len()
        invariant
            i <= text.len() + 1,
            forall|j: int| 0 <= j < i ==> !letters_at(text@, part@, j),
        decreases text.len() + 1 - i,
    {
        if is_at_ignoring_case(text, part, i) {
            return true;
        }
        if i == text.len() {
            return false;
        }
        i += 1;
    }
    false
}

// ---------------------------------------------------------------------
// Decimal numbers
// ---------------------------------------------------------------------

/// The character that writes the digit `d`.
pub open spec fn digit_char(d: nat) -> char {
    (48 + d) as char
}

/// Whether `c` is a decimal digit.
pub open spec fn is_digit(c: char) -> bool {
    '0' <= c <= '9'
}

/// What the digit `c` counts.
pub open spec fn digit_value(c: char) -> nat {
    (c as nat - 48) as nat
}

/// `n` in decimal, no leading zeros.
pub open spec fn decimal(n: nat) -> Seq<char>
    decreases n,
{
    if n < 10 {
        seq![digit_char(n)]
    } else {
        decimal(n / 10).push(digit_char(n % 10))
    }
}

/// What a run of decimal digits counts.
pub open spec fn digits_value(s: Seq<char>) -> nat
    decreases s.len(),
{
    if s.len() == 0 {
        0
    } else {
        digits_value(s.drop_last()) * 10 + digit_value(s.last())
    }
}

/// `s` without a leading plus sign.
pub open spec fn unsigned_part(s: Seq<char>) -> Seq<char> {
    if s.len() > 0 && s[0] == '+' {
        s.skip(1)
    } else {
        s
    }
}

/// The number `s` writes: decimal digits, at least one, perhaps after a plus
/// sign; none where it is over `max`.
pub open spec fn number(s: Seq<char>, max: nat) -> Option<nat> {
    let digits = unsigned_part(s);
    if digits.len() > 0 && (forall|i: int| 0 <= i < digits.len() ==> is_digit(#[trigger] digits[i]))
        && digits_value(digits) <= max {
        Some(digits_value(digits))
    } else {
        None
    }
}

/// A number in decimal is made of digits and reads back as itself.
pub proof fn lemma_decimal(n: nat)
    ensures
        decimal(n).len() > 0,
        forall|i: int| 0 <= i < decimal(n).len() ==> is_digit(#[trigger] decimal(n)[i]),
        digits_value(decimal(n)) == n,
    decreases n,
{
    if n < 10 {
        assert(decimal(n).drop_last() == Seq::<char>::empty());
        assert(digits_value(Seq::<char>::empty()) == 0);
    } else {
        lemma_decimal(n / 10);
        assert(decimal(n).drop_last() == decimal(n / 10));
    }
}

/// A number written in decimal is the number that is read.
pub proof fn lemma_number_of_decimal(n: nat, max: nat)
    requires
        n <= max,
    ensures
        number(decimal(n), max) == Some(n),
{
    lemma_decimal(n);
    assert(is_digit(decimal(n)[0]));
}

/// A shorter run of digits counts no more.
proof fn lemma_digits_grow(s: Seq<char>, n: int)
    requires
        0 <= n <= s.len(),
    ensures
        digits_value(s.take(n)) <= digits_value(s),
    decreases s.len(),
{
    if n == s.len() {
        assert(s.take(n) == s);
    } else {
        lemma_digits_grow(s.drop_last(), n);
        assert(s.drop_last().take(n) == s.take(n));
    }
}

/// `n` in decimal.
pub fn decimal_of(n: u64) -> (res: String)
    ensures
        res@ == decimal(n as nat),
    decreases n,
{
    let digit = (48u8 + (n % 10) as u8) as char;
    let mut out = if n < 10 {
        String::new()
    } else {
        decimal_of(n / 10)
    };
    out.push(digit);
    out
}

/// The number that `text` writes, where it writes one no greater than `max`.
pub fn number_of(text: &[char], max: u64) -> (res: Option<u64>)
    ensures
        match res {
            Some(n) => number(text@, max as nat) == Some(n as nat),
            None => number(text@, max as nat) is None,
        },
{
    let digits = if text.len() > 0 && text[0] == '+' {
        slice_subrange(text, 1, text.len())
    } else {
        text
    };
    proof {
        assert(text@.len() > 0 ==> text@.skip(1) == text@.subrange(1, text@.len() as int));
        assert(digits@ == unsigned_part(text@));
    }
    if digits.len() == 0 {
        return None;
    }
    let mut value: u64 = 0;
    let mut i: usize = 0;
    while i < digits.len()
        invariant
            i <= digits.len(),
            digits@ == unsigned_part(text@),
            forall|j: int| 0 <= j < i ==> is_digit(#[trigger] digits@[j]),
            value == digits_value(digits@.take(i as int)),
            value <= max,
        decreases digits.len() - i,
    {
        let c = digits[i];
        if c < '0' || c > '9' {
            return None;
        }
        let digit: u64 = (c as u32 - 48) as u64;
        proof {
            assert(digits@.take(i + 1).drop_last() == digits@.take(i as int));
            lemma_digits_grow(digits@, i + 1);
        }
        if value > (max / 10) || digit > max - value * 10 {
            return None;
        }
        value = value * 10 + digit;
        i += 1;
    }
    proof {
        assert(digits@.take(i as int) == digits@);
    }
    Some(value)
}

} // verus!
