//! What trimming, splitting, comparing and counting do to any text.

use vstd::prelude::*;
use crate::session::{href_of, parts_of};
use crate::text::{
    decimal, digits_value, find_from, first_word, holds_letters, holds_text, in_class,
    is_digit, is_white, lemma_decimal, lemma_find_first, lemma_find_from, lemma_rfind, letters_at,
    lower, number, rfind, same_letters, split_first, split_last, stands_at, trim, trim_end,
    trim_start, unsigned_part, white_from, Class,
};

verus! {

// ---------------------------------------------------------------------
// Classes of characters
// ---------------------------------------------------------------------

/// What is trimmed together: slashes, angle brackets, and the twenty-five
/// characters that Unicode calls white space.
pub proof fn law_classes(c: char)
    ensures
        in_class(Class::Slash, c) <==> c == '/',
        in_class(Class::Angle, c) <==> c == '<' || c == '>',
        in_class(Class::White, c) <==> is_white(c),
        is_white(c) <==> {
            let n = c as int;
            ||| 9 <= n <= 13
            ||| n == 32
            ||| n == 0x85
            ||| n == 0xa0
            ||| n == 0x1680
            ||| 0x2000 <= n <= 0x200a
            ||| n == 0x2028
            ||| n == 0x2029
            ||| n == 0x202f
            ||| n == 0x205f
            ||| n == 0x3000
        },
{
}

/// Whether a text is made of characters of a class alone.
pub open spec fn all_in(k: Class, text: Seq<char>) -> bool {
    forall|i: int| 0 <= i < text.len() ==> in_class(k, #[trigger] text[i])
}

// ---------------------------------------------------------------------
// Trimming
// ---------------------------------------------------------------------

/// What trimming leaves is what stands between the characters of the class at
/// either end, whatever it is.
pub proof fn law_trim_leaves_the_middle(
    k: Class,
    before: Seq<char>,
    middle: Seq<char>,
    after: Seq<char>,
)
    requires
        all_in(k, before),
        all_in(k, after),
        middle.len() > 0 ==> !in_class(k, middle.first()) && !in_class(k, middle.last()),
    ensures
        trim(before + middle + after, k) == middle,
        middle.len() > 0 ==> trim_start(before + middle + after, k) == middle + after,
        middle.len() > 0 ==> trim_end(before + middle + after, k) == before + middle,
        trim_end(middle + after, k) == middle,
        trim_start(before + middle, k) == middle,
{
    law_trim_start(k, before, middle);
    law_trim_end(k, middle, after);
    if middle.len() > 0 {
        assert((middle + after).first() == middle.first());
        law_trim_start(k, before, middle + after);
        assert(before + middle + after =~= before + (middle + after));
        assert((before + middle).last() == middle.last());
        law_trim_end(k, before + middle, after);
    } else {
        let all = before + middle + after;
        let none = Seq::<char>::empty();
        assert(all =~= before + after);
        assert(middle =~= none);
        assert forall|i: int| 0 <= i < all.len() implies in_class(k, #[trigger] all[i]) by {
            if i < before.len() {
                assert(all[i] == before[i]);
            } else {
                assert(all[i] == after[i - before.len()]);
            }
        }
        law_trim_start(k, all, none);
        assert(all + none =~= all);
        assert(trim_end(none, k) == none);
    }
}

/// Trimming the start goes on to the first character that is not of the class.
pub proof fn law_trim_start(k: Class, before: Seq<char>, rest: Seq<char>)
    requires
        all_in(k, before),
        rest.len() > 0 ==> !in_class(k, rest.first()),
    ensures
        trim_start(before + rest, k) == rest,
    decreases before.len(),
{
    if before.len() == 0 {
        assert(before + rest =~= rest);
    } else {
        let fewer = before.drop_first();
        assert(in_class(k, before[0]));
        assert((before + rest).first() == before[0]);
        assert((before + rest).drop_first() =~= fewer + rest);
        assert forall|i: int| 0 <= i < fewer.len() implies in_class(k, #[trigger] fewer[i]) by {
            assert(fewer[i] == before[i + 1]);
        }
        law_trim_start(k, fewer, rest);
    }
}

/// Trimming the end goes back to the last character that is not of the class.
pub proof fn law_trim_end(k: Class, rest: Seq<char>, after: Seq<char>)
    requires
        all_in(k, after),
        rest.len() > 0 ==> !in_class(k, rest.last()),
    ensures
        trim_end(rest + after, k) == rest,
    decreases after.len(),
{
    if after.len() == 0 {
        assert(rest + after =~= rest);
    } else {
        let fewer = after.drop_last();
        assert(in_class(k, after[after.len() - 1]));
        assert((rest + after).last() == after[after.len() - 1]);
        assert((rest + after).drop_last() =~= rest + fewer);
        assert forall|i: int| 0 <= i < fewer.len() implies in_class(k, #[trigger] fewer[i]) by {
            assert(fewer[i] == after[i]);
        }
        law_trim_end(k, rest, fewer);
    }
}

// ---------------------------------------------------------------------
// Searching and splitting
// ---------------------------------------------------------------------

/// Whether a character stands nowhere in a text.
pub open spec fn lacks(text: Seq<char>, c: char) -> bool {
    forall|i: int| 0 <= i < text.len() ==> #[trigger] text[i] != c
}

/// A text is split at its first mark where the mark stands nowhere before it,
/// at its last where it stands nowhere after it, and not at all where there
/// is none.
pub proof fn law_split(before: Seq<char>, after: Seq<char>, c: char)
    ensures
        lacks(before, c) ==> split_first(before + seq![c] + after, c) == Some((before, after)),
        lacks(before, c) ==> find_from(before + seq![c] + after, c, 0) == Some(
            before.len() as int,
        ),
        lacks(after, c) ==> split_last(before + seq![c] + after, c) == Some((before, after)),
        lacks(before, c) ==> split_first(before, c) is None && split_last(before, c) is None
            && find_from(before, c, 0) is None,
{
    let all = before + seq![c] + after;
    let n = before.len() as int;
    assert(all[n] == c);
    assert(all.take(n) =~= before);
    assert(all.skip(n + 1) =~= after);
    lemma_find_from(before, c, 0);
    lemma_rfind(before, c);
    lemma_rfind(all, c);
    if lacks(before, c) {
        assert forall|j: int| 0 <= j < n implies all[j] != c by {
            assert(all[j] == before[j]);
        }
        lemma_find_first(all, c, 0, n);
    }
    if lacks(after, c) {
        let at = rfind(all, c)->0;
        if at > n {
            assert(all[at] == after[at - n - 1]);
        }
    }
}

/// A part stands in a text exactly where the text is something, the part, and
/// something more.
pub proof fn law_holds_text(before: Seq<char>, part: Seq<char>, after: Seq<char>)
    ensures
        holds_text(before + part + after, part),
        forall|text: Seq<char>| #[trigger]
            holds_text(text, part) ==> exists|a: Seq<char>, b: Seq<char>| text == a + part + b,
{
    let all = before + part + after;
    let n = before.len() as int;
    assert(all.subrange(n, n + part.len()) =~= part);
    assert(stands_at(all, part, n));
    assert forall|text: Seq<char>| #[trigger] holds_text(text, part) implies exists|
        a: Seq<char>,
        b: Seq<char>,
    | text == a + part + b by {
        let at = choose|at: int| stands_at(text, part, at);
        let a = text.take(at);
        let b = text.skip(at + part.len());
        assert(text =~= a + part + b);
    }
}

/// The first word of a text is what stands after white space and before more
/// of it, whatever follows; a text of white space alone has none.
pub proof fn law_first_word(space: Seq<char>, word: Seq<char>, rest: Seq<char>)
    requires
        all_in(Class::White, space),
        forall|i: int| 0 <= i < word.len() ==> !is_white(#[trigger] word[i]),
        rest.len() > 0 ==> is_white(rest[0]),
    ensures
        word.len() > 0 ==> first_word(space + word + rest) == Some((word, rest)),
        first_word(space) is None,
{
    let none = Seq::<char>::empty();
    law_trim_start(Class::White, space, none);
    assert(space + none =~= space);
    if word.len() > 0 {
        let text = word + rest;
        assert(!is_white(word[0]));
        assert(text.first() == word[0]);
        law_trim_start(Class::White, space, text);
        assert(space + word + rest =~= space + text);
        lemma_word_end(text, 0, word.len() as int);
        assert(text.take(word.len() as int) =~= word);
        assert(text.skip(word.len() as int) =~= rest);
    }
}

/// A word ends at the first white space.
proof fn lemma_word_end(text: Seq<char>, from: int, at: int)
    requires
        0 <= from <= at <= text.len(),
        forall|i: int| from <= i < at ==> !is_white(#[trigger] text[i]),
        at < text.len() ==> is_white(text[at]),
    ensures
        white_from(text, from) == at,
    decreases at - from,
{
    if from < at {
        assert(!is_white(text[from]));
        lemma_word_end(text, from + 1, at);
    }
}

// ---------------------------------------------------------------------
// Paths
// ---------------------------------------------------------------------

/// The href of a path is the path without the slashes at its end, and none
/// but those.
pub proof fn law_href_is_the_path_without_end_slashes(href: Seq<char>, slashes: Seq<char>)
    requires
        href.len() > 0 ==> href.last() != '/',
        forall|i: int| 0 <= i < slashes.len() ==> #[trigger] slashes[i] == '/',
    ensures
        href_of(href + slashes) == href,
{
    law_trim_end(Class::Slash, href, slashes);
}

/// A href is split at its last slash into a collection and a name there; one
/// without a slash has neither.
pub proof fn law_parts_are_around_the_last_slash(collection: Seq<char>, name: Seq<char>)
    requires
        lacks(name, '/'),
    ensures
        parts_of(collection + seq!['/'] + name) == (collection, name),
        parts_of(name) == (Seq::<char>::empty(), Seq::<char>::empty()),
{
    law_split(collection, name, '/');
    law_split(name, name, '/');
}

// ---------------------------------------------------------------------
// Letters
// ---------------------------------------------------------------------

/// Texts are the same but for the case of letters where they are as long, and
/// at each place the same or an ASCII letter in its two cases.
pub proof fn law_same_letters(a: Seq<char>, b: Seq<char>)
    ensures
        same_letters(a, b) <==> {
            &&& a.len() == b.len()
            &&& forall|i: int|
                0 <= i < a.len() ==> {
                    ||| #[trigger] a[i] == b[i]
                    ||| 'A' <= a[i] <= 'Z' && b[i] as int == a[i] as int + 32
                    ||| 'A' <= b[i] <= 'Z' && a[i] as int == b[i] as int + 32
                }
        },
        holds_letters(a, b) <==> exists|at: int|
            0 <= at && at + b.len() <= a.len() && same_letters(
                #[trigger] a.subrange(at, at + b.len()),
                b,
            ),
{
    if same_letters(a, b) {
        assert forall|i: int| 0 <= i < a.len() implies {
            ||| #[trigger] a[i] == b[i]
            ||| 'A' <= a[i] <= 'Z' && b[i] as int == a[i] as int + 32
            ||| 'A' <= b[i] <= 'Z' && a[i] as int == b[i] as int + 32
        } by {
            assert(lower(a[i]) == lower(b[i]));
        }
    }
    if holds_letters(a, b) {
        let at = choose|at: int| letters_at(a, b, at);
        assert(same_letters(a.subrange(at, at + b.len()), b));
    }
    if exists|at: int|
        0 <= at && at + b.len() <= a.len() && same_letters(
            #[trigger] a.subrange(at, at + b.len()),
            b,
        ) {
        let at = choose|at: int|
            0 <= at && at + b.len() <= a.len() && same_letters(
                #[trigger] a.subrange(at, at + b.len()),
                b,
            );
        assert(letters_at(a, b, at));
    }
}

// ---------------------------------------------------------------------
// Numbers
// ---------------------------------------------------------------------

/// A number is written in decimal: digits alone, no zero before others, and
/// what they count, place by place, is the number.
pub proof fn law_decimal(n: nat)
    ensures
        decimal(n).len() > 0,
        forall|i: int| 0 <= i < decimal(n).len() ==> '0' <= #[trigger] decimal(n)[i] <= '9',
        decimal(n)[0] == '0' ==> n == 0 && decimal(n).len() == 1,
        n < 10 ==> decimal(n) == seq![(48 + n) as char],
        n >= 10 ==> decimal(n) == decimal(n / 10) + seq![(48 + n % 10) as char],
    decreases n,
{
    lemma_decimal(n);
    assert forall|i: int| 0 <= i < decimal(n).len() implies '0' <= #[trigger] decimal(n)[i]
        <= '9' by {
        assert(is_digit(decimal(n)[i]));
    }
    if n >= 10 {
        law_decimal(n / 10);
        assert(decimal(n)[0] == decimal(n / 10)[0]);
        assert(decimal(n) =~= decimal(n / 10) + seq![(48 + n % 10) as char]);
    }
}

/// What digits count: nothing for none, and one more digit is ten times as
/// much and that digit.
pub proof fn law_digits_count(digits: Seq<char>, digit: char)
    requires
        '0' <= digit <= '9',
    ensures
        digits_value(Seq::empty()) == 0,
        digits_value(digits + seq![digit]) == digits_value(digits) * 10 + (digit as int - 48),
{
    let more = digits + seq![digit];
    assert(more.drop_last() =~= digits);
    assert(more.last() == digit);
}

/// A text writes a number where it is digits, at least one, perhaps after a
/// plus sign, and what they count is within the limit; else it writes none.
pub proof fn law_number(digits: Seq<char>, max: nat)
    ensures
        digits.len() > 0 && (forall|i: int|
            0 <= i < digits.len() ==> '0' <= #[trigger] digits[i] <= '9') ==> {
            let read = if digits_value(digits) <= max {
                Some(digits_value(digits))
            } else {
                None
            };
            &&& number(digits, max) == read
            &&& number(seq!['+'] + digits, max) == read
        },
        number(digits, max) is Some ==> {
            let rest = if digits[0] == '+' {
                digits.skip(1)
            } else {
                digits
            };
            &&& rest.len() > 0
            &&& forall|i: int| 0 <= i < rest.len() ==> '0' <= #[trigger] rest[i] <= '9'
        },
{
    let signed = seq!['+'] + digits;
    assert(signed.skip(1) =~= digits);
    if digits.len() > 0 && (forall|i: int|
        0 <= i < digits.len() ==> '0' <= #[trigger] digits[i] <= '9') {
        assert('0' <= digits[0]);
        assert(unsigned_part(digits) == digits);
        assert(unsigned_part(signed) == digits);
        assert forall|i: int| 0 <= i < digits.len() implies is_digit(#[trigger] digits[i]) by {}
    }
    if number(digits, max) is Some {
        let rest = unsigned_part(digits);
        assert forall|i: int| 0 <= i < rest.len() implies '0' <= #[trigger] rest[i] <= '9' by {
            assert(is_digit(rest[i]));
        }
    }
}

} // verus!
