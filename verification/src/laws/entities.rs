//! Text that is escaped into XML is the text that is read out of it.

use vstd::prelude::*;
use crate::text::{is_white, trim, trim_end, trim_start, Class};
use crate::xml::{entity, escaped, escaped_char, unescaped};

verus! {

/// What `escape` wrote, `unescape` reads back, whatever the text.
pub proof fn law_unescape_undoes_escape(text: Seq<char>)
    ensures
        unescaped(escaped(text)) == text,
    decreases text.len(),
{
    if text.len() > 0 {
        let c = text[0];
        let rest = escaped(text.skip(1));
        let whole = escaped(text);
        law_unescape_undoes_escape(text.skip(1));
        assert(whole == escaped_char(c) + rest);
        let n = escaped_char(c).len() as int;
        assert(whole.skip(n) =~= rest);
        if c == '&' || c == '<' || c == '>' || c == '"' {
            assert(escaped_char(c).is_prefix_of(whole));
            assert(whole[1] == escaped_char(c)[1]);
            assert(whole[2] == escaped_char(c)[2]);
            assert(whole[3] == escaped_char(c)[3]);
            if entity(whole) != Some((c, n)) {
                assert(seq!['&', 'l', 't', ';'].is_prefix_of(whole) ==> whole[1] == 'l');
                assert(seq!['&', 'g', 't', ';'].is_prefix_of(whole) ==> whole[1] == 'g');
                assert(seq!['&', 'q', 'u', 'o', 't', ';'].is_prefix_of(whole) ==> whole[1] == 'q');
                assert(seq!['&', 'a', 'p', 'o', 's', ';'].is_prefix_of(whole) ==> whole[2] == 'p');
            }
        } else {
            assert(whole[0] == c);
            assert(seq!['&', 'l', 't', ';'].is_prefix_of(whole) ==> whole[0] == '&');
            assert(seq!['&', 'g', 't', ';'].is_prefix_of(whole) ==> whole[0] == '&');
            assert(seq!['&', 'q', 'u', 'o', 't', ';'].is_prefix_of(whole) ==> whole[0] == '&');
            assert(seq!['&', 'a', 'p', 'o', 's', ';'].is_prefix_of(whole) ==> whole[0] == '&');
            assert(seq!['&', 'a', 'm', 'p', ';'].is_prefix_of(whole) ==> whole[0] == '&');
        }
        assert(text =~= seq![c] + text.skip(1));
    } else {
        assert(text =~= Seq::empty());
    }
}

/// Escaped text holds no markup.
pub proof fn law_escaped_text_holds_no_markup(text: Seq<char>)
    ensures
        forall|i: int|
            0 <= i < escaped(text).len() ==> #[trigger] escaped(text)[i] != '<' && escaped(text)[i]
                != '>' && escaped(text)[i] != '"',
    decreases text.len(),
{
    if text.len() > 0 {
        law_escaped_text_holds_no_markup(text.skip(1));
        let first = escaped_char(text[0]);
        let rest = escaped(text.skip(1));
        assert forall|i: int| 0 <= i < escaped(text).len() implies #[trigger] escaped(text)[i] != '<'
            && escaped(text)[i] != '>' && escaped(text)[i] != '"' by {
            if i < first.len() {
                assert(escaped(text)[i] == first[i]);
            } else {
                assert(escaped(text)[i] == rest[i - first.len()]);
            }
        }
    }
}

/// Text that is escaped character by character.
pub proof fn lemma_escaped_push(text: Seq<char>, c: char)
    ensures
        escaped(text.push(c)) == escaped(text) + escaped_char(c),
    decreases text.len(),
{
    if text.len() == 0 {
        assert(text.push(c).skip(1) =~= Seq::empty());
        assert(text.push(c)[0] == c);
        assert(escaped(Seq::<char>::empty()) == Seq::<char>::empty());
        assert(text =~= Seq::empty());
        assert(escaped(text.push(c)) =~= escaped(text) + escaped_char(c));
    } else {
        lemma_escaped_push(text.skip(1), c);
        assert(text.push(c).skip(1) =~= text.skip(1).push(c));
        assert(escaped(text.push(c)) =~= escaped(text) + escaped_char(c));
    }
}

/// White space is trimmed off escaped text as it is off the text.
pub proof fn lemma_trim_escaped(text: Seq<char>)
    ensures
        trim(escaped(text), Class::White) == escaped(trim(text, Class::White)),
{
    lemma_trim_start_escaped(text);
    lemma_trim_end_escaped(trim_start(text, Class::White));
}

proof fn lemma_trim_start_escaped(text: Seq<char>)
    ensures
        trim_start(escaped(text), Class::White) == escaped(trim_start(text, Class::White)),
    decreases text.len(),
{
    if text.len() > 0 {
        let whole = escaped(text);
        assert(whole.first() == escaped_char(text[0])[0]);
        if is_white(text[0]) {
            lemma_trim_start_escaped(text.skip(1));
            assert(text.drop_first() =~= text.skip(1));
            assert(whole.drop_first() =~= escaped(text.skip(1)));
        }
    }
}

proof fn lemma_trim_end_escaped(text: Seq<char>)
    ensures
        trim_end(escaped(text), Class::White) == escaped(trim_end(text, Class::White)),
    decreases text.len(),
{
    if text.len() > 0 {
        let whole = escaped(text);
        let last = escaped_char(text.last());
        lemma_escaped_push(text.drop_last(), text.last());
        assert(text.drop_last().push(text.last()) =~= text);
        assert(whole.last() == last[last.len() - 1]);
        if is_white(text.last()) {
            lemma_trim_end_escaped(text.drop_last());
            assert(whole.drop_last() =~= escaped(text.drop_last()));
        }
    }
}

} // verus!
