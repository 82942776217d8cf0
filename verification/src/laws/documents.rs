//! What is read out of any document, whoever wrote it.
//!
//! A document is its tags, each with the text before it, and text at the end
//! that holds no tag.

use vstd::prelude::*;
use crate::laws::prefixes::{lemma_element_with_tail, lemma_opens_with_tail, lemma_text_has_no_tag};
use crate::laws::tags::{
    clean, clean_piece, closing_piece, element_piece, lemma_element_found, lemma_name_end,
    lemma_opens_found, lemma_rendered_concat, opens_piece, sign,
};
use crate::laws::texts::{all_in, lacks, law_split, law_trim_start};
use crate::markup::{rendered, Piece};
use crate::text::{find_from, lemma_find_first, lemma_find_from, trim, Class};
use crate::xml::{
    closing_at, element_at, entity, escaped, escaped_char, lemma_closing_at, lemma_element_at,
    lemma_tag_at, local_name, member_of, members_from, opens_from, tag_at, token_in, unescaped,
    MemberView,
};

verus! {

// ---------------------------------------------------------------------
// Entities
// ---------------------------------------------------------------------

/// Each of the five entities is its character, and what follows is read on
/// from behind it. Any other character is itself, an ampersand too that
/// starts none of the five.
pub proof fn law_unescape(rest: Seq<char>, c: char)
    ensures
        unescaped(Seq::empty()) == Seq::<char>::empty(),
        unescaped(seq!['&', 'l', 't', ';'] + rest) == seq!['<'] + unescaped(rest),
        unescaped(seq!['&', 'g', 't', ';'] + rest) == seq!['>'] + unescaped(rest),
        unescaped(seq!['&', 'q', 'u', 'o', 't', ';'] + rest) == seq!['"'] + unescaped(rest),
        unescaped(seq!['&', 'a', 'p', 'o', 's', ';'] + rest) == seq!['\''] + unescaped(rest),
        unescaped(seq!['&', 'a', 'm', 'p', ';'] + rest) == seq!['&'] + unescaped(rest),
        ({
            let text = seq![c] + rest;
            ||| seq!['&', 'l', 't', ';'].is_prefix_of(text)
            ||| seq!['&', 'g', 't', ';'].is_prefix_of(text)
            ||| seq!['&', 'q', 'u', 'o', 't', ';'].is_prefix_of(text)
            ||| seq!['&', 'a', 'p', 'o', 's', ';'].is_prefix_of(text)
            ||| seq!['&', 'a', 'm', 'p', ';'].is_prefix_of(text)
            ||| unescaped(text) == seq![c] + unescaped(rest)
        }),
{
    lemma_entity(seq!['&', 'l', 't', ';'], rest);
    lemma_entity(seq!['&', 'g', 't', ';'], rest);
    lemma_entity(seq!['&', 'q', 'u', 'o', 't', ';'], rest);
    lemma_entity(seq!['&', 'a', 'p', 'o', 's', ';'], rest);
    lemma_entity(seq!['&', 'a', 'm', 'p', ';'], rest);
    assert((seq![c] + rest).skip(1) =~= rest);
}

/// An entity is found where it stands.
proof fn lemma_entity(name: Seq<char>, rest: Seq<char>)
    requires
        name == seq!['&', 'l', 't', ';'] || name == seq!['&', 'g', 't', ';'] || name == seq![
            '&',
            'q',
            'u',
            'o',
            't',
            ';',
        ] || name == seq!['&', 'a', 'p', 'o', 's', ';'] || name == seq!['&', 'a', 'm', 'p', ';'],
    ensures
        entity(name + rest) matches Some((c, n)) && n == name.len() && unescaped(name + rest)
            == seq![c] + unescaped(rest) && c == if name[1] == 'l' {
            '<'
        } else if name[1] == 'g' {
            '>'
        } else if name[1] == 'q' {
            '"'
        } else if name[2] == 'p' {
            '\''
        } else {
            '&'
        },
{
    let whole = name + rest;
    assert(name.is_prefix_of(whole));
    assert(whole[1] == name[1] && whole[2] == name[2] && whole[3] == name[3]);
    assert(whole.skip(name.len() as int) =~= rest);
    assert(seq!['&', 'l', 't', ';'].is_prefix_of(whole) ==> whole[1] == 'l');
    assert(seq!['&', 'g', 't', ';'].is_prefix_of(whole) ==> whole[1] == 'g');
    assert(seq!['&', 'q', 'u', 'o', 't', ';'].is_prefix_of(whole) ==> whole[1] == 'q');
    assert(seq!['&', 'a', 'p', 'o', 's', ';'].is_prefix_of(whole) ==> whole[2] == 'p');
}

/// Text is escaped part by part, and character by character: four characters
/// are written as their entities, and any other as itself.
pub proof fn law_escape(a: Seq<char>, b: Seq<char>, c: char)
    ensures
        escaped(Seq::empty()) == Seq::<char>::empty(),
        escaped(a + b) == escaped(a) + escaped(b),
        escaped(seq!['&']) == seq!['&', 'a', 'm', 'p', ';'],
        escaped(seq!['<']) == seq!['&', 'l', 't', ';'],
        escaped(seq!['>']) == seq!['&', 'g', 't', ';'],
        escaped(seq!['"']) == seq!['&', 'q', 'u', 'o', 't', ';'],
        c != '&' && c != '<' && c != '>' && c != '"' ==> escaped(seq![c]) == seq![c],
    decreases a.len(),
{
    lemma_escaped_one('&');
    lemma_escaped_one('<');
    lemma_escaped_one('>');
    lemma_escaped_one('"');
    lemma_escaped_one(c);
    if a.len() == 0 {
        assert(a + b =~= b);
        assert(escaped(a) + escaped(b) =~= escaped(b));
    } else {
        law_escape(a.skip(1), b, c);
        assert((a + b).skip(1) =~= a.skip(1) + b);
        assert((a + b)[0] == a[0]);
        assert(escaped(a + b) =~= escaped(a) + escaped(b));
    }
}

/// One character, escaped.
proof fn lemma_escaped_one(c: char)
    ensures
        escaped(seq![c]) == escaped_char(c),
{
    assert(seq![c].skip(1) =~= Seq::<char>::empty());
    assert(escaped(seq![c].skip(1)) =~= Seq::<char>::empty());
    assert(escaped(seq![c]) =~= escaped_char(c));
}

// ---------------------------------------------------------------------
// Tags
// ---------------------------------------------------------------------

/// Whether a text can stand in the name of a tag.
pub open spec fn in_name(text: Seq<char>) -> bool {
    lacks(text, ' ') && lacks(text, '/')
}

/// The local name of a tag is what stands after the slashes it starts with and
/// after the last colon of its name, which ends at a space or a slash.
pub proof fn law_local_name(
    slashes: Seq<char>,
    prefix: Seq<char>,
    name: Seq<char>,
    more: Seq<char>,
)
    requires
        all_in(Class::Slash, slashes),
        in_name(prefix),
        prefix.len() > 0 ==> prefix.last() == ':',
        in_name(name),
        lacks(name, ':'),
        more.len() > 0 ==> more[0] == ' ' || more[0] == '/',
        prefix.len() == 0 && name.len() == 0 && more.len() > 0 ==> more[0] == ' ',
    ensures
        local_name(slashes + prefix + name + more) == name,
{
    let full = prefix + name;
    let named = full + more;
    let raw = slashes + prefix + name + more;
    let n = full.len() as int;
    assert forall|j: int| 0 <= j < n implies #[trigger] full[j] != ' ' && full[j] != '/' by {
        if j < prefix.len() {
            assert(full[j] == prefix[j]);
        } else {
            assert(full[j] == name[j - prefix.len()]);
        }
    }
    assert forall|j: int| 0 <= j < n implies #[trigger] named[j] != ' ' && named[j] != '/' by {
        assert(named[j] == full[j]);
    }
    if more.len() > 0 {
        assert(named[n] == more[0]);
    }
    assert(raw =~= slashes + named);
    law_trim_start(Class::Slash, slashes, named);
    lemma_name_end(named, 0, n);
    assert(named.take(n) =~= full);
    if prefix.len() > 0 {
        let before = prefix.drop_last();
        law_split(before, name, ':');
        assert(full =~= before + seq![':'] + name);
        crate::text::lemma_rfind(full, ':');
        assert(full.skip(prefix.len() as int) =~= name);
        assert(full[prefix.len() - 1] == ':');
        let at = crate::text::rfind(full, ':')->0;
        if at > prefix.len() - 1 {
            assert(full[at] == name[at - prefix.len()]);
        }
    } else {
        assert(full =~= name);
        crate::text::lemma_rfind(name, ':');
    }
}

/// The first tag of a text is what stands between the first `<` and the first
/// `>` after it; a text without the one or the other has none.
pub proof fn law_tag(
    before: Seq<char>,
    text: Seq<char>,
    raw: Seq<char>,
    rest: Seq<char>,
)
    requires
        lacks(text, '<'),
        lacks(raw, '>'),
    ensures
        tag_at(before + text + seq!['<'] + raw + seq!['>'] + rest, before.len() as int) matches Some(
            tag,
        ) && tag.open == before.len() + text.len() && tag.close == tag.open + 1 + raw.len()
            && tag.local == local_name(raw) && tag.closes == (raw.len() > 0 && raw[0] == '/')
            && tag.empty == (raw.len() > 0 && raw.last() == '/'),
        tag_at(before + text, before.len() as int) is None,
        tag_at(before + text + seq!['<'] + raw, before.len() as int) is None,
{
    let start = before.len() as int;
    let open = start + text.len();
    let close = open + 1 + raw.len();
    let xml = before + text + seq!['<'] + raw + seq!['>'] + rest;
    assert forall|j: int| start <= j < open implies xml[j] != '<' by {
        assert(xml[j] == text[j - start]);
    }
    assert(xml[open] == '<');
    lemma_find_first(xml, '<', start, open);
    assert forall|j: int| open <= j < close implies xml[j] != '>' by {
        if j > open {
            assert(xml[j] == raw[j - open - 1]);
        }
    }
    assert(xml[close] == '>');
    lemma_find_first(xml, '>', open, close);
    assert(xml.subrange(open + 1, close) =~= raw);
    let bare = before + text;
    lemma_find_from(bare, '<', start);
    if let Some(i) = find_from(bare, '<', start) {
        assert(bare[i] == text[i - start]);
    }
    let half = before + text + seq!['<'] + raw;
    assert forall|j: int| start <= j < open implies half[j] != '<' by {
        assert(half[j] == text[j - start]);
    }
    assert(half[open] == '<');
    lemma_find_first(half, '<', start, open);
    lemma_find_from(half, '>', open);
    if let Some(i) = find_from(half, '>', open) {
        assert(i > open ==> half[i] == raw[i - open - 1]);
    }
}

/// A document is written tag by tag: some text, and a tag in its angle
/// brackets.
pub proof fn law_document_text(before: Seq<Piece>, text: Seq<char>, raw: Seq<char>, after: Seq<Piece>)
    ensures
        rendered(Seq::empty()) == Seq::<char>::empty(),
        rendered(before + seq![(text, raw)] + after) == rendered(before) + text + seq!['<'] + raw
            + seq!['>'] + rendered(after),
{
    reveal_strlit("<");
    reveal_strlit(">");
    let one = seq![(text, raw)];
    lemma_rendered_concat(before + one, after);
    lemma_rendered_concat(before, one);
    let none = Seq::<Piece>::empty();
    assert(one.drop_last() =~= none);
    assert(rendered(none) =~= Seq::<char>::empty());
    assert(rendered(one) == rendered(none) + crate::markup::piece_text((text, raw)));
    assert(rendered(before + one + after) =~= rendered(before) + text + seq!['<'] + raw + seq!['>']
        + rendered(after));
}

// ---------------------------------------------------------------------
// Elements
// ---------------------------------------------------------------------

/// Whether a tag opens a `name` element that another tag closes.
pub open spec fn opens_element(piece: Piece, name: Seq<char>) -> bool {
    let raw = piece.1;
    local_name(raw) == name && !(raw.len() > 0 && raw[0] == '/') && !(raw.len() > 0 && raw.last()
        == '/')
}

/// Whether a tag closes a `name` element.
pub open spec fn closes_element(piece: Piece, name: Seq<char>) -> bool {
    let raw = piece.1;
    local_name(raw) == name && raw.len() > 0 && raw[0] == '/'
}

/// How many of the tags open a `name` element.
pub open spec fn opened(pieces: Seq<Piece>, name: Seq<char>) -> nat {
    pieces.filter(|p: Piece| opens_element(p, name)).len()
}

/// How many of the tags close a `name` element.
pub open spec fn closed(pieces: Seq<Piece>, name: Seq<char>) -> nat {
    pieces.filter(|p: Piece| closes_element(p, name)).len()
}

/// Whether nothing is closed that was not opened before it.
pub open spec fn closes_its_own(pieces: Seq<Piece>, name: Seq<char>) -> bool {
    forall|n: int|
        0 <= n <= pieces.len() ==> closed(#[trigger] pieces.take(n), name) <= opened(
            pieces.take(n),
            name,
        )
}

/// Counting tag by tag.
proof fn lemma_count(pieces: Seq<Piece>, n: int, name: Seq<char>)
    requires
        0 <= n < pieces.len(),
    ensures
        opened(pieces.take(n + 1), name) == opened(pieces.take(n), name) + if opens_element(
            pieces[n],
            name,
        ) {
            1nat
        } else {
            0nat
        },
        closed(pieces.take(n + 1), name) == closed(pieces.take(n), name) + if closes_element(
            pieces[n],
            name,
        ) {
            1nat
        } else {
            0nat
        },
{
    reveal(Seq::filter);
    assert(pieces.take(n + 1).drop_last() =~= pieces.take(n));
    assert(pieces.take(n + 1).last() == pieces[n]);
}

/// What is looked for piece by piece is found behind what closes its own.
proof fn lemma_closing_behind(
    before: Seq<Piece>,
    inner: Seq<Piece>,
    after: Seq<Piece>,
    n: int,
    name: Seq<char>,
)
    requires
        closes_its_own(inner, name),
        0 <= n <= inner.len(),
    ensures
        ({
            let all = before + inner + after;
            let depth = (opened(inner.take(n), name) - closed(inner.take(n), name)) as nat;
            let left = (opened(inner, name) - closed(inner, name)) as nat;
            closing_piece(all, before.len() + n, name, depth) == closing_piece(
                all,
                (before.len() + inner.len()) as int,
                name,
                left,
            )
        }),
    decreases inner.len() - n,
{
    let all = before + inner + after;
    assert(closed(inner.take(n), name) <= opened(inner.take(n), name));
    if n == inner.len() {
        assert(inner.take(n) =~= inner);
    } else {
        assert(all[before.len() + n] == inner[n]);
        assert(closed(inner.take(n + 1), name) <= opened(inner.take(n + 1), name));
        lemma_count(inner, n, name);
        lemma_closing_behind(before, inner, after, n + 1, name);
    }
}

/// Whether no tag opens a `name` element.
pub open spec fn without(pieces: Seq<Piece>, name: Seq<char>) -> bool {
    forall|i: int| 0 <= i < pieces.len() ==> !opens_element(#[trigger] pieces[i], name)
}

/// Elements are not found where none opens.
proof fn lemma_element_behind(before: Seq<Piece>, after: Seq<Piece>, n: int, name: Seq<char>)
    requires
        without(before, name),
        0 <= n <= before.len(),
    ensures
        element_piece(before + after, n, name) == element_piece(
            before + after,
            before.len() as int,
            name,
        ),
    decreases before.len() - n,
{
    if n < before.len() {
        assert((before + after)[n] == before[n]);
        assert(!opens_element(before[n], name));
        lemma_element_behind(before, after, n + 1, name);
    }
}

/// The parts of a clean document are clean.
proof fn lemma_clean_parts(
    before: Seq<Piece>,
    open: Piece,
    inner: Seq<Piece>,
    close: Piece,
    after: Seq<Piece>,
)
    requires
        clean(before + seq![open] + inner + seq![close] + after),
    ensures
        clean(before),
        clean_piece(open),
        clean(inner),
        clean_piece(close),
        clean(after),
{
    let all = before + seq![open] + inner + seq![close] + after;
    let b = before.len() as int;
    let n = inner.len() as int;
    assert(all[b] == open);
    assert(all[b + 1 + n] == close);
    assert forall|k: int| 0 <= k < before.len() implies clean_piece(#[trigger] before[k]) by {
        assert(all[k] == before[k]);
    }
    assert forall|k: int| 0 <= k < inner.len() implies clean_piece(#[trigger] inner[k]) by {
        assert(all[b + 1 + k] == inner[k]);
    }
    assert forall|k: int| 0 <= k < after.len() implies clean_piece(#[trigger] after[k]) by {
        assert(all[b + 2 + n + k] == after[k]);
    }
}

/// The first `name` element of any document is the one that the first opening
/// tag of that name opens: its content goes on to the tag that closes it,
/// elements of the same name inside it and all.
pub proof fn law_element(
    before: Seq<Piece>,
    open: Piece,
    inner: Seq<Piece>,
    close: Piece,
    after: Seq<Piece>,
    tail: Seq<char>,
    name: Seq<char>,
)
    requires
        clean(before + seq![open] + inner + seq![close] + after),
        tag_at(tail, 0) is None,
        without(before, name),
        opens_element(open, name),
        closes_its_own(inner, name),
        opened(inner, name) == closed(inner, name),
        closes_element(close, name),
    ensures
        element_at(
            rendered(before + seq![open] + inner + seq![close] + after) + tail,
            0,
            name,
        ) == Some(
            (
                rendered(inner) + close.0,
                rendered(before + seq![open] + inner + seq![close]).len() as int,
            ),
        ),
{
    let all = before + seq![open] + inner + seq![close] + after;
    let start = before + seq![open];
    let rest = seq![close] + after;
    let b = before.len() as int;
    let j = b + 1 + inner.len();
    lemma_element_with_tail(all, tail, 0, name);
    lemma_element_found(all, 0, name);
    assert(all.take(0) =~= Seq::<Piece>::empty());
    assert(all =~= before + (seq![open] + inner + rest));
    lemma_element_behind(before, seq![open] + inner + rest, 0, name);
    assert(all[b] == open);
    assert(all =~= start + inner + rest);
    assert(inner.take(0) =~= Seq::<Piece>::empty());
    assert(opened(inner.take(0), name) == 0 && closed(inner.take(0), name) == 0) by {
        reveal(Seq::filter);
    }
    lemma_closing_behind(start, inner, rest, 0, name);
    assert(all[j] == close);
    assert(closing_piece(all, j, name, 0) == Some(j));
    assert(element_piece(all, 0, name) == Some((b, j)));
    assert(all.subrange(b + 1, j) =~= inner);
    assert(all.take(j + 1) =~= before + seq![open] + inner + seq![close]);
}

/// There is no `name` element in a document where none opens, nor where the
/// first that opens is never closed.
pub proof fn law_no_element(
    before: Seq<Piece>,
    open: Piece,
    rest: Seq<Piece>,
    tail: Seq<char>,
    name: Seq<char>,
)
    requires
        clean(before + seq![open] + rest),
        tag_at(tail, 0) is None,
        without(before, name),
        opens_element(open, name),
        closes_its_own(rest, name),
    ensures
        element_at(rendered(before + seq![open] + rest) + tail, 0, name) is None,
        element_at(rendered(before) + tail, 0, name) is None,
{
    let all = before + seq![open] + rest;
    let start = before + seq![open];
    let none = Seq::<Piece>::empty();
    let b = before.len() as int;
    assert(clean(before)) by {
        assert forall|k: int| 0 <= k < before.len() implies clean_piece(#[trigger] before[k]) by {
            assert(all[k] == before[k]);
        }
    }
    lemma_element_with_tail(all, tail, 0, name);
    lemma_element_found(all, 0, name);
    assert(all.take(0) =~= none);
    assert(all =~= before + (seq![open] + rest));
    lemma_element_behind(before, seq![open] + rest, 0, name);
    assert(all[b] == open);
    assert(all =~= start + rest + none);
    assert(rest.take(0) =~= none);
    assert(opened(rest.take(0), name) == 0 && closed(rest.take(0), name) == 0) by {
        reveal(Seq::filter);
    }
    lemma_closing_behind(start, rest, none, 0, name);
    lemma_element_with_tail(before, tail, 0, name);
    lemma_element_found(before, 0, name);
    assert(before.take(0) =~= none);
    assert(before + none =~= before);
    lemma_element_behind(before, none, 0, name);
}

// ---------------------------------------------------------------------
// Members
// ---------------------------------------------------------------------

/// Whether a tag opens a `name` element, closed in itself or not.
pub open spec fn starts_element(piece: Piece, name: Seq<char>) -> bool {
    local_name(piece.1) == name && !(piece.1.len() > 0 && piece.1[0] == '/')
}

/// What is read of a `response` element: a member where it has an href
/// element, with that href trimmed and unescaped. The member is locked exactly
/// where some tag in the element opens an `activelock`, and a collection
/// exactly where some tag opens a `collection`, whatever else stands there.
pub proof fn law_member(pieces: Seq<Piece>, tail: Seq<char>)
    requires
        clean(pieces),
        tag_at(tail, 0) is None,
    ensures
        ({
            let content = rendered(pieces) + tail;
            match element_at(content, 0, "href"@) {
                None => member_of(content) is None,
                Some((href, _)) => {
                    &&& member_of(content) is Some
                    &&& member_of(content)->0.href == unescaped(trim(href, Class::White))
                    &&& member_of(content)->0.locked <==> exists|i: int|
                        0 <= i < pieces.len() && starts_element(
                            #[trigger] pieces[i],
                            "activelock"@,
                        )
                    &&& member_of(content)->0.collection <==> exists|i: int|
                        0 <= i < pieces.len() && starts_element(
                            #[trigger] pieces[i],
                            "collection"@,
                        )
                },
            }
        }),
{
    lemma_starts(pieces, tail, "activelock"@);
    lemma_starts(pieces, tail, "collection"@);
}

/// Whether an element opens in a document.
proof fn lemma_starts(pieces: Seq<Piece>, tail: Seq<char>, name: Seq<char>)
    requires
        clean(pieces),
        tag_at(tail, 0) is None,
    ensures
        opens_from(rendered(pieces) + tail, 0, name) <==> exists|i: int|
            0 <= i < pieces.len() && starts_element(#[trigger] pieces[i], name),
{
    assert(pieces.take(0) =~= Seq::<Piece>::empty());
    lemma_opens_with_tail(pieces, tail, 0, name);
    lemma_opens_found(pieces, 0, name);
    if opens_piece(pieces, 0, name) {
        let i = choose|i: int|
            0 <= i < pieces.len() && (#[trigger] sign(pieces[i])).local == name && !sign(
                pieces[i],
            ).closes;
        assert(starts_element(pieces[i], name));
    }
    if exists|i: int| 0 <= i < pieces.len() && starts_element(#[trigger] pieces[i], name) {
        let i = choose|i: int| 0 <= i < pieces.len() && starts_element(#[trigger] pieces[i], name);
        assert(sign(pieces[i]).local == name && !sign(pieces[i]).closes);
    }
}

/// A tag stands as far behind as there is text before it.
proof fn lemma_tag_shift(before: Seq<char>, xml: Seq<char>, from: int)
    requires
        0 <= from <= xml.len(),
    ensures
        match tag_at(xml, from) {
            None => tag_at(before + xml, before.len() + from) is None,
            Some(t) => tag_at(before + xml, before.len() + from) == Some(
                crate::xml::TagView {
                    open: before.len() + t.open,
                    close: before.len() + t.close,
                    ..t
                },
            ),
        },
{
    let all = before + xml;
    let b = before.len() as int;
    lemma_find_shift(before, xml, '<', from);
    lemma_find_from(xml, '<', from);
    if let Some(open) = find_from(xml, '<', from) {
        lemma_find_shift(before, xml, '>', open);
        lemma_find_from(xml, '>', open);
        if let Some(close) = find_from(xml, '>', open) {
            assert(all.subrange(b + open + 1, b + close) =~= xml.subrange(open + 1, close));
        }
    }
}

/// What is found stands as far behind as there is text before it.
proof fn lemma_find_shift(before: Seq<char>, xml: Seq<char>, c: char, from: int)
    requires
        0 <= from <= xml.len(),
    ensures
        find_from(before + xml, c, before.len() + from) == match find_from(xml, c, from) {
            None => None,
            Some(i) => Some(before.len() + i),
        },
    decreases xml.len() - from,
{
    if from < xml.len() {
        assert((before + xml)[before.len() + from] == xml[from]);
        if xml[from] != c {
            lemma_find_shift(before, xml, c, from + 1);
        }
    }
}

/// A closing tag stands as far behind as there is text before it.
proof fn lemma_closing_shift(
    before: Seq<char>,
    xml: Seq<char>,
    from: int,
    name: Seq<char>,
    depth: nat,
)
    requires
        0 <= from <= xml.len(),
    ensures
        closing_at(before + xml, before.len() + from, name, depth) == match closing_at(
            xml,
            from,
            name,
            depth,
        ) {
            None => None,
            Some(i) => Some(before.len() + i),
        },
    decreases xml.len() - from,
{
    lemma_tag_at(xml, from);
    lemma_tag_shift(before, xml, from);
    if let Some(t) = tag_at(xml, from) {
        let next = t.close + 1;
        if t.local != name || (!t.closes && t.empty) {
            lemma_closing_shift(before, xml, next, name, depth);
        } else if t.closes {
            if depth > 0 {
                lemma_closing_shift(before, xml, next, name, (depth - 1) as nat);
            }
        } else {
            lemma_closing_shift(before, xml, next, name, depth + 1);
        }
    }
}

/// An element stands as far behind as there is text before it.
proof fn lemma_element_shift(before: Seq<char>, xml: Seq<char>, from: int, name: Seq<char>)
    requires
        0 <= from <= xml.len(),
    ensures
        element_at(before + xml, before.len() + from, name) == match element_at(xml, from, name) {
            None => None,
            Some((content, after)) => Some((content, before.len() + after)),
        },
    decreases xml.len() - from,
{
    let all = before + xml;
    let b = before.len() as int;
    lemma_tag_at(xml, from);
    lemma_tag_shift(before, xml, from);
    if let Some(t) = tag_at(xml, from) {
        if t.local == name && !t.closes && !t.empty {
            lemma_closing_shift(before, xml, t.close + 1, name, 0);
            lemma_closing_at(xml, t.close + 1, name, 0);
            if let Some(end) = closing_at(xml, t.close + 1, name, 0) {
                lemma_find_shift(before, xml, '>', end);
                assert(all.subrange(b + t.close + 1, b + end) =~= xml.subrange(t.close + 1, end));
            }
        } else {
            lemma_element_shift(before, xml, t.close + 1, name);
        }
    }
}

/// Members are read from a place as from what stands there.
proof fn lemma_members_shift(before: Seq<char>, xml: Seq<char>, from: int)
    requires
        0 <= from <= xml.len(),
    ensures
        members_from(before + xml, before.len() + from) == members_from(xml, from),
    decreases xml.len() - from,
{
    lemma_element_at(xml, from, "response"@);
    lemma_element_shift(before, xml, from, "response"@);
    if let Some((content, after)) = element_at(xml, from, "response"@) {
        lemma_members_shift(before, xml, after);
    }
}

/// The members of any document are what its first `response` element speaks
/// of, where it speaks of a member, and then the members of what follows that
/// element.
pub proof fn law_members(
    before: Seq<Piece>,
    open: Piece,
    inner: Seq<Piece>,
    close: Piece,
    after: Seq<Piece>,
    tail: Seq<char>,
)
    requires
        clean(before + seq![open] + inner + seq![close] + after),
        tag_at(tail, 0) is None,
        without(before, "response"@),
        opens_element(open, "response"@),
        closes_its_own(inner, "response"@),
        opened(inner, "response"@) == closed(inner, "response"@),
        closes_element(close, "response"@),
    ensures
        members_from(rendered(before + seq![open] + inner + seq![close] + after) + tail, 0) == (
        match member_of(rendered(inner) + close.0) {
            Some(member) => seq![member],
            None => Seq::<MemberView>::empty(),
        }) + members_from(rendered(after) + tail, 0),
{
    let done = before + seq![open] + inner + seq![close];
    let all = done + after;
    law_element(before, open, inner, close, after, tail, "response"@);
    lemma_rendered_concat(done, after);
    let rest = rendered(after) + tail;
    assert(rendered(all) + tail =~= rendered(done) + rest);
    lemma_members_shift(rendered(done), rest, 0);
    let more = members_from(rest, 0);
    assert(Seq::<MemberView>::empty() + more =~= more);
}

/// A document has no members where no `response` opens, nor from the first
/// that is never closed on.
pub proof fn law_no_members(before: Seq<Piece>, open: Piece, rest: Seq<Piece>, tail: Seq<char>)
    requires
        clean(before + seq![open] + rest),
        tag_at(tail, 0) is None,
        without(before, "response"@),
        opens_element(open, "response"@),
        closes_its_own(rest, "response"@),
    ensures
        members_from(rendered(before) + tail, 0).len() == 0,
        members_from(rendered(before + seq![open] + rest) + tail, 0).len() == 0,
{
    law_no_element(before, open, rest, tail, "response"@);
}

/// What the first `response` element of any document says of its member: it is
/// locked exactly where a tag inside opens an `activelock`, and a collection
/// exactly where one opens a `collection`.
pub proof fn law_first_member(
    before: Seq<Piece>,
    open: Piece,
    inner: Seq<Piece>,
    close: Piece,
    after: Seq<Piece>,
    tail: Seq<char>,
)
    requires
        clean(before + seq![open] + inner + seq![close] + after),
        tag_at(tail, 0) is None,
        without(before, "response"@),
        opens_element(open, "response"@),
        closes_its_own(inner, "response"@),
        opened(inner, "response"@) == closed(inner, "response"@),
        closes_element(close, "response"@),
        element_at(rendered(inner) + close.0, 0, "href"@) is Some,
    ensures
        ({
            let members = members_from(
                rendered(before + seq![open] + inner + seq![close] + after) + tail,
                0,
            );
            &&& members.len() > 0
            &&& element_at(rendered(inner) + close.0, 0, "href"@) matches Some((href, _))
                && members[0].href == unescaped(trim(href, Class::White))
            &&& members[0].locked <==> exists|i: int|
                0 <= i < inner.len() && starts_element(#[trigger] inner[i], "activelock"@)
            &&& members[0].collection <==> exists|i: int|
                0 <= i < inner.len() && starts_element(#[trigger] inner[i], "collection"@)
        }),
{
    law_members(before, open, inner, close, after, tail);
    lemma_clean_parts(before, open, inner, close, after);
    lemma_text_has_no_tag(close);
    law_member(inner, close.0);
}

/// The lock token of any document is the first href of its first `locktoken`
/// element, trimmed and unescaped; there is none where either is missing.
pub proof fn law_token(xml: Seq<char>)
    ensures
        match element_at(xml, 0, "locktoken"@) {
            None => token_in(xml) is None,
            Some((content, _)) => match element_at(content, 0, "href"@) {
                None => token_in(xml) is None,
                Some((href, _)) => token_in(xml) == Some(unescaped(trim(href, Class::White))),
            },
        },
{
}

} // verus!
