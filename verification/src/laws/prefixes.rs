//! A document reads the same whatever namespace prefixes its server chose.

use vstd::prelude::*;
use crate::laws::tags::{
    clean, clean_piece, closing_piece, element_piece, law_prefix_does_not_matter,
    lemma_element_found, lemma_no_tag_left, lemma_opens_found, lemma_rendered_concat,
    lemma_tag_found, offset, opens_piece, plain_name, sign, tag_of,
};
use crate::markup::{piece_text, rendered, Piece};
use crate::text::{find_from, lemma_find_from, trim, Class};
use crate::xml::{
    closing_at, element_at, lemma_closing_at, lemma_tag_at, member_of, members_from, opens_from,
    tag_at, token_in, unescaped,
};

verus! {

// ---------------------------------------------------------------------
// Text after the last tag
// ---------------------------------------------------------------------

/// Text after a tag does not change it.
proof fn lemma_tag_before_tail(xml: Seq<char>, tail: Seq<char>, from: int)
    requires
        tag_at(xml, from) is Some,
    ensures
        tag_at(xml + tail, from) == tag_at(xml, from),
{
    let whole = xml + tail;
    let tag = tag_at(xml, from)->0;
    lemma_tag_at(xml, from);
    lemma_find_from(xml, '<', from);
    lemma_find_from(xml, '>', tag.open);
    lemma_find_from(whole, '<', from);
    assert(whole[tag.open] == '<');
    assert forall|j: int| from <= j < tag.open implies whole[j] != '<' by {
        assert(whole[j] == xml[j]);
    }
    assert(find_from(whole, '<', from) == Some(tag.open));
    lemma_find_from(whole, '>', tag.open);
    assert(whole[tag.close] == '>');
    assert forall|j: int| tag.open <= j < tag.close implies whole[j] != '>' by {
        assert(whole[j] == xml[j]);
    }
    assert(find_from(whole, '>', tag.open) == Some(tag.close));
    assert(whole.subrange(tag.open + 1, tag.close) =~= xml.subrange(tag.open + 1, tag.close));
}

/// Where there is no tag in what follows, none is found there.
proof fn lemma_no_tag_in_tail(xml: Seq<char>, tail: Seq<char>)
    requires
        tag_at(tail, 0) is None,
    ensures
        tag_at(xml + tail, xml.len() as int) is None,
{
    let whole = xml + tail;
    let n = xml.len() as int;
    lemma_find_from(whole, '<', n);
    if let Some(open) = find_from(whole, '<', n) {
        lemma_find_from(whole, '>', open);
        lemma_find_from(tail, '<', 0);
        assert(tail[open - n] == '<');
        assert forall|j: int| 0 <= j < open - n implies tail[j] != '<' by {
            assert(whole[n + j] == tail[j]);
        }
        assert(find_from(tail, '<', 0) == Some(open - n));
        lemma_find_from(tail, '>', open - n);
        if let Some(close) = find_from(whole, '>', open) {
            assert(tail[close - n] == '>');
        }
    }
}

/// A tag among pieces, or the lack of one after them, with text behind.
pub proof fn lemma_tag_with_tail(pieces: Seq<Piece>, tail: Seq<char>, k: int)
    requires
        clean(pieces),
        tag_at(tail, 0) is None,
        0 <= k <= pieces.len(),
    ensures
        tag_at(rendered(pieces) + tail, offset(pieces, k)) == tag_at(
            rendered(pieces),
            offset(pieces, k),
        ),
        k < pieces.len() ==> tag_at(rendered(pieces), offset(pieces, k)) == Some(
            tag_of(pieces, k),
        ),
        k == pieces.len() ==> tag_at(rendered(pieces), offset(pieces, k)) is None,
{
    if k < pieces.len() {
        lemma_tag_found(pieces, k);
        lemma_tag_before_tail(rendered(pieces), tail, offset(pieces, k));
    } else {
        lemma_no_tag_left(pieces);
        assert(pieces.take(k) =~= pieces);
        lemma_no_tag_in_tail(rendered(pieces), tail);
    }
}

/// Where an element closes does not depend on the text behind the last tag.
pub proof fn lemma_closing_with_tail(
    pieces: Seq<Piece>,
    tail: Seq<char>,
    k: int,
    name: Seq<char>,
    depth: nat,
)
    requires
        clean(pieces),
        tag_at(tail, 0) is None,
        0 <= k <= pieces.len(),
    ensures
        closing_at(rendered(pieces) + tail, offset(pieces, k), name, depth) == closing_at(
            rendered(pieces),
            offset(pieces, k),
            name,
            depth,
        ),
    decreases pieces.len() - k,
{
    lemma_tag_with_tail(pieces, tail, k);
    if k < pieces.len() {
        let s = sign(pieces[k]);
        if s.local != name || (!s.closes && s.empty) {
            lemma_closing_with_tail(pieces, tail, k + 1, name, depth);
        } else if s.closes {
            if depth > 0 {
                lemma_closing_with_tail(pieces, tail, k + 1, name, (depth - 1) as nat);
            }
        } else {
            lemma_closing_with_tail(pieces, tail, k + 1, name, depth + 1);
        }
    }
}

/// What element is found does not depend on the text behind the last tag.
pub proof fn lemma_element_with_tail(pieces: Seq<Piece>, tail: Seq<char>, k: int, name: Seq<char>)
    requires
        clean(pieces),
        tag_at(tail, 0) is None,
        0 <= k <= pieces.len(),
    ensures
        element_at(rendered(pieces) + tail, offset(pieces, k), name) == element_at(
            rendered(pieces),
            offset(pieces, k),
            name,
        ),
    decreases pieces.len() - k,
{
    let xml = rendered(pieces);
    let whole = xml + tail;
    lemma_tag_with_tail(pieces, tail, k);
    if k < pieces.len() {
        let s = sign(pieces[k]);
        let tag = tag_of(pieces, k);
        if s.local == name && !s.closes && !s.empty {
            lemma_closing_with_tail(pieces, tail, k + 1, name, 0);
            lemma_closing_at(xml, offset(pieces, k + 1), name, 0);
            if let Some(end) = closing_at(xml, offset(pieces, k + 1), name, 0) {
                let close = find_from(xml, '>', end)->0;
                lemma_find_from(xml, '>', end);
                lemma_find_from(whole, '>', end);
                assert(whole[close] == '>');
                assert forall|j: int| end <= j < close implies whole[j] != '>' by {
                    assert(whole[j] == xml[j]);
                }
                assert(find_from(whole, '>', end) == Some(close));
                assert(whole.subrange(tag.close + 1, end) =~= xml.subrange(tag.close + 1, end));
            }
        } else {
            lemma_element_with_tail(pieces, tail, k + 1, name);
        }
    }
}

/// Whether an element opens does not depend on the text behind the last tag.
pub proof fn lemma_opens_with_tail(pieces: Seq<Piece>, tail: Seq<char>, k: int, name: Seq<char>)
    requires
        clean(pieces),
        tag_at(tail, 0) is None,
        0 <= k <= pieces.len(),
    ensures
        opens_from(rendered(pieces) + tail, offset(pieces, k), name) == opens_from(
            rendered(pieces),
            offset(pieces, k),
            name,
        ),
    decreases pieces.len() - k,
{
    lemma_tag_with_tail(pieces, tail, k);
    if k < pieces.len() {
        lemma_opens_with_tail(pieces, tail, k + 1, name);
    }
}

// ---------------------------------------------------------------------
// Documents that say the same
// ---------------------------------------------------------------------

/// Whether two documents say the same: the same texts between tags that say
/// the same.
pub open spec fn say_the_same(a: Seq<Piece>, b: Seq<Piece>) -> bool {
    &&& a.len() == b.len()
    &&& forall|i: int|
        0 <= i < a.len() ==> (#[trigger] a[i]).0 == b[i].0 && sign(a[i]) == sign(b[i])
}

/// The href in a part of a document as it is read, of which the piece `i` of
/// the part opens it and the piece `j` closes it.
pub open spec fn href_read(pieces: Seq<Piece>, from: int, i: int, j: int) -> Seq<char> {
    unescaped(
        trim(
            rendered(pieces.subrange(from + i + 1, from + j)) + pieces[from + j].0,
            Class::White,
        ),
    )
}

/// Whether the first href in a part of two documents reads the same where a
/// tag stands inside it: that tag is read as part of the href.
pub open spec fn href_alike(a: Seq<Piece>, b: Seq<Piece>, from: int, to: int) -> bool {
    element_piece(a.subrange(from, to), 0, "href"@) matches Some((i, j)) ==> (i + 1 < j
        ==> href_read(a, from, i, j) == href_read(b, from, i, j))
}

/// Whether the hrefs that the members of two documents are read from, from
/// the piece `k` on, read the same where a tag stands inside them.
pub open spec fn member_hrefs_alike(a: Seq<Piece>, b: Seq<Piece>, k: int) -> bool
    decreases a.len() - k,
{
    proof {
        lemma_element_after(a, k, "response"@);
    }
    match element_piece(a, k, "response"@) {
        None => true,
        Some((i, j)) => href_alike(a, b, i + 1, j) && member_hrefs_alike(a, b, j + 1),
    }
}

/// Whether the href that the lock token of two documents is read from reads
/// the same where a tag stands inside it.
pub open spec fn token_href_alike(a: Seq<Piece>, b: Seq<Piece>) -> bool {
    element_piece(a, 0, "locktoken"@) matches Some((i, j)) ==> href_alike(a, b, i + 1, j)
}

/// What closes an element comes after it.
proof fn lemma_closing_after(pieces: Seq<Piece>, k: int, name: Seq<char>, depth: nat)
    ensures
        closing_piece(pieces, k, name, depth) matches Some(j) ==> 0 <= k <= j < pieces.len(),
    decreases pieces.len() - k,
{
    if 0 <= k < pieces.len() {
        lemma_closing_after(pieces, k + 1, name, depth);
        lemma_closing_after(pieces, k + 1, name, depth + 1);
        if depth > 0 {
            lemma_closing_after(pieces, k + 1, name, (depth - 1) as nat);
        }
    }
}

/// An element comes after the place it was looked for from.
pub proof fn lemma_element_after(pieces: Seq<Piece>, k: int, name: Seq<char>)
    ensures
        element_piece(pieces, k, name) matches Some((i, j)) ==> 0 <= k <= i < j < pieces.len(),
    decreases pieces.len() - k,
{
    if 0 <= k < pieces.len() {
        lemma_closing_after(pieces, k + 1, name, 0);
        lemma_element_after(pieces, k + 1, name);
    }
}

/// Elements close at the same place in documents that say the same.
proof fn lemma_closing_alike(a: Seq<Piece>, b: Seq<Piece>, k: int, name: Seq<char>, depth: nat)
    requires
        say_the_same(a, b),
    ensures
        closing_piece(a, k, name, depth) == closing_piece(b, k, name, depth),
    decreases a.len() - k,
{
    if 0 <= k < a.len() {
        assert(sign(a[k]) == sign(b[k]));
        let s = sign(a[k]);
        if s.local != name || (!s.closes && s.empty) {
            lemma_closing_alike(a, b, k + 1, name, depth);
        } else if s.closes {
            if depth > 0 {
                lemma_closing_alike(a, b, k + 1, name, (depth - 1) as nat);
            }
        } else {
            lemma_closing_alike(a, b, k + 1, name, depth + 1);
        }
    }
}

/// The same elements are found in documents that say the same.
proof fn lemma_element_alike(a: Seq<Piece>, b: Seq<Piece>, k: int, name: Seq<char>)
    requires
        say_the_same(a, b),
    ensures
        element_piece(a, k, name) == element_piece(b, k, name),
    decreases a.len() - k,
{
    if 0 <= k < a.len() {
        assert(sign(a[k]) == sign(b[k]));
        lemma_closing_alike(a, b, k + 1, name, 0);
        lemma_element_alike(a, b, k + 1, name);
    }
}

/// The same elements open in documents that say the same.
proof fn lemma_opens_alike(a: Seq<Piece>, b: Seq<Piece>, name: Seq<char>)
    requires
        say_the_same(a, b),
        opens_piece(a, 0, name),
    ensures
        opens_piece(b, 0, name),
{
    let i = choose|i: int|
        0 <= i < a.len() && (#[trigger] sign(a[i])).local == name && !sign(a[i]).closes;
    assert(sign(a[i]) == sign(b[i]));
}

/// A part of a clean document is clean.
proof fn lemma_part(a: Seq<Piece>, b: Seq<Piece>, from: int, to: int)
    requires
        clean(a),
        say_the_same(a, b),
        0 <= from <= to <= a.len(),
    ensures
        clean(a.subrange(from, to)),
        say_the_same(a.subrange(from, to), b.subrange(from, to)),
{
    let x = a.subrange(from, to);
    let y = b.subrange(from, to);
    assert forall|i: int| 0 <= i < x.len() implies clean_piece(#[trigger] x[i]) by {
        assert(x[i] == a[from + i]);
    }
    assert forall|i: int| 0 <= i < x.len() implies (#[trigger] x[i]).0 == y[i].0 && sign(x[i])
        == sign(y[i]) by {
        assert(x[i] == a[from + i]);
        assert(y[i] == b[from + i]);
    }
}

/// The text of a clean piece holds no tag.
pub proof fn lemma_text_has_no_tag(piece: Piece)
    requires
        clean_piece(piece),
    ensures
        tag_at(piece.0, 0) is None,
{
    lemma_find_from(piece.0, '<', 0);
}

/// The href in a part of two documents that say the same reads the same.
proof fn lemma_href_alike(
    a: Seq<Piece>,
    b: Seq<Piece>,
    from: int,
    to: int,
    tail: Seq<char>,
)
    requires
        clean(a),
        clean(b),
        say_the_same(a, b),
        say_the_same(b, a),
        href_alike(a, b, from, to),
        0 <= from <= to <= a.len(),
        tag_at(tail, 0) is None,
    ensures
        ({
            let one = element_at(rendered(a.subrange(from, to)) + tail, 0, "href"@);
            let other = element_at(rendered(b.subrange(from, to)) + tail, 0, "href"@);
            match (one, other) {
                (Some(x), Some(y)) => unescaped(trim(x.0, Class::White)) == unescaped(
                    trim(y.0, Class::White),
                ),
                (None, None) => true,
                _ => false,
            }
        }),
{
    let x = a.subrange(from, to);
    let y = b.subrange(from, to);
    let name = "href"@;
    lemma_part(a, b, from, to);
    lemma_part(b, a, from, to);
    lemma_element_with_tail(x, tail, 0, name);
    lemma_element_with_tail(y, tail, 0, name);
    lemma_element_found(x, 0, name);
    lemma_element_found(y, 0, name);
    lemma_element_alike(x, y, 0, name);
    assert(x.take(0) =~= Seq::<Piece>::empty());
    assert(y.take(0) =~= Seq::<Piece>::empty());
    if let Some((i, j)) = element_piece(x, 0, name) {
        assert(x.subrange(i + 1, j) =~= a.subrange(from + i + 1, from + j));
        assert(y.subrange(i + 1, j) =~= b.subrange(from + i + 1, from + j));
        assert(x[j].0 == y[j].0);
        if i + 1 == j {
            assert(x.subrange(i + 1, j) =~= y.subrange(i + 1, j));
        }
    }
}

/// The member in a part of two documents that say the same is the same.
proof fn lemma_member_alike(
    a: Seq<Piece>,
    b: Seq<Piece>,
    from: int,
    to: int,
    tail: Seq<char>,
)
    requires
        clean(a),
        clean(b),
        say_the_same(a, b),
        say_the_same(b, a),
        href_alike(a, b, from, to),
        0 <= from <= to <= a.len(),
        tag_at(tail, 0) is None,
    ensures
        member_of(rendered(a.subrange(from, to)) + tail) == member_of(
            rendered(b.subrange(from, to)) + tail,
        ),
{
    let x = a.subrange(from, to);
    let y = b.subrange(from, to);
    lemma_part(a, b, from, to);
    lemma_part(b, a, from, to);
    lemma_href_alike(a, b, from, to, tail);
    assert(x.take(0) =~= Seq::<Piece>::empty());
    assert(y.take(0) =~= Seq::<Piece>::empty());
    assert forall|name: Seq<char>| opens_from(rendered(x) + tail, 0, name) == #[trigger] opens_from(
        rendered(y) + tail,
        0,
        name,
    ) by {
        lemma_opens_with_tail(x, tail, 0, name);
        lemma_opens_with_tail(y, tail, 0, name);
        lemma_opens_found(x, 0, name);
        lemma_opens_found(y, 0, name);
        if opens_piece(x, 0, name) {
            lemma_opens_alike(x, y, name);
        }
        if opens_piece(y, 0, name) {
            lemma_opens_alike(y, x, name);
        }
    }
}

/// From the same place on, two documents that say the same have the same
/// members.
proof fn lemma_members_alike(a: Seq<Piece>, b: Seq<Piece>, tail: Seq<char>, k: int)
    requires
        clean(a),
        clean(b),
        say_the_same(a, b),
        say_the_same(b, a),
        member_hrefs_alike(a, b, k),
        tag_at(tail, 0) is None,
        0 <= k <= a.len(),
    ensures
        members_from(rendered(a) + tail, offset(a, k)) == members_from(
            rendered(b) + tail,
            offset(b, k),
        ),
    decreases a.len() - k,
{
    let name = "response"@;
    lemma_element_with_tail(a, tail, k, name);
    lemma_element_with_tail(b, tail, k, name);
    lemma_element_found(a, k, name);
    lemma_element_found(b, k, name);
    lemma_element_alike(a, b, k, name);
    if let Some((i, j)) = element_piece(a, k, name) {
        assert(clean_piece(a[j]));
        lemma_text_has_no_tag(a[j]);
        assert(a[j].0 == b[j].0);
        lemma_member_alike(a, b, i + 1, j, a[j].0);
        lemma_members_alike(a, b, tail, j + 1);
    }
}

// ---------------------------------------------------------------------
// Prefixes
// ---------------------------------------------------------------------

/// Whether what stands before a name is a namespace prefix and its colon, or
/// nothing.
pub open spec fn is_prefix(text: Seq<char>) -> bool {
    text.len() > 0 ==> {
        &&& text.len() > 1
        &&& text.last() == ':'
        &&& forall|i: int|
            0 <= i < text.len() - 1 ==> #[trigger] text[i] != ' ' && text[i] != '/'
    }
}

/// What stands between the angle brackets of a tag: a slash where it closes,
/// a prefix, a name, and what follows the name.
pub open spec fn raw_tag(
    closes: bool,
    prefix: Seq<char>,
    name: Seq<char>,
    more: Seq<char>,
) -> Seq<char> {
    (if closes {
        seq!['/']
    } else {
        Seq::empty()
    }) + prefix + name + more
}

/// Whether two tags are the same but for their namespace prefixes.
pub open spec fn same_but_prefix(a: Seq<char>, b: Seq<char>) -> bool {
    ||| a == b
    ||| exists|closes: bool, p: Seq<char>, q: Seq<char>, name: Seq<char>, more: Seq<char>|
        {
            &&& a == #[trigger] raw_tag(closes, p, name, more)
            &&& b == #[trigger] raw_tag(closes, q, name, more)
            &&& is_prefix(p)
            &&& is_prefix(q)
            &&& plain_name(name)
            &&& more.len() > 0 ==> more[0] == ' ' || more[0] == '/'
        }
}

/// What a tag with a prefix says is what it says without.
proof fn lemma_raw_tag(
    closes: bool,
    prefix: Seq<char>,
    name: Seq<char>,
    more: Seq<char>,
    text: Seq<char>,
)
    requires
        is_prefix(prefix),
        plain_name(name),
        more.len() > 0 ==> more[0] == ' ' || more[0] == '/',
    ensures
        sign((text, raw_tag(closes, prefix, name, more))) == (crate::laws::tags::Sign {
            local: name,
            closes,
            empty: more.len() > 0 && more.last() == '/',
        }),
{
    let raw = raw_tag(closes, prefix, name, more);
    if prefix.len() > 0 {
        let p = prefix.drop_last();
        assert forall|i: int| 0 <= i < p.len() implies #[trigger] p[i] != ' ' && p[i] != '/' by {
            assert(p[i] == prefix[i]);
        }
        law_prefix_does_not_matter(p, name, more);
        if closes {
            assert(raw =~= seq!['/'] + p + seq![':'] + name + more);
        } else {
            assert(raw =~= p + seq![':'] + name + more);
            assert(raw[0] == prefix[0]);
        }
    } else {
        law_prefix_does_not_matter(seq!['D'], name, more);
        if closes {
            assert(raw =~= seq!['/'] + name + more);
        } else {
            assert(raw =~= name + more);
            assert(raw[0] == name[0]);
        }
    }
    if closes {
        assert(raw[0] == '/');
    }
    if more.len() > 0 {
        assert(raw.last() == more.last());
    } else {
        assert(raw.last() == name[name.len() - 1]);
    }
}

/// Tags that are the same but for their prefixes say the same.
proof fn lemma_same_but_prefix(a: Piece, b: Piece)
    requires
        same_but_prefix(a.1, b.1),
    ensures
        sign(a) == sign(b),
{
    if a.1 != b.1 {
        let (closes, p, q, name, more) = choose|
            closes: bool,
            p: Seq<char>,
            q: Seq<char>,
            name: Seq<char>,
            more: Seq<char>,
        |
            {
                &&& a.1 == #[trigger] raw_tag(closes, p, name, more)
                &&& b.1 == #[trigger] raw_tag(closes, q, name, more)
                &&& is_prefix(p)
                &&& is_prefix(q)
                &&& plain_name(name)
                &&& more.len() > 0 ==> more[0] == ' ' || more[0] == '/'
            };
        lemma_raw_tag(closes, p, name, more, a.0);
        lemma_raw_tag(closes, q, name, more, b.0);
    }
}

/// Whether two documents are the same but for the namespace prefixes of their
/// tags.
pub open spec fn same_but_prefixes(a: Seq<Piece>, b: Seq<Piece>) -> bool {
    &&& a.len() == b.len()
    &&& forall|i: int|
        0 <= i < a.len() ==> (#[trigger] a[i]).0 == b[i].0 && same_but_prefix(a[i].1, b[i].1)
}

/// Documents that are the same but for the namespace prefixes of their tags
/// say the same.
proof fn lemma_same_but_prefixes(a: Seq<Piece>, b: Seq<Piece>)
    requires
        same_but_prefixes(a, b),
    ensures
        say_the_same(a, b),
        say_the_same(b, a),
{
    assert forall|i: int| 0 <= i < a.len() implies (#[trigger] a[i]).0 == b[i].0 && sign(a[i])
        == sign(b[i]) by {
        lemma_same_but_prefix(a[i], b[i]);
    }
    assert forall|i: int| 0 <= i < b.len() implies (#[trigger] b[i]).0 == a[i].0 && sign(b[i])
        == sign(a[i]) by {
        assert(a[i].0 == b[i].0);
    }
}

/// Elements are found by their local names: two documents that are the same
/// but for the namespace prefixes of their tags have the same members. A
/// document is its tags, each with the text before it, and text that holds no
/// tag. Left out is only a tag inside an href that a member is read from,
/// where its prefix makes that href read otherwise.
pub proof fn law_members_know_no_prefix(a: Seq<Piece>, b: Seq<Piece>, tail: Seq<char>)
    requires
        clean(a),
        clean(b),
        same_but_prefixes(a, b),
        member_hrefs_alike(a, b, 0),
        tag_at(tail, 0) is None,
    ensures
        members_from(rendered(a) + tail, 0) == members_from(rendered(b) + tail, 0),
{
    lemma_same_but_prefixes(a, b);
    assert(a.take(0) =~= Seq::<Piece>::empty());
    assert(b.take(0) =~= Seq::<Piece>::empty());
    lemma_members_alike(a, b, tail, 0);
}

/// Two documents that are the same but for the namespace prefixes of their
/// tags grant the same lock. Left out is only a tag inside the href that the
/// token is read from, where its prefix makes that href read otherwise.
pub proof fn law_lock_knows_no_prefix(a: Seq<Piece>, b: Seq<Piece>, tail: Seq<char>)
    requires
        clean(a),
        clean(b),
        same_but_prefixes(a, b),
        token_href_alike(a, b),
        tag_at(tail, 0) is None,
    ensures
        token_in(rendered(a) + tail) == token_in(rendered(b) + tail),
{
    lemma_same_but_prefixes(a, b);
    assert(a.take(0) =~= Seq::<Piece>::empty());
    assert(b.take(0) =~= Seq::<Piece>::empty());
    let name = "locktoken"@;
    lemma_element_with_tail(a, tail, 0, name);
    lemma_element_with_tail(b, tail, 0, name);
    lemma_element_found(a, 0, name);
    lemma_element_found(b, 0, name);
    lemma_element_alike(a, b, 0, name);
    if let Some((i, j)) = element_piece(a, 0, name) {
        assert(clean_piece(a[j]));
        lemma_text_has_no_tag(a[j]);
        assert(a[j].0 == b[j].0);
        lemma_href_alike(a, b, i + 1, j, a[j].0);
    }
}

/// Every text is a document: its tags, each with the text before it, and text
/// that holds no tag.
pub proof fn law_every_text_is_a_document(text: Seq<char>) -> (document: (Seq<Piece>, Seq<char>))
    ensures
        clean(document.0),
        tag_at(document.1, 0) is None,
        text == rendered(document.0) + document.1,
    decreases text.len(),
{
    match tag_at(text, 0) {
        None => {
            let none = Seq::<Piece>::empty();
            assert(rendered(none) + text =~= text);
            (none, text)
        },
        Some(tag) => {
            lemma_tag_at(text, 0);
            lemma_find_from(text, '<', 0);
            lemma_find_from(text, '>', tag.open);
            let piece = (text.take(tag.open), text.subrange(tag.open + 1, tag.close));
            let rest = text.skip(tag.close + 1);
            let (pieces, tail) = law_every_text_is_a_document(rest);
            let all = seq![piece] + pieces;
            lemma_rendered_concat(seq![piece], pieces);
            assert(seq![piece].drop_last() =~= Seq::<Piece>::empty());
            let none = Seq::<Piece>::empty();
            assert(rendered(none) =~= Seq::<char>::empty());
            assert(rendered(seq![piece]) == rendered(none) + piece_text(piece));
            assert(rendered(seq![piece]) =~= piece_text(piece));
            reveal_strlit("<");
            reveal_strlit(">");
            assert(text =~= piece_text(piece) + rest);
            assert(clean_piece(piece)) by {
                assert forall|i: int| 0 <= i < piece.1.len() implies #[trigger] piece.1[i]
                    != '>' by {
                    assert(piece.1[i] == text[tag.open + 1 + i]);
                }
            }
            assert forall|k: int| 0 <= k < all.len() implies clean_piece(#[trigger] all[k]) by {
                if k > 0 {
                    assert(all[k] == pieces[k - 1]);
                }
            }
            assert(text =~= rendered(all) + tail);
            (all, tail)
        },
    }
}

} // verus!
