//! What is written piece by piece is found tag by tag.

use vstd::prelude::*;
use crate::markup::{closes, lone, opens, opens_root, piece_text, rendered, Piece};
use crate::text::{
    find_from, lemma_find_first, lemma_find_from, lemma_rfind, rfind, trim_start, Class,
};
use crate::xml::{
    closing_at, element_at, lemma_tag_at, local_name, name_end, opens_from, tag_at, TagView,
};

verus! {

// ---------------------------------------------------------------------
// Names
// ---------------------------------------------------------------------

/// Whether `name` is an element name without a namespace prefix.
pub open spec fn plain_name(name: Seq<char>) -> bool {
    &&& name.len() > 0
    &&& forall|i: int|
        0 <= i < name.len() ==> #[trigger] name[i] != ' ' && name[i] != '/' && name[i] != ':'
}

/// A name ends at the first space or slash.
pub proof fn lemma_name_end(s: Seq<char>, from: int, n: int)
    requires
        0 <= from <= n <= s.len(),
        forall|j: int| from <= j < n ==> #[trigger] s[j] != ' ' && s[j] != '/',
        n == s.len() || s[n] == ' ' || s[n] == '/',
    ensures
        name_end(s, from) == n,
    decreases n - from,
{
    if from < n {
        lemma_name_end(s, from + 1, n);
    }
}

/// The namespace prefix that a server chose does not matter: an element is
/// known by its local name.
pub proof fn law_prefix_does_not_matter(prefix: Seq<char>, name: Seq<char>, more: Seq<char>)
    requires
        plain_name(name),
        prefix.len() > 0,
        forall|i: int| 0 <= i < prefix.len() ==> #[trigger] prefix[i] != ' ' && prefix[i] != '/',
        more.len() == 0 || more[0] == ' ' || more[0] == '/',
    ensures
        local_name(prefix + seq![':'] + name + more) == name,
        local_name(seq!['/'] + prefix + seq![':'] + name + more) == name,
        local_name(name + more) == name,
        local_name(seq!['/'] + name + more) == name,
{
    let full = prefix + seq![':'] + name;
    let raw = full + more;
    assert(full.len() == prefix.len() + 1 + name.len());
    assert(trim_start(raw, Class::Slash) == raw) by {
        assert(raw[0] == prefix[0]);
    }
    assert forall|j: int| 0 <= j < full.len() implies #[trigger] raw[j] != ' ' && raw[j] != '/' by {
        if j < prefix.len() {
            assert(raw[j] == prefix[j]);
        } else if j > prefix.len() {
            assert(raw[j] == name[j - prefix.len() - 1]);
        }
    }
    if more.len() > 0 {
        assert(raw[full.len() as int] == more[0]);
    }
    lemma_name_end(raw, 0, full.len() as int);
    assert(raw.take(full.len() as int) =~= full);
    lemma_rfind(full, ':');
    assert(full[prefix.len() as int] == ':');
    assert forall|j: int| prefix.len() < j < full.len() implies full[j] != ':' by {
        assert(full[j] == name[j - prefix.len() - 1]);
    }
    assert(rfind(full, ':') == Some(prefix.len() as int));
    assert(full.skip(prefix.len() as int + 1) =~= name);
    let closing = seq!['/'] + prefix + seq![':'] + name + more;
    assert(closing.drop_first() =~= raw);
    assert(trim_start(closing, Class::Slash) == trim_start(raw, Class::Slash));
    let bare = name + more;
    assert(trim_start(bare, Class::Slash) == bare) by {
        assert(bare[0] == name[0]);
    }
    assert forall|j: int| 0 <= j < name.len() implies #[trigger] bare[j] != ' ' && bare[j] != '/' by {
        assert(bare[j] == name[j]);
    }
    if more.len() > 0 {
        assert(bare[name.len() as int] == more[0]);
    }
    lemma_name_end(bare, 0, name.len() as int);
    assert(bare.take(name.len() as int) =~= name);
    lemma_rfind(name, ':');
    assert((seq!['/'] + name + more).drop_first() =~= bare);
    assert(trim_start(seq!['/'] + name + more, Class::Slash) == trim_start(bare, Class::Slash));
}

/// What a tag says: its local name, whether it closes, and whether it closes
/// itself.
pub struct Sign {
    pub local: Seq<char>,
    pub closes: bool,
    pub empty: bool,
}

/// What the tag of a piece says.
pub open spec fn sign(piece: Piece) -> Sign {
    Sign {
        local: local_name(piece.1),
        closes: piece.1.len() > 0 && piece.1.first() == '/',
        empty: piece.1.len() > 0 && piece.1.last() == '/',
    }
}

/// What the tags of an element called `name` say.
pub proof fn lemma_signs(name: Seq<char>, text: Seq<char>)
    requires
        plain_name(name),
    ensures
        sign(opens(name)) == (Sign { local: name, closes: false, empty: false }),
        sign(closes(text, name)) == (Sign { local: name, closes: true, empty: false }),
        sign(lone(name)) == (Sign { local: name, closes: false, empty: true }),
        sign(opens_root(name)) == (Sign { local: name, closes: false, empty: false }),
{
    reveal_strlit("D:");
    reveal_strlit("/D:");
    reveal_strlit("/");
    reveal_strlit(" xmlns:D=\"DAV:\"");
    let d = seq!['D'];
    let none = Seq::<char>::empty();
    let slash = "/"@;
    let root = " xmlns:D=\"DAV:\""@;
    law_prefix_does_not_matter(d, name, none);
    law_prefix_does_not_matter(d, name, slash);
    law_prefix_does_not_matter(d, name, root);
    assert("D:"@ + name =~= d + seq![':'] + name + none);
    assert("/D:"@ + name =~= seq!['/'] + d + seq![':'] + name + none);
    assert("D:"@ + name + "/"@ =~= d + seq![':'] + name + slash);
    assert("D:"@ + name + " xmlns:D=\"DAV:\""@ =~= d + seq![':'] + name + root);
    assert(("D:"@ + name).last() == name.last());
    assert(("/D:"@ + name).last() == name.last());
}

// ---------------------------------------------------------------------
// Where tags stand
// ---------------------------------------------------------------------

/// Whether the pieces keep markup out of their texts and their tags apart.
pub open spec fn clean(pieces: Seq<Piece>) -> bool {
    forall|k: int| 0 <= k < pieces.len() ==> clean_piece(#[trigger] pieces[k])
}

/// Whether a piece keeps markup out of its text and closes its tag once.
pub open spec fn clean_piece(piece: Piece) -> bool {
    &&& forall|i: int| 0 <= i < piece.0.len() ==> #[trigger] piece.0[i] != '<'
    &&& forall|i: int| 0 <= i < piece.1.len() ==> #[trigger] piece.1[i] != '>'
}

/// Where the piece `k` is written.
pub open spec fn offset(pieces: Seq<Piece>, k: int) -> int {
    rendered(pieces.take(k)).len() as int
}

/// What is written one run after the other.
pub proof fn lemma_rendered_concat(a: Seq<Piece>, b: Seq<Piece>)
    ensures
        rendered(a + b) == rendered(a) + rendered(b),
    decreases b.len(),
{
    if b.len() == 0 {
        assert(a + b =~= a);
        assert(rendered(a) + rendered(b) =~= rendered(a));
    } else {
        lemma_rendered_concat(a, b.drop_last());
        assert((a + b).drop_last() =~= a + b.drop_last());
        assert((a + b).last() == b.last());
        assert(rendered(a + b) =~= rendered(a) + rendered(b));
    }
}

/// The piece `k` is written between what comes before and what comes after.
pub proof fn lemma_offset(pieces: Seq<Piece>, k: int)
    requires
        0 <= k < pieces.len(),
    ensures
        rendered(pieces) == rendered(pieces.take(k)) + piece_text(pieces[k]) + rendered(
            pieces.skip(k + 1),
        ),
        offset(pieces, k + 1) == offset(pieces, k) + pieces[k].0.len() + pieces[k].1.len() + 2,
        offset(pieces, k + 1) <= rendered(pieces).len(),
{
    reveal_strlit("<");
    reveal_strlit(">");
    assert(pieces =~= pieces.take(k + 1) + pieces.skip(k + 1));
    lemma_rendered_concat(pieces.take(k + 1), pieces.skip(k + 1));
    assert(pieces.take(k + 1).drop_last() =~= pieces.take(k));
    assert(pieces.take(k + 1).last() == pieces[k]);
}

/// The tag that `sign` and the place of a piece make.
pub open spec fn tag_of(pieces: Seq<Piece>, k: int) -> TagView {
    TagView {
        open: offset(pieces, k) + pieces[k].0.len(),
        close: offset(pieces, k + 1) - 1,
        local: sign(pieces[k]).local,
        closes: sign(pieces[k]).closes,
        empty: sign(pieces[k]).empty,
    }
}

/// From where the piece `k` is written, its tag is the first found.
pub proof fn lemma_tag_found(pieces: Seq<Piece>, k: int)
    requires
        clean(pieces),
        0 <= k < pieces.len(),
    ensures
        tag_at(rendered(pieces), offset(pieces, k)) == Some(tag_of(pieces, k)),
{
    reveal_strlit("<");
    reveal_strlit(">");
    lemma_offset(pieces, k);
    let xml = rendered(pieces);
    let (text, raw) = pieces[k];
    let start = offset(pieces, k);
    let open = start + text.len();
    let close = open + 1 + raw.len();
    let before = rendered(pieces.take(k));
    assert(clean_piece(pieces[k]));
    assert forall|j: int| start <= j < open implies xml[j] != '<' by {
        assert(xml[j] == text[j - start]);
    }
    assert(xml[open] == '<');
    lemma_find_first(xml, '<', start, open);
    assert forall|j: int| open <= j < close implies xml[j] != '>' by {
        if j > open {
            assert(xml[j] == raw[j - open - 1]);
        }
    }
    assert(xml[close] == '>');
    lemma_find_first(xml, '>', open, close);
    assert(xml.subrange(open + 1, close) =~= raw);
}

/// After the last piece there is no tag.
pub proof fn lemma_no_tag_left(pieces: Seq<Piece>)
    ensures
        tag_at(rendered(pieces), offset(pieces, pieces.len() as int)) is None,
{
    assert(pieces.take(pieces.len() as int) =~= pieces);
}

// ---------------------------------------------------------------------
// Elements, piece by piece
// ---------------------------------------------------------------------

/// Where the piece stands that closes `name`, looked for from the piece `k`
/// with `depth` elements of that name still open.
pub open spec fn closing_piece(pieces: Seq<Piece>, k: int, name: Seq<char>, depth: nat) -> Option<
    int,
>
    decreases pieces.len() - k,
{
    if k < 0 || k >= pieces.len() {
        None
    } else {
        let s = sign(pieces[k]);
        if s.local != name {
            closing_piece(pieces, k + 1, name, depth)
        } else if s.closes {
            if depth == 0 {
                Some(k)
            } else {
                closing_piece(pieces, k + 1, name, (depth - 1) as nat)
            }
        } else if s.empty {
            closing_piece(pieces, k + 1, name, depth)
        } else {
            closing_piece(pieces, k + 1, name, depth + 1)
        }
    }
}

/// What is found among the pieces is found in what is written.
pub proof fn lemma_closing_found(pieces: Seq<Piece>, k: int, name: Seq<char>, depth: nat)
    requires
        clean(pieces),
        0 <= k <= pieces.len(),
    ensures
        match closing_piece(pieces, k, name, depth) {
            Some(j) => k <= j < pieces.len() && sign(pieces[j]).local == name && closing_at(
                rendered(pieces),
                offset(pieces, k),
                name,
                depth,
            ) == Some(offset(pieces, j) + pieces[j].0.len()),
            None => closing_at(rendered(pieces), offset(pieces, k), name, depth) is None,
        },
    decreases pieces.len() - k,
{
    if k == pieces.len() {
        lemma_no_tag_left(pieces);
    } else {
        lemma_tag_found(pieces, k);
        let s = sign(pieces[k]);
        if s.local != name || (!s.closes && s.empty) {
            lemma_closing_found(pieces, k + 1, name, depth);
        } else if s.closes {
            if depth > 0 {
                lemma_closing_found(pieces, k + 1, name, (depth - 1) as nat);
            }
        } else {
            lemma_closing_found(pieces, k + 1, name, depth + 1);
        }
    }
}

/// Where the first `name` element at or after the piece `k` opens and closes.
pub open spec fn element_piece(pieces: Seq<Piece>, k: int, name: Seq<char>) -> Option<(int, int)>
    decreases pieces.len() - k,
{
    if k < 0 || k >= pieces.len() {
        None
    } else {
        let s = sign(pieces[k]);
        if s.local == name && !s.closes && !s.empty {
            match closing_piece(pieces, k + 1, name, 0) {
                Some(j) => Some((k, j)),
                None => None,
            }
        } else {
            element_piece(pieces, k + 1, name)
        }
    }
}

/// What is found among the pieces is found in what is written.
pub proof fn lemma_element_found(pieces: Seq<Piece>, k: int, name: Seq<char>)
    requires
        clean(pieces),
        0 <= k <= pieces.len(),
    ensures
        match element_piece(pieces, k, name) {
            Some((i, j)) => k <= i < j < pieces.len() && element_at(
                rendered(pieces),
                offset(pieces, k),
                name,
            ) == Some(
                (rendered(pieces.subrange(i + 1, j)) + pieces[j].0, offset(pieces, j + 1)),
            ),
            None => element_at(rendered(pieces), offset(pieces, k), name) is None,
        },
    decreases pieces.len() - k,
{
    let xml = rendered(pieces);
    if k == pieces.len() {
        lemma_no_tag_left(pieces);
    } else {
        lemma_tag_found(pieces, k);
        let s = sign(pieces[k]);
        if s.local == name && !s.closes && !s.empty {
            lemma_closing_found(pieces, k + 1, name, 0);
            if let Some(j) = closing_piece(pieces, k + 1, name, 0) {
                lemma_tag_found(pieces, j);
                lemma_offset(pieces, j);
                let end = offset(pieces, j) + pieces[j].0.len();
                lemma_tag_at(xml, offset(pieces, j));
                lemma_find_from(xml, '<', offset(pieces, j));
                assert(find_from(xml, '<', offset(pieces, j)) == Some(end));
                assert(find_from(xml, '>', end) == Some(offset(pieces, j + 1) - 1));
                lemma_between(pieces, k + 1, j);
            }
        } else {
            lemma_element_found(pieces, k + 1, name);
        }
    }
}

/// What is written between two places.
proof fn lemma_between(pieces: Seq<Piece>, i: int, j: int)
    requires
        0 <= i <= j < pieces.len(),
    ensures
        rendered(pieces).subrange(offset(pieces, i), offset(pieces, j) + pieces[j].0.len())
            == rendered(pieces.subrange(i, j)) + pieces[j].0,
{
    lemma_offset(pieces, j);
    assert(pieces.take(j) =~= pieces.take(i) + pieces.subrange(i, j));
    lemma_rendered_concat(pieces.take(i), pieces.subrange(i, j));
    assert(rendered(pieces).subrange(offset(pieces, i), offset(pieces, j) + pieces[j].0.len())
        =~= rendered(pieces.subrange(i, j)) + pieces[j].0);
}

/// Whether a `name` element opens at or after the piece `k`.
pub open spec fn opens_piece(pieces: Seq<Piece>, k: int, name: Seq<char>) -> bool {
    exists|i: int|
        k <= i < pieces.len() && (#[trigger] sign(pieces[i])).local == name && !sign(
            pieces[i],
        ).closes
}

/// What is found among the pieces is found in what is written.
pub proof fn lemma_opens_found(pieces: Seq<Piece>, k: int, name: Seq<char>)
    requires
        clean(pieces),
        0 <= k <= pieces.len(),
    ensures
        opens_from(rendered(pieces), offset(pieces, k), name) == opens_piece(pieces, k, name),
    decreases pieces.len() - k,
{
    if k == pieces.len() {
        lemma_no_tag_left(pieces);
    } else {
        lemma_tag_found(pieces, k);
        lemma_opens_found(pieces, k + 1, name);
        let s = sign(pieces[k]);
        if s.local == name && !s.closes {
            assert(opens_piece(pieces, k, name));
        } else if opens_piece(pieces, k, name) {
            let i = choose|i: int|
                k <= i < pieces.len() && (#[trigger] sign(pieces[i])).local == name && !sign(
                    pieces[i],
                ).closes;
            assert(k + 1 <= i);
        }
    }
}

/// An element with no other of its name inside closes where it says.
pub proof fn lemma_closes_at(pieces: Seq<Piece>, k: int, j: int, name: Seq<char>)
    requires
        0 <= k <= j < pieces.len(),
        forall|m: int| k <= m < j ==> (#[trigger] sign(pieces[m])).local != name,
        sign(pieces[j]).local == name,
        sign(pieces[j]).closes,
    ensures
        closing_piece(pieces, k, name, 0) == Some(j),
    decreases j - k,
{
    if k < j {
        assert(sign(pieces[k]).local != name);
        lemma_closes_at(pieces, k + 1, j, name);
    }
}

/// The first element of a name with no other of that name inside.
pub proof fn lemma_element_between(pieces: Seq<Piece>, k: int, i: int, j: int, name: Seq<char>)
    requires
        0 <= k <= i < j < pieces.len(),
        forall|m: int| k <= m < i ==> (#[trigger] sign(pieces[m])).local != name,
        sign(pieces[i]) == (Sign { local: name, closes: false, empty: false }),
        forall|m: int| i < m < j ==> (#[trigger] sign(pieces[m])).local != name,
        sign(pieces[j]).local == name,
        sign(pieces[j]).closes,
    ensures
        element_piece(pieces, k, name) == Some((i, j)),
    decreases i - k,
{
    if k < i {
        assert(sign(pieces[k]).local != name);
        lemma_element_between(pieces, k + 1, i, j, name);
    } else {
        lemma_closes_at(pieces, i + 1, j, name);
    }
}

/// Where no element of a name opens there is none.
pub proof fn lemma_no_element(pieces: Seq<Piece>, k: int, name: Seq<char>)
    requires
        0 <= k <= pieces.len(),
        forall|m: int| k <= m < pieces.len() ==> (#[trigger] sign(pieces[m])).local != name,
    ensures
        element_piece(pieces, k, name) is None,
    decreases pieces.len() - k,
{
    if k < pieces.len() {
        assert(sign(pieces[k]).local != name);
        lemma_no_element(pieces, k + 1, name);
    }
}

} // verus!
