//! What a server lists is what a client reads: a multistatus gives back its
//! members, and a LOCK its token.

use vstd::prelude::*;
use crate::laws::entities::{
    law_escaped_text_holds_no_markup, law_unescape_undoes_escape, lemma_trim_escaped,
};
use crate::laws::tags::{
    clean, clean_piece, element_piece, law_prefix_does_not_matter, lemma_element_between,
    lemma_element_found, lemma_no_element, lemma_opens_found, lemma_signs, offset, opens_piece,
    plain_name, sign, Sign,
};
use crate::markup::{
    active_lock_pieces, closes, declaration, discovery_pieces, ending_pieces, entries_pieces,
    entry_pieces, granted, kind_pieces, lone, multistatus, opening_pieces, opens, opens_root,
    rendered, EntryView, Piece,
};
use crate::text::{trim, Class};
use crate::xml::{element_at, escaped, member_of, members_from, token_in, MemberView};

verus! {

/// What a client reads of a line of a listing. White space around a href is
/// not read: XML does not carry it apart from the href.
pub open spec fn read_back(entry: EntryView) -> MemberView {
    MemberView {
        href: trim(entry.href, Class::White),
        collection: entry.collection,
        locked: entry.lock is Some,
    }
}

/// Whether `name` can stand in a tag.
spec fn tag_name(name: Seq<char>) -> bool {
    plain_name(name) && forall|i: int| 0 <= i < name.len() ==> #[trigger] name[i] != '>'
}

/// The names that stand inside a `response` all can, and are told apart from
/// those that are looked for.
proof fn lemma_names()
    ensures
        tag_name("response"@),
        tag_name("multistatus"@),
        tag_name("href"@),
        tag_name("propstat"@),
        tag_name("prop"@),
        tag_name("resourcetype"@),
        tag_name("collection"@),
        tag_name("status"@),
        "multistatus"@ != "response"@,
        "href"@ != "response"@,
        "propstat"@ != "response"@,
        "prop"@ != "response"@,
        "resourcetype"@ != "response"@,
        "collection"@ != "response"@,
        "status"@ != "response"@,
        "href"@ != "collection"@,
        "propstat"@ != "collection"@,
        "prop"@ != "collection"@,
        "resourcetype"@ != "collection"@,
        "status"@ != "collection"@,
        "href"@ != "activelock"@,
        "propstat"@ != "activelock"@,
        "prop"@ != "activelock"@,
        "resourcetype"@ != "activelock"@,
        "collection"@ != "activelock"@,
        "status"@ != "activelock"@,
        "prop"@ != "locktoken"@,
{
    reveal_strlit("response");
    reveal_strlit("multistatus");
    reveal_strlit("href");
    reveal_strlit("propstat");
    reveal_strlit("prop");
    reveal_strlit("resourcetype");
    reveal_strlit("collection");
    reveal_strlit("status");
    reveal_strlit("activelock");
    reveal_strlit("locktoken");
    assert("propstat"@[0] != "response"@[0]);
    assert("collection"@[0] != "activelock"@[0]);
    assert("prop"@.len() != "locktoken"@.len());
}

/// The names that describe a lock all can stand in a tag, and are told apart
/// from those that are looked for.
proof fn lemma_lock_names()
    ensures
        "lockdiscovery"@ != "response"@,
        "activelock"@ != "response"@,
        "locktype"@ != "response"@,
        "write"@ != "response"@,
        "lockscope"@ != "response"@,
        "exclusive"@ != "response"@,
        "depth"@ != "response"@,
        "timeout"@ != "response"@,
        "locktoken"@ != "response"@,
        "lockdiscovery"@ != "collection"@,
        "activelock"@ != "collection"@,
        "locktype"@ != "collection"@,
        "write"@ != "collection"@,
        "lockscope"@ != "collection"@,
        "exclusive"@ != "collection"@,
        "depth"@ != "collection"@,
        "timeout"@ != "collection"@,
        "locktoken"@ != "collection"@,
        "lockdiscovery"@ != "locktoken"@,
        "activelock"@ != "locktoken"@,
        "locktype"@ != "locktoken"@,
        "write"@ != "locktoken"@,
        "lockscope"@ != "locktoken"@,
        "exclusive"@ != "locktoken"@,
        "depth"@ != "locktoken"@,
        "timeout"@ != "locktoken"@,
        "href"@ != "locktoken"@,
        "href"@ != "response"@,
        "href"@ != "collection"@,
        tag_name("lockdiscovery"@),
        tag_name("activelock"@),
        tag_name("locktype"@),
        tag_name("write"@),
        tag_name("lockscope"@),
        tag_name("exclusive"@),
        tag_name("depth"@),
        tag_name("timeout"@),
        tag_name("locktoken"@),
        tag_name("href"@),
{
    reveal_strlit("lockdiscovery");
    reveal_strlit("activelock");
    reveal_strlit("locktype");
    reveal_strlit("write");
    reveal_strlit("lockscope");
    reveal_strlit("exclusive");
    reveal_strlit("depth");
    reveal_strlit("timeout");
    reveal_strlit("locktoken");
    reveal_strlit("href");
    reveal_strlit("response");
    reveal_strlit("collection");
    assert("locktype"@[0] != "response"@[0]);
    assert("activelock"@[0] != "collection"@[0]);
    assert("lockscope"@[4] != "locktoken"@[4]);
    assert("exclusive"@[0] != "locktoken"@[0]);
    assert("locktype"@.len() != "locktoken"@.len());
}

/// Whether none of the tags is called `name`.
spec fn without(pieces: Seq<Piece>, name: Seq<char>) -> bool {
    forall|m: int| 0 <= m < pieces.len() ==> (#[trigger] sign(pieces[m])).local != name
}

/// What tags say, and that they keep apart from the text around them.
proof fn lemma_tag(name: Seq<char>, text: Seq<char>)
    requires
        tag_name(name),
        forall|i: int| 0 <= i < text.len() ==> #[trigger] text[i] != '<',
    ensures
        sign(opens(name)) == (Sign { local: name, closes: false, empty: false }),
        sign(closes(text, name)) == (Sign { local: name, closes: true, empty: false }),
        sign(closes(Seq::empty(), name)) == (Sign { local: name, closes: true, empty: false }),
        sign(lone(name)) == (Sign { local: name, closes: false, empty: true }),
        sign(opens_root(name)) == (Sign { local: name, closes: false, empty: false }),
        clean_piece(opens(name)),
        clean_piece(closes(text, name)),
        clean_piece(closes(Seq::empty(), name)),
        clean_piece(lone(name)),
        clean_piece(opens_root(name)),
{
    lemma_signs(name, text);
    lemma_signs(name, Seq::empty());
    reveal_strlit("D:");
    reveal_strlit("/D:");
    reveal_strlit("/");
    reveal_strlit(" xmlns:D=\"DAV:\"");
    let root = " xmlns:D=\"DAV:\""@;
    assert forall|i: int| 0 <= i < root.len() implies #[trigger] root[i] != '>' by {}
    assert forall|i: int| 0 <= i < opens(name).1.len() implies #[trigger] opens(name).1[i]
        != '>' by {
        if i >= 2 {
            assert(opens(name).1[i] == name[i - 2]);
        }
    }
    assert forall|i: int| 0 <= i < closes(text, name).1.len() implies #[trigger] closes(
        text,
        name,
    ).1[i] != '>' by {
        if i >= 3 {
            assert(closes(text, name).1[i] == name[i - 3]);
        }
    }
    assert forall|i: int| 0 <= i < lone(name).1.len() implies #[trigger] lone(name).1[i]
        != '>' by {
        if 2 <= i < 2 + name.len() {
            assert(lone(name).1[i] == name[i - 2]);
        }
    }
    assert forall|i: int| 0 <= i < opens_root(name).1.len() implies #[trigger] opens_root(
        name,
    ).1[i] != '>' by {
        if 2 <= i < 2 + name.len() {
            assert(opens_root(name).1[i] == name[i - 2]);
        } else if i >= 2 + name.len() {
            assert(opens_root(name).1[i] == root[i - 2 - name.len()]);
        }
    }
}

/// What the declaration says.
proof fn lemma_declaration()
    ensures
        clean_piece(declaration()),
        sign(declaration()).local != "response"@,
        sign(declaration()).local != "locktoken"@,
{
    reveal_strlit("?xml version=\"1.0\" encoding=\"utf-8\"?");
    reveal_strlit("?xml");
    reveal_strlit(" version=\"1.0\" encoding=\"utf-8\"?");
    reveal_strlit("response");
    reveal_strlit("locktoken");
    let raw = "?xml version=\"1.0\" encoding=\"utf-8\"?"@;
    let more = " version=\"1.0\" encoding=\"utf-8\"?"@;
    law_prefix_does_not_matter(seq!['D'], "?xml"@, more);
    assert(raw =~= "?xml"@ + more);
    assert forall|i: int| 0 <= i < raw.len() implies #[trigger] raw[i] != '>' by {}
}

// ---------------------------------------------------------------------
// A lock
// ---------------------------------------------------------------------

/// How a lock is described: what its tags say.
proof fn lemma_active_lock(token: Seq<char>)
    ensures
        clean(active_lock_pieces(token)),
        without(active_lock_pieces(token), "response"@),
        without(active_lock_pieces(token), "collection"@),
        without(active_lock_pieces(token).take(11), "locktoken"@),
        sign(active_lock_pieces(token)[0]) == (Sign {
            local: "activelock"@,
            closes: false,
            empty: false,
        }),
        sign(active_lock_pieces(token)[11]) == (Sign {
            local: "locktoken"@,
            closes: false,
            empty: false,
        }),
        sign(active_lock_pieces(token)[12]) == (Sign {
            local: "href"@,
            closes: false,
            empty: false,
        }),
        sign(active_lock_pieces(token)[13]) == (Sign { local: "href"@, closes: true, empty: false }),
        sign(active_lock_pieces(token)[14]) == (Sign {
            local: "locktoken"@,
            closes: true,
            empty: false,
        }),
{
    let none = Seq::<char>::empty();
    lemma_lock_names();
    law_escaped_text_holds_no_markup(token);
    reveal_strlit("0");
    reveal_strlit("Second-600");
    let second = "Second-600"@;
    assert forall|i: int| 0 <= i < second.len() implies #[trigger] second[i] != '<' by {}
    lemma_tag("activelock"@, none);
    lemma_tag("locktype"@, none);
    lemma_tag("write"@, none);
    lemma_tag("lockscope"@, none);
    lemma_tag("exclusive"@, none);
    lemma_tag("depth"@, "0"@);
    lemma_tag("timeout"@, second);
    lemma_tag("locktoken"@, none);
    lemma_tag("href"@, escaped(token));
}

/// What is discovered on a member: what its tags say.
proof fn lemma_discovery(lock: Option<Seq<char>>)
    ensures
        clean(discovery_pieces(lock)),
        without(discovery_pieces(lock), "response"@),
        without(discovery_pieces(lock), "collection"@),
        lock is Some ==> discovery_pieces(lock).len() == 18 && sign(
            discovery_pieces(lock)[1],
        ) == (Sign { local: "activelock"@, closes: false, empty: false }),
        lock matches Some(token) ==> discovery_pieces(lock).subrange(1, 17) == active_lock_pieces(
            token,
        ) && sign(discovery_pieces(lock)[0]).local == "lockdiscovery"@,
{
    if let Some(token) = lock {
        let pieces = discovery_pieces(lock);
        let inner = active_lock_pieces(token);
        lemma_active_lock(token);
        lemma_lock_names();
        lemma_tag("lockdiscovery"@, Seq::empty());
        assert(pieces.len() == 18);
        assert(pieces.subrange(1, 17) =~= inner);
        assert forall|m: int| 0 <= m < pieces.len() implies clean_piece(#[trigger] pieces[m])
            && sign(pieces[m]).local != "response"@ && sign(pieces[m]).local != "collection"@ by {
            if 1 <= m < 17 {
                assert(pieces[m] == inner[m - 1]);
                assert(sign(inner[m - 1]).local != "response"@);
                assert(sign(inner[m - 1]).local != "collection"@);
            }
        }
    }
}

/// The token of a lock that a LOCK granted is the token that is read out of
/// what it was answered.
pub proof fn law_lock_gives_its_token(token: Seq<char>)
    ensures
        token_in(granted(token)) == Some(trim(token, Class::White)),
{
    let pieces = seq![declaration(), opens_root("prop"@)] + discovery_pieces(Some(token))
        + seq![closes(Seq::empty(), "prop"@)];
    let lock = active_lock_pieces(token);
    let disc = discovery_pieces(Some(token));
    lemma_names();
    lemma_lock_names();
    lemma_declaration();
    lemma_discovery(Some(token));
    lemma_active_lock(token);
    lemma_tag("prop"@, Seq::empty());
    assert(pieces.len() == 21);
    assert forall|m: int| 2 <= m < 20 implies #[trigger] pieces[m] == disc[m - 2] by {}
    assert forall|m: int| 3 <= m < 19 implies #[trigger] pieces[m] == lock[m - 3] by {
        assert(disc.subrange(1, 17)[m - 3] == disc[m - 2]);
    }
    assert(clean(pieces)) by {
        assert forall|m: int| 0 <= m < pieces.len() implies clean_piece(#[trigger] pieces[m]) by {
            if 2 <= m < 20 {
                assert(clean_piece(disc[m - 2]));
            }
        }
    }
    assert forall|m: int| 0 <= m < 14 implies (#[trigger] sign(pieces[m])).local
        != "locktoken"@ by {
        if m >= 3 {
            assert(lock.take(11)[m - 3] == lock[m - 3]);
            assert(sign(lock.take(11)[m - 3]).local != "locktoken"@);
        }
    }
    assert(pieces[14] == lock[11]);
    assert(pieces[15] == lock[12]);
    assert(pieces[16] == lock[13]);
    assert(pieces[17] == lock[14]);
    lemma_element_between(pieces, 0, 14, 17, "locktoken"@);
    lemma_element_found(pieces, 0, "locktoken"@);
    assert(pieces.take(0) =~= Seq::<Piece>::empty());
    let content = pieces.subrange(15, 17);
    assert(rendered(content) + pieces[17].0 =~= rendered(content));
    assert(content =~= seq![lock[12], lock[13]]);
    assert(clean(content));
    lemma_element_between(content, 0, 0, 1, "href"@);
    lemma_element_found(content, 0, "href"@);
    assert(content.take(0) =~= Seq::<Piece>::empty());
    assert(content.subrange(1, 1) =~= Seq::<Piece>::empty());
    assert(rendered(Seq::<Piece>::empty()) + escaped(token) =~= escaped(token));
    lemma_trim_escaped(token);
    law_unescape_undoes_escape(trim(token, Class::White));
}

// ---------------------------------------------------------------------
// A listing
// ---------------------------------------------------------------------

/// What stands inside the `response` element of a member.
spec fn inside(entry: EntryView) -> Seq<Piece> {
    entry_pieces(entry).subrange(1, entry_pieces(entry).len() - 1)
}

/// The pieces that are the same for every member.
proof fn lemma_frame(href: Seq<char>)
    ensures
        clean(opening_pieces(href)),
        clean(ending_pieces()),
        sign(opening_pieces(href)[0]) == (Sign {
            local: "response"@,
            closes: false,
            empty: false,
        }),
        sign(opening_pieces(href)[1]) == (Sign { local: "href"@, closes: false, empty: false }),
        sign(opening_pieces(href)[2]) == (Sign { local: "href"@, closes: true, empty: false }),
        without(opening_pieces(href).skip(1), "response"@),
        without(opening_pieces(href).skip(1), "collection"@),
        without(opening_pieces(href).skip(1), "activelock"@),
        sign(ending_pieces()[4]) == (Sign { local: "response"@, closes: true, empty: false }),
        without(ending_pieces().take(4), "response"@),
        without(ending_pieces().take(4), "collection"@),
        without(ending_pieces().take(4), "activelock"@),
{
    let none = Seq::<char>::empty();
    lemma_names();
    law_escaped_text_holds_no_markup(href);
    reveal_strlit("HTTP/1.1 200 OK");
    let ok = "HTTP/1.1 200 OK"@;
    assert forall|i: int| 0 <= i < ok.len() implies #[trigger] ok[i] != '<' by {}
    lemma_tag("response"@, none);
    lemma_tag("href"@, escaped(href));
    lemma_tag("propstat"@, none);
    lemma_tag("prop"@, none);
    lemma_tag("status"@, ok);
}

/// What kind a member is: what its tags say.
proof fn lemma_kind(collection: bool)
    ensures
        clean(kind_pieces(collection)),
        without(kind_pieces(collection), "response"@),
        without(kind_pieces(collection), "activelock"@),
        collection ==> kind_pieces(collection).len() == 3 && sign(
            kind_pieces(collection)[1],
        ) == (Sign { local: "collection"@, closes: false, empty: true }),
        !collection ==> without(kind_pieces(collection), "collection"@),
{
    let none = Seq::<char>::empty();
    lemma_names();
    lemma_tag("resourcetype"@, none);
    lemma_tag("collection"@, none);
}

/// What stands inside the `response` element of a member.
proof fn lemma_inside(entry: EntryView)
    ensures
        inside(entry) == opening_pieces(entry.href).skip(1) + kind_pieces(entry.collection)
            + discovery_pieces(entry.lock) + ending_pieces().take(4),
        clean(entry_pieces(entry)),
        clean(inside(entry)),
        without(inside(entry), "response"@),
        opens_piece(inside(entry), 0, "collection"@) == entry.collection,
        opens_piece(inside(entry), 0, "activelock"@) == entry.lock is Some,
{
    let opening = opening_pieces(entry.href);
    let kind = kind_pieces(entry.collection);
    let disc = discovery_pieces(entry.lock);
    let ending = ending_pieces();
    let whole = entry_pieces(entry);
    let inner = inside(entry);
    lemma_frame(entry.href);
    lemma_kind(entry.collection);
    lemma_discovery(entry.lock);
    assert(inner =~= opening.skip(1) + kind + disc + ending.take(4));
    let a = 4int;
    let b = a + kind.len();
    let c = b + disc.len();
    assert(whole.len() == c + 6);
    assert(inner.len() == c + 4);
    assert forall|m: int| 0 <= m < inner.len() implies {
        &&& m < a ==> inner[m] == opening.skip(1)[m]
        &&& a <= m < b ==> inner[m] == kind[m - a]
        &&& b <= m < c ==> inner[m] == disc[m - b]
        &&& c <= m ==> inner[m] == ending.take(4)[m - c]
    } by {}
    assert forall|m: int| 0 <= m < whole.len() implies clean_piece(#[trigger] whole[m]) by {
        if m == 0 {
            assert(whole[m] == opening[0]);
        } else if m == whole.len() - 1 {
            assert(whole[m] == ending[4]);
        } else {
            assert(whole[m] == inner[m - 1]);
            if m - 1 < a {
                assert(opening.skip(1)[m - 1] == opening[m]);
            } else if m - 1 >= c {
                assert(ending.take(4)[m - 1 - c] == ending[m - 1 - c]);
            }
        }
    }
    assert forall|m: int| 0 <= m < inner.len() implies clean_piece(#[trigger] inner[m]) by {
        assert(inner[m] == whole[m + 1]);
    }
    assert forall|m: int| 0 <= m < inner.len() implies (#[trigger] sign(inner[m])).local
        != "response"@ by {
        if m < a {
            assert(sign(opening.skip(1)[m]).local != "response"@);
        } else if m < b {
            assert(sign(kind[m - a]).local != "response"@);
        } else if m < c {
            assert(sign(disc[m - b]).local != "response"@);
        } else {
            assert(sign(ending.take(4)[m - c]).local != "response"@);
        }
    }
    if entry.collection {
        assert(inner[a + 1] == kind[1]);
        assert(opens_piece(inner, 0, "collection"@));
    } else {
        assert forall|m: int| 0 <= m < inner.len() implies (#[trigger] sign(inner[m])).local
            != "collection"@ by {
            if m < a {
                assert(sign(opening.skip(1)[m]).local != "collection"@);
            } else if m < b {
                assert(sign(kind[m - a]).local != "collection"@);
            } else if m < c {
                assert(sign(disc[m - b]).local != "collection"@);
            } else {
                assert(sign(ending.take(4)[m - c]).local != "collection"@);
            }
        }
    }
    if entry.lock is Some {
        assert(inner[b + 1] == disc[1]);
        assert(opens_piece(inner, 0, "activelock"@));
    } else {
        assert forall|m: int| 0 <= m < inner.len() implies (#[trigger] sign(inner[m])).local
            != "activelock"@ by {
            if m < a {
                assert(sign(opening.skip(1)[m]).local != "activelock"@);
            } else if m < b {
                assert(sign(kind[m - a]).local != "activelock"@);
            } else {
                assert(sign(ending.take(4)[m - c]).local != "activelock"@);
            }
        }
    }
}

/// The member that the `response` element of a line speaks of.
proof fn lemma_member(entry: EntryView)
    ensures
        member_of(rendered(inside(entry))) == Some(read_back(entry)),
{
    let inner = inside(entry);
    let opening = opening_pieces(entry.href);
    lemma_inside(entry);
    lemma_frame(entry.href);
    assert(inner[0] == opening[1]);
    assert(inner[1] == opening[2]);
    assert(inner.take(0) =~= Seq::<Piece>::empty());
    lemma_element_between(inner, 0, 0, 1, "href"@);
    lemma_element_found(inner, 0, "href"@);
    assert(inner.subrange(1, 1) =~= Seq::<Piece>::empty());
    assert(rendered(Seq::<Piece>::empty()) + escaped(entry.href) =~= escaped(entry.href));
    lemma_opens_found(inner, 0, "collection"@);
    lemma_opens_found(inner, 0, "activelock"@);
    lemma_trim_escaped(entry.href);
    law_unescape_undoes_escape(trim(entry.href, Class::White));
}

/// The pieces of a multistatus.
spec fn document(entries: Seq<EntryView>) -> Seq<Piece> {
    seq![declaration(), opens_root("multistatus"@)] + entries_pieces(entries)
        + seq![closes(Seq::empty(), "multistatus"@)]
}

/// Where the line `i` of a multistatus starts, in pieces.
spec fn line_start(entries: Seq<EntryView>, i: int) -> int {
    2 + entries_pieces(entries.take(i)).len() as int
}

/// The line `i` of a multistatus stands where it starts.
proof fn lemma_line(entries: Seq<EntryView>, i: int)
    requires
        0 <= i < entries.len(),
    ensures
        line_start(entries, i + 1) == line_start(entries, i) + entry_pieces(entries[i]).len(),
        line_start(entries, i + 1) < document(entries).len(),
        document(entries).subrange(line_start(entries, i), line_start(entries, i + 1))
            == entry_pieces(entries[i]),
    decreases entries.len(),
{
    let all = entries_pieces(entries);
    assert(entries.take(i + 1).drop_last() =~= entries.take(i));
    assert(entries.take(i + 1).last() == entries[i]);
    lemma_line_prefix(entries, i + 1);
    let part = entries_pieces(entries.take(i + 1));
    let k = line_start(entries, i);
    let j = line_start(entries, i + 1);
    assert(part == entries_pieces(entries.take(i)) + entry_pieces(entries[i]));
    assert(all.subrange(0, part.len() as int) == part);
    assert forall|m: int| 0 <= m < entry_pieces(entries[i]).len() implies document(
        entries,
    ).subrange(k, j)[m] == #[trigger] entry_pieces(entries[i])[m] by {
        assert(document(entries)[k + m] == all[k - 2 + m]);
        assert(all.subrange(0, part.len() as int)[k - 2 + m] == all[k - 2 + m]);
        assert(part[k - 2 + m] == entry_pieces(entries[i])[m]);
    }
    assert(document(entries).subrange(k, j) =~= entry_pieces(entries[i]));
}

/// The first lines of a multistatus are written first.
proof fn lemma_line_prefix(entries: Seq<EntryView>, i: int)
    requires
        0 <= i <= entries.len(),
    ensures
        entries_pieces(entries.take(i)).is_prefix_of(entries_pieces(entries)),
    decreases entries.len(),
{
    if i == entries.len() {
        assert(entries.take(i) =~= entries);
    } else {
        lemma_line_prefix(entries.drop_last(), i);
        assert(entries.drop_last().take(i) =~= entries.take(i));
        let small = entries_pieces(entries.take(i));
        let mid = entries_pieces(entries.drop_last());
        let all = entries_pieces(entries);
        assert(all == mid + entry_pieces(entries.last()));
        assert(all.subrange(0, small.len() as int) =~= mid.subrange(0, small.len() as int));
    }
}

/// A multistatus keeps its tags apart.
proof fn lemma_document_clean(entries: Seq<EntryView>)
    ensures
        clean(document(entries)),
{
    lemma_names();
    lemma_declaration();
    lemma_tag("multistatus"@, Seq::empty());
    lemma_entries_clean(entries);
    let doc = document(entries);
    let all = entries_pieces(entries);
    assert forall|m: int| 0 <= m < doc.len() implies clean_piece(#[trigger] doc[m]) by {
        if 2 <= m < doc.len() - 1 {
            assert(doc[m] == all[m - 2]);
        }
    }
}

proof fn lemma_entries_clean(entries: Seq<EntryView>)
    ensures
        clean(entries_pieces(entries)),
    decreases entries.len(),
{
    if entries.len() > 0 {
        let mid = entries_pieces(entries.drop_last());
        let last = entry_pieces(entries.last());
        lemma_entries_clean(entries.drop_last());
        lemma_inside(entries.last());
        assert forall|m: int| 0 <= m < (mid + last).len() implies clean_piece(
            #[trigger] (mid + last)[m],
        ) by {
            if m < mid.len() {
                assert((mid + last)[m] == mid[m]);
            } else {
                assert((mid + last)[m] == last[m - mid.len()]);
            }
        }
    }
}

/// The element that the line `i` of a multistatus is.
proof fn lemma_line_element(entries: Seq<EntryView>, i: int)
    requires
        0 <= i < entries.len(),
    ensures
        element_at(
            rendered(document(entries)),
            offset(document(entries), line_start(entries, i)),
            "response"@,
        ) == Some(
            (
                rendered(inside(entries[i])),
                offset(document(entries), line_start(entries, i + 1)),
            ),
        ),
{
    let doc = document(entries);
    let entry = entries[i];
    let whole = entry_pieces(entry);
    let inner = inside(entry);
    let k = line_start(entries, i);
    let j = line_start(entries, i + 1);
    lemma_document_clean(entries);
    lemma_line(entries, i);
    lemma_inside(entry);
    lemma_frame(entry.href);
    let part = doc.subrange(k, j);
    assert(part == whole);
    assert(doc[k] == part[0]);
    assert(whole[0] == opening_pieces(entry.href)[0]);
    assert(doc[j - 1] == part[whole.len() - 1]);
    assert(whole[whole.len() - 1] == ending_pieces()[4]);
    assert(doc.subrange(k + 1, j - 1) =~= inner) by {
        assert forall|m: int| 0 <= m < inner.len() implies doc.subrange(k + 1, j - 1)[m]
            == #[trigger] inner[m] by {
            assert(part[m + 1] == doc[k + 1 + m]);
        }
    }
    assert forall|m: int| k < m < j - 1 implies (#[trigger] sign(doc[m])).local != "response"@ by {
        assert(doc.subrange(k + 1, j - 1)[m - k - 1] == doc[m]);
        assert(sign(inner[m - k - 1]).local != "response"@);
    }
    lemma_element_between(doc, k, k, j - 1, "response"@);
    lemma_element_found(doc, k, "response"@);
    assert(rendered(inner) + doc[j - 1].0 =~= rendered(inner));
}

/// After the last line of a multistatus there is no element left.
proof fn lemma_lines_end(entries: Seq<EntryView>)
    ensures
        element_at(
            rendered(document(entries)),
            offset(document(entries), line_start(entries, entries.len() as int)),
            "response"@,
        ) is None,
{
    let doc = document(entries);
    let k = line_start(entries, entries.len() as int);
    lemma_document_clean(entries);
    lemma_names();
    lemma_tag("multistatus"@, Seq::empty());
    assert(entries.take(entries.len() as int) =~= entries);
    assert(k == doc.len() - 1);
    assert(doc[k] == closes(Seq::empty(), "multistatus"@));
    lemma_no_element(doc, k, "response"@);
    lemma_element_found(doc, k, "response"@);
}

/// From the line `i` on, a multistatus lists the members from `i` on.
proof fn lemma_members_from_line(entries: Seq<EntryView>, i: int)
    requires
        0 <= i <= entries.len(),
    ensures
        members_from(rendered(document(entries)), offset(document(entries), line_start(entries, i)))
            == entries.skip(i).map_values(|e: EntryView| read_back(e)),
    decreases entries.len() - i,
{
    if i == entries.len() {
        lemma_lines_end(entries);
        assert(entries.skip(i).map_values(|e: EntryView| read_back(e))
            =~= Seq::<MemberView>::empty());
    } else {
        lemma_line_element(entries, i);
        lemma_member(entries[i]);
        lemma_members_from_line(entries, i + 1);
        assert(entries.skip(i).map_values(|e: EntryView| read_back(e)) =~= seq![
            read_back(entries[i]),
        ] + entries.skip(i + 1).map_values(|e: EntryView| read_back(e)));
    }
}

/// Every member that a multistatus lists is read out of it, in the order of
/// the listing: its href, whether it is a collection, and whether it is
/// locked.
pub proof fn law_multistatus_gives_its_members(entries: Seq<EntryView>)
    ensures
        members_from(multistatus(entries), 0) == entries.map_values(|e: EntryView| read_back(e)),
{
    let doc = document(entries);
    let xml = rendered(doc);
    lemma_document_clean(entries);
    lemma_names();
    lemma_declaration();
    lemma_tag("multistatus"@, Seq::empty());
    lemma_members_from_line(entries, 0);
    assert(entries.take(0) =~= Seq::<EntryView>::empty());
    assert(line_start(entries, 0) == 2);
    assert(entries.skip(0) =~= entries);
    assert(doc[0] == declaration());
    assert(doc[1] == opens_root("multistatus"@));
    assert(element_piece(doc, 1, "response"@) == element_piece(doc, 2, "response"@));
    assert(element_piece(doc, 0, "response"@) == element_piece(doc, 1, "response"@));
    lemma_element_found(doc, 0, "response"@);
    lemma_element_found(doc, 2, "response"@);
    assert(doc.take(0) =~= Seq::<Piece>::empty());
    assert(element_at(xml, 0, "response"@) == element_at(xml, offset(doc, 2), "response"@));
}

} // verus!
