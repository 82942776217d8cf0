//! The XML a `WebDAV` server answers with: what a PROPFIND lists, and the
//! lock a LOCK granted.
//!
//! A document is written as a run of pieces, each some text and the tag that
//! follows it.

use vstd::prelude::*;
use vstd::string::StringExecFns;
use crate::error::joined;
use crate::xml::{escape, escaped};

verus! {

/// Some text, and what stands between the angle brackets of the tag after it.
pub type Piece = (Seq<char>, Seq<char>);

/// One piece as it is written.
pub open spec fn piece_text(piece: Piece) -> Seq<char> {
    piece.0 + "<"@ + piece.1 + ">"@
}

/// A run of pieces as it is written.
pub open spec fn rendered(pieces: Seq<Piece>) -> Seq<char>
    decreases pieces.len(),
{
    if pieces.len() == 0 {
        Seq::empty()
    } else {
        rendered(pieces.drop_last()) + piece_text(pieces.last())
    }
}

/// The tag that opens a `name` element.
pub open spec fn opens(name: Seq<char>) -> Piece {
    (Seq::empty(), "D:"@ + name)
}

/// Some text, and the tag that closes a `name` element.
pub open spec fn closes(text: Seq<char>, name: Seq<char>) -> Piece {
    (text, "/D:"@ + name)
}

/// A `name` element with nothing in it.
pub open spec fn lone(name: Seq<char>) -> Piece {
    (Seq::empty(), "D:"@ + name + "/"@)
}

/// The declaration a document starts with.
pub open spec fn declaration() -> Piece {
    (Seq::empty(), "?xml version=\"1.0\" encoding=\"utf-8\"?"@)
}

/// The tag that opens the `name` element a document is.
pub open spec fn opens_root(name: Seq<char>) -> Piece {
    (Seq::empty(), "D:"@ + name + " xmlns:D=\"DAV:\""@)
}

/// One member of a collection as a PROPFIND reports it.
pub struct EntryView {
    pub href: Seq<char>,
    pub collection: bool,
    pub lock: Option<Seq<char>>,
}

/// The lock with this token, as a server describes it.
pub open spec fn active_lock_pieces(token: Seq<char>) -> Seq<Piece> {
    seq![
        opens("activelock"@),
        opens("locktype"@),
        lone("write"@),
        closes(Seq::empty(), "locktype"@),
        opens("lockscope"@),
        lone("exclusive"@),
        closes(Seq::empty(), "lockscope"@),
        opens("depth"@),
        closes("0"@, "depth"@),
        opens("timeout"@),
        closes("Second-600"@, "timeout"@),
        opens("locktoken"@),
        opens("href"@),
        closes(escaped(token), "href"@),
        closes(Seq::empty(), "locktoken"@),
        closes(Seq::empty(), "activelock"@),
    ]
}

/// The locks on a member.
pub open spec fn discovery_pieces(lock: Option<Seq<char>>) -> Seq<Piece> {
    match lock {
        None => Seq::empty(),
        Some(token) => seq![opens("lockdiscovery"@)] + active_lock_pieces(token)
            + seq![closes(Seq::empty(), "lockdiscovery"@)],
    }
}

/// What kind of resource a member is.
pub open spec fn kind_pieces(collection: bool) -> Seq<Piece> {
    if collection {
        seq![opens("resourcetype"@), lone("collection"@), closes(Seq::empty(), "resourcetype"@)]
    } else {
        seq![lone("resourcetype"@)]
    }
}

/// How a member of a multistatus starts.
pub open spec fn opening_pieces(href: Seq<char>) -> Seq<Piece> {
    seq![
        opens("response"@),
        opens("href"@),
        closes(escaped(href), "href"@),
        opens("propstat"@),
        opens("prop"@),
    ]
}

/// How a member of a multistatus ends.
pub open spec fn ending_pieces() -> Seq<Piece> {
    seq![
        closes(Seq::empty(), "prop"@),
        opens("status"@),
        closes("HTTP/1.1 200 OK"@, "status"@),
        closes(Seq::empty(), "propstat"@),
        closes(Seq::empty(), "response"@),
    ]
}

/// One member of a multistatus.
pub open spec fn entry_pieces(entry: EntryView) -> Seq<Piece> {
    opening_pieces(entry.href) + kind_pieces(entry.collection) + discovery_pieces(entry.lock)
        + ending_pieces()
}

/// The members of a multistatus, one after the other.
pub open spec fn entries_pieces(entries: Seq<EntryView>) -> Seq<Piece>
    decreases entries.len(),
{
    if entries.len() == 0 {
        Seq::empty()
    } else {
        entries_pieces(entries.drop_last()) + entry_pieces(entries.last())
    }
}

/// A multistatus of these members.
pub open spec fn multistatus(entries: Seq<EntryView>) -> Seq<char> {
    rendered(
        seq![
            declaration(),
            opens_root("multistatus"@),
        ] + entries_pieces(entries) + seq![closes(Seq::empty(), "multistatus"@)],
    )
}

/// What LOCK answers with when it granted the lock with this token.
pub open spec fn granted(token: Seq<char>) -> Seq<char> {
    rendered(
        seq![
            declaration(),
            opens_root("prop"@),
        ] + discovery_pieces(Some(token)) + seq![closes(Seq::empty(), "prop"@)],
    )
}

/// A document that is being written.
pub struct Markup {
    out: String,
    pieces: Ghost<Seq<Piece>>,
}

impl Markup {
    /// The pieces written so far.
    pub closed spec fn pieces(self) -> Seq<Piece> {
        self.pieces@
    }

    /// What is written is what the pieces say.
    pub closed spec fn wf(self) -> bool {
        self.out@ == rendered(self.pieces@)
    }

    /// Nothing yet.
    fn new() -> (res: Self)
        ensures
            res.wf(),
            res.pieces() == Seq::<Piece>::empty(),
    {
        Markup { out: String::new(), pieces: Ghost(Seq::empty()) }
    }

    /// Some text, and a tag after it.
    fn put(&mut self, text: &str, raw: &str)
        requires
            old(self).wf(),
        ensures
            final(self).wf(),
            final(self).pieces() == old(self).pieces().push((text@, raw@)),
    {
        let ghost start = self.out@;
        let ghost done = self.pieces@;
        self.out.append(text);
        self.out.append("<");
        self.out.append(raw);
        self.out.append(">");
        self.pieces = Ghost(done.push((text@, raw@)));
        proof {
            assert(done.push((text@, raw@)).drop_last() =~= done);
            assert(self.out@ =~= start + piece_text((text@, raw@)));
        }
    }

    /// The tag that opens a `name` element.
    fn open(&mut self, name: &str)
        requires
            old(self).wf(),
        ensures
            final(self).wf(),
            final(self).pieces() == old(self).pieces().push(opens(name@)),
    {
        proof {
            lemma_no_text();
        }
        self.put("", joined("D:", name).as_str());
    }

    /// Some text, and the tag that closes a `name` element.
    fn close(&mut self, text: &str, name: &str)
        requires
            old(self).wf(),
        ensures
            final(self).wf(),
            final(self).pieces() == old(self).pieces().push(closes(text@, name@)),
    {
        self.put(text, joined("/D:", name).as_str());
    }

    /// A `name` element with nothing in it.
    fn lone(&mut self, name: &str)
        requires
            old(self).wf(),
        ensures
            final(self).wf(),
            final(self).pieces() == old(self).pieces().push(lone(name@)),
    {
        proof {
            lemma_no_text();
        }
        let mut raw = joined("D:", name);
        raw.append("/");
        self.put("", raw.as_str());
    }

    /// The lock with this token, as a server describes it.
    fn active_lock(&mut self, token: &str)
        requires
            old(self).wf(),
        ensures
            final(self).wf(),
            final(self).pieces() == old(self).pieces() + active_lock_pieces(token@),
    {
        proof {
            lemma_no_text();
        }
        self.open("activelock");
        self.open("locktype");
        self.lone("write");
        self.close("", "locktype");
        self.open("lockscope");
        self.lone("exclusive");
        self.close("", "lockscope");
        self.open("depth");
        self.close("0", "depth");
        self.open("timeout");
        self.close("Second-600", "timeout");
        self.open("locktoken");
        self.open("href");
        self.close(escape(token).as_str(), "href");
        self.close("", "locktoken");
        self.close("", "activelock");
        proof {
            assert(self.pieces() =~= old(self).pieces() + active_lock_pieces(token@));
        }
    }

    /// The lock with this token, as what is discovered on a member.
    fn discovery(&mut self, token: &str)
        requires
            old(self).wf(),
        ensures
            final(self).wf(),
            final(self).pieces() == old(self).pieces() + discovery_pieces(Some(token@)),
    {
        proof {
            lemma_no_text();
        }
        self.open("lockdiscovery");
        self.active_lock(token);
        self.close("", "lockdiscovery");
        proof {
            assert(self.pieces() =~= old(self).pieces() + discovery_pieces(Some(token@)));
        }
    }

    /// How a member of a multistatus starts.
    fn opening(&mut self, href: &str)
        requires
            old(self).wf(),
        ensures
            final(self).wf(),
            final(self).pieces() == old(self).pieces() + opening_pieces(href@),
    {
        proof {
            lemma_no_text();
        }
        self.open("response");
        self.open("href");
        self.close(escape(href).as_str(), "href");
        self.open("propstat");
        self.open("prop");
        proof {
            assert(self.pieces() =~= old(self).pieces() + opening_pieces(href@));
        }
    }

    /// What kind of resource a member is.
    fn kind(&mut self, collection: bool)
        requires
            old(self).wf(),
        ensures
            final(self).wf(),
            final(self).pieces() == old(self).pieces() + kind_pieces(collection),
    {
        proof {
            lemma_no_text();
        }
        if collection {
            self.open("resourcetype");
            self.lone("collection");
            self.close("", "resourcetype");
        } else {
            self.lone("resourcetype");
        }
        proof {
            assert(self.pieces() =~= old(self).pieces() + kind_pieces(collection));
        }
    }

    /// How a member of a multistatus ends.
    fn ending(&mut self)
        requires
            old(self).wf(),
        ensures
            final(self).wf(),
            final(self).pieces() == old(self).pieces() + ending_pieces(),
    {
        proof {
            lemma_no_text();
        }
        self.close("", "prop");
        self.open("status");
        self.close("HTTP/1.1 200 OK", "status");
        self.close("", "propstat");
        self.close("", "response");
        proof {
            assert(self.pieces() =~= old(self).pieces() + ending_pieces());
        }
    }

    /// The start of a document that is a `name` element.
    fn prolog(name: &str) -> (res: Self)
        ensures
            res.wf(),
            res.pieces() == seq![declaration(), opens_root(name@)],
    {
        proof {
            lemma_no_text();
        }
        let mut res = Markup::new();
        res.put("", "?xml version=\"1.0\" encoding=\"utf-8\"?");
        let mut raw = joined("D:", name);
        raw.append(" xmlns:D=\"DAV:\"");
        res.put("", raw.as_str());
        proof {
            assert(res.pieces() =~= seq![declaration(), opens_root(name@)]);
        }
        res
    }
}

/// The empty string has no characters.
proof fn lemma_no_text()
    ensures
        ""@ == Seq::<char>::empty(),
{
    reveal_strlit("");
    assert(""@ =~= Seq::<char>::empty());
}

/// A multistatus that is being written, member by member.
pub struct Listing {
    markup: Markup,
    entries: Ghost<Seq<EntryView>>,
}

impl Listing {
    /// The members written so far.
    pub closed spec fn entries(self) -> Seq<EntryView> {
        self.entries@
    }

    /// What is written is what the members say.
    pub closed spec fn wf(self) -> bool {
        &&& self.markup.wf()
        &&& self.markup.pieces() == seq![
            declaration(),
            opens_root("multistatus"@),
        ] + entries_pieces(self.entries@)
    }

    /// No members yet.
    pub fn new() -> (res: Self)
        ensures
            res.wf(),
            res.entries() == Seq::<EntryView>::empty(),
    {
        let markup = Markup::prolog("multistatus");
        let res = Listing { markup, entries: Ghost(Seq::empty()) };
        proof {
            assert(res.markup.pieces() =~= seq![
                declaration(),
                opens_root("multistatus"@),
            ] + entries_pieces(Seq::empty()));
        }
        res
    }

    /// One more member: its href, what kind it is, and the lock on it.
    pub fn entry(&mut self, href: &str, collection: bool, lock: Option<&str>)
        requires
            old(self).wf(),
        ensures
            final(self).wf(),
            final(self).entries() == old(self).entries().push(
                EntryView {
                    href: href@,
                    collection,
                    lock: match lock {
                        Some(token) => Some(token@),
                        None => None,
                    },
                },
            ),
    {
        let ghost start = self.markup.pieces();
        let ghost done = self.entries@;
        let ghost entry = EntryView {
            href: href@,
            collection,
            lock: match lock {
                Some(token) => Some(token@),
                None => None,
            },
        };
        self.markup.opening(href);
        self.markup.kind(collection);
        if let Some(token) = lock {
            self.markup.discovery(token);
        }
        self.markup.ending();
        self.entries = Ghost(done.push(entry));
        proof {
            assert(self.markup.pieces() =~= start + entry_pieces(entry));
            assert(done.push(entry).drop_last() =~= done);
            assert(self.markup.pieces() =~= seq![
                declaration(),
                opens_root("multistatus"@),
            ] + entries_pieces(done.push(entry)));
        }
    }

    /// The multistatus, closed.
    pub fn finish(self) -> (res: String)
        requires
            self.wf(),
        ensures
            res@ == multistatus(self.entries()),
    {
        proof {
            lemma_no_text();
        }
        let mut markup = self.markup;
        markup.close("", "multistatus");
        proof {
            assert(markup.pieces() =~= seq![
                declaration(),
                opens_root("multistatus"@),
            ] + entries_pieces(self.entries()) + seq![closes(Seq::empty(), "multistatus"@)]);
        }
        markup.out
    }
}

/// What LOCK answers with when it granted the lock with this token.
pub fn lock_granted(token: &str) -> (res: String)
    ensures
        res@ == granted(token@),
{
    proof {
        lemma_no_text();
    }
    let mut markup = Markup::prolog("prop");
    markup.discovery(token);
    markup.close("", "prop");
    proof {
        assert(markup.pieces() =~= seq![
            declaration(),
            opens_root("prop"@),
        ] + discovery_pieces(Some(token@)) + seq![closes(Seq::empty(), "prop"@)]);
    }
    markup.out
}

} // verus!
