//! The server's side of one connection: what a test puts at the far end,
//! and what the playground stands up in place of a `WebDAV` server.
//!
//! Not a server. One session serves one client over a [`Store`] kept in
//! memory — collections of files, and the locks held on them — answering
//! each method with the status a real server would. Users are not checked.
//! A Location talks to a real server through [`crate::client::Client`].
//!
//! The session is handed the bytes that its client sent and hands back the
//! bytes to answer with; whoever holds the connection moves them.

use vstd::prelude::*;
use vstd::slice::{slice_subrange, slice_to_vec};
use vstd::string::StringExecFns;
use vstd::utf8::encode_utf8;
use crate::error::joined;
use crate::markup::{granted, lock_granted, multistatus, EntryView, Listing};
use crate::stream::{Arrived, ArrivedView};
use crate::table::{ordered, Table};
use crate::text::{
    chars_of, contains_text, decimal, decimal_of, holds_text, rfind_char, same, split_last,
    string_of, trim, trim_end, trim_of, without_end_slashes, Class,
};
use crate::wire::{
    lemma_head_from, read_request, request_in, response_bytes, value_of, write_response, ReadError,
    ReadErrorView, Request, RequestView, Response, ResponseView,
};

verus! {

// ---------------------------------------------------------------------
// The store
// ---------------------------------------------------------------------

/// What the session serves: collections of files, and the locks on them.
///
/// A collection is keyed by its path without the trailing slash — `/orders`
/// — and the root is the empty string. Locks are keyed by the full href.
#[derive(Clone, Debug)]
pub struct Store {
    pub files: Table<Table<Vec<u8>>>,
    pub locks: Table<String>,
    pub tokens: Tokens,
}

/// The lock tokens that were handed out, numbered from one.
#[derive(Clone, Debug)]
pub struct Tokens {
    issued: u64,
}

impl View for Tokens {
    type V = nat;

    closed spec fn view(&self) -> nat {
        self.issued as nat
    }
}

impl Default for Tokens {
    /// None yet.
    fn default() -> (res: Self)
        ensures
            res@ == 0,
    {
        Tokens { issued: 0 }
    }
}

impl Tokens {
    /// How many there are.
    pub fn issued(&self) -> (res: u64)
        ensures
            res == self@,
    {
        self.issued
    }

    /// Hand out the next one.
    fn next(&mut self) -> (res: String)
        requires
            old(self)@ < u64::MAX,
        ensures
            final(self)@ == old(self)@ + 1,
            res@ == token_text(old(self)@ + 1),
    {
        self.issued = self.issued + 1;
        joined("opaquelocktoken:xmip-", decimal_of(self.issued).as_str())
    }
}

/// The files of one collection, by name.
pub type Folder = Map<Seq<char>, Seq<u8>>;

/// A [`Store`] as maps.
pub struct StoreView {
    pub files: Map<Seq<char>, Folder>,
    pub locks: Map<Seq<char>, Seq<char>>,
    pub issued: nat,
}

impl View for Store {
    type V = StoreView;

    open spec fn view(&self) -> StoreView {
        StoreView { files: self.files@, locks: self.locks@, issued: self.tokens@ }
    }
}

impl StoreView {
    /// The files of `collection`, none where it does not exist.
    pub open spec fn folder(self, collection: Seq<char>) -> Folder {
        if self.files.dom().contains(collection) {
            self.files[collection]
        } else {
            Map::empty()
        }
    }

    /// Whether `collection` holds a file called `name`.
    pub open spec fn has_file(self, collection: Seq<char>, name: Seq<char>) -> bool {
        self.folder(collection).dom().contains(name)
    }

    /// With `bytes` as `name` in `collection`, the collection created.
    pub open spec fn put(self, collection: Seq<char>, name: Seq<char>, bytes: Seq<u8>) -> StoreView {
        StoreView {
            files: self.files.insert(collection, self.folder(collection).insert(name, bytes)),
            ..self
        }
    }
}

impl Default for Store {
    /// No collections, no locks.
    fn default() -> (res: Self)
        ensures
            res.wf(),
            res@ == (StoreView { files: Map::empty(), locks: Map::empty(), issued: 0 }),
    {
        Store { files: Table::new(), locks: Table::new(), tokens: Tokens::default() }
    }
}

impl Store {
    /// The tables are in order.
    pub open spec fn wf(self) -> bool {
        &&& self.files.wf()
        &&& self.locks.wf()
        &&& forall|folder: Table<Vec<u8>>| #[trigger] self.files.holds(folder) ==> folder.wf()
    }

    /// How many lock tokens have been handed out.
    pub fn issued(&self) -> (res: u64)
        ensures
            res == self@.issued,
    {
        self.tokens.issued()
    }

    /// Put `bytes` as `name` in `collection`, creating the collection.
    pub fn insert(&mut self, collection: &str, name: &str, bytes: &[u8])
        requires
            old(self).wf(),
        ensures
            final(self).wf(),
            final(self)@ == old(self)@.put(trim_end(collection@, Class::Slash), name@, bytes@),
    {
        let key = without_end_slashes(collection);
        let mut folder = match self.files.remove(key.as_str()) {
            Some(folder) => folder,
            None => Table::new(),
        };
        folder.insert(name.to_owned(), slice_to_vec(bytes));
        self.files.insert(key, folder);
        proof {
            assert(self@.files =~= old(self)@.put(
                trim_end(collection@, Class::Slash),
                name@,
                bytes@,
            ).files);
        }
    }

    /// The files in `collection`, or none where it does not exist.
    #[must_use]
    pub fn files_in(&self, collection: &str) -> (res: Option<&Table<Vec<u8>>>)
        requires
            self.wf(),
        ensures
            match res {
                Some(folder) => folder.wf() && self@.files.dom().contains(
                    trim_end(collection@, Class::Slash),
                ) && folder@ == self@.files[trim_end(collection@, Class::Slash)],
                None => !self@.files.dom().contains(trim_end(collection@, Class::Slash)),
            },
    {
        let key = without_end_slashes(collection);
        self.files.get(key.as_str())
    }

    /// The file called `name` in `collection`.
    fn file(&self, collection: &str, name: &str) -> (res: Option<&Vec<u8>>)
        requires
            self.wf(),
        ensures
            match res {
                Some(bytes) => self@.has_file(collection@, name@) && bytes@ == self@.folder(
                    collection@,
                )[name@],
                None => !self@.has_file(collection@, name@),
            },
    {
        match self.files.get(collection) {
            None => None,
            Some(folder) => folder.get(name),
        }
    }
}

// ---------------------------------------------------------------------
// What the client did
// ---------------------------------------------------------------------

/// What the client did, as [`Session::next_event`] reports it.
#[derive(Clone, Debug, PartialEq, Eq)]
pub enum Event {
    /// The client listed this collection.
    Listed(String),
    /// The client stored a file; here is the Stream.
    Put(Arrived),
    /// The client fetched this href.
    Got(String),
    /// The client removed this href.
    Deleted(String),
    /// The client created this collection.
    Created(String),
    /// The client locked this href and holds this token.
    Locked(String, String),
    /// The client unlocked this href.
    Unlocked(String),
    /// The client asked something the store refused, with this status.
    Refused(String, u16),
}

/// An [`Event`] as sequences.
pub enum EventView {
    Listed(Seq<char>),
    Put(ArrivedView),
    Got(Seq<char>),
    Deleted(Seq<char>),
    Created(Seq<char>),
    Locked(Seq<char>, Seq<char>),
    Unlocked(Seq<char>),
    Refused(Seq<char>, u16),
}

impl View for Event {
    type V = EventView;

    open spec fn view(&self) -> EventView {
        match self {
            Event::Listed(href) => EventView::Listed(href@),
            Event::Put(arrived) => EventView::Put(arrived@),
            Event::Got(href) => EventView::Got(href@),
            Event::Deleted(href) => EventView::Deleted(href@),
            Event::Created(href) => EventView::Created(href@),
            Event::Locked(href, token) => EventView::Locked(href@, token@),
            Event::Unlocked(href) => EventView::Unlocked(href@),
            Event::Refused(href, status) => EventView::Refused(href@, *status),
        }
    }
}

/// The views of a run of events.
pub open spec fn event_views(events: Seq<Event>) -> Seq<EventView> {
    events.map_values(|e: Event| e@)
}

// ---------------------------------------------------------------------
// What each method does
// ---------------------------------------------------------------------

/// What a request comes to: the store it leaves, what it was, and what it is
/// answered.
pub struct Outcome {
    pub store: StoreView,
    pub event: EventView,
    pub response: ResponseView,
}

/// The path a request names, without trailing slashes.
pub open spec fn href_of(path: Seq<char>) -> Seq<char> {
    trim_end(path, Class::Slash)
}

/// The collection a href is in, and its name there; both empty where there
/// is no slash in it.
pub open spec fn parts_of(href: Seq<char>) -> (Seq<char>, Seq<char>) {
    match split_last(href, '/') {
        Some(parts) => parts,
        None => (Seq::empty(), Seq::empty()),
    }
}

/// A request that is refused leaves the store as it was.
pub open spec fn refused(store: StoreView, href: Seq<char>, status: u16) -> Outcome {
    Outcome {
        store,
        event: EventView::Refused(href, status),
        response: ResponseView::plain(status),
    }
}

/// Whether `href` is unlocked, or the request carries its token in `If`.
pub open spec fn may_write(
    store: StoreView,
    href: Seq<char>,
    headers: Seq<(Seq<char>, Seq<char>)>,
) -> bool {
    store.locks.dom().contains(href) ==> {
        value_of(headers, "If"@) matches Some(value) && holds_text(
            value,
            "<"@ + store.locks[href] + ">"@,
        )
    }
}

/// GET: the bytes of the file.
pub open spec fn on_get(store: StoreView, href: Seq<char>) -> Outcome {
    let (collection, name) = parts_of(href);
    if store.has_file(collection, name) {
        Outcome {
            store,
            event: EventView::Got(href),
            response: ResponseView::plain(200).carrying(store.folder(collection)[name]),
        }
    } else {
        refused(store, href, 404)
    }
}

/// PUT: the file is stored, where its collection exists and nobody else
/// holds it.
pub open spec fn on_put(
    store: StoreView,
    peer: Seq<char>,
    href: Seq<char>,
    request: RequestView,
) -> Outcome {
    let (collection, name) = parts_of(href);
    if !store.files.dom().contains(collection) {
        refused(store, href, 409)
    } else if !may_write(store, href, request.headers) {
        refused(store, href, 423)
    } else {
        Outcome {
            store: store.put(trim_end(collection, Class::Slash), name, request.body),
            event: EventView::Put(
                ArrivedView { origin_uri: "webdav://"@ + peer + href, bytes: request.body },
            ),
            response: ResponseView::plain(
                if store.has_file(collection, name) {
                    204
                } else {
                    201
                },
            ),
        }
    }
}

/// DELETE: the file is removed and its lock with it, or else the collection;
/// unless somebody else holds it.
pub open spec fn on_delete(store: StoreView, href: Seq<char>, request: RequestView) -> Outcome {
    let (collection, name) = parts_of(href);
    let deleted = ResponseView::plain(204);
    if !may_write(store, href, request.headers) {
        refused(store, href, 423)
    } else if store.has_file(collection, name) {
        Outcome {
            store: StoreView {
                files: store.files.insert(collection, store.files[collection].remove(name)),
                locks: store.locks.remove(href),
                ..store
            },
            event: EventView::Deleted(href),
            response: deleted,
        }
    } else if store.files.dom().contains(href) {
        Outcome {
            store: StoreView { files: store.files.remove(href), ..store },
            event: EventView::Deleted(href),
            response: deleted,
        }
    } else {
        refused(store, href, 404)
    }
}

/// MKCOL: the collection is created, where there is none yet.
pub open spec fn on_mkcol(store: StoreView, href: Seq<char>) -> Outcome {
    if store.files.dom().contains(href) {
        refused(store, href, 405)
    } else {
        Outcome {
            store: StoreView { files: store.files.insert(href, Map::empty()), ..store },
            event: EventView::Created(href),
            response: ResponseView::plain(201),
        }
    }
}

/// The lock token that is handed out as the `n`th.
pub open spec fn token_text(n: nat) -> Seq<char> {
    "opaquelocktoken:xmip-"@ + decimal(n)
}

/// Whether a LOCK of `href` is granted: there is a file, and nobody holds it.
pub open spec fn grants(store: StoreView, href: Seq<char>) -> bool {
    let (collection, name) = parts_of(href);
    store.has_file(collection, name) && !store.locks.dom().contains(href)
}

/// LOCK: the file is locked with a new token, unless it is locked already.
pub open spec fn on_lock(store: StoreView, href: Seq<char>) -> Outcome {
    let (collection, name) = parts_of(href);
    let token = token_text(store.issued + 1);
    if !store.has_file(collection, name) {
        refused(store, href, 404)
    } else if store.locks.dom().contains(href) {
        refused(store, href, 423)
    } else {
        Outcome {
            store: StoreView {
                locks: store.locks.insert(href, token),
                issued: store.issued + 1,
                ..store
            },
            event: EventView::Locked(href, token),
            response: ResponseView::plain(200).having("Lock-Token"@, "<"@ + token + ">"@).having(
                "Content-Type"@,
                "application/xml; charset=utf-8"@,
            ).carrying(encode_utf8(granted(token))),
        }
    }
}

/// The token an UNLOCK presents, its angle brackets trimmed off.
pub open spec fn presented_token(headers: Seq<(Seq<char>, Seq<char>)>) -> Seq<char> {
    match value_of(headers, "Lock-Token"@) {
        Some(value) => trim(value, Class::Angle),
        None => Seq::empty(),
    }
}

/// UNLOCK: the lock is given back, where the token presented is its own.
pub open spec fn on_unlock(store: StoreView, href: Seq<char>, request: RequestView) -> Outcome {
    if !store.locks.dom().contains(href) {
        refused(store, href, 409)
    } else if store.locks[href] != presented_token(request.headers) {
        refused(store, href, 403)
    } else {
        Outcome {
            store: StoreView { locks: store.locks.remove(href), ..store },
            event: EventView::Unlocked(href),
            response: ResponseView::plain(204),
        }
    }
}

/// One line of a listing, with the lock that is held on it.
pub open spec fn entry_for(store: StoreView, href: Seq<char>, collection: bool) -> EntryView {
    let held = trim_end(href, Class::Slash);
    EntryView {
        href,
        collection,
        lock: if store.locks.dom().contains(held) {
            Some(store.locks[held])
        } else {
            None
        },
    }
}

/// The lines for the files of a collection that have these names.
pub open spec fn entries_for(store: StoreView, href: Seq<char>, names: Seq<Seq<char>>) -> Seq<
    EntryView,
> {
    names.map_values(|name: Seq<char>| entry_for(store, href + "/"@ + name, false))
}

/// What a listing of `href` says: the collection itself, and at any depth
/// but `0` its files in the order of their names; or else the one file.
pub open spec fn listing_of(store: StoreView, href: Seq<char>, depth: Seq<char>) -> Seq<EntryView> {
    if !store.files.dom().contains(href) {
        seq![entry_for(store, href, false)]
    } else {
        let itself = seq![entry_for(store, href + "/"@, true)];
        if depth == "0"@ {
            itself
        } else {
            itself + entries_for(store, href, ordered(store.files[href].dom()))
        }
    }
}

/// How deep a PROPFIND asks to look.
pub open spec fn depth_of(headers: Seq<(Seq<char>, Seq<char>)>) -> Seq<char> {
    match value_of(headers, "Depth"@) {
        Some(depth) => depth,
        None => "1"@,
    }
}

/// PROPFIND: what is there.
pub open spec fn on_propfind(store: StoreView, href: Seq<char>, depth: Seq<char>) -> Outcome {
    let (collection, name) = parts_of(href);
    if !store.files.dom().contains(href) && !store.has_file(collection, name) {
        refused(store, href, 404)
    } else {
        Outcome {
            store,
            event: EventView::Listed(href),
            response: ResponseView::plain(207).having(
                "Content-Type"@,
                "application/xml; charset=utf-8"@,
            ).carrying(encode_utf8(multistatus(listing_of(store, href, depth)))),
        }
    }
}

/// What a request from `peer` comes to.
pub open spec fn outcome(store: StoreView, peer: Seq<char>, request: RequestView) -> Outcome {
    let href = href_of(request.path);
    if request.method == "PROPFIND"@ {
        on_propfind(store, href, depth_of(request.headers))
    } else if request.method == "GET"@ {
        on_get(store, href)
    } else if request.method == "PUT"@ {
        on_put(store, peer, href, request)
    } else if request.method == "DELETE"@ {
        on_delete(store, href, request)
    } else if request.method == "MKCOL"@ {
        on_mkcol(store, href)
    } else if request.method == "LOCK"@ {
        on_lock(store, href)
    } else if request.method == "UNLOCK"@ {
        on_unlock(store, href, request)
    } else {
        refused(store, href, 405)
    }
}

// ---------------------------------------------------------------------
// What a stream of requests comes to
// ---------------------------------------------------------------------

/// The bytes a response goes out as: the connection is kept.
pub open spec fn reply_bytes(response: ResponseView) -> Seq<u8> {
    response_bytes(response.having("Connection"@, "keep-alive"@))
}

/// What serving some bytes comes to: the store it leaves, what the client
/// did, what it was answered, and why it ended where it did not end well.
pub struct Served {
    pub store: StoreView,
    pub events: Seq<EventView>,
    pub replies: Seq<u8>,
    pub trouble: Option<ReadErrorView>,
}

/// A request is not empty.
pub proof fn lemma_request_in(input: Seq<u8>, limit: nat)
    ensures
        request_in(input, limit) matches Ok(Some(found)) ==> 0 < found.1 <= input.len(),
{
    lemma_head_from(input, 0);
}

/// What serving every request in `input` comes to.
pub open spec fn served(store: StoreView, peer: Seq<char>, input: Seq<u8>, limit: nat) -> Served
    decreases input.len(),
{
    proof {
        lemma_request_in(input, limit);
    }
    match request_in(input, limit) {
        Err(error) => Served {
            store,
            events: Seq::empty(),
            replies: Seq::empty(),
            trouble: Some(error),
        },
        Ok(None) => Served {
            store,
            events: Seq::empty(),
            replies: Seq::empty(),
            trouble: None,
        },
        Ok(Some((request, n))) => {
            let first = outcome(store, peer, request);
            let rest = served(first.store, peer, input.skip(n), limit);
            Served {
                store: rest.store,
                events: seq![first.event] + rest.events,
                replies: reply_bytes(first.response) + rest.replies,
                trouble: rest.trouble,
            }
        },
    }
}

/// What serving requests up to the first file stored comes to.
pub struct Awaited {
    pub store: StoreView,
    pub replies: Seq<u8>,
    pub put: Result<Option<(ArrivedView, int)>, ReadErrorView>,
}

/// What serving the requests in `input` up to the first file stored comes
/// to: that file, and how much of `input` was read for it.
pub open spec fn awaited(store: StoreView, peer: Seq<char>, input: Seq<u8>, limit: nat) -> Awaited
    decreases input.len(),
{
    proof {
        lemma_request_in(input, limit);
    }
    match request_in(input, limit) {
        Err(error) => Awaited { store, replies: Seq::empty(), put: Err(error) },
        Ok(None) => Awaited { store, replies: Seq::empty(), put: Ok(None) },
        Ok(Some((request, n))) => {
            let first = outcome(store, peer, request);
            let reply = reply_bytes(first.response);
            if let EventView::Put(arrived) = first.event {
                Awaited { store: first.store, replies: reply, put: Ok(Some((arrived, n))) }
            } else {
                let rest = awaited(first.store, peer, input.skip(n), limit);
                Awaited {
                    store: rest.store,
                    replies: reply + rest.replies,
                    put: match rest.put {
                        Ok(Some((arrived, m))) => Ok(Some((arrived, n + m))),
                        Ok(None) => Ok(None),
                        Err(error) => Err(error),
                    },
                }
            }
        },
    }
}

// ---------------------------------------------------------------------
// The session
// ---------------------------------------------------------------------

/// What a session starts with: a root collection, and nothing in it.
pub open spec fn root_store() -> StoreView {
    StoreView {
        files: Map::empty().insert(Seq::empty(), Map::empty()),
        locks: Map::empty(),
        issued: 0,
    }
}

/// One client's worth of server, over a store.
pub struct Session {
    peer: String,
    store: Store,
}

/// One request that was served: what it was, what to answer it with, and how
/// many of the client's bytes it took.
#[derive(Clone, Debug, PartialEq, Eq)]
pub struct Turn {
    pub event: Event,
    pub reply: Vec<u8>,
    pub length: usize,
}

impl Session {
    /// Where the client is.
    pub closed spec fn peer(self) -> Seq<char> {
        self.peer@
    }

    /// What is served.
    pub closed spec fn holding(self) -> Store {
        self.store
    }

    /// The store is in order.
    pub open spec fn wf(self) -> bool {
        self.holding().wf()
    }

    /// Accept the client at `peer` over an empty store with a root
    /// collection.
    #[must_use]
    pub fn accept(peer: &str) -> (res: Self)
        ensures
            res.wf(),
            res.peer() == peer@,
            res.holding()@ == root_store(),
    {
        let mut store = Store::default();
        store.files.insert(String::new(), Table::new());
        Session { peer: peer.to_owned(), store }
    }

    /// Serve this store instead — the way one session hands its state to
    /// the next connection.
    #[must_use]
    pub fn with_store(self, store: Store) -> (res: Self)
        ensures
            res.peer() == self.peer(),
            res.holding() == store,
    {
        let mut res = self;
        res.store = store;
        res
    }

    /// What the store holds now.
    #[must_use]
    pub fn store(&self) -> (res: &Store)
        ensures
            *res == self.holding(),
    {
        &self.store
    }

    /// The store, for the next session to carry on with.
    #[must_use]
    pub fn into_store(self) -> (res: Store)
        ensures
            res == self.holding(),
    {
        self.store
    }

    /// The collection a href is in, and its name there.
    fn parts(href: &str) -> (res: (String, String))
        ensures
            parts_of(href@) == (res.0@, res.1@),
    {
        let text = chars_of(href);
        match rfind_char(text.as_slice(), '/') {
            None => (String::new(), String::new()),
            Some(i) => {
                let collection = slice_subrange(text.as_slice(), 0, i);
                let name = slice_subrange(text.as_slice(), i + 1, text.len());
                proof {
                    assert(collection@ == text@.take(i as int));
                    assert(name@ == text@.skip(i + 1));
                }
                (string_of(collection), string_of(name))
            },
        }
    }

    /// A request that is refused.
    fn refuse(href: String, status: u16) -> (res: (Event, Response))
        ensures
            res.0@ == EventView::Refused(href@, status),
            res.1@ == ResponseView::plain(status),
    {
        (Event::Refused(href, status), Response::new(status))
    }

    /// Whether `href` is unlocked, or the request carries its token in `If`.
    fn may_write(&self, href: &str, request: &Request) -> (res: bool)
        requires
            self.wf(),
        ensures
            res == may_write(self.holding()@, href@, request@.headers),
    {
        match self.store.locks.get(href) {
            None => true,
            Some(token) => match request.header("If") {
                None => false,
                Some(value) => {
                    let mut wanted = joined("<", token.as_str());
                    wanted.append(">");
                    let value = chars_of(value);
                    let wanted = chars_of(wanted.as_str());
                    contains_text(value.as_slice(), wanted.as_slice())
                },
            },
        }
    }

    /// GET.
    fn get(&self, href: String) -> (res: (Event, Response))
        requires
            self.wf(),
        ensures
            on_get(self.holding()@, href@) == (Outcome {
                store: self.holding()@,
                event: res.0@,
                response: res.1@,
            }),
    {
        let (collection, name) = Self::parts(href.as_str());
        match self.store.file(collection.as_str(), name.as_str()) {
            None => Self::refuse(href, 404),
            Some(bytes) => (Event::Got(href), Response::new(200).with_body(bytes.as_slice())),
        }
    }

    /// PUT.
    fn put(&mut self, href: String, request: &Request) -> (res: (Event, Response))
        requires
            old(self).wf(),
        ensures
            final(self).wf(),
            final(self).peer() == old(self).peer(),
            on_put(old(self).holding()@, old(self).peer(), href@, request@) == (Outcome {
                store: final(self).holding()@,
                event: res.0@,
                response: res.1@,
            }),
    {
        let (collection, name) = Self::parts(href.as_str());
        if !self.store.files.contains_key(collection.as_str()) {
            return Self::refuse(href, 409);
        }
        if !self.may_write(href.as_str(), request) {
            return Self::refuse(href, 423);
        }
        let existed = self.store.file(collection.as_str(), name.as_str()).is_some();
        self.store.insert(collection.as_str(), name.as_str(), request.body.as_slice());
        let mut origin = joined("webdav://", self.peer.as_str());
        origin.append(href.as_str());
        let arrived = Arrived::new(origin, slice_to_vec(request.body.as_slice()));
        let status: u16 = if existed {
            204
        } else {
            201
        };
        (Event::Put(arrived), Response::new(status))
    }

    /// DELETE.
    fn delete(&mut self, href: String, request: &Request) -> (res: (Event, Response))
        requires
            old(self).wf(),
        ensures
            final(self).wf(),
            final(self).peer() == old(self).peer(),
            on_delete(old(self).holding()@, href@, request@) == (Outcome {
                store: final(self).holding()@,
                event: res.0@,
                response: res.1@,
            }),
    {
        let ghost start = self.holding()@;
        let (collection, name) = Self::parts(href.as_str());
        if !self.may_write(href.as_str(), request) {
            return Self::refuse(href, 423);
        }
        if self.store.file(collection.as_str(), name.as_str()).is_some() {
            if let Some(mut folder) = self.store.files.remove(collection.as_str()) {
                let _ = folder.remove(name.as_str());
                self.store.files.insert(collection, folder);
                let _ = self.store.locks.remove(href.as_str());
                proof {
                    assert(self.holding()@.files =~= start.files.insert(
                        collection@,
                        start.files[collection@].remove(name@),
                    ));
                }
            }
            return (Event::Deleted(href), Response::new(204));
        }
        match self.store.files.remove(href.as_str()) {
            Some(_) => (Event::Deleted(href), Response::new(204)),
            None => Self::refuse(href, 404),
        }
    }

    /// MKCOL.
    fn mkcol(&mut self, href: String) -> (res: (Event, Response))
        requires
            old(self).wf(),
        ensures
            final(self).wf(),
            final(self).peer() == old(self).peer(),
            on_mkcol(old(self).holding()@, href@) == (Outcome {
                store: final(self).holding()@,
                event: res.0@,
                response: res.1@,
            }),
    {
        if self.store.files.contains_key(href.as_str()) {
            return Self::refuse(href, 405);
        }
        self.store.files.insert(href.clone(), Table::new());
        (Event::Created(href), Response::new(201))
    }

    /// LOCK.
    fn lock(&mut self, href: String) -> (res: (Event, Response))
        requires
            old(self).wf(),
            grants(old(self).holding()@, href@) ==> old(self).holding()@.issued < u64::MAX,
        ensures
            final(self).wf(),
            final(self).peer() == old(self).peer(),
            on_lock(old(self).holding()@, href@) == (Outcome {
                store: final(self).holding()@,
                event: res.0@,
                response: res.1@,
            }),
    {
        let (collection, name) = Self::parts(href.as_str());
        if self.store.file(collection.as_str(), name.as_str()).is_none() {
            return Self::refuse(href, 404);
        }
        if self.store.locks.contains_key(href.as_str()) {
            return Self::refuse(href, 423);
        }
        let token = self.store.tokens.next();
        self.store.locks.insert(href.clone(), token.clone());
        let mut header = joined("<", token.as_str());
        header.append(">");
        let body = lock_granted(token.as_str());
        let response = Response::new(200).with_header("Lock-Token", header.as_str()).with_header(
            "Content-Type",
            "application/xml; charset=utf-8",
        ).with_body(body.as_str().as_bytes());
        (Event::Locked(href, token), response)
    }

    /// UNLOCK.
    fn unlock(&mut self, href: String, request: &Request) -> (res: (Event, Response))
        requires
            old(self).wf(),
        ensures
            final(self).wf(),
            final(self).peer() == old(self).peer(),
            on_unlock(old(self).holding()@, href@, request@) == (Outcome {
                store: final(self).holding()@,
                event: res.0@,
                response: res.1@,
            }),
    {
        let presented = match request.header("Lock-Token") {
            None => String::new(),
            Some(value) => {
                let value = chars_of(value);
                string_of(trim_of(value.as_slice(), Class::Angle))
            },
        };
        let known = match self.store.locks.get(href.as_str()) {
            None => {
                return Self::refuse(href, 409);
            },
            Some(held) => same(held.as_str(), presented.as_str()),
        };
        if !known {
            return Self::refuse(href, 403);
        }
        let _ = self.store.locks.remove(href.as_str());
        (Event::Unlocked(href), Response::new(204))
    }

    /// One more line of a listing, with the lock that is held on it.
    fn entry(&self, listing: &mut Listing, href: &str, collection: bool)
        requires
            self.wf(),
            old(listing).wf(),
        ensures
            final(listing).wf(),
            final(listing).entries() == old(listing).entries().push(
                entry_for(self.holding()@, href@, collection),
            ),
    {
        let held = without_end_slashes(href);
        match self.store.locks.get(held.as_str()) {
            None => listing.entry(href, collection, None),
            Some(token) => listing.entry(href, collection, Some(token.as_str())),
        }
    }

    /// PROPFIND.
    fn propfind(&self, href: String, depth: &str) -> (res: (Event, Response))
        requires
            self.wf(),
        ensures
            on_propfind(self.holding()@, href@, depth@) == (Outcome {
                store: self.holding()@,
                event: res.0@,
                response: res.1@,
            }),
    {
        let ghost store = self.holding()@;
        let mut listing = Listing::new();
        match self.store.files.get(href.as_str()) {
            Some(folder) => {
                let base = joined(href.as_str(), "/");
                self.entry(&mut listing, base.as_str(), true);
                let ghost itself = seq![entry_for(store, href@ + "/"@, true)];
                proof {
                    assert(listing.entries() =~= itself);
                }
                if !same(depth, "0") {
                    let ghost names = folder.keys();
                    proof {
                        folder.lemma_keys();
                        assert(listing.entries() =~= itself + entries_for(
                            store,
                            href@,
                            names.take(0),
                        ));
                    }
                    let mut i: usize = 0;
                    while i < folder.len()
                        invariant
                            self.wf(),
                            store == self.holding()@,
                            base@ == href@ + "/"@,
                            names == folder.keys(),
                            i <= names.len(),
                            listing.wf(),
                            listing.entries() == itself + entries_for(
                                store,
                                href@,
                                names.take(i as int),
                            ),
                        decreases names.len() - i,
                    {
                        let member = joined(base.as_str(), folder.key_at(i));
                        self.entry(&mut listing, member.as_str(), false);
                        i += 1;
                        proof {
                            assert(listing.entries() =~= itself + entries_for(
                                store,
                                href@,
                                names.take(i as int),
                            ));
                        }
                    }
                    proof {
                        assert(names.take(i as int) == names);
                    }
                }
            },
            None => {
                let (collection, name) = Self::parts(href.as_str());
                if self.store.file(collection.as_str(), name.as_str()).is_none() {
                    return Self::refuse(href, 404);
                }
                self.entry(&mut listing, href.as_str(), false);
                proof {
                    assert(listing.entries() =~= seq![entry_for(store, href@, false)]);
                }
            },
        }
        let body = listing.finish();
        let response = Response::new(207).with_header(
            "Content-Type",
            "application/xml; charset=utf-8",
        ).with_body(body.as_str().as_bytes());
        (Event::Listed(href), response)
    }

    /// Carry one request out: what the client did, and what it is answered.
    pub fn answer(&mut self, request: &Request) -> (res: (Event, Response))
        requires
            old(self).wf(),
            request@.method == "LOCK"@ && grants(
                old(self).holding()@,
                href_of(request@.path),
            ) ==> old(self).holding()@.issued < u64::MAX,
        ensures
            final(self).wf(),
            final(self).peer() == old(self).peer(),
            outcome(old(self).holding()@, old(self).peer(), request@) == (Outcome {
                store: final(self).holding()@,
                event: res.0@,
                response: res.1@,
            }),
    {
        let href = without_end_slashes(request.path.as_str());
        let method = request.method.as_str();
        if same(method, "PROPFIND") {
            let depth = match request.header("Depth") {
                Some(depth) => depth,
                None => "1",
            };
            self.propfind(href, depth)
        } else if same(method, "GET") {
            self.get(href)
        } else if same(method, "PUT") {
            self.put(href, request)
        } else if same(method, "DELETE") {
            self.delete(href, request)
        } else if same(method, "MKCOL") {
            self.mkcol(href)
        } else if same(method, "LOCK") {
            self.lock(href)
        } else if same(method, "UNLOCK") {
            self.unlock(href, request)
        } else {
            Self::refuse(href, 405)
        }
    }

    /// The next thing the client did, read off the start of `input`, or
    /// `None` when it closed.
    ///
    /// # Errors
    /// Where what arrived was not HTTP, or `input` ends before the request
    /// does.
    pub fn next_event(&mut self, input: &[u8], limit: usize) -> (res: Result<
        Option<Turn>,
        ReadError,
    >)
        requires
            old(self).wf(),
            request_in(input@, limit as nat) matches Ok(Some(found)) ==> found.0.method == "LOCK"@
                && grants(old(self).holding()@, href_of(found.0.path)) ==> old(
                self,
            ).holding()@.issued < u64::MAX,
        ensures
            final(self).wf(),
            final(self).peer() == old(self).peer(),
            match request_in(input@, limit as nat) {
                Ok(Some((request, length))) => {
                    let out = outcome(old(self).holding()@, old(self).peer(), request);
                    &&& res matches Ok(Some(turn))
                    &&& turn.event@ == out.event
                    &&& turn.reply@ == reply_bytes(out.response)
                    &&& turn.length == length
                    &&& 0 < length <= input.len()
                    &&& final(self).holding()@ == out.store
                },
                Ok(None) => res matches Ok(None) && *final(self) == *old(self),
                Err(error) => res matches Err(e) && e@ == error && *final(self) == *old(self),
            },
    {
        proof {
            lemma_request_in(input@, limit as nat);
        }
        match read_request(input, limit) {
            Err(error) => Err(error),
            Ok(None) => Ok(None),
            Ok(Some((request, length))) => {
                let (event, response) = self.answer(&request);
                let response = response.with_header("Connection", "keep-alive");
                let reply = write_response(&response);
                Ok(Some(Turn { event, reply, length }))
            },
        }
    }

    /// Serve every request in `input`, until the client closes; what it is
    /// answered goes after what `replies` already holds.
    ///
    /// # Errors
    /// Where what arrived was not HTTP, or `input` ends before a request
    /// does. What was served before that stays served.
    #[verifier::rlimit(60)]
    pub fn serve(&mut self, input: &[u8], limit: usize, replies: &mut Vec<u8>) -> (res: Result<
        Vec<Event>,
        ReadError,
    >)
        requires
            old(self).wf(),
            old(self).holding()@.issued + input.len() < u64::MAX,
        ensures
            final(self).wf(),
            final(self).peer() == old(self).peer(),
            ({
                let all = served(old(self).holding()@, old(self).peer(), input@, limit as nat);
                &&& final(self).holding()@ == all.store
                &&& final(replies)@ == old(replies)@ + all.replies
                &&& match res {
                    Ok(events) => all.trouble is None && event_views(events@) == all.events,
                    Err(error) => all.trouble == Some(error@),
                }
            }),
    {
        let ghost all = served(self.holding()@, self.peer(), input@, limit as nat);
        let ghost first = old(replies)@;
        let mut events: Vec<Event> = Vec::new();
        let mut at: usize = 0;
        proof {
            assert(input@.skip(0) == input@);
            assert(event_views(events@) =~= Seq::<EventView>::empty());
            assert(first + all.replies =~= replies@ + all.replies);
            assert(all.events =~= event_views(events@) + all.events);
        }
        loop
            invariant
                at <= input.len(),
                self.wf(),
                self.peer() == old(self).peer(),
                self.holding()@.issued + input.len() - at < u64::MAX,
                all == served(old(self).holding()@, old(self).peer(), input@, limit as nat),
                first == old(replies)@,
                ({
                    let rest = served(
                        self.holding()@,
                        self.peer(),
                        input@.skip(at as int),
                        limit as nat,
                    );
                    &&& all.store == rest.store
                    &&& all.trouble == rest.trouble
                    &&& all.events == event_views(events@) + rest.events
                    &&& first + all.replies == replies@ + rest.replies
                }),
            decreases input.len() - at,
        {
            let ghost done = events@;
            let ghost said = replies@;
            let rest = slice_subrange(input, at, input.len());
            proof {
                assert(rest@ =~= input@.skip(at as int));
            }
            match self.next_event(rest, limit) {
                Err(error) => {
                    proof {
                        assert(replies@ + Seq::<u8>::empty() =~= replies@);
                    }
                    return Err(error);
                },
                Ok(None) => {
                    proof {
                        assert(replies@ + Seq::<u8>::empty() =~= replies@);
                        assert(event_views(events@) + Seq::<EventView>::empty() =~= event_views(
                            events@,
                        ));
                    }
                    return Ok(events);
                },
                Ok(Some(turn)) => {
                    let Turn { event, reply, length } = turn;
                    let mut reply = reply;
                    let ghost spoken = reply@;
                    replies.append(&mut reply);
                    events.push(event);
                    at += length;
                    proof {
                        assert(rest@.skip(length as int) =~= input@.skip(at as int));
                        let more = served(
                            self.holding()@,
                            self.peer(),
                            input@.skip(at as int),
                            limit as nat,
                        );
                        assert(event_views(done) + (seq![event@] + more.events) =~= event_views(
                            events@,
                        ) + more.events);
                        assert(said + (spoken + more.replies) =~= replies@ + more.replies);
                    }
                },
            }
        }
    }

    /// The next file the client stores, or `None` when it closed, and how
    /// much of `input` was read for it; what the client is answered goes
    /// after what `replies` already holds.
    ///
    /// # Errors
    /// Where what arrived was not HTTP, or `input` ends before a request
    /// does. What was served before that stays served.
    #[verifier::rlimit(60)]
    pub fn next_put(&mut self, input: &[u8], limit: usize, replies: &mut Vec<u8>) -> (res: Result<
        Option<(Arrived, usize)>,
        ReadError,
    >)
        requires
            old(self).wf(),
            old(self).holding()@.issued + input.len() < u64::MAX,
        ensures
            final(self).wf(),
            final(self).peer() == old(self).peer(),
            ({
                let all = awaited(old(self).holding()@, old(self).peer(), input@, limit as nat);
                &&& final(self).holding()@ == all.store
                &&& final(replies)@ == old(replies)@ + all.replies
                &&& match res {
                    Ok(Some(found)) => all.put == Ok::<Option<(ArrivedView, int)>, ReadErrorView>(
                        Some((found.0@, found.1 as int)),
                    ),
                    Ok(None) => all.put == Ok::<Option<(ArrivedView, int)>, ReadErrorView>(None),
                    Err(error) => all.put == Err::<Option<(ArrivedView, int)>, ReadErrorView>(
                        error@,
                    ),
                }
            }),
    {
        let ghost all = awaited(self.holding()@, self.peer(), input@, limit as nat);
        let ghost first = old(replies)@;
        let mut at: usize = 0;
        proof {
            assert(input@.skip(0) == input@);
        }
        loop
            invariant
                at <= input.len(),
                self.wf(),
                self.peer() == old(self).peer(),
                self.holding()@.issued + input.len() - at < u64::MAX,
                all == awaited(old(self).holding()@, old(self).peer(), input@, limit as nat),
                first == old(replies)@,
                ({
                    let rest = awaited(
                        self.holding()@,
                        self.peer(),
                        input@.skip(at as int),
                        limit as nat,
                    );
                    &&& all.store == rest.store
                    &&& all.put == match rest.put {
                        Ok(Some((arrived, m))) => Ok(Some((arrived, at + m))),
                        Ok(None) => Ok(None),
                        Err(error) => Err(error),
                    }
                    &&& first + all.replies == replies@ + rest.replies
                }),
            decreases input.len() - at,
        {
            let ghost said = replies@;
            let rest = slice_subrange(input, at, input.len());
            proof {
                assert(rest@ =~= input@.skip(at as int));
            }
            match self.next_event(rest, limit) {
                Err(error) => {
                    proof {
                        assert(replies@ + Seq::<u8>::empty() =~= replies@);
                    }
                    return Err(error);
                },
                Ok(None) => {
                    proof {
                        assert(replies@ + Seq::<u8>::empty() =~= replies@);
                    }
                    return Ok(None);
                },
                Ok(Some(turn)) => {
                    let Turn { event, reply, length } = turn;
                    let mut reply = reply;
                    let ghost spoken = reply@;
                    replies.append(&mut reply);
                    at += length;
                    if let Event::Put(arrived) = event {
                        return Ok(Some((arrived, at)));
                    }
                    proof {
                        assert(rest@.skip(length as int) =~= input@.skip(at as int));
                        let more = awaited(
                            self.holding()@,
                            self.peer(),
                            input@.skip(at as int),
                            limit as nat,
                        );
                        assert(said + (spoken + more.replies) =~= replies@ + more.replies);
                    }
                },
            }
        }
    }
}

} // verus!
