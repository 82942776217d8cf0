//! The transport: a `WebDAV` collection that Streams arrive from and are
//! sent to, one file each.
//!
//! **LOCK is the native claim.** A `WebDAV` server grants one exclusive
//! write lock per resource and refuses the second with 423, so a member
//! locked here is claimed at the endpoint for every node at once; the lock
//! token is the claim token.
//!
//! A send target is `webdav://host:port/path/name` or `http://…`, or a name
//! alone inside this transport's collection.

use vstd::prelude::*;
use vstd::slice::slice_subrange;
use vstd::string::StringExecFns;
use std::time::Duration;
use crate::client::{
    found, lock_in, lock_request, locked, member_in, propfind_request, put_request, unlock_request,
    Client,
};
use crate::error::{joined, protocol, protocol_error, ErrorView, TransportError};
use crate::receive::Receiving;
use crate::session::{root_store, Session};
use crate::stream::{Arrived, Artefact, Claimed, Directions};
use crate::target::{address_of, target_of, HttpTarget, TargetView};
use crate::text::{
    chars_of, contains_text, holds_text, push_chars, starts_with, trim_end, trim_end_of, trim_start,
    trim_start_of, Class,
};
use crate::wire::{Request, RequestView, Response};

verus! {

/// `webdav://` is `http://` on the wire, and `webdavs://` is `https://`.
pub open spec fn http_url(url: Seq<char>) -> Seq<char> {
    if "webdav://"@.is_prefix_of(url) {
        "http://"@ + url.skip("webdav://"@.len() as int)
    } else if "webdavs://"@.is_prefix_of(url) {
        "https://"@ + url.skip("webdavs://"@.len() as int)
    } else {
        url
    }
}

/// `target` as a full URL: as it is when it carries a scheme, else a name
/// inside `collection`.
pub open spec fn resolved(collection: Seq<char>, target: Seq<char>) -> Seq<char> {
    if holds_text(target, "://"@) {
        http_url(target)
    } else {
        trim_end(collection, Class::Slash) + "/"@ + trim_start(target, Class::Slash)
    }
}

/// A request, and the server it is for.
#[derive(Clone, Debug, PartialEq, Eq)]
pub struct Errand {
    pub target: HttpTarget,
    pub request: Request,
}

/// An [`Errand`] as sequences.
pub struct ErrandView {
    pub target: TargetView,
    pub request: RequestView,
}

impl View for Errand {
    type V = ErrandView;

    open spec fn view(&self) -> ErrandView {
        ErrandView { target: self.target@, request: self.request@ }
    }
}

/// An errand, or why there is none to run.
pub open spec fn errand_view(errand: Result<Errand, TransportError>) -> Result<
    ErrandView,
    ErrorView,
> {
    match errand {
        Ok(errand) => Ok(errand@),
        Err(error) => Err(error@),
    }
}

/// Ask `request` of the path `url` points at.
pub open spec fn errand_to(url: Seq<char>, request: spec_fn(Seq<char>) -> RequestView) -> Result<
    ErrandView,
    ErrorView,
> {
    match target_of(url) {
        Err(error) => Err(error),
        Ok(target) => Ok(ErrandView { target, request: request(target.path) }),
    }
}

/// Store `bytes` where `target` resolves to, unless that is a collection.
pub open spec fn send_errand(collection: Seq<char>, target: Seq<char>, bytes: Seq<u8>) -> Result<
    ErrandView,
    ErrorView,
> {
    let url = resolved(collection, target);
    if url.len() > 0 && url.last() == '/' {
        Err(protocol("a send target that names a collection rather than a member: "@ + url))
    } else {
        errand_to(url, |path: Seq<char>| put_request(path, bytes))
    }
}

/// `webdav://` is `http://` on the wire, and `webdavs://` is `https://`.
fn as_http(url: &str) -> (res: String)
    ensures
        res@ == http_url(url@),
{
    let text = chars_of(url);
    let webdav = chars_of("webdav://");
    let webdavs = chars_of("webdavs://");
    if starts_with(text.as_slice(), webdav.as_slice()) {
        let rest = slice_subrange(text.as_slice(), webdav.len(), text.len());
        proof {
            assert(rest@ =~= url@.skip("webdav://"@.len() as int));
        }
        let mut out = "http://".to_owned();
        push_chars(&mut out, rest);
        out
    } else if starts_with(text.as_slice(), webdavs.as_slice()) {
        let rest = slice_subrange(text.as_slice(), webdavs.len(), text.len());
        proof {
            assert(rest@ =~= url@.skip("webdavs://"@.len() as int));
        }
        let mut out = "https://".to_owned();
        push_chars(&mut out, rest);
        out
    } else {
        url.to_owned()
    }
}

/// Streams that arrive as files in a `WebDAV` collection.
#[derive(Clone, Debug)]
pub struct WebDavTransport {
    collection: String,
    timeout: Option<Duration>,
}

impl WebDavTransport {
    /// The URL of the collection, as it is on the wire.
    pub closed spec fn collection(self) -> Seq<char> {
        self.collection@
    }

    /// How long a server may stop mid-answer.
    pub closed spec fn patience(self) -> Option<Duration> {
        self.timeout
    }

    /// Speak to the collection at `collection_url` —
    /// `webdav://host:port/orders` or `http://host:port/orders`.
    #[must_use]
    pub fn new(collection_url: &str) -> (res: Self)
        ensures
            res.collection() == http_url(collection_url@),
            res.patience() is None,
    {
        WebDavTransport { collection: as_http(collection_url), timeout: None }
    }

    /// Give up on a server that stops mid-answer.
    #[must_use]
    pub fn timing_out_after(self, timeout: Duration) -> (res: Self)
        ensures
            res.collection() == self.collection(),
            res.patience() == Some(timeout),
    {
        let mut res = self;
        res.timeout = Some(timeout);
        res
    }

    /// How long a server may stop mid-answer.
    #[must_use]
    pub fn timeout(&self) -> (res: Option<Duration>)
        ensures
            res == self.patience(),
    {
        self.timeout
    }

    /// What this transport is called.
    #[must_use]
    pub fn name(&self) -> (res: &'static str)
        ensures
            res@ == "webdav"@,
    {
        "webdav"
    }

    /// The ways this transport carries Streams: both.
    #[must_use]
    pub fn directions(&self) -> (res: Directions)
        ensures
            res.receives && res.sends,
    {
        Directions { receives: true, sends: true }
    }

    /// What claims the resources of this transport: itself.
    #[must_use]
    pub fn claims(&self) -> (res: Option<&Self>)
        ensures
            res == Some(self),
    {
        Some(self)
    }

    /// Where the collection is, and so the server to connect to.
    ///
    /// # Errors
    /// Where the collection URL cannot be read.
    pub fn connect(&self) -> (res: Result<HttpTarget, TransportError>)
        ensures
            match res {
                Ok(target) => target_of(self.collection()) == Ok::<TargetView, ErrorView>(target@),
                Err(error) => target_of(self.collection()) == Err::<TargetView, ErrorView>(error@),
            },
    {
        HttpTarget::parse(self.collection.as_str())
    }

    /// The address to bind as the far end that clients connect to: the
    /// collection URL's authority.
    ///
    /// # Errors
    /// Where the collection URL cannot be read.
    pub fn bind(&self) -> (res: Result<String, TransportError>)
        ensures
            match res {
                Ok(address) => target_of(self.collection()) matches Ok(target) && address@
                    == address_of(target),
                Err(error) => target_of(self.collection()) == Err::<TargetView, ErrorView>(error@),
            },
    {
        match self.connect() {
            Err(error) => Err(error),
            Ok(target) => Ok(target.address()),
        }
    }

    /// Serve the one client at `peer` that a bound listener accepted.
    #[must_use]
    pub fn accept_one(&self, peer: &str) -> (res: Session)
        ensures
            res.wf(),
            res.peer() == peer@,
            res.holding()@ == root_store(),
    {
        Session::accept(peer)
    }

    /// `target` as a full URL: as it is when it carries a scheme, else a
    /// name inside this transport's collection.
    fn resolve(&self, target: &str) -> (res: String)
        ensures
            res@ == resolved(self.collection(), target@),
    {
        let text = chars_of(target);
        let mark = chars_of("://");
        if contains_text(text.as_slice(), mark.as_slice()) {
            return as_http(target);
        }
        let collection = chars_of(self.collection.as_str());
        let mut out = String::new();
        push_chars(&mut out, trim_end_of(collection.as_slice(), Class::Slash));
        out.append("/");
        push_chars(&mut out, trim_start_of(text.as_slice(), Class::Slash));
        proof {
            assert(out@ =~= resolved(self.collection(), target@));
        }
        out
    }

    /// Start to take every member of the collection that is a file and not
    /// held by somebody else: locked, fetched and deleted, in that order.
    ///
    /// # Errors
    /// Where the collection URL cannot be read.
    pub fn receive(&self) -> (res: Result<(HttpTarget, Receiving), TransportError>)
        ensures
            match res {
                Ok(started) => target_of(self.collection()) == Ok::<TargetView, ErrorView>(
                    started.0@,
                ) && started.1.wf() && started.1@ == crate::receive::receive_start(
                    started.0@.authority,
                    started.0@.path,
                ),
                Err(error) => target_of(self.collection()) == Err::<TargetView, ErrorView>(error@),
            },
    {
        match self.connect() {
            Err(error) => Err(error),
            Ok(target) => {
                let receiving = Receiving::start(&target);
                Ok((target, receiving))
            },
        }
    }

    /// Send `bytes` to `target`.
    ///
    /// # Errors
    /// Where the target names a collection rather than a member, or cannot
    /// be read.
    pub fn send(&self, target: &str, bytes: &[u8]) -> (res: Result<Errand, TransportError>)
        ensures
            errand_view(res) == send_errand(self.collection(), target@, bytes@),
    {
        let url = self.resolve(target);
        let text = chars_of(url.as_str());
        if text.len() > 0 && text[text.len() - 1] == '/' {
            return Err(
                protocol_error(
                    joined(
                        "a send target that names a collection rather than a member: ",
                        url.as_str(),
                    ),
                ),
            );
        }
        match HttpTarget::parse(url.as_str()) {
            Err(error) => Err(error),
            Ok(target) => {
                let request = Client::put(target.path.as_str(), bytes);
                Ok(Errand { target, request })
            },
        }
    }

    /// Ask whether `artefact` is there and nobody reports a lock on it;
    /// [`available`] reads the answer.
    ///
    /// # Errors
    /// Where its address cannot be read.
    pub fn is_available(&self, artefact: &Artefact) -> (res: Result<Errand, TransportError>)
        ensures
            errand_view(res) == errand_to(
                resolved(self.collection(), artefact.at()),
                |path: Seq<char>| propfind_request(path, "0"@),
            ),
    {
        let url = self.resolve(artefact.address());
        match HttpTarget::parse(url.as_str()) {
            Err(error) => Err(error),
            Ok(target) => {
                let request = Client::find(target.path.as_str());
                Ok(Errand { target, request })
            },
        }
    }

    /// Ask for the lock on `artefact`; [`claimed`] reads the answer.
    ///
    /// # Errors
    /// Where its address cannot be read.
    pub fn claim(&self, artefact: &Artefact) -> (res: Result<Errand, TransportError>)
        ensures
            errand_view(res) == errand_to(
                resolved(self.collection(), artefact.at()),
                |path: Seq<char>| lock_request(path),
            ),
    {
        let url = self.resolve(artefact.address());
        match HttpTarget::parse(url.as_str()) {
            Err(error) => Err(error),
            Ok(target) => {
                let request = Client::lock(target.path.as_str());
                Ok(Errand { target, request })
            },
        }
    }

    /// Ask that what was claimed be unlocked, with the token the claim
    /// carried.
    ///
    /// # Errors
    /// Where its address cannot be read.
    pub fn release(&self, claimed: &Claimed) -> (res: Result<Errand, TransportError>)
        ensures
            errand_view(res) == errand_to(
                resolved(self.collection(), claimed.artefact.at()),
                |path: Seq<char>| unlock_request(path, claimed.token@),
            ),
    {
        let url = self.resolve(claimed.artefact.address());
        match HttpTarget::parse(url.as_str()) {
            Err(error) => Err(error),
            Ok(target) => {
                let request = Client::unlock(target.path.as_str(), claimed.token.as_str());
                Ok(Errand { target, request })
            },
        }
    }

    /// Both ends on this machine: an ephemeral local port serving the root
    /// collection, this timeout.
    #[must_use]
    pub fn loopback(timeout: Duration) -> (res: Self)
        ensures
            res.collection() == http_url("webdav://127.0.0.1:0"@),
            res.patience() == Some(timeout),
    {
        Self::new("webdav://127.0.0.1:0").timing_out_after(timeout)
    }

    /// Send the payload as one member of the root collection, from a fresh
    /// near end, to `address`.
    ///
    /// # Errors
    /// Where `address` cannot be read.
    pub fn send_to(&self, address: &str, payload: &[u8]) -> (res: Result<Errand, TransportError>)
        ensures
            errand_view(res) == send_errand("http://"@ + address@, "probe.bin"@, payload@),
    {
        let near = WebDavTransport {
            collection: joined("http://", address),
            timeout: self.timeout,
        };
        near.send("probe.bin", payload)
    }
}

/// What the far end of the loopback pair got of its one client: what it
/// stored.
///
/// # Errors
/// Where the client closed without storing anything.
pub fn far_end(put: Option<Arrived>) -> (res: Result<Arrived, TransportError>)
    ensures
        match res {
            Ok(arrived) => put == Some(arrived),
            Err(error) => put is None && error@ == protocol("the client closed without storing"@),
        },
{
    match put {
        Some(arrived) => Ok(arrived),
        None => Err(protocol_error("the client closed without storing".to_owned())),
    }
}

/// Whether a resource is there, a file, and nobody reports a lock on it, of
/// what [`WebDavTransport::is_available`] was answered.
///
/// # Errors
/// Where the server refused for any reason other than 404.
pub fn available(response: Response) -> (res: Result<bool, TransportError>)
    ensures
        match res {
            Ok(free) => member_in(response@) matches Ok(found) && free == (found matches Some(
                member,
            ) && !member.locked && !member.collection),
            Err(error) => member_in(response@) matches Err(e) && e == error@,
        },
{
    match found(response) {
        Err(error) => Err(error),
        Ok(None) => Ok(false),
        Ok(Some(member)) => Ok(!member.locked && !member.collection),
    }
}

/// The claim that [`WebDavTransport::claim`] was answered with; the lock
/// token is the claim token.
///
/// # Errors
/// Where somebody else holds it, or the server refused, or answered without
/// a token.
pub fn claimed(artefact: Artefact, response: Response) -> (res: Result<Claimed, TransportError>)
    ensures
        match res {
            Ok(claim) => claim.artefact == artefact && lock_in(response@) == Ok::<
                Seq<char>,
                ErrorView,
            >(claim.token@),
            Err(error) => lock_in(response@) == Err::<Seq<char>, ErrorView>(error@),
        },
{
    match locked(response) {
        Err(error) => Err(error),
        Ok(token) => Ok(Claimed::new(artefact, token)),
    }
}

} // verus!
