//! What a transport carries, and what it is carried from.

use vstd::prelude::*;

verus! {

/// One Stream that arrived, and the URI it arrived from.
#[derive(Clone, Debug, PartialEq, Eq)]
pub struct Arrived {
    pub origin_uri: String,
    pub bytes: Vec<u8>,
}

/// An [`Arrived`] as sequences.
pub struct ArrivedView {
    pub origin_uri: Seq<char>,
    pub bytes: Seq<u8>,
}

impl View for Arrived {
    type V = ArrivedView;

    open spec fn view(&self) -> ArrivedView {
        ArrivedView { origin_uri: self.origin_uri@, bytes: self.bytes@ }
    }
}

impl Arrived {
    /// `bytes` from `origin_uri`.
    pub fn new(origin_uri: String, bytes: Vec<u8>) -> (res: Self)
        ensures
            res@ == (ArrivedView { origin_uri: origin_uri@, bytes: bytes@ }),
    {
        Arrived { origin_uri, bytes }
    }
}

/// Which ways a transport carries Streams.
#[derive(Clone, Copy, Debug, PartialEq, Eq)]
pub struct Directions {
    pub receives: bool,
    pub sends: bool,
}

/// A resource that can be claimed, by where it is.
#[derive(Clone, Debug, PartialEq, Eq)]
pub struct Artefact {
    address: String,
}

impl Artefact {
    /// Where the resource is.
    pub closed spec fn at(self) -> Seq<char> {
        self.address@
    }

    /// The resource at `address`.
    pub fn new(address: String) -> (res: Self)
        ensures
            res.at() == address@,
    {
        Artefact { address }
    }

    /// Where the resource is.
    pub fn address(&self) -> (res: &str)
        ensures
            res@ == self.at(),
    {
        self.address.as_str()
    }
}

/// A resource that was claimed, and the token that gives it back.
#[derive(Clone, Debug, PartialEq, Eq)]
pub struct Claimed {
    pub artefact: Artefact,
    pub token: String,
}

impl Claimed {
    /// The claim on `artefact` that `token` names.
    pub fn new(artefact: Artefact, token: String) -> (res: Self)
        ensures
            res.artefact == artefact,
            res.token == token,
    {
        Claimed { artefact, token }
    }
}

} // verus!
