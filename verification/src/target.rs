//! Where a URL points: a server, and a path there.

use vstd::prelude::*;
use vstd::slice::slice_subrange;
use vstd::string::StringExecFns;
use crate::error::{joined, protocol, protocol_error, ErrorView, TransportError};
use crate::text::{chars_of, find_char, find_from, starts_with, string_of};

verus! {

/// A server, whether the way there is guarded, and a path on it.
#[derive(Clone, Debug, PartialEq, Eq)]
pub struct HttpTarget {
    pub secure: bool,
    pub authority: String,
    pub path: String,
}

/// An [`HttpTarget`] as sequences.
pub struct TargetView {
    pub secure: bool,
    pub authority: Seq<char>,
    pub path: Seq<char>,
}

impl View for HttpTarget {
    type V = TargetView;

    open spec fn view(&self) -> TargetView {
        TargetView { secure: self.secure, authority: self.authority@, path: self.path@ }
    }
}

/// What follows `http://` or `https://`, and whether it was the latter.
pub open spec fn after_scheme(url: Seq<char>) -> Option<(bool, Seq<char>)> {
    if "http://"@.is_prefix_of(url) {
        Some((false, url.skip("http://"@.len() as int)))
    } else if "https://"@.is_prefix_of(url) {
        Some((true, url.skip("https://"@.len() as int)))
    } else {
        None
    }
}

/// The path in what follows a scheme: from the first slash on, or the root.
pub open spec fn path_in(rest: Seq<char>) -> Seq<char> {
    match find_from(rest, '/', 0) {
        Some(i) => rest.skip(i),
        None => "/"@,
    }
}

/// The authority in what follows a scheme: up to the first slash.
pub open spec fn authority_in(rest: Seq<char>) -> Seq<char> {
    match find_from(rest, '/', 0) {
        Some(i) => rest.take(i),
        None => rest,
    }
}

/// Where `url` points.
pub open spec fn target_of(url: Seq<char>) -> Result<TargetView, ErrorView> {
    match after_scheme(url) {
        None => Err(protocol("a target that is neither http:// nor https://: "@ + url)),
        Some((secure, rest)) => Ok(
            TargetView { secure, authority: authority_in(rest), path: path_in(rest) },
        ),
    }
}

/// The authority and the path after the scheme of `url`, and whether the
/// scheme is guarded.
pub(crate) fn split_url(url: &str) -> (res: Option<(bool, String, String)>)
    ensures
        match res {
            Some(found) => after_scheme(url@) matches Some(after) && found.0 == after.0
                && found.1@ == authority_in(after.1) && found.2@ == path_in(after.1),
            None => after_scheme(url@) is None,
        },
{
    let text = chars_of(url);
    let http = chars_of("http://");
    let https = chars_of("https://");
    let (secure, rest) = if starts_with(text.as_slice(), http.as_slice()) {
        (false, slice_subrange(text.as_slice(), http.len(), text.len()))
    } else if starts_with(text.as_slice(), https.as_slice()) {
        (true, slice_subrange(text.as_slice(), https.len(), text.len()))
    } else {
        return None;
    };
    proof {
        assert(after_scheme(url@) == Some((secure, rest@)));
    }
    match find_char(rest, '/', 0) {
        Some(i) => {
            let authority = slice_subrange(rest, 0, i);
            let path = slice_subrange(rest, i, rest.len());
            proof {
                assert(authority@ == rest@.take(i as int));
                assert(path@ == rest@.skip(i as int));
            }
            Some((secure, string_of(authority), string_of(path)))
        },
        None => Some((secure, string_of(rest), "/".to_owned())),
    }
}

/// Whether an authority names a port: there is a colon after any bracket.
pub open spec fn names_port(authority: Seq<char>) -> bool {
    exists|i: int|
        #![trigger authority[i]]
        0 <= i < authority.len() && authority[i] == ':' && forall|j: int|
            i < j < authority.len() ==> authority[j] != ']'
}

/// The host and port of a target: the port that its authority names, else
/// the one its scheme is served on.
pub open spec fn address_of(target: TargetView) -> Seq<char> {
    if names_port(target.authority) {
        target.authority
    } else if target.secure {
        target.authority + ":443"@
    } else {
        target.authority + ":80"@
    }
}

/// Whether an authority names a port.
fn has_port(authority: &[char]) -> (res: bool)
    ensures
        res == names_port(authority@),
{
    let mut n: usize = authority.len();
    while n > 0
        invariant
            n <= authority.len(),
            forall|j: int|
                n <= j < authority.len() ==> authority@[j] != ']' && authority@[j] != ':',
        decreases n,
    {
        let c = authority[n - 1];
        if c == ':' || c == ']' {
            proof {
                assert(authority@[n - 1] == c);
            }
            return c == ':';
        }
        n -= 1;
    }
    false
}

impl HttpTarget {
    /// Read where `url` points.
    ///
    /// # Errors
    /// A URL that is neither `http://` nor `https://`.
    pub fn parse(url: &str) -> (res: Result<Self, TransportError>)
        ensures
            match res {
                Ok(target) => target_of(url@) == Ok::<TargetView, ErrorView>(target@),
                Err(error) => target_of(url@) == Err::<TargetView, ErrorView>(error@),
            },
    {
        match split_url(url) {
            None => Err(
                protocol_error(joined("a target that is neither http:// nor https://: ", url)),
            ),
            Some((secure, authority, path)) => Ok(HttpTarget { secure, authority, path }),
        }
    }

    /// The target as the URL it is connected to by.
    pub fn endpoint(&self) -> (res: String)
        ensures
            res@ == (if self.secure {
                "https://"@
            } else {
                "http://"@
            }) + self@.authority + self@.path,
    {
        let scheme = if self.secure {
            "https://"
        } else {
            "http://"
        };
        let mut out = joined(scheme, self.authority.as_str());
        out.append(self.path.as_str());
        out
    }

    /// The host and port: the port that the authority names, else the one
    /// its scheme is served on.
    pub fn address(&self) -> (res: String)
        ensures
            res@ == address_of(self@),
    {
        let text = chars_of(self.authority.as_str());
        if has_port(text.as_slice()) {
            return self.authority.clone();
        }
        joined(
            self.authority.as_str(),
            if self.secure {
                ":443"
            } else {
                ":80"
            },
        )
    }
}

} // verus!
