//! Where a URL points, and where a transport sends what it is asked to.

use vstd::prelude::*;
use crate::client::{lock_request, propfind_request, put_request, unlock_request};
use crate::error::ErrorView;
use crate::laws::texts::{all_in, lacks, law_holds_text, law_split, law_trim_end, law_trim_start};
use crate::target::{address_of, after_scheme, path_in, target_of, TargetView};
use crate::text::{holds_text, Class};
use crate::transport::{errand_to, http_url, resolved, send_errand, ErrandView};
use crate::wire::RequestView;

verus! {

// ---------------------------------------------------------------------
// URLs
// ---------------------------------------------------------------------

/// The letters of the two schemes.
proof fn lemma_schemes()
    ensures
        "http://"@ == seq!['h', 't', 't', 'p', ':', '/', '/'],
        "https://"@ == seq!['h', 't', 't', 'p', 's', ':', '/', '/'],
        "/"@ == seq!['/'],
        "://"@ == seq![':', '/', '/'],
{
    reveal_strlit("http://");
    reveal_strlit("https://");
    reveal_strlit("/");
    reveal_strlit("://");
    assert("http://"@ =~= seq!['h', 't', 't', 'p', ':', '/', '/']);
    assert("https://"@ =~= seq!['h', 't', 't', 'p', 's', ':', '/', '/']);
    assert("/"@ =~= seq!['/']);
    assert("://"@ =~= seq![':', '/', '/']);
}

/// A URL of either scheme points at the authority before its first slash and
/// the path from it on, which is the root where there is none; the scheme
/// says whether the way is guarded. Any other URL points nowhere.
pub proof fn law_target(authority: Seq<char>, path: Seq<char>)
    requires
        lacks(authority, '/'),
        path.len() > 0 ==> path[0] == '/',
    ensures
        ({
            let at = if path.len() > 0 {
                path
            } else {
                seq!['/']
            };
            &&& target_of("http://"@ + authority + path) == Ok::<TargetView, ErrorView>(
                TargetView { secure: false, authority, path: at },
            )
            &&& target_of("https://"@ + authority + path) == Ok::<TargetView, ErrorView>(
                TargetView { secure: true, authority, path: at },
            )
            &&& after_scheme("http://"@ + authority + path) == Some((false, authority + path))
            &&& after_scheme("https://"@ + authority + path) == Some((true, authority + path))
            &&& path_in(authority + path) == at
        }),
        forall|url: Seq<char>|
            !"http://"@.is_prefix_of(url) && !"https://"@.is_prefix_of(url)
                ==> #[trigger] target_of(url) == Err::<TargetView, ErrorView>(
                ErrorView {
                    message: "a target that is neither http:// nor https://: "@ + url,
                    retryable: false,
                },
            ),
{
    lemma_schemes();
    let rest = authority + path;
    let plain = "http://"@ + authority + path;
    let guarded = "https://"@ + authority + path;
    assert("http://"@.is_prefix_of(plain));
    assert(plain.skip("http://"@.len() as int) =~= rest);
    assert("https://"@.is_prefix_of(guarded));
    assert(guarded.skip("https://"@.len() as int) =~= rest);
    assert(guarded[4] == 's');
    assert("http://"@[4] == ':');
    if path.len() > 0 {
        law_split(authority, path.skip(1), '/');
        assert(rest =~= authority + seq!['/'] + path.skip(1));
        assert(rest.take(authority.len() as int) =~= authority);
        assert(rest.skip(authority.len() as int) =~= path);
    } else {
        assert(rest =~= authority);
        law_split(authority, authority, '/');
    }
}

/// An authority is an address where it names a port, which is a colon with no
/// bracket after it; else it is served on the port of its scheme.
pub proof fn law_address(target: TargetView)
    ensures
        ({
            let named = exists|i: int|
                #![trigger target.authority[i]]
                0 <= i < target.authority.len() && target.authority[i] == ':' && forall|j: int|
                    i < j < target.authority.len() ==> target.authority[j] != ']';
            &&& named ==> address_of(target) == target.authority
            &&& !named && target.secure ==> address_of(target) == target.authority + ":443"@
            &&& !named && !target.secure ==> address_of(target) == target.authority + ":80"@
        }),
{
}

/// `webdav://` is `http://` on the wire and `webdavs://` is `https://`, with
/// the same after it; any other URL is as it is.
pub proof fn law_http_url(rest: Seq<char>)
    ensures
        http_url("webdav://"@ + rest) == "http://"@ + rest,
        http_url("webdavs://"@ + rest) == "https://"@ + rest,
        forall|url: Seq<char>|
            !"webdav://"@.is_prefix_of(url) && !"webdavs://"@.is_prefix_of(url)
                ==> #[trigger] http_url(url) == url,
{
    crate::laws::sending::law_webdav_is_http(rest);
}

// ---------------------------------------------------------------------
// Where a transport sends
// ---------------------------------------------------------------------

/// Whether a text names something inside a collection, and is not a URL.
pub open spec fn is_name(name: Seq<char>) -> bool {
    !holds_text(name, "://"@)
}

/// What carries a scheme goes where it says, whatever the collection.
pub proof fn law_url_goes_where_it_says(collection: Seq<char>, target: Seq<char>)
    requires
        holds_text(target, "://"@),
    ensures
        resolved(collection, target) == http_url(target),
{
}

/// A name goes inside the collection: after the collection's URL without the
/// slashes at its end, one slash, and the name without the slashes at its
/// start, whatever the collection's scheme.
pub proof fn law_name_goes_inside(
    collection: Seq<char>,
    ends: Seq<char>,
    starts: Seq<char>,
    name: Seq<char>,
)
    requires
        collection.len() > 0 ==> collection.last() != '/',
        all_in(Class::Slash, ends),
        all_in(Class::Slash, starts),
        name.len() > 0 ==> name.first() != '/',
        is_name(starts + name),
    ensures
        resolved(collection + ends, starts + name) == collection + seq!['/'] + name,
{
    lemma_schemes();
    law_trim_end(Class::Slash, collection, ends);
    law_trim_start(Class::Slash, starts, name);
}

/// Whether a request is sent to a path on a server, by the scheme that says
/// so.
pub open spec fn goes_to(
    errand: Result<ErrandView, ErrorView>,
    secure: bool,
    authority: Seq<char>,
    path: Seq<char>,
    request: RequestView,
) -> bool {
    errand matches Ok(e) && e.target.secure == secure && e.target.authority == authority
        && e.target.path == path && e.request == request
}

/// The URL of a server and a path there.
pub open spec fn url_of(secure: bool, authority: Seq<char>, path: Seq<char>) -> Seq<char> {
    if secure {
        "https://"@ + authority + path
    } else {
        "http://"@ + authority + path
    }
}

/// A name alone goes inside the transport's collection, whichever scheme the
/// collection has and however many slashes stand between them: a send stores
/// the bytes there, and what is asked about, claimed or released is what is
/// there. `folder` is the collection's path without the slashes at its end.
pub proof fn law_name_is_inside_the_collection(
    secure: bool,
    authority: Seq<char>,
    folder: Seq<char>,
    ends: Seq<char>,
    starts: Seq<char>,
    name: Seq<char>,
    bytes: Seq<u8>,
    token: Seq<char>,
)
    requires
        authority.len() > 0,
        lacks(authority, '/'),
        folder.len() > 0 ==> folder[0] == '/' && folder.last() != '/',
        all_in(Class::Slash, ends),
        all_in(Class::Slash, starts),
        name.len() > 0,
        name.first() != '/',
        name.last() != '/',
        is_name(starts + name),
    ensures
        ({
            let collection = url_of(secure, authority, folder + ends);
            let at = folder + seq!['/'] + name;
            let url = resolved(collection, starts + name);
            &&& url == url_of(secure, authority, at)
            &&& goes_to(
                send_errand(collection, starts + name, bytes),
                secure,
                authority,
                at,
                put_request(at, bytes),
            )
            &&& goes_to(
                errand_to(url, |path: Seq<char>| propfind_request(path, "0"@)),
                secure,
                authority,
                at,
                propfind_request(at, "0"@),
            )
            &&& goes_to(
                errand_to(url, |path: Seq<char>| lock_request(path)),
                secure,
                authority,
                at,
                lock_request(at),
            )
            &&& goes_to(
                errand_to(url, |path: Seq<char>| unlock_request(path, token)),
                secure,
                authority,
                at,
                unlock_request(at, token),
            )
        }),
{
    lemma_schemes();
    let base = url_of(secure, authority, folder);
    let collection = url_of(secure, authority, folder + ends);
    let at = folder + seq!['/'] + name;
    assert(collection =~= base + ends);
    if folder.len() > 0 {
        assert(base.last() == folder.last());
    } else {
        assert(base.last() == authority[authority.len() - 1]);
        assert(authority[authority.len() - 1] != '/');
    }
    law_name_goes_inside(base, ends, starts, name);
    let url = resolved(collection, starts + name);
    assert(url =~= url_of(secure, authority, at));
    assert(at[0] == '/');
    assert(url.last() == name.last());
    law_target(authority, at);
}

/// A full URL that names a member goes to that member, whatever the
/// transport's collection: with `webdav://` as with `http://`, and with
/// `webdavs://` as with `https://`.
pub proof fn law_full_url_is_its_own_target(
    collection: Seq<char>,
    secure: bool,
    authority: Seq<char>,
    path: Seq<char>,
    bytes: Seq<u8>,
)
    requires
        authority.len() > 0,
        lacks(authority, '/'),
        path.len() > 0 ==> path[0] == '/' && path.last() != '/',
    ensures
        ({
            let at = if path.len() > 0 {
                path
            } else {
                seq!['/']
            };
            let own = if secure {
                "webdavs://"@ + authority + path
            } else {
                "webdav://"@ + authority + path
            };
            &&& resolved(collection, own) == url_of(secure, authority, path)
            &&& resolved(collection, url_of(secure, authority, path)) == url_of(
                secure,
                authority,
                path,
            )
            &&& goes_to(
                send_errand(collection, own, bytes),
                secure,
                authority,
                at,
                put_request(at, bytes),
            )
            &&& goes_to(
                send_errand(collection, url_of(secure, authority, path), bytes),
                secure,
                authority,
                at,
                put_request(at, bytes),
            )
        }),
{
    let url = url_of(secure, authority, path);
    let own = if secure {
        "webdavs://"@ + authority + path
    } else {
        "webdav://"@ + authority + path
    };
    lemma_own_scheme(collection, secure, authority, path);
    lemma_last(secure, authority, path);
    law_target(authority, path);
}

/// A URL of a member does not end in a slash.
proof fn lemma_last(secure: bool, authority: Seq<char>, path: Seq<char>)
    requires
        authority.len() > 0,
        lacks(authority, '/'),
        path.len() > 0 ==> path.last() != '/',
    ensures
        url_of(secure, authority, path).len() > 0,
        url_of(secure, authority, path).last() != '/',
{
    let url = url_of(secure, authority, path);
    if path.len() > 0 {
        assert(url.last() == path.last());
    } else {
        assert(url.last() == authority[authority.len() - 1]);
        assert(authority[authority.len() - 1] != '/');
    }
}

/// A full URL resolves to the URL on the wire.
proof fn lemma_own_scheme(
    collection: Seq<char>,
    secure: bool,
    authority: Seq<char>,
    path: Seq<char>,
)
    ensures
        ({
            let url = url_of(secure, authority, path);
            let own = if secure {
                "webdavs://"@ + authority + path
            } else {
                "webdav://"@ + authority + path
            };
            resolved(collection, own) == url && resolved(collection, url) == url
        }),
{
    let rest = authority + path;
    let mark = "://"@;
    crate::laws::sending::law_webdav_is_http(rest);
    assert("webdav://"@ + rest =~= "webdav://"@ + authority + path);
    assert("webdavs://"@ + rest =~= "webdavs://"@ + authority + path);
    assert("http://"@ + rest =~= "http://"@ + authority + path);
    assert("https://"@ + rest =~= "https://"@ + authority + path);
    reveal_strlit("webdav://");
    reveal_strlit("webdavs://");
    reveal_strlit("webdav");
    reveal_strlit("webdavs");
    reveal_strlit("http");
    reveal_strlit("https");
    lemma_schemes();
    if secure {
        assert("webdavs://"@ =~= "webdavs"@ + mark);
        assert("https://"@ =~= "https"@ + mark);
        law_holds_text("webdavs"@, mark, rest);
        law_holds_text("https"@, mark, rest);
    } else {
        assert("webdav://"@ =~= "webdav"@ + mark);
        assert("http://"@ =~= "http"@ + mark);
        law_holds_text("webdav"@, mark, rest);
        law_holds_text("http"@, mark, rest);
    }
}

/// What ends in a slash names a collection, and nothing is sent there; what
/// resolves to neither scheme points nowhere. Both fail for good.
pub proof fn law_send_is_refused(collection: Seq<char>, target: Seq<char>, bytes: Seq<u8>)
    ensures
        ({
            let url = resolved(collection, target);
            let sent = send_errand(collection, target, bytes);
            &&& url.len() > 0 && url.last() == '/' ==> sent == Err::<ErrandView, ErrorView>(
                ErrorView {
                    message: "a send target that names a collection rather than a member: "@ + url,
                    retryable: false,
                },
            )
            &&& !(url.len() > 0 && url.last() == '/') && !"http://"@.is_prefix_of(url)
                && !"https://"@.is_prefix_of(url) ==> sent == Err::<ErrandView, ErrorView>(
                ErrorView {
                    message: "a target that is neither http:// nor https://: "@ + url,
                    retryable: false,
                },
            )
        }),
{
}

/// A request goes to the server that its URL names, and asks what it is for of
/// the path there; where the URL names none there is nothing to ask, and why
/// is told.
pub proof fn law_errand(
    secure: bool,
    authority: Seq<char>,
    path: Seq<char>,
    request: spec_fn(Seq<char>) -> RequestView,
    other: Seq<char>,
)
    requires
        lacks(authority, '/'),
        path.len() > 0,
        path[0] == '/',
        !"http://"@.is_prefix_of(other),
        !"https://"@.is_prefix_of(other),
    ensures
        goes_to(
            errand_to(url_of(secure, authority, path), request),
            secure,
            authority,
            path,
            request(path),
        ),
        errand_to(other, request) == Err::<ErrandView, ErrorView>(
            ErrorView {
                message: "a target that is neither http:// nor https://: "@ + other,
                retryable: false,
            },
        ),
{
    law_target(authority, path);
}

} // verus!
