//! Where a send goes, and what arrives there.

use vstd::prelude::*;
use crate::client::{put_request, relative_href};
use crate::error::ErrorView;
use crate::laws::exchange::{carried, law_requests_can_be_written};
use crate::laws::messages::{fit_header, law_request_round_trip, one_word};
use crate::laws::server::{lemma_methods, lemma_parts_of_member, plain_name};
use crate::session::{awaited, href_of, outcome, root_store};
use crate::stream::ArrivedView;
use crate::target::{target_of, TargetView};
use crate::text::{holds_text, lemma_find_first, stands_at, trim_end, trim_start, Class};
use crate::transport::{http_url, resolved, send_errand, ErrandView};
use crate::wire::request_bytes;

verus! {

/// `webdav://` is `http://` on the wire, and `webdavs://` is `https://`: what
/// follows the scheme is the same.
pub proof fn law_webdav_is_http(rest: Seq<char>)
    ensures
        http_url("webdav://"@ + rest) == "http://"@ + rest,
        http_url("webdavs://"@ + rest) == "https://"@ + rest,
        http_url("http://"@ + rest) == "http://"@ + rest,
        http_url("https://"@ + rest) == "https://"@ + rest,
{
    reveal_strlit("webdav://");
    reveal_strlit("webdavs://");
    reveal_strlit("http://");
    reveal_strlit("https://");
    let plain = "webdav://"@ + rest;
    let guarded = "webdavs://"@ + rest;
    assert("webdav://"@.is_prefix_of(plain));
    assert(plain.skip("webdav://"@.len() as int) =~= rest);
    assert("webdavs://"@.is_prefix_of(guarded));
    assert(guarded.skip("webdavs://"@.len() as int) =~= rest);
    assert(guarded[6] == 's');
    assert("webdav://"@[6] == ':');
    assert(("http://"@ + rest)[0] == 'h');
    assert(("https://"@ + rest)[0] == 'h');
    assert("webdav://"@[0] == 'w');
    assert("webdavs://"@[0] == 'w');
}

/// Whether a text names a server: there is something of it, and no slash in
/// it.
pub open spec fn names_server(authority: Seq<char>) -> bool {
    authority.len() > 0 && forall|i: int| 0 <= i < authority.len() ==> #[trigger] authority[i]
        != '/'
}

/// A URL points at the server and the path that it is made of.
pub proof fn law_target_is_its_parts(authority: Seq<char>, path: Seq<char>)
    requires
        names_server(authority),
        path.len() > 0,
        path[0] == '/',
    ensures
        target_of("http://"@ + authority + path) == Ok::<TargetView, ErrorView>(
            TargetView { secure: false, authority, path },
        ),
        target_of("https://"@ + authority + path) == Ok::<TargetView, ErrorView>(
            TargetView { secure: true, authority, path },
        ),
{
    reveal_strlit("http://");
    reveal_strlit("https://");
    let rest = authority + path;
    let plain = "http://"@ + authority + path;
    let guarded = "https://"@ + authority + path;
    let n = authority.len() as int;
    assert("http://"@.is_prefix_of(plain));
    assert(plain.skip("http://"@.len() as int) =~= rest);
    assert("https://"@.is_prefix_of(guarded));
    assert(guarded.skip("https://"@.len() as int) =~= rest);
    assert(guarded[4] == 's');
    assert("http://"@[4] == ':');
    assert forall|j: int| 0 <= j < n implies rest[j] != '/' by {
        assert(rest[j] == authority[j]);
    }
    assert(rest[n] == path[0]);
    lemma_find_first(rest, '/', 0, n);
    assert(rest.take(n) =~= authority);
    assert(rest.skip(n) =~= path);
}

/// Trimming stops at the first character that is no slash.
proof fn lemma_trim_end_after(start: Seq<char>, rest: Seq<char>)
    requires
        start.len() > 0,
        start.last() != '/',
    ensures
        trim_end(start + rest, Class::Slash) == start + trim_end(rest, Class::Slash),
    decreases rest.len(),
{
    if rest.len() == 0 {
        assert(start + rest =~= start);
        assert(start + trim_end(rest, Class::Slash) =~= start);
    } else {
        assert((start + rest).last() == rest.last());
        assert((start + rest).drop_last() =~= start + rest.drop_last());
        if rest.last() == '/' {
            lemma_trim_end_after(start, rest.drop_last());
        }
    }
}

/// A name has no scheme in it.
proof fn lemma_no_scheme(name: Seq<char>)
    requires
        plain_name(name),
    ensures
        !holds_text(name, "://"@),
        trim_start(name, Class::Slash) == name,
{
    reveal_strlit("://");
    assert forall|at: int| !stands_at(name, "://"@, at) by {
        if stands_at(name, "://"@, at) {
            assert(name.subrange(at, at + 3)[1] == "://"@[1]);
            assert(name[at + 1] == '/');
        }
    }
    assert(name[0] != '/');
}

/// A name alone is sent to inside the transport's collection, whether or not
/// the collection was written with a slash at its end.
pub proof fn law_name_is_sent_inside_the_collection(
    authority: Seq<char>,
    path: Seq<char>,
    name: Seq<char>,
    bytes: Seq<u8>,
)
    requires
        names_server(authority),
        path.len() > 0 ==> path[0] == '/',
        plain_name(name),
    ensures
        ({
            let at = trim_end(path, Class::Slash) + "/"@ + name;
            send_errand("http://"@ + authority + path, name, bytes) == Ok::<ErrandView, ErrorView>(
                ErrandView {
                    target: TargetView { secure: false, authority, path: at },
                    request: put_request(at, bytes),
                },
            )
        }),
{
    reveal_strlit("/");
    let collection = "http://"@ + authority + path;
    let start = "http://"@ + authority;
    let folder = trim_end(path, Class::Slash);
    let at = folder + "/"@ + name;
    lemma_no_scheme(name);
    assert(start.last() == authority[authority.len() - 1]);
    assert(collection =~= start + path);
    lemma_trim_end_after(start, path);
    let url = resolved(collection, name);
    assert(url =~= start + at);
    assert(url.last() == name[name.len() - 1]);
    lemma_first_stays(path);
    assert(at[0] == '/');
    assert(start + at =~= "http://"@ + authority + at);
    law_target_is_its_parts(authority, at);
}

/// What is left of a path after trimming starts as the path did.
proof fn lemma_first_stays(path: Seq<char>)
    ensures
        trim_end(path, Class::Slash).len() > 0 ==> path.len() > 0 && trim_end(
            path,
            Class::Slash,
        )[0] == path[0],
    decreases path.len(),
{
    if path.len() > 0 && path.last() == '/' {
        lemma_first_stays(path.drop_last());
    }
}

/// The loopback returns every payload whole: whatever the bytes, what is sent
/// to a fresh session at `address` is the one request that stores them, and
/// they arrive byte for byte, under the URI of the member that they went to.
pub proof fn law_loopback_returns_the_payload(
    peer: Seq<char>,
    address: Seq<char>,
    payload: Seq<u8>,
    limit: nat,
)
    requires
        names_server(address),
        fit_header(("Host"@, address)),
        payload.len() <= limit,
        limit <= usize::MAX,
    ensures
        ({
            let request = put_request("/probe.bin"@, payload);
            let sent = request_bytes(address, request.having("Connection"@, "keep-alive"@));
            let arrived = ArrivedView {
                origin_uri: "webdav://"@ + peer + "/probe.bin"@,
                bytes: payload,
            };
            &&& send_errand("http://"@ + address, "probe.bin"@, payload) == Ok::<
                ErrandView,
                ErrorView,
            >(
                ErrandView {
                    target: TargetView {
                        secure: false,
                        authority: address,
                        path: "/probe.bin"@,
                    },
                    request,
                },
            )
            &&& awaited(root_store(), peer, sent, limit).put == Ok::<
                Option<(ArrivedView, int)>,
                crate::wire::ReadErrorView,
            >(Some((arrived, sent.len() as int)))
        }),
{
    reveal_strlit("probe.bin");
    reveal_strlit("/probe.bin");
    reveal_strlit("/");
    let none = Seq::<char>::empty();
    let name = "probe.bin"@;
    let path = "/probe.bin"@;
    assert(plain_name(name));
    assert(path =~= none + "/"@ + name);
    assert(trim_end(none, Class::Slash) == none);
    assert("http://"@ + address + none =~= "http://"@ + address);
    law_name_is_sent_inside_the_collection(address, none, name, payload);
    lemma_parts_of_member(none, name);
    let request = put_request(path, payload);
    let kept = request.having("Connection"@, "keep-alive"@);
    let sent = request_bytes(address, kept);
    let nothing = Seq::<u8>::empty();
    assert(one_word(path));
    law_requests_can_be_written(address, path, "0"@, payload, none);
    law_request_round_trip(address, kept, nothing, limit);
    assert(sent + nothing =~= sent);
    lemma_methods();
    let store = root_store();
    let done = outcome(store, peer, carried(address, request));
    assert(href_of(path) == path);
    assert(store.files.dom().contains(none));
}

/// A href that a server wrote as a full URL is its path, and one that it
/// wrote as a path stays so.
pub proof fn law_full_url_is_its_path(authority: Seq<char>, path: Seq<char>)
    requires
        names_server(authority),
        path.len() > 0,
        path[0] == '/',
    ensures
        relative_href("http://"@ + authority + path) == path,
        relative_href("https://"@ + authority + path) == path,
        relative_href(path) == path,
{
    law_target_is_its_parts(authority, path);
    reveal_strlit("http://");
    reveal_strlit("https://");
    assert("http://"@[0] == 'h');
    assert("https://"@[0] == 'h');
}

} // verus!
