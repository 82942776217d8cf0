use webdav::client::{
    carried_out, fetched, found, granted_token, judged, listed, locked, members_in, relative,
};
use webdav::error::TransportError;
use webdav::target::HttpTarget;
use webdav::wire::{Request, Response};
use webdav::{Client, Member};

fn text(bytes: &[u8]) -> String {
    String::from_utf8_lossy(bytes).into_owned()
}

#[test]
fn a_lock_is_worth_waiting_for_and_a_missing_member_is_not() {
    assert!(judged(Response::new(207)).is_ok());
    let locked = judged(Response::new(423)).expect_err("locked");
    assert!(locked.retryable);
    assert_eq!(locked.message, "the WebDAV server answered 423 Locked");
    assert!(judged(Response::new(503)).expect_err("server").retryable);
    assert!(!judged(Response::new(404)).expect_err("missing").retryable);
}

#[test]
fn a_full_url_href_becomes_a_path() {
    let member = Member {
        href: "http://dav.example:8080/orders/1.edi".to_string(),
        collection: false,
        locked: false,
    };
    assert_eq!(relative(member).href, "/orders/1.edi");
    let bare = Member {
        href: "https://dav.example".to_string(),
        collection: true,
        locked: false,
    };
    assert_eq!(relative(bare).href, "/");
}

#[test]
fn a_guarded_target_is_carried_to_the_endpoint_rather_than_refused() {
    let target = HttpTarget::parse("https://127.0.0.1:1/x").expect("parsed");
    assert!(target.secure);
    let client = Client::connect(&target);
    assert_eq!(client.authority(), "127.0.0.1:1");
    assert_eq!(target.endpoint(), "https://127.0.0.1:1/x");
    assert_eq!(target.address(), "127.0.0.1:1");
}

#[test]
fn a_path_stays_a_path_and_the_rest_of_a_member_stays() {
    let member = Member {
        href: "/orders/1.edi".to_string(),
        collection: true,
        locked: true,
    };
    assert_eq!(relative(member.clone()), member);
    let ftp = Member {
        href: "ftp://h/x".to_string(),
        collection: false,
        locked: true,
    };
    assert_eq!(relative(ftp.clone()), ftp);
}

#[test]
fn an_exchange_keeps_the_connection() {
    let target = HttpTarget::parse("http://dav.example:8080/orders").expect("parsed");
    let client = Client::connect(&target);
    assert_eq!(
        client.exchange(Client::get("/orders/1.edi")),
        b"GET /orders/1.edi HTTP/1.1\r\nHost: dav.example:8080\r\nConnection: keep-alive\r\n\
          Content-Length: 0\r\n\r\n"
            .to_vec()
    );
}

#[test]
fn each_method_asks_what_it_should() {
    assert_eq!(Client::get("/a"), Request::new("GET", "/a"));
    assert_eq!(Client::delete("/a"), Request::new("DELETE", "/a"));
    assert_eq!(Client::mkcol("/a"), Request::new("MKCOL", "/a"));
    assert_eq!(
        Client::put("/a", b"x"),
        Request::new("PUT", "/a")
            .with_header("Content-Type", "application/octet-stream")
            .with_body(b"x")
    );
    assert_eq!(
        Client::delete_held("/a", "opaquelocktoken:7"),
        Request::new("DELETE", "/a").with_header("If", "(<opaquelocktoken:7>)")
    );
    assert_eq!(
        Client::unlock("/a", "opaquelocktoken:7"),
        Request::new("UNLOCK", "/a").with_header("Lock-Token", "<opaquelocktoken:7>")
    );
    let list = Client::list("/orders");
    assert_eq!(list.method, "PROPFIND");
    assert_eq!(list.header("depth"), Some("1"));
    assert_eq!(list.header("content-type"), Some("application/xml"));
    assert_eq!(
        text(&list.body),
        "<?xml version=\"1.0\" encoding=\"utf-8\"?><D:propfind xmlns:D=\"DAV:\"><D:prop>\
         <D:resourcetype/><D:lockdiscovery/></D:prop></D:propfind>"
    );
    let find = Client::find("/orders");
    assert_eq!(find.header("depth"), Some("0"));
    assert_eq!(find.body, list.body);
    let lock = Client::lock("/a");
    assert_eq!(lock.method, "LOCK");
    assert_eq!(lock.header("timeout"), Some("Second-600"));
    assert_eq!(lock.header("content-type"), Some("application/xml"));
    assert_eq!(
        text(&lock.body),
        "<?xml version=\"1.0\" encoding=\"utf-8\"?><D:lockinfo xmlns:D=\"DAV:\"><D:lockscope>\
         <D:exclusive/></D:lockscope><D:locktype><D:write/></D:locktype><D:owner>xmip</D:owner>\
         </D:lockinfo>"
    );
}

#[test]
fn a_listing_is_read_with_its_hrefs_as_paths() {
    let xml = "<multistatus><response><href>https://dav.example/orders/</href><collection/>\
               </response><response><href>/orders/\u{e5}.edi</href></response></multistatus>";
    let response = Response::new(207).with_body(xml.as_bytes());
    let members = listed(response).expect("listed");
    assert_eq!(members, members_in(xml));
    assert_eq!(members.len(), 2);
    assert_eq!(members[0].href, "/orders/");
    assert!(members[0].collection);
    assert_eq!(members[1].href, "/orders/\u{e5}.edi");
    assert!(!listed(Response::new(404)).expect_err("missing").retryable);
}

#[test]
fn what_is_not_there_is_none_and_what_is_refused_an_error() {
    assert_eq!(found(Response::new(404)), Ok(None));
    assert!(found(Response::new(503)).expect_err("server").retryable);
    assert_eq!(found(Response::new(207)), Ok(None), "nothing listed");
    let xml = "<response><href>/a</href><activelock/></response><response><href>/b</href></response>";
    let member = found(Response::new(207).with_body(xml.as_bytes()))
        .expect("found")
        .expect("one");
    assert_eq!(member.href, "/a");
    assert!(member.locked);
}

#[test]
fn a_fetch_gives_the_bytes_and_a_refusal_none() {
    let response = Response::new(200).with_body(b"\x00\xff");
    assert_eq!(fetched(response), Ok(b"\x00\xff".to_vec()));
    assert_eq!(
        fetched(Response::new(404)),
        Err(TransportError {
            message: "the WebDAV server answered 404 Not Found".to_string(),
            retryable: false,
        })
    );
    assert_eq!(carried_out(Response::new(201)), Ok(()));
    assert!(carried_out(Response::new(409)).is_err());
}

#[test]
fn a_token_comes_in_the_text_or_else_in_the_header() {
    let xml = "<locktoken><href>opaquelocktoken:7</href></locktoken>";
    let both = Response::new(200)
        .with_header("Lock-Token", "<opaquelocktoken:8>")
        .with_body(xml.as_bytes());
    assert_eq!(locked(both), Ok("opaquelocktoken:7".to_string()));
    let header = Response::new(200).with_header("lock-token", "<opaquelocktoken:8>");
    assert_eq!(locked(header), Ok("opaquelocktoken:8".to_string()));
    assert_eq!(
        locked(Response::new(200)),
        Err(TransportError {
            message: "a LOCK answered without a lock token".to_string(),
            retryable: false,
        })
    );
    assert!(locked(Response::new(423)).expect_err("held").retryable);
    assert_eq!(granted_token("", Some("<<t>>")), Ok("t".to_string()));
}
