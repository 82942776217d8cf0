use webdav::stream::Arrived;
use webdav::table::Table;
use webdav::wire::{read_response, write_request, ReadError, Request, Response};
use webdav::{Client, Event, Session, Store};

const LIMIT: usize = 65536;

fn session(store: Store) -> Session {
    Session::accept("127.0.0.1:4711").with_store(store)
}

fn orders() -> Session {
    let mut store = Store::default();
    store.insert("/orders/", "1.edi", b"one");
    session(store)
}

fn refused(href: &str, status: u16) -> Event {
    Event::Refused(href.to_string(), status)
}

fn body(response: &Response) -> String {
    String::from_utf8_lossy(&response.body).into_owned()
}

const TOKEN: &str = "opaquelocktoken:xmip-1";

#[test]
fn a_session_starts_with_a_root_and_nothing_in_it() {
    let session = Session::accept("127.0.0.1:4711");
    assert_eq!(session.store().files.len(), 1);
    assert!(session.store().files_in("").expect("root").is_empty());
    assert!(session.store().files_in("/").expect("root").is_empty());
    assert!(session.store().locks.is_empty());
    assert_eq!(session.store().issued(), 0);
}

#[test]
fn what_is_inserted_is_there() {
    let mut store = Store::default();
    assert!(store.files_in("/orders").is_none());
    store.insert("/orders//", "b", b"2");
    store.insert("/orders", "a", b"1");
    store.insert("/orders", "b", b"3");
    let folder = store.files_in("/orders/").expect("collection");
    assert_eq!(folder.len(), 2);
    assert_eq!(folder.key_at(0), "a");
    assert_eq!(folder.key_at(1), "b");
    assert_eq!(folder.get("b").expect("b"), b"3");
    assert!(folder.get("c").is_none());
    assert!(folder.contains_key("a"));
    assert!(!folder.contains_key("A"));
}

#[test]
fn what_is_put_is_what_is_got() {
    let mut session = orders();
    let (event, response) = session.answer(&Client::put("/orders/2.edi", b"\x00\r\n\xff"));
    assert_eq!(
        event,
        Event::Put(Arrived::new(
            "webdav://127.0.0.1:4711/orders/2.edi".to_string(),
            b"\x00\r\n\xff".to_vec()
        ))
    );
    assert_eq!(response, Response::new(201));
    let (event, response) = session.answer(&Client::get("/orders/2.edi"));
    assert_eq!(event, Event::Got("/orders/2.edi".to_string()));
    assert_eq!(response, Response::new(200).with_body(b"\x00\r\n\xff"));
    let (_, response) = session.answer(&Client::put("/orders/2.edi", b"again"));
    assert_eq!(response, Response::new(204), "it existed");
    let (_, response) = session.answer(&Client::get("/orders/1.edi"));
    assert_eq!(response.body, b"one", "the other file stays");
}

#[test]
fn what_is_refused_changes_nothing() {
    let mut session = orders();
    let nothing = |method: &str, path: &str| Request::new(method, path);
    let asked: [(Request, u16); 9] = [
        (nothing("GET", "/orders/none"), 404),
        (nothing("GET", "/none/1.edi"), 404),
        (nothing("PUT", "/none/1.edi"), 409),
        (nothing("DELETE", "/none"), 404),
        (nothing("MKCOL", "/orders/"), 405),
        (nothing("LOCK", "/orders/none"), 404),
        (nothing("UNLOCK", "/orders/1.edi"), 409),
        (nothing("PROPFIND", "/none"), 404),
        (nothing("PATCH", "/orders/1.edi"), 405),
    ];
    for (request, status) in asked {
        let href = request.path.trim_end_matches('/').to_string();
        let (event, response) = session.answer(&request);
        assert_eq!(event, refused(&href, status));
        assert_eq!(response, Response::new(status));
        let folder = session.store().files_in("/orders").expect("collection");
        assert_eq!(folder.len(), 1);
        assert_eq!(folder.get("1.edi").expect("file"), b"one");
        assert_eq!(session.store().files.len(), 1);
        assert!(session.store().locks.is_empty());
        assert_eq!(session.store().issued(), 0);
    }
}

#[test]
fn a_method_is_written_in_capitals() {
    let mut session = orders();
    let (event, _) = session.answer(&Request::new("get", "/orders/1.edi"));
    assert_eq!(event, refused("/orders/1.edi", 405));
}

#[test]
fn what_is_deleted_is_gone() {
    let mut session = orders();
    let (event, response) = session.answer(&Client::delete("/orders/1.edi"));
    assert_eq!(event, Event::Deleted("/orders/1.edi".to_string()));
    assert_eq!(response, Response::new(204));
    let (event, _) = session.answer(&Client::get("/orders/1.edi"));
    assert_eq!(event, refused("/orders/1.edi", 404));
    let (event, _) = session.answer(&Client::delete("/orders/"));
    assert_eq!(event, Event::Deleted("/orders".to_string()));
    assert!(session.store().files_in("/orders").is_none());
    let (event, _) = session.answer(&Client::delete("/orders"));
    assert_eq!(event, refused("/orders", 404));
}

#[test]
fn a_collection_is_created_once() {
    let mut session = Session::accept("127.0.0.1:4711");
    let (event, response) = session.answer(&Client::mkcol("/new/"));
    assert_eq!(event, Event::Created("/new".to_string()));
    assert_eq!(response, Response::new(201));
    assert!(session.store().files_in("/new").expect("created").is_empty());
    let (event, _) = session.answer(&Client::mkcol("/new"));
    assert_eq!(event, refused("/new", 405));
}

#[test]
fn a_lock_is_exclusive_and_its_token_gives_it_back() {
    let mut session = orders();
    let (event, response) = session.answer(&Client::lock("/orders/1.edi"));
    assert_eq!(
        event,
        Event::Locked("/orders/1.edi".to_string(), TOKEN.to_string())
    );
    assert_eq!(response.status, 200);
    assert_eq!(response.header("lock-token"), Some("<opaquelocktoken:xmip-1>"));
    assert_eq!(
        response.header("content-type"),
        Some("application/xml; charset=utf-8")
    );
    assert_eq!(
        body(&response),
        "<?xml version=\"1.0\" encoding=\"utf-8\"?><D:prop xmlns:D=\"DAV:\">\
         <D:lockdiscovery><D:activelock><D:locktype><D:write/></D:locktype>\
         <D:lockscope><D:exclusive/></D:lockscope><D:depth>0</D:depth>\
         <D:timeout>Second-600</D:timeout>\
         <D:locktoken><D:href>opaquelocktoken:xmip-1</D:href></D:locktoken></D:activelock>\
         </D:lockdiscovery></D:prop>"
    );
    let (event, _) = session.answer(&Client::lock("/orders/1.edi"));
    assert_eq!(event, refused("/orders/1.edi", 423));
    assert_eq!(session.store().issued(), 1);
    let (event, _) = session.answer(&Client::unlock("/orders/1.edi", "wrong"));
    assert_eq!(event, refused("/orders/1.edi", 403));
    assert_eq!(session.store().locks.len(), 1);
    let (event, response) = session.answer(&Client::unlock("/orders/1.edi", TOKEN));
    assert_eq!(event, Event::Unlocked("/orders/1.edi".to_string()));
    assert_eq!(response, Response::new(204));
    assert!(session.store().locks.is_empty());
    let (event, _) = session.answer(&Client::lock("/orders/1.edi"));
    assert_eq!(
        event,
        Event::Locked(
            "/orders/1.edi".to_string(),
            "opaquelocktoken:xmip-2".to_string()
        ),
        "a token is not handed out twice"
    );
}

#[test]
fn what_is_locked_is_written_only_with_its_token() {
    let mut session = orders();
    session.answer(&Client::lock("/orders/1.edi"));
    let (event, _) = session.answer(&Client::put("/orders/1.edi", b"x"));
    assert_eq!(event, refused("/orders/1.edi", 423));
    let (event, _) = session.answer(&Client::delete("/orders/1.edi"));
    assert_eq!(event, refused("/orders/1.edi", 423));
    let (event, _) = session.answer(&Client::delete_held("/orders/1.edi", "other"));
    assert_eq!(event, refused("/orders/1.edi", 423));
    let (_, response) = session.answer(&Client::get("/orders/1.edi"));
    assert_eq!(response.body, b"one", "reading needs no token");
    let held = Client::put("/orders/1.edi", b"x").with_header("if", "(<opaquelocktoken:xmip-1>)");
    let (_, response) = session.answer(&held);
    assert_eq!(response, Response::new(204));
    let (event, _) = session.answer(&Client::delete_held("/orders/1.edi", TOKEN));
    assert_eq!(event, Event::Deleted("/orders/1.edi".to_string()));
    assert!(session.store().locks.is_empty(), "the delete took the lock");
}

#[test]
fn a_listing_is_written_to_the_letter() {
    let mut store = Store::default();
    store.insert("/a&b", "2", b"");
    store.insert("/a&b", "1", b"");
    let mut session = session(store);
    session.answer(&Client::lock("/a&b/2"));
    let (event, response) = session.answer(&Client::list("/a&b/"));
    assert_eq!(event, Event::Listed("/a&b".to_string()));
    assert_eq!(response.status, 207);
    assert_eq!(
        body(&response),
        "<?xml version=\"1.0\" encoding=\"utf-8\"?><D:multistatus xmlns:D=\"DAV:\">\
         <D:response><D:href>/a&amp;b/</D:href><D:propstat><D:prop><D:resourcetype>\
         <D:collection/></D:resourcetype></D:prop><D:status>HTTP/1.1 200 OK</D:status>\
         </D:propstat></D:response>\
         <D:response><D:href>/a&amp;b/1</D:href><D:propstat><D:prop><D:resourcetype/></D:prop>\
         <D:status>HTTP/1.1 200 OK</D:status></D:propstat></D:response>\
         <D:response><D:href>/a&amp;b/2</D:href><D:propstat><D:prop><D:resourcetype/>\
         <D:lockdiscovery><D:activelock><D:locktype><D:write/></D:locktype>\
         <D:lockscope><D:exclusive/></D:lockscope><D:depth>0</D:depth>\
         <D:timeout>Second-600</D:timeout>\
         <D:locktoken><D:href>opaquelocktoken:xmip-1</D:href></D:locktoken></D:activelock>\
         </D:lockdiscovery></D:prop><D:status>HTTP/1.1 200 OK</D:status></D:propstat>\
         </D:response></D:multistatus>"
    );
}

#[test]
fn how_deep_a_listing_looks_is_up_to_the_client() {
    let mut session = orders();
    let count = |response: &Response| body(response).matches("<D:response>").count();
    let (_, deep) = session.answer(&Request::new("PROPFIND", "/orders"));
    assert_eq!(count(&deep), 2, "one level where nothing is said");
    let (_, deep) = session.answer(&Request::new("PROPFIND", "/orders").with_header("Depth", "7"));
    assert_eq!(count(&deep), 2);
    let (_, shallow) = session.answer(&Client::find("/orders"));
    assert_eq!(count(&shallow), 1);
    let (event, file) = session.answer(&Client::list("/orders/1.edi"));
    assert_eq!(event, Event::Listed("/orders/1.edi".to_string()));
    assert_eq!(count(&file), 1);
}

#[test]
fn a_path_without_a_slash_is_the_nameless_file_of_the_root() {
    let mut session = Session::accept("127.0.0.1:4711");
    let (event, _) = session.answer(&Client::get("orders"));
    assert_eq!(event, refused("orders", 404));
    let (_, response) = session.answer(&Client::put("/", b"x"));
    assert_eq!(response, Response::new(201));
    let root = session.store().files_in("").expect("root");
    assert_eq!(root.get("").expect("nameless"), b"x");
}

#[test]
fn requests_are_served_in_turn() {
    let mut session = orders();
    let mut sent = write_request("h", &Client::put("/orders/2.edi", b"two"));
    sent.extend(write_request("h", &Client::get("/orders/2.edi")));
    sent.extend(write_request("h", &Client::delete("/orders/none")));
    let mut replies: Vec<u8> = Vec::new();
    let events = session.serve(&sent, LIMIT, &mut replies).expect("serving");
    assert_eq!(
        events,
        vec![
            Event::Put(Arrived::new(
                "webdav://127.0.0.1:4711/orders/2.edi".to_string(),
                b"two".to_vec()
            )),
            Event::Got("/orders/2.edi".to_string()),
            refused("/orders/none", 404),
        ]
    );
    let (first, length) = read_response(&replies, LIMIT).expect("first");
    assert_eq!(first.status, 201);
    assert_eq!(first.header("connection"), Some("keep-alive"));
    let (second, more) = read_response(&replies[length..], LIMIT).expect("second");
    assert_eq!(second.body, b"two");
    let (third, last) = read_response(&replies[length + more..], LIMIT).expect("third");
    assert_eq!(third.status, 404);
    assert_eq!(length + more + last, replies.len());
}

#[test]
fn a_session_waits_for_what_is_stored() {
    let mut session = orders();
    let mut sent = write_request("h", &Client::get("/orders/1.edi"));
    sent.extend(write_request("h", &Client::put("/orders/2.edi", b"two")));
    let both: usize = sent.len();
    sent.extend(write_request("h", &Client::get("/orders/2.edi")));
    let mut replies: Vec<u8> = Vec::new();
    let (arrived, length) = session
        .next_put(&sent, LIMIT, &mut replies)
        .expect("served")
        .expect("stored");
    assert_eq!(arrived.bytes, b"two");
    assert_eq!(length, both);
    assert!(session
        .next_put(&sent[both..], LIMIT, &mut replies)
        .expect("served")
        .is_none());
    assert!(session.next_put(b"", LIMIT, &mut replies).expect("closed").is_none());
}

#[test]
fn what_was_served_stays_served_where_the_rest_cannot_be_read() {
    let mut session = orders();
    let mut sent = write_request("h", &Client::delete("/orders/1.edi"));
    sent.extend_from_slice(b"GET /or");
    let mut replies: Vec<u8> = Vec::new();
    assert_eq!(
        session.serve(&sent, LIMIT, &mut replies),
        Err(ReadError::Partial)
    );
    assert!(session.store().files_in("/orders").expect("collection").is_empty());
    assert!(replies.starts_with(b"HTTP/1.1 204 No Content\r\n"));
    assert!(session.next_event(b"nonsense\r\n\r\n", LIMIT).is_err());
    assert!(session.next_event(b"", LIMIT).expect("closed").is_none());
    assert_eq!(
        session.next_put(b"GET /or", LIMIT, &mut replies),
        Err(ReadError::Partial)
    );
}

#[test]
fn one_session_hands_its_store_to_the_next() {
    let mut first = orders();
    first.answer(&Client::lock("/orders/1.edi"));
    let mut second = session(first.into_store());
    let (event, _) = second.answer(&Client::lock("/orders/1.edi"));
    assert_eq!(event, refused("/orders/1.edi", 423));
}

#[test]
fn a_lock_outlives_whatever_is_asked_without_its_token() {
    let mut session = orders();
    session.answer(&Client::lock("/orders/1.edi"));
    for request in [
        Client::get("/orders/1.edi"),
        Client::list("/orders"),
        Client::unlock("/orders/1.edi", "other"),
        Client::delete("/orders/1.edi"),
        Client::put("/orders/2.edi", b"x"),
        Client::lock("/orders/2.edi"),
        Client::unlock("/orders/2.edi", "opaquelocktoken:xmip-2"),
        Client::delete("/orders"),
    ] {
        session.answer(&request);
        assert_eq!(
            session.store().locks.get("/orders/1.edi").map(String::as_str),
            Some(TOKEN)
        );
    }
}

#[test]
fn a_token_is_never_granted_again() {
    let mut session = orders();
    let mut granted: Vec<String> = Vec::new();
    for round in 0..4u8 {
        let (event, _) = session.answer(&Client::lock("/orders/1.edi"));
        let token = match event {
            Event::Locked(_, token) => token,
            other => panic!("{other:?}"),
        };
        assert!(!granted.contains(&token));
        if round % 2 == 0 {
            session.answer(&Client::unlock("/orders/1.edi", &token));
        } else {
            session.answer(&Client::delete_held("/orders/1.edi", &token));
            session.answer(&Client::put("/orders/1.edi", b"again"));
        }
        granted.push(token);
        session = Session::accept("127.0.0.1:4712").with_store(session.into_store());
    }
    assert_eq!(session.store().issued(), 4);
    let (event, _) = session.answer(&Client::unlock("/orders/1.edi", &granted[0]));
    assert_eq!(event, refused("/orders/1.edi", 409));
}

#[test]
fn a_trailing_slash_does_not_matter() {
    for method in ["PROPFIND", "GET", "PUT", "DELETE", "MKCOL", "LOCK", "UNLOCK", "PATCH"] {
        for path in ["/orders/1.edi", "/orders", "/none"] {
            let mut one = orders();
            let mut other = orders();
            let slashed = format!("{path}/");
            assert_eq!(
                one.answer(&Request::new(method, path)),
                other.answer(&Request::new(method, &slashed))
            );
            assert_eq!(
                format!("{:?}", one.into_store()),
                format!("{:?}", other.into_store())
            );
        }
    }
}

#[test]
fn a_listing_gives_names_with_slashes_inside_too() {
    let mut store = Store::default();
    store.insert("/orders", "a/b", b"1");
    store.insert("/orders", "c", b"2");
    store.locks.insert("/orders/a/b".to_string(), TOKEN.to_string());
    let mut session = session(store);
    let (_, response) = session.answer(&Client::list("/orders"));
    let members = webdav::xml::members(&body(&response));
    let seen: Vec<(&str, bool, bool)> = members
        .iter()
        .map(|m| (m.href.as_str(), m.collection, m.locked))
        .collect();
    assert_eq!(
        seen,
        vec![
            ("/orders/", true, false),
            ("/orders/a/b", false, true),
            ("/orders/c", false, false),
        ]
    );
}

#[test]
fn a_table_keeps_its_keys_in_order() {
    let mut table: Table<String> = Table::new();
    for key in ["b", "", "a/b", "a", "\u{e5}", "ab"] {
        table.insert(key.to_string(), format!("<{key}>"));
    }
    let keys: Vec<&str> = (0..table.len()).map(|i| table.key_at(i)).collect();
    assert_eq!(keys, vec!["", "a", "a/b", "ab", "b", "\u{e5}"]);
    assert_eq!(table.get("ab").map(String::as_str), Some("<ab>"));
    table.insert("ab".to_string(), "new".to_string());
    assert_eq!(table.len(), 6);
    assert_eq!(table.remove("ab"), Some("new".to_string()));
    assert_eq!(table.remove("ab"), None);
    assert_eq!(table.len(), 5);
    assert!(!table.is_empty());
    assert!(!table.contains_key("ab"));
}
