use std::time::Duration;

use webdav::client::carried_out;
use webdav::error::TransportError;
use webdav::receive::Taking;
use webdav::stream::{Arrived, Artefact, Claimed};
use webdav::table::Table;
use webdav::target::HttpTarget;
use webdav::transport::{available, claimed, far_end, Errand};
use webdav::wire::{read_response, ReadError, Request, Response};
use webdav::{Client, Event, Session, Store, WebDavTransport};

const LIMIT: usize = 65536;
const ADDRESS: &str = "127.0.0.1:4711";

fn secs(n: u64) -> Duration {
    Duration::from_secs(n)
}

/// Ask one request of a session, through the bytes between them.
fn ask(session: &mut Session, client: &Client, request: Request) -> (Event, Response) {
    let sent = client.exchange(request);
    let turn = session
        .next_event(&sent, LIMIT)
        .expect("served")
        .expect("one");
    assert_eq!(turn.length, sent.len());
    let (response, length) = read_response(&turn.reply, LIMIT).expect("answered");
    assert_eq!(length, turn.reply.len());
    (turn.event, response)
}

fn run(session: &mut Session, errand: Errand) -> Response {
    let client = Client::connect(&errand.target);
    ask(session, &client, errand.request).1
}

/// Receive from a session: what arrived, and what the session saw.
fn receive(
    near: &WebDavTransport,
    session: &mut Session,
) -> (Result<Vec<Arrived>, TransportError>, Vec<Event>) {
    let (target, mut receiving) = near.receive().expect("a target");
    let client = Client::connect(&target);
    let mut events: Vec<Event> = Vec::new();
    while let Some(request) = receiving.request() {
        let (event, response) = ask(session, &client, request);
        events.push(event);
        receiving = receiving.answered(Ok(response));
    }
    (receiving.finish(), events)
}

fn near() -> WebDavTransport {
    WebDavTransport::new(&format!("webdav://{ADDRESS}/orders")).timing_out_after(secs(2))
}

fn orders() -> Session {
    let mut store = Store::default();
    store.files.insert("/orders".to_string(), Table::new());
    near().accept_one(ADDRESS).with_store(store)
}

#[test]
fn a_send_puts_into_a_collection_and_a_receive_takes_it_back_out() {
    let near = near();
    let mut session = orders();
    let errand = near.send("1.edi", b"UNA:+.? '").expect("a target");
    let client = Client::connect(&errand.target);
    let (event, response) = ask(&mut session, &client, errand.request);
    assert!(carried_out(response).is_ok());
    let first = match event {
        Event::Put(arrived) => arrived,
        other => panic!("{other:?}"),
    };
    assert_eq!(first.bytes, b"UNA:+.? '");
    assert!(first.origin_uri.ends_with("/orders/1.edi"));
    let mut session = near.accept_one(ADDRESS).with_store(session.into_store());
    let errand = near
        .send(&format!("http://{ADDRESS}/orders/2.edi"), b"")
        .expect("a target");
    assert!(carried_out(run(&mut session, errand)).is_ok());
    assert!(near.send("orders/", b"x").is_err(), "a collection");
    let store = session.into_store();
    assert_eq!(store.files_in("/orders").expect("collection").len(), 2);
    let mut session = near.accept_one(ADDRESS).with_store(store);
    let (arrived, events) = receive(&near, &mut session);
    assert_eq!(
        events
            .iter()
            .filter(|e| matches!(e, Event::Locked(..)))
            .count(),
        2
    );
    assert!(events
        .iter()
        .any(|e| *e == Event::Deleted("/orders/2.edi".to_string())));
    assert!(
        !events.iter().any(|e| matches!(e, Event::Unlocked(_))),
        "the delete took each lock with it: {events:?}"
    );
    let arrived = arrived.expect("round trip");
    assert_eq!(arrived.len(), 2);
    assert_eq!(arrived[0].bytes, b"UNA:+.? '");
    assert!(arrived[0].origin_uri.starts_with("webdav://127.0.0.1:"));
    assert!(arrived[0].origin_uri.ends_with("/orders/1.edi"));
    assert!(arrived[1].origin_uri.ends_with("/orders/2.edi"));
    assert!(session.store().files_in("/orders").expect("c").is_empty());
    assert!(session.store().locks.is_empty(), "every lock given back");
}

#[test]
fn the_lock_is_the_claim_and_a_second_claim_is_refused() {
    let near = near();
    let mut store = Store::default();
    store.insert("/orders", "1.edi", b"held");
    let mut session = near.accept_one(ADDRESS).with_store(store);
    let artefact = Artefact::new(format!("webdav://{ADDRESS}/orders/1.edi"));
    let free = near.is_available(&artefact).expect("a target");
    assert_eq!(available(run(&mut session, free)), Ok(true));
    let claim = near.claim(&artefact).expect("a target");
    let held = claimed(artefact.clone(), run(&mut session, claim)).expect("claimed");
    assert!(held.token.starts_with("opaquelocktoken:"));
    assert_eq!(held.artefact, artefact);
    let claim = near.claim(&artefact).expect("a target");
    let second = claimed(artefact.clone(), run(&mut session, claim)).expect_err("held");
    assert!(second.retryable, "somebody holds it now and will let go");
    let free = near.is_available(&artefact).expect("a target");
    assert_eq!(available(run(&mut session, free)), Ok(false));
    let client = Client::connect(&near.connect().expect("a target"));
    let (_, response) = ask(&mut session, &client, Client::delete("/orders/1.edi"));
    assert!(carried_out(response).is_err(), "locked");
    let (_, response) = ask(&mut session, &client, Client::unlock("/orders/1.edi", "wrong"));
    assert!(carried_out(response).is_err());
    let release = near.release(&held).expect("a target");
    assert_eq!(carried_out(run(&mut session, release)), Ok(()));
    let free = near.is_available(&artefact).expect("a target");
    assert_eq!(available(run(&mut session, free)), Ok(true));
    let missing = near
        .is_available(&Artefact::new("missing.edi".to_string()))
        .expect("a target");
    assert_eq!(available(run(&mut session, missing)), Ok(false));
    assert!(session.store().locks.is_empty());
    assert!(near.claims().is_some());
    assert_eq!(near.name(), "webdav");
}

#[test]
fn a_server_that_does_not_speak_http_is_a_permanent_error() {
    let (_, receiving) = near().receive().expect("a target");
    let answer = match read_response(b"220 mail.example ESMTP\r\n\r\n", LIMIT) {
        Err(ReadError::Refused(error)) => Err(error),
        other => panic!("{other:?}"),
    };
    let receiving = receiving.answered(answer);
    assert!(receiving.request().is_none());
    let error = receiving.finish().expect_err("refused");
    assert!(!error.retryable, "{}", error.message);
    let near = WebDavTransport::new(&format!("webdav://{ADDRESS}")).timing_out_after(secs(2));
    let mut session = near.accept_one(ADDRESS);
    let client = Client::connect(&near.connect().expect("connecting"));
    let (_, response) = ask(&mut session, &client, Client::mkcol("/new"));
    carried_out(response).expect("created");
    let (_, response) = ask(&mut session, &client, Client::mkcol("/new"));
    assert!(carried_out(response).is_err(), "twice");
    let (_, response) = ask(&mut session, &client, Client::get("/new/none"));
    assert!(webdav::client::fetched(response).is_err(), "not there");
    let (_, response) = ask(&mut session, &client, Client::lock("/new/none"));
    assert!(webdav::client::locked(response).is_err(), "nothing to lock");
    let (_, response) = ask(&mut session, &client, Client::put("/new/a.txt", b"a"));
    carried_out(response).expect("stored");
    let (_, response) = ask(&mut session, &client, Client::list("/new"));
    let members = webdav::client::listed(response).expect("listed");
    assert_eq!(members.len(), 2);
    assert!(members[0].collection);
    assert_eq!(members[1].href, "/new/a.txt");
}

/// Send `payload` through the loopback pair.
fn round(pair: &WebDavTransport, payload: &[u8]) -> Arrived {
    let errand = pair.send_to(ADDRESS, payload).expect("a target");
    let client = Client::connect(&errand.target);
    let mut session = pair.accept_one(ADDRESS);
    let sent = client.exchange(errand.request);
    let mut replies: Vec<u8> = Vec::new();
    let put = session
        .next_put(&sent, LIMIT, &mut replies)
        .expect("served")
        .map(|(arrived, length)| {
            assert_eq!(length, sent.len());
            arrived
        });
    let (response, _) = read_response(&replies, LIMIT).expect("answered");
    assert_eq!(carried_out(response), Ok(()));
    far_end(put).expect("stored")
}

#[test]
fn the_loopback_puts_one_member_through_its_own_session() {
    let pair = WebDavTransport::loopback(secs(5));
    assert_eq!(pair.bind(), Ok("127.0.0.1:0".to_string()));
    let arrived = round(&pair, b"a member");
    assert_eq!(arrived.bytes, b"a member");
    assert!(arrived.origin_uri.starts_with("webdav://127.0.0.1:"));
    assert!(arrived.origin_uri.ends_with("/probe.bin"));
    assert_eq!(pair.name(), "webdav");
}

/// The edge payloads.
fn edge_payloads() -> Vec<(&'static str, Vec<u8>)> {
    vec![
        ("empty", Vec::new()),
        ("one byte", vec![0x2a]),
        ("every byte", (0..=255).collect()),
        ("nul run", vec![0; 512]),
        ("high bytes", vec![0xff; 512]),
        ("crlf storm", b"\r\n".repeat(400)),
    ]
}

#[test]
fn the_loopback_returns_the_edge_payloads_whole() {
    let pair = WebDavTransport::loopback(secs(5));
    for (name, payload) in edge_payloads() {
        let arrived = round(&pair, &payload);
        assert_eq!(arrived.bytes, payload, "{name}");
    }
}

#[test]
fn a_far_end_that_got_nothing_says_so() {
    assert_eq!(
        far_end(None),
        Err(TransportError {
            message: "the client closed without storing".to_string(),
            retryable: false,
        })
    );
}

#[test]
fn a_receive_passes_over_what_another_node_holds() {
    let near = near();
    let mut store = Store::default();
    store.insert("/orders", "1.edi", b"one");
    store.insert("/orders", "2.edi", b"two");
    store.insert("/orders/sub", "3.edi", b"three");
    let mut session = near.accept_one(ADDRESS).with_store(store);
    session.answer(&Client::lock("/orders/2.edi"));
    let (arrived, _) = receive(&near, &mut session);
    assert_eq!(
        arrived,
        Ok(vec![Arrived::new(
            format!("webdav://{ADDRESS}/orders/1.edi"),
            b"one".to_vec()
        )])
    );
    assert!(session.store().locks.contains_key("/orders/2.edi"));
    let left = session.store().files_in("/orders").expect("collection");
    assert_eq!(left.len(), 1);
    assert_eq!(left.get("2.edi").expect("held"), b"two");
    assert_eq!(session.store().files_in("/orders/sub").expect("sub").len(), 1);
}

#[test]
fn a_name_with_a_space_in_it_makes_no_request_line() {
    let near = near();
    let mut store = Store::default();
    store.insert("/orders", "1 2.edi", b"x");
    let mut session = near.accept_one(ADDRESS).with_store(store);
    let (target, receiving) = near.receive().expect("a target");
    let client = Client::connect(&target);
    let request = receiving.request().expect("the listing");
    let (_, response) = ask(&mut session, &client, request);
    let receiving = receiving.answered(Ok(response));
    let request = receiving.request().expect("the lock");
    assert_eq!(request.path, "/orders/1 2.edi");
    assert_eq!(
        session.next_event(&client.exchange(request), LIMIT),
        Err(ReadError::Refused(TransportError {
            message: "a request line Xmip cannot read: LOCK /orders/1 2.edi HTTP/1.1".to_string(),
            retryable: false,
        }))
    );
    assert!(session.store().locks.is_empty());
}

#[test]
fn a_receive_gives_what_is_free_in_the_order_of_its_names() {
    let near = near();
    let mut store = Store::default();
    store.insert("/orders", "c", b"3");
    store.insert("/orders", "a&b", b"1");
    store.insert("/orders", "b", b"2");
    let mut session = near.accept_one(ADDRESS).with_store(store);
    session.answer(&Client::lock("/orders/b"));
    let (arrived, events) = receive(&near, &mut session);
    assert_eq!(
        arrived,
        Ok(vec![
            Arrived::new(format!("webdav://{ADDRESS}/orders/a&b"), b"1".to_vec()),
            Arrived::new(format!("webdav://{ADDRESS}/orders/c"), b"3".to_vec()),
        ])
    );
    assert_eq!(
        events,
        vec![
            Event::Listed("/orders".to_string()),
            Event::Locked("/orders/a&b".to_string(), "opaquelocktoken:xmip-2".to_string()),
            Event::Got("/orders/a&b".to_string()),
            Event::Deleted("/orders/a&b".to_string()),
            Event::Refused("/orders/b".to_string(), 423),
            Event::Locked("/orders/c".to_string(), "opaquelocktoken:xmip-3".to_string()),
            Event::Got("/orders/c".to_string()),
            Event::Deleted("/orders/c".to_string()),
        ]
    );
    assert_eq!(session.store().locks.len(), 1);
    let (again, _) = receive(&near, &mut session);
    assert_eq!(again, Ok(Vec::new()), "nothing is taken twice");
}

#[test]
fn a_receive_of_nothing_there_fails_for_good() {
    let near = near();
    let mut session = near.accept_one(ADDRESS);
    let (arrived, _) = receive(&near, &mut session);
    assert_eq!(
        arrived,
        Err(TransportError {
            message: "the WebDAV server answered 404 Not Found".to_string(),
            retryable: false,
        })
    );
}

#[test]
fn a_take_that_fails_gives_its_lock_back() {
    let lost = TransportError {
        message: "the connection broke".to_string(),
        retryable: true,
    };
    let granted = Response::new(200).with_header("Lock-Token", "<t>");
    let taking = Taking::Locking;
    assert_eq!(taking.request("/a"), Some(Client::lock("/a")));
    let taking = taking.answered(Ok(granted));
    assert_eq!(
        taking,
        Taking::Fetching {
            token: "t".to_string()
        }
    );
    assert_eq!(taking.request("/a"), Some(Client::get("/a")));
    let failed = taking.clone().answered(Ok(Response::new(404)));
    assert_eq!(failed.request("/a"), Some(Client::unlock("/a", "t")));
    let failed = failed.answered(Err(lost.clone()));
    assert!(matches!(&failed, Taking::Failed(error) if !error.retryable));
    assert_eq!(failed.request("/a"), None);
    let taking = taking.answered(Ok(Response::new(200).with_body(b"x")));
    assert_eq!(taking.request("/a"), Some(Client::delete_held("/a", "t")));
    let failed = taking.clone().answered(Err(lost.clone()));
    assert_eq!(
        failed,
        Taking::Releasing {
            token: "t".to_string(),
            error: lost.clone()
        }
    );
    assert_eq!(
        failed.answered(Ok(Response::new(204))),
        Taking::Failed(lost.clone())
    );
    let taken = taking.answered(Ok(Response::new(204)));
    assert_eq!(taken, Taking::Taken(b"x".to_vec()));
    assert_eq!(taken.request("/a"), None);
    assert_eq!(taken.clone().answered(Err(lost)), taken);
}

#[test]
fn only_what_another_node_holds_is_passed_over() {
    let held = Taking::Locking.answered(Ok(Response::new(423)));
    assert_eq!(held, Taking::PassedOver);
    assert_eq!(held.request("/a"), None);
    for status in [404u16, 408, 429, 500, 503] {
        let failed = Taking::Locking.answered(Ok(Response::new(status)));
        assert!(matches!(&failed, Taking::Failed(_)), "{status}");
        assert_eq!(failed.request("/a"), None);
    }
    let busy = Taking::Locking.answered(Ok(Response::new(503)));
    assert!(matches!(&busy, Taking::Failed(error) if error.retryable));
    let lost = TransportError {
        message: "the connection broke".to_string(),
        retryable: true,
    };
    assert_eq!(
        Taking::Locking.answered(Err(lost.clone())),
        Taking::Failed(lost)
    );
}

#[test]
fn a_receive_that_cannot_lock_fails() {
    let (_, receiving) = near().receive().expect("a target");
    let listing = "<response><href>/orders/1.edi</href></response>";
    let receiving = receiving.answered(Ok(Response::new(207).with_body(listing.as_bytes())));
    assert_eq!(receiving.request(), Some(Client::lock("/orders/1.edi")));
    let receiving = receiving.answered(Ok(Response::new(503)));
    assert!(receiving.request().is_none());
    assert!(receiving.finish().expect_err("busy").retryable);
}

#[test]
fn of_two_nodes_only_one_takes_a_file() {
    let mut store = Store::default();
    store.insert("/orders", "1.edi", b"one");
    let mut session = near().accept_one(ADDRESS).with_store(store);
    let client = Client::connect(&near().connect().expect("a target"));
    let mut one = Taking::Locking;
    let mut other = Taking::Locking;
    while one.request("/orders/1.edi").is_some() || other.request("/orders/1.edi").is_some() {
        if let Some(request) = one.request("/orders/1.edi") {
            one = one.answered(Ok(ask(&mut session, &client, request).1));
        }
        if let Some(request) = other.request("/orders/1.edi") {
            other = other.answered(Ok(ask(&mut session, &client, request).1));
        }
    }
    assert_eq!(one, Taking::Taken(b"one".to_vec()));
    assert_eq!(other, Taking::PassedOver);
    assert!(session.store().locks.is_empty());
}

#[test]
fn a_send_target_is_a_url_or_a_name() {
    let near = near();
    let target = |path: &str| HttpTarget {
        secure: false,
        authority: ADDRESS.to_string(),
        path: path.to_string(),
    };
    let errand = near.send("1.edi", b"x").expect("a name");
    assert_eq!(errand.target, target("/orders/1.edi"));
    assert_eq!(errand.request, Client::put("/orders/1.edi", b"x"));
    let errand = near.send("//sub/1.edi", b"x").expect("a longer name");
    assert_eq!(errand.target, target("/orders/sub/1.edi"));
    let errand = near.send("webdavs://dav.example/a", b"x").expect("a url");
    assert_eq!(
        errand.target,
        HttpTarget {
            secure: true,
            authority: "dav.example".to_string(),
            path: "/a".to_string(),
        }
    );
    assert_eq!(
        near.send("orders/", b"x"),
        Err(TransportError {
            message: format!(
                "a send target that names a collection rather than a member: \
                 http://{ADDRESS}/orders/orders/"
            ),
            retryable: false,
        })
    );
    assert_eq!(
        near.send("ftp://dav.example/a", b"x"),
        Err(TransportError {
            message: "a target that is neither http:// nor https://: ftp://dav.example/a"
                .to_string(),
            retryable: false,
        })
    );
    let slashed = WebDavTransport::new("http://dav.example/orders//");
    let errand = slashed.send("1.edi", b"").expect("a name");
    assert_eq!(errand.target.path, "/orders/1.edi");
}

#[test]
fn a_transport_is_what_it_was_made() {
    let plain = WebDavTransport::new("webdav://dav.example");
    assert_eq!(plain.timeout(), None);
    let patient = plain.clone().timing_out_after(secs(3));
    assert_eq!(patient.timeout(), Some(secs(3)));
    let target = plain.connect().expect("a target");
    assert_eq!(target.path, "/");
    assert_eq!(target.address(), "dav.example:80");
    assert_eq!(plain.bind(), Ok("dav.example:80".to_string()));
    let guarded = WebDavTransport::new("webdavs://[::1]/x").connect().expect("a target");
    assert_eq!(guarded.address(), "[::1]:443");
    assert_eq!(guarded.endpoint(), "https://[::1]/x");
    assert!(WebDavTransport::new("dav.example").connect().is_err());
    assert!(WebDavTransport::new("dav.example").receive().is_err());
    assert!(WebDavTransport::new("dav.example").bind().is_err());
    assert!(plain.directions().receives);
    assert!(plain.directions().sends);
}

#[test]
fn an_artefact_whose_address_cannot_be_read_is_an_error() {
    let near = WebDavTransport::new("nowhere");
    let artefact = Artefact::new("1.edi".to_string());
    assert_eq!(artefact.address(), "1.edi");
    assert!(near.is_available(&artefact).is_err());
    assert!(near.claim(&artefact).is_err());
    assert!(near.release(&Claimed::new(artefact, "t".to_string())).is_err());
}

#[test]
fn a_collection_is_not_available_to_claim() {
    let near = near();
    let mut session = orders();
    let errand = near
        .is_available(&Artefact::new(format!("http://{ADDRESS}/orders")))
        .expect("a target");
    assert_eq!(available(run(&mut session, errand)), Ok(false));
    assert!(available(Response::new(503)).expect_err("server").retryable);
}
