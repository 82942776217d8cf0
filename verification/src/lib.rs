//! Streams that arrive as files in a `WebDAV` collection. One file is one
//! Stream, its URL kept beside it.
//!
//! `WebDAV` is the drop box that sits behind a web server: a collection is a
//! directory, a member is a file, and every operation is an HTTP method —
//! PROPFIND lists, GET reads, PUT writes, DELETE removes, MKCOL creates.
//! A Receive Location lists the collection and takes each member; a Send
//! Location PUTs to a URL. Either may instead accept clients directly
//! through [`Session`], one client's worth of server over a [`Store`].
//!
//! **LOCK is the native claim.** A `WebDAV` server grants one exclusive write
//! lock per resource and refuses the second with 423, so a member locked here
//! is claimed at the endpoint for every node at once, with the lock token as
//! the claim token; a receive locks each member before it takes it, passing
//! over what another node already holds.
//!
//! HTTP/1.1 with Content-Length, the connection kept between methods. The
//! library reads and writes bytes and decides what comes next; connections
//! are whoever's who calls it.
//!
//! Each function states what it does in its contract, over the sequences and
//! maps that its values stand for. What holds of several of them together is
//! stated and proved in [`laws`].

pub mod client;
pub mod error;
pub mod laws;
pub mod markup;
pub mod receive;
pub mod session;
pub mod stream;
pub mod table;
pub mod target;
pub mod text;
pub mod transport;
pub mod wire;
pub mod xml;

pub use client::Client;
pub use session::{Event, Session, Store};
pub use transport::WebDavTransport;
pub use xml::Member;
