# webdav

WebDAV transport: a collection over HTTP — PROPFIND lists, GET and DELETE take,
PUT delivers, and LOCK is the native claim, so two nodes never take one file
twice.

- `src/` is the library, verified with Verus: the HTTP/1.1 messages (`wire`),
  the XML they carry (`xml`, `markup`), the client's requests and answers
  (`client`), the session and its store (`session`), what a receive decides
  (`receive`), and the transport (`transport`). `laws` states and proves what
  holds of them together.
- `app/` is the sockets under it.
- `tests/` runs the library on given values.
