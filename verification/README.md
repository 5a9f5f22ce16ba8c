# Manga Bay

A peer-to-peer node for hosting and sharing manga. The node keeps a
catalogue in SQLite, stores page images under their SHA-256 content
address, serves a small HTTP API and talks to other nodes over libp2p.

`src/` is the library, verified with Verus: content addressing and chunking
(`hashing`, `chunking`, `engine`), page decoding and API error rules (`api`),
the CBZ (stored ZIP) archive a series upload's pages are packed into
(`archive`), catalogue versions and the sync rule (`version`), peer address bookkeeping
(`peers`), the sharing-ratio rule (`ratio`), and the state machine that
tracks lookups in flight (`pending`, `node`).

`app/` is the program around it: command line, SQLite storage, the HTTP
server, the swarm event loop and the resource monitor. It performs the
actions the library decides.
