# airs

A small server for browsing and searching an exported archive of chat
conversations. The library under `src/` holds the parts that decide what the
server stores and answers, with contracts checked by Verus:

- `server/models.rs` — the records and the storage keys (`convo::<id>`,
  `msg::<conversation>::<message>`), with laws on how keys and prefixes relate;
- `server/text.rs` — byte-level text helpers: character boundaries, substring
  search, ASCII lowercasing, string order, and the snippet cut around a match;
- `server/order.rs` — a stable insertion sort and the characterisation of its
  result;
- `server/search.rs` — the in-memory index and its search (empty query: newest
  first; otherwise case-insensitive hit counting, most hits first);
- `server/import.rs` — shaping an export into the records that are stored;
- `server/routes.rs` — request defaults, the key test of a prefix scan and the
  ordering of a thread's messages.

`app/` is the program around it: the LMDB stores, JSON and bitcode encoding,
and the HTTP routes.
