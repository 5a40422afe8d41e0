# network_hole_punching

Room coordination for a peer-to-peer game network that connects players through UDP
hole punching, written in Verus.

- `src/` is the verified library:
  - `coordinator` — the coordinator's room table: parsing registrations, registering
    peers, answering with the room's other peers as JSON, and sweeping stale peers and
    expired rooms; with laws on what registrations and sweeps keep.
  - `main_server` — the main server's room directory: opening, joining, listing,
    reporting and forgetting rooms, and the claims of join tokens.
  - `peer` — a player's endpoint: the room key, sealing and reading packets, heartbeats,
    the handshake, and applying the coordinator's answers.
  - `str_map` — a string-keyed map kept as a list with distinct keys.
  - `json`, `crypto`, `clock` — the calls into serde_json, hkdf/sha2/aes-gcm, and time
    arithmetic on a monotonic nanosecond clock.
- `app/` holds the programs around it (`coordinator`, `main-server`, `peer`): sockets,
  HTTP, timers, token signing and checking, and printing.
- `tests/` exercises the library on concrete values.
