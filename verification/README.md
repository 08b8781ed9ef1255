# synapt

Synapt is a desktop launcher and LAN file-sharing tool: an overlay that
searches local files and installed applications, finds other Synapt devices on
the local network, pairs with them over a short verification code, and sends
files to them over encrypted sessions.

The logic lives in a library verified with Verus; the program around it does
the I/O.

## Layout

- `src/` — the verified library.
  - `search/` — the prefix trie, the Bloom filter, edit distance and Jaro
    match counts, the ranking of local results, the session cache of answers, the query planner, the
    full-text query text, the `.desktop` reader, the calculator's lexer and
    parser, and the file-scan decisions.
  - `network/` — the encrypted frame format and key derivation, the session
    handshake, pairing messages and codes, manual invite codes, presence
    handling, the transfer protocol's decisions, and the transfer queue.
  - `trust.rs`, `storage.rs` — device identities, fingerprints and stored rows.
  - `ipc.rs`, `notify.rs`, `commands.rs`, `platform.rs` — the clipboard
    companion's request checks, notification texts, settings and UI-facing
    rules.
  - `text.rs`, `paths.rs` — the string and path operations the rest is
    stated over.
- `tests/` — tests of the library's public functions.
- `app/` — the program: the database, the full-text index, sockets, the
  file system, the HTTP server for the companion, and the desktop shell.
