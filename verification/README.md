# maildock

The backend logic of MailDock, a small read-only QQ Mail client, written in
Verus: each function states its behaviour in `requires` / `ensures` and Verus
proves it.

- `src/` is the verified library: RFC 2047 and charset decoding, header and
  body clean-up, the turning of a raw message into a cached mail item, the
  IMAP fetch plan, timestamp sort keys, credential naming and the local
  credential file format, the cache rows and the sync-state transitions, and
  the sync decisions (one sync per account, where a saved code is found,
  the steps of a sync with a saved code and how a failure is recorded).
  Calls into `mailparse`, `base64` and `encoding_rs` go through small wrappers
  whose contracts say what those crates document.
- `app/` is ordinary Rust around it: the SQLite cache (`rusqlite`), the
  credential store (`keyring` and local files), the IMAP session (`imap`,
  `native-tls`), the sync service with its events, and the background sync
  thread.
- `tests/` exercises the library on concrete inputs.
