//! MailDock's mail handling logic: text normalisation for headers and bodies,
//! RFC 2047 decoding, timestamp sorting keys, credential naming and the local
//! credential file format, the cache rows and sync-state bookkeeping, the
//! decisions of a sync, and the turning of raw messages into cached mail
//! items.

pub mod db;
pub mod imap;
pub mod mail_service;
pub mod mail_text;
pub mod models;
pub mod providers;
pub mod security;
pub mod sync_runtime;
pub mod text;
pub mod time_utils;
