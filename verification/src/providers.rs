//! Mail providers as the sync service sees them: QQ Mail, read over IMAP,
//! and the payload that a provider's inbox sync hands back.

use vstd::prelude::*;
use crate::imap::QqInboxSyncPayload;
use crate::models::{MailMessage, ProviderKind};

verus! {

/// What a provider's inbox sync brings: the folder read, its messages and
/// how many messages the folder holds.
pub struct ProviderSyncPayload {
    pub folder: String,
    pub messages: Vec<MailMessage>,
    pub total_messages: u32,
}

/// QQ Mail, synced over read-only IMAP.
pub struct QqImapProvider;

impl QqImapProvider {
    pub fn kind(&self) -> (r: ProviderKind)
        ensures
            r == ProviderKind::Qq,
    {
        ProviderKind::Qq
    }

    /// The provider's view of a QQ inbox sync: the folder from the report,
    /// the messages as they are, and the folder's message count (`EXISTS`).
    pub fn payload(&self, payload: QqInboxSyncPayload) -> (r: ProviderSyncPayload)
        ensures
            r.folder@ == payload.report.folder@,
            r.messages@ == payload.messages@,
            r.total_messages == payload.report.exists,
    {
        ProviderSyncPayload {
            folder: payload.report.folder,
            messages: payload.messages,
            total_messages: payload.report.exists,
        }
    }
}

} // verus!
