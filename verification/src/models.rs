//! The mail data that the app shows and caches: accounts, messages and the
//! per-folder sync state, with the text codes that the database stores for
//! providers and authentication types.

use vstd::prelude::*;
use vstd::string::StringExecFns;
use crate::text::{chars_equal, chars_of};

verus! {

#[derive(Debug, Clone, Copy, PartialEq, Eq, Structural)]
pub enum ProviderKind {
    Qq,
    Fudan,
    Gmail,
}

/// The code a provider kind is stored under.
pub open spec fn provider_code(kind: ProviderKind) -> Seq<char> {
    match kind {
        ProviderKind::Qq => seq!['q', 'q'],
        ProviderKind::Fudan => seq!['f', 'u', 'd', 'a', 'n'],
        ProviderKind::Gmail => seq!['g', 'm', 'a', 'i', 'l'],
    }
}

pub open spec fn is_provider_code(s: Seq<char>) -> bool {
    s == provider_code(ProviderKind::Qq) || s == provider_code(ProviderKind::Fudan) || s
        == provider_code(ProviderKind::Gmail)
}

/// Every provider kind is stored under a code that reads back, and no two
/// kinds share a code; so reading a stored kind gives that kind again.
pub proof fn provider_codes_round_trip(a: ProviderKind, b: ProviderKind)
    ensures
        is_provider_code(provider_code(a)),
        provider_code(a) == provider_code(b) ==> a == b,
{
    if provider_code(a) == provider_code(b) && a != b {
        assert(provider_code(a).len() != provider_code(b).len() || provider_code(a)[0]
            != provider_code(b)[0]);
    }
}

impl ProviderKind {
    /// The provider kind stored as `value`; unknown codes are an error.
    pub fn from_db(value: String) -> (r: Result<ProviderKind, String>)
        ensures
            r is Ok <==> is_provider_code(value@),
            r matches Ok(kind) ==> provider_code(kind) == value@,
            r matches Err(message) ==> message@ == "Unknown provider kind: "@ + value@,
    {
        let cs = chars_of(value.as_str());
        if chars_equal(cs.as_slice(), &['q', 'q']) {
            Ok(ProviderKind::Qq)
        } else if chars_equal(cs.as_slice(), &['f', 'u', 'd', 'a', 'n']) {
            Ok(ProviderKind::Fudan)
        } else if chars_equal(cs.as_slice(), &['g', 'm', 'a', 'i', 'l']) {
            Ok(ProviderKind::Gmail)
        } else {
            let mut message = String::from_str("Unknown provider kind: ");
            message.append(value.as_str());
            Err(message)
        }
    }
}

#[derive(Debug, Clone, Copy, PartialEq, Eq, Structural)]
pub enum AuthType {
    AuthorizationCode,
    Oauth,
}

/// The code an authentication type is stored under.
pub open spec fn auth_type_code(kind: AuthType) -> Seq<char> {
    match kind {
        AuthType::AuthorizationCode => seq![
            'a',
            'u',
            't',
            'h',
            'o',
            'r',
            'i',
            'z',
            'a',
            't',
            'i',
            'o',
            'n',
            '_',
            'c',
            'o',
            'd',
            'e',
        ],
        AuthType::Oauth => seq!['o', 'a', 'u', 't', 'h'],
    }
}

pub open spec fn is_auth_type_code(s: Seq<char>) -> bool {
    s == auth_type_code(AuthType::AuthorizationCode) || s == auth_type_code(AuthType::Oauth)
}

/// Every authentication type is stored under a code that reads back, and
/// the two types have different codes.
pub proof fn auth_type_codes_round_trip(a: AuthType, b: AuthType)
    ensures
        is_auth_type_code(auth_type_code(a)),
        auth_type_code(a) == auth_type_code(b) ==> a == b,
{
    if auth_type_code(a) == auth_type_code(b) && a != b {
        assert(auth_type_code(a).len() != auth_type_code(b).len());
    }
}

impl AuthType {
    /// The authentication type stored as `value`; unknown codes are an error.
    pub fn from_db(value: String) -> (r: Result<AuthType, String>)
        ensures
            r is Ok <==> is_auth_type_code(value@),
            r matches Ok(kind) ==> auth_type_code(kind) == value@,
            r matches Err(message) ==> message@ == "Unknown auth type: "@ + value@,
    {
        let cs = chars_of(value.as_str());
        if chars_equal(
            cs.as_slice(),
            &[
                'a',
                'u',
                't',
                'h',
                'o',
                'r',
                'i',
                'z',
                'a',
                't',
                'i',
                'o',
                'n',
                '_',
                'c',
                'o',
                'd',
                'e',
            ],
        ) {
            Ok(AuthType::AuthorizationCode)
        } else if chars_equal(cs.as_slice(), &['o', 'a', 'u', 't', 'h']) {
            Ok(AuthType::Oauth)
        } else {
            let mut message = String::from_str("Unknown auth type: ");
            message.append(value.as_str());
            Err(message)
        }
    }
}

#[derive(Debug, Clone)]
pub struct MailAccount {
    pub id: i64,
    pub provider: ProviderKind,
    pub address: String,
    pub display_name: String,
    pub auth_type: AuthType,
    pub imap_host: String,
    pub imap_port: i64,
    pub is_enabled: bool,
}

#[derive(Debug, Clone)]
pub struct MailMessage {
    pub id: String,
    pub from: String,
    pub subject: String,
    pub received_at: String,
    pub preview: String,
    pub body: String,
    pub has_attachments: bool,
    pub is_unread: bool,
}

#[derive(Debug, Clone)]
pub struct SyncState {
    pub account_id: i64,
    pub folder: String,
    pub last_attempt_at: Option<String>,
    pub last_success_at: Option<String>,
    pub last_error: Option<String>,
    pub is_syncing: bool,
}

pub ghost struct MailMessageView {
    pub id: Seq<char>,
    pub from: Seq<char>,
    pub subject: Seq<char>,
    pub received_at: Seq<char>,
    pub preview: Seq<char>,
    pub body: Seq<char>,
    pub has_attachments: bool,
    pub is_unread: bool,
}

impl View for MailMessage {
    type V = MailMessageView;

    open spec fn view(&self) -> MailMessageView {
        MailMessageView {
            id: self.id@,
            from: self.from@,
            subject: self.subject@,
            received_at: self.received_at@,
            preview: self.preview@,
            body: self.body@,
            has_attachments: self.has_attachments,
            is_unread: self.is_unread,
        }
    }
}

} // verus!
