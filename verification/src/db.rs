//! What the cache stores and reads back, apart from the SQL itself: how a
//! row becomes an account or a message, the values written for a message,
//! the UID kept beside each message id, and the per-folder sync record with
//! the three transitions that a sync goes through.

use vstd::prelude::*;
use crate::mail_text::{normalize_display_text, spec_normalize_display_text};
use crate::models::{
    auth_type_code, is_auth_type_code, is_provider_code, provider_code, AuthType, MailAccount,
    MailMessage, MailMessageView, ProviderKind, SyncState,
};
use crate::imap::spec_message_id;
use crate::text::{chars_of, decimal, digit_char, string_of, sub_chars};
use crate::time_utils::{received_at_sort_key, spec_received_at_sort_key};

verus! {

/// The address of the sample account that early builds seeded and that is
/// removed from the cache on open.
pub const SEED_ACCOUNT_ADDRESS: &'static str = "learning@qq.com";

// ---------------------------------------------------------------------------
// Accounts
// ---------------------------------------------------------------------------
/// One row of the `accounts` table, as read.
pub struct AccountRow {
    pub id: i64,
    pub provider: String,
    pub address: String,
    pub display_name: String,
    pub auth_type: String,
    pub imap_host: String,
    pub imap_port: i64,
    pub is_enabled: i64,
}

/// Whether a row's codes are known, so that it reads as an account.
pub open spec fn row_is_valid(row: AccountRow) -> bool {
    is_provider_code(row.provider@) && is_auth_type_code(row.auth_type@)
}

/// The error that reading a row gives: the provider code is checked first.
pub open spec fn row_error(row: AccountRow) -> Seq<char> {
    if !is_provider_code(row.provider@) {
        "Unknown provider kind: "@ + row.provider@
    } else {
        "Unknown auth type: "@ + row.auth_type@
    }
}

/// The account a valid row reads as.
pub open spec fn account_matches_row(a: MailAccount, row: AccountRow) -> bool {
    &&& a.id == row.id
    &&& provider_code(a.provider) == row.provider@
    &&& a.address@ == row.address@
    &&& a.display_name@ == row.display_name@
    &&& auth_type_code(a.auth_type) == row.auth_type@
    &&& a.imap_host@ == row.imap_host@
    &&& a.imap_port == row.imap_port
    &&& a.is_enabled == (row.is_enabled != 0)
}

/// The account a row of the `accounts` table reads as; a row with an unknown
/// provider or authentication code is an error.
pub fn account_from_row(row: AccountRow) -> (r: Result<MailAccount, String>)
    ensures
        r is Ok <==> row_is_valid(row),
        r matches Ok(a) ==> account_matches_row(a, row),
        r matches Err(e) ==> e@ == row_error(row),
{
    let provider = match ProviderKind::from_db(row.provider) {
        Ok(p) => p,
        Err(e) => {
            return Err(e);
        },
    };
    let auth_type = match AuthType::from_db(row.auth_type) {
        Ok(a) => a,
        Err(e) => {
            return Err(e);
        },
    };
    Ok(
        MailAccount {
            id: row.id,
            provider,
            address: row.address,
            display_name: row.display_name,
            auth_type,
            imap_host: row.imap_host,
            imap_port: row.imap_port,
            is_enabled: row.is_enabled != 0,
        },
    )
}

/// The accounts that rows read as, in order; the first row that does not
/// read as an account decides the error.
pub fn accounts_from_rows(rows: Vec<AccountRow>) -> (r: Result<Vec<MailAccount>, String>)
    ensures
        r is Ok <==> forall|i: int| 0 <= i < rows@.len() ==> row_is_valid(#[trigger] rows@[i]),
        r matches Ok(accounts) ==> accounts@.len() == rows@.len() && forall|i: int|
            0 <= i < rows@.len() ==> account_matches_row(#[trigger] accounts@[i], rows@[i]),
        r matches Err(e) ==> exists|k: int|
            0 <= k < rows@.len() && !row_is_valid(#[trigger] rows@[k]) && e@ == row_error(rows@[k])
                && forall|i: int| 0 <= i < k ==> row_is_valid(#[trigger] rows@[i]),
{
    let ghost all = rows@;
    let mut accounts: Vec<MailAccount> = Vec::new();
    for row in it: rows.into_iter()
        invariant
            it.seq() == all,
            accounts@.len() == it.index(),
            forall|j: int| 0 <= j < it.index() ==> row_is_valid(#[trigger] all[j]),
            forall|j: int|
                0 <= j < it.index() ==> account_matches_row(#[trigger] accounts@[j], all[j]),
    {
        match account_from_row(row) {
            Ok(a) => {
                accounts.push(a);
            },
            Err(e) => {
                return Err(e);
            },
        }
    }
    Ok(accounts)
}

// ---------------------------------------------------------------------------
// Messages
// ---------------------------------------------------------------------------
/// The text after the last `c` in `s`; all of `s` when `c` does not occur.
pub open spec fn after_last(s: Seq<char>, c: char) -> Seq<char>
    decreases s.len(),
{
    if s.len() == 0 {
        s
    } else if s.last() == c {
        Seq::empty()
    } else {
        after_last(s.drop_last(), c).push(s.last())
    }
}

/// The UID part of a cached message id: the text after its last `:`.
pub open spec fn spec_message_uid(id: Seq<char>) -> Seq<char> {
    after_last(id, ':')
}

proof fn lemma_after_last_tail(a: Seq<char>, b: Seq<char>, c: char)
    requires
        forall|i: int| 0 <= i < b.len() ==> b[i] != c,
    ensures
        after_last(a.push(c) + b, c) == b,
    decreases b.len(),
{
    let s = a.push(c) + b;
    if b.len() == 0 {
        assert(s =~= a.push(c));
    } else {
        assert(s.drop_last() =~= a.push(c) + b.drop_last());
        lemma_after_last_tail(a, b.drop_last(), c);
        assert(b.drop_last().push(b.last()) =~= b);
    }
}

proof fn lemma_decimal_has_no_colon(n: nat)
    ensures
        forall|i: int| 0 <= i < decimal(n).len() ==> decimal(n)[i] != ':',
    decreases n,
{
    let d = n % 10;
    assert(digit_char(d) as u32 == d + 0x30);
    assert(':' as u32 == 0x3a);
    if n >= 10 {
        lemma_decimal_has_no_colon(n / 10);
        assert forall|i: int| 0 <= i < decimal(n).len() implies decimal(n)[i] != ':' by {
            if i < decimal(n).len() - 1 {
                assert(decimal(n)[i] == decimal(n / 10)[i]);
            }
        }
    }
}

/// The UID kept for a message that a sync cached is the number it was
/// fetched under, in decimal, whatever the mailbox address holds.
pub proof fn uid_of_cached_message(email: Seq<char>, remote_id: u32)
    ensures
        spec_message_uid(spec_message_id(email, remote_id)) == decimal(remote_id as nat),
{
    lemma_decimal_has_no_colon(remote_id as nat);
    let a = seq!['q', 'q', ':'] + email;
    assert(spec_message_id(email, remote_id) =~= a.push(':') + decimal(remote_id as nat));
    lemma_after_last_tail(a, decimal(remote_id as nat), ':');
}

/// The UID part of a cached message id: the text after its last `:`, or
/// the whole id when it has none.
pub fn message_uid(message_id: &str) -> (r: String)
    ensures
        r@ == spec_message_uid(message_id@),
{
    let cs = chars_of(message_id);
    let n = cs.len();
    let mut k: usize = n;
    assert(cs@.take(n as int) =~= cs@);
    assert(after_last(cs@, ':') =~= after_last(cs@, ':') + cs@.subrange(n as int, n as int));
    while k > 0 && cs[k - 1] != ':'
        invariant
            k <= n,
            n == cs@.len(),
            after_last(cs@, ':') == after_last(cs@.take(k as int), ':') + cs@.subrange(
                k as int,
                n as int,
            ),
        decreases k,
    {
        let ghost t = cs@.take(k as int);
        assert(t.drop_last() =~= cs@.take(k - 1));
        assert(cs@.subrange(k - 1, n as int) =~= seq![t.last()] + cs@.subrange(k as int, n as int));
        assert(after_last(t, ':') == after_last(t.drop_last(), ':').push(t.last()));
        assert(after_last(t.drop_last(), ':').push(t.last()) + cs@.subrange(k as int, n as int)
            =~= after_last(t.drop_last(), ':') + cs@.subrange(k - 1, n as int));
        k -= 1;
    }
    proof {
        let t = cs@.take(k as int);
        if k > 0 {
            assert(t.last() == ':');
        }
        assert(after_last(t, ':') =~= Seq::<char>::empty());
        assert(after_last(cs@, ':') =~= cs@.subrange(k as int, n as int));
    }
    string_of(sub_chars(cs.as_slice(), k, n).as_slice())
}

/// The UID of the last message of a batch, which the sync record keeps.
pub fn last_message_uid(messages: &[MailMessage]) -> (r: Option<String>)
    ensures
        messages@.len() == 0 ==> r is None,
        messages@.len() > 0 ==> (r matches Some(u) && u@ == spec_message_uid(
            messages@.last().id@,
        )),
{
    if messages.len() == 0 {
        None
    } else {
        Some(message_uid(messages[messages.len() - 1].id.as_str()))
    }
}

/// One row of the `messages` table, as read.
pub struct MessageRow {
    pub id: String,
    pub from_address: String,
    pub subject: String,
    pub received_at: String,
    pub preview: String,
    pub body: String,
    pub has_attachments: i64,
    pub is_unread: i64,
}

/// The message a row reads as: sender and subject are decoded again for
/// display, so that rows cached before decoding improved read well.
pub open spec fn spec_message_from_row(row: MessageRow) -> MailMessageView {
    MailMessageView {
        id: row.id@,
        from: spec_normalize_display_text(row.from_address@),
        subject: spec_normalize_display_text(row.subject@),
        received_at: row.received_at@,
        preview: row.preview@,
        body: row.body@,
        has_attachments: row.has_attachments != 0,
        is_unread: row.is_unread != 0,
    }
}

pub fn message_from_row(row: MessageRow) -> (r: MailMessage)
    ensures
        r@ == spec_message_from_row(row),
{
    let from = normalize_display_text(row.from_address.as_str());
    let subject = normalize_display_text(row.subject.as_str());
    MailMessage {
        id: row.id,
        from,
        subject,
        received_at: row.received_at,
        preview: row.preview,
        body: row.body,
        has_attachments: row.has_attachments != 0,
        is_unread: row.is_unread != 0,
    }
}

/// The values written for one message of a folder.
pub struct MessageUpsertRow {
    pub id: String,
    pub account_id: i64,
    pub folder: String,
    pub provider_message_id: String,
    pub uid: String,
    pub from_address: String,
    pub subject: String,
    pub received_at: String,
    pub received_at_epoch: i64,
    pub preview: String,
    pub body: String,
    pub has_attachments: i64,
    pub is_unread: i64,
}

/// The values written for `message`: its fields, its id again as the
/// provider's message id, the UID taken from the id, and the sort key of its
/// date.
pub open spec fn upsert_row_matches(
    r: MessageUpsertRow,
    account_id: i64,
    folder: Seq<char>,
    m: MailMessageView,
) -> bool {
    &&& r.id@ == m.id
    &&& r.account_id == account_id
    &&& r.folder@ == folder
    &&& r.provider_message_id@ == m.id
    &&& r.uid@ == spec_message_uid(m.id)
    &&& r.from_address@ == m.from
    &&& r.subject@ == m.subject
    &&& r.received_at@ == m.received_at
    &&& r.received_at_epoch as int == spec_received_at_sort_key(m.received_at)
    &&& r.preview@ == m.preview
    &&& r.body@ == m.body
    &&& r.has_attachments == (if m.has_attachments { 1i64 } else { 0i64 })
    &&& r.is_unread == (if m.is_unread { 1i64 } else { 0i64 })
}

pub fn message_upsert_row(account_id: i64, folder: &str, message: &MailMessage) -> (r:
    MessageUpsertRow)
    ensures
        upsert_row_matches(r, account_id, folder@, message@),
{
    MessageUpsertRow {
        id: message.id.clone(),
        account_id,
        folder: string_of(chars_of(folder).as_slice()),
        provider_message_id: message.id.clone(),
        uid: message_uid(message.id.as_str()),
        from_address: message.from.clone(),
        subject: message.subject.clone(),
        received_at: message.received_at.clone(),
        received_at_epoch: received_at_sort_key(message.received_at.as_str()),
        preview: message.preview.clone(),
        body: message.body.clone(),
        has_attachments: if message.has_attachments { 1 } else { 0 },
        is_unread: if message.is_unread { 1 } else { 0 },
    }
}

/// A message written to the cache and read back from the columns written
/// keeps its id, date, preview, body and flags; its sender and subject come
/// back normalised for display.
pub proof fn cached_message_reads_back(
    written: MessageUpsertRow,
    read: MessageRow,
    account_id: i64,
    folder: Seq<char>,
    m: MailMessageView,
)
    requires
        upsert_row_matches(written, account_id, folder, m),
        read.id@ == written.id@,
        read.from_address@ == written.from_address@,
        read.subject@ == written.subject@,
        read.received_at@ == written.received_at@,
        read.preview@ == written.preview@,
        read.body@ == written.body@,
        read.has_attachments == written.has_attachments,
        read.is_unread == written.is_unread,
    ensures
        spec_message_from_row(read) == (MailMessageView {
            from: spec_normalize_display_text(m.from),
            subject: spec_normalize_display_text(m.subject),
            ..m
        }),
{
}

/// The rows written for a batch of messages, one per message, in order.
pub fn message_upsert_rows(account_id: i64, folder: &str, messages: &[MailMessage]) -> (r: Vec<
    MessageUpsertRow,
>)
    ensures
        r@.len() == messages@.len(),
        forall|i: int|
            0 <= i < messages@.len() ==> upsert_row_matches(
                #[trigger] r@[i],
                account_id,
                folder@,
                messages@[i]@,
            ),
{
    let mut rows: Vec<MessageUpsertRow> = Vec::new();
    let mut i: usize = 0;
    while i < messages.len()
        invariant
            i <= messages@.len(),
            rows@.len() == i,
            forall|j: int|
                0 <= j < i ==> upsert_row_matches(
                    #[trigger] rows@[j],
                    account_id,
                    folder@,
                    messages@[j]@,
                ),
        decreases messages.len() - i,
    {
        rows.push(message_upsert_row(account_id, folder, &messages[i]));
        i += 1;
    }
    rows
}

// ---------------------------------------------------------------------------
// Sync state
// ---------------------------------------------------------------------------
/// The stored sync record of one account's folder.
pub struct SyncRecord {
    pub last_attempt_at: Option<String>,
    pub last_synced_at: Option<String>,
    pub last_success_at: Option<String>,
    pub last_uid: Option<String>,
    pub last_error: Option<String>,
    pub is_syncing: bool,
}

pub ghost struct SyncRecordView {
    pub last_attempt_at: Option<Seq<char>>,
    pub last_synced_at: Option<Seq<char>>,
    pub last_success_at: Option<Seq<char>>,
    pub last_uid: Option<Seq<char>>,
    pub last_error: Option<Seq<char>>,
    pub is_syncing: bool,
}

pub open spec fn opt_text(s: Option<String>) -> Option<Seq<char>> {
    match s {
        Some(t) => Some(t@),
        None => None,
    }
}

impl View for SyncRecord {
    type V = SyncRecordView;

    open spec fn view(&self) -> SyncRecordView {
        SyncRecordView {
            last_attempt_at: opt_text(self.last_attempt_at),
            last_synced_at: opt_text(self.last_synced_at),
            last_success_at: opt_text(self.last_success_at),
            last_uid: opt_text(self.last_uid),
            last_error: opt_text(self.last_error),
            is_syncing: self.is_syncing,
        }
    }
}

/// The record after a sync starts at `t`.
pub open spec fn after_started(v: SyncRecordView, t: Seq<char>) -> SyncRecordView {
    SyncRecordView { last_attempt_at: Some(t), last_error: None, is_syncing: true, ..v }
}

/// The record after a sync ends well at `t` with `uid` as its last UID.
pub open spec fn after_finished(
    v: SyncRecordView,
    t: Seq<char>,
    uid: Option<Seq<char>>,
) -> SyncRecordView {
    SyncRecordView {
        last_synced_at: Some(t),
        last_success_at: Some(t),
        last_uid: uid,
        last_error: None,
        is_syncing: false,
        ..v
    }
}

/// The record after a sync fails at `t` with `message`.
pub open spec fn after_failed(v: SyncRecordView, t: Seq<char>, message: Seq<char>) -> SyncRecordView {
    SyncRecordView { last_attempt_at: Some(t), last_error: Some(message), is_syncing: false, ..v }
}

/// A sync that starts is shown as running with no error; one that then
/// finishes is idle with its success recorded; one that then fails is idle
/// with its error, and still shows the earlier success.
pub proof fn sync_lifecycle(
    v: SyncRecordView,
    started_at: Seq<char>,
    finished_at: Seq<char>,
    uid: Option<Seq<char>>,
    failed_at: Seq<char>,
    message: Seq<char>,
)
    ensures
        after_started(v, started_at).is_syncing,
        after_started(v, started_at).last_error is None,
        !after_finished(after_started(v, started_at), finished_at, uid).is_syncing,
        after_finished(after_started(v, started_at), finished_at, uid).last_success_at == Some(
            finished_at,
        ),
        after_finished(after_started(v, started_at), finished_at, uid).last_error is None,
        !after_failed(
            after_finished(after_started(v, started_at), finished_at, uid),
            failed_at,
            message,
        ).is_syncing,
        after_failed(
            after_finished(after_started(v, started_at), finished_at, uid),
            failed_at,
            message,
        ).last_error == Some(message),
        after_failed(
            after_finished(after_started(v, started_at), finished_at, uid),
            failed_at,
            message,
        ).last_success_at == Some(finished_at),
{
}

impl SyncRecord {
    /// The record of a folder that has never been synced.
    pub fn empty() -> (r: SyncRecord)
        ensures
            r@ == (SyncRecordView {
                last_attempt_at: None,
                last_synced_at: None,
                last_success_at: None,
                last_uid: None,
                last_error: None,
                is_syncing: false,
            }),
    {
        SyncRecord {
            last_attempt_at: None,
            last_synced_at: None,
            last_success_at: None,
            last_uid: None,
            last_error: None,
            is_syncing: false,
        }
    }

    /// A sync starts at `timestamp`: the attempt is recorded, an earlier
    /// error is cleared, and the folder is marked as syncing.
    pub fn mark_started(&mut self, timestamp: String)
        ensures
            final(self)@ == after_started(old(self)@, timestamp@),
    {
        self.last_attempt_at = Some(timestamp);
        self.last_error = None;
        self.is_syncing = true;
    }

    /// A sync ends well at `timestamp` with `last_uid` as the last message
    /// it stored: the success is recorded and the error cleared.
    pub fn mark_finished(&mut self, timestamp: String, last_uid: Option<String>)
        ensures
            final(self)@ == after_finished(old(self)@, timestamp@, opt_text(last_uid)),
    {
        self.last_synced_at = Some(timestamp.clone());
        self.last_success_at = Some(timestamp);
        self.last_uid = last_uid;
        self.last_error = None;
        self.is_syncing = false;
    }

    /// A sync fails at `timestamp` with `message`: the attempt and the error
    /// are recorded; the last success stays.
    pub fn mark_failed(&mut self, timestamp: String, message: String)
        ensures
            final(self)@ == after_failed(old(self)@, timestamp@, message@),
    {
        self.last_attempt_at = Some(timestamp);
        self.last_error = Some(message);
        self.is_syncing = false;
    }
}

/// The sync state shown for a folder: its stored record, or an idle state
/// with nothing recorded when there is none.
pub fn sync_state_of(account_id: i64, folder: &str, record: Option<SyncRecord>) -> (r: SyncState)
    ensures
        r.account_id == account_id,
        r.folder@ == folder@,
        match record {
            Some(rec) => {
                &&& opt_text(r.last_attempt_at) == rec@.last_attempt_at
                &&& opt_text(r.last_success_at) == rec@.last_success_at
                &&& opt_text(r.last_error) == rec@.last_error
                &&& r.is_syncing == rec@.is_syncing
            },
            None => {
                &&& r.last_attempt_at is None
                &&& r.last_success_at is None
                &&& r.last_error is None
                &&& !r.is_syncing
            },
        },
{
    let folder = string_of(chars_of(folder).as_slice());
    match record {
        Some(rec) => SyncState {
            account_id,
            folder,
            last_attempt_at: rec.last_attempt_at,
            last_success_at: rec.last_success_at,
            last_error: rec.last_error,
            is_syncing: rec.is_syncing,
        },
        None => SyncState {
            account_id,
            folder,
            last_attempt_at: None,
            last_success_at: None,
            last_error: None,
            is_syncing: false,
        },
    }
}

} // verus!
