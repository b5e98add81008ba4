use maildock::db::{
    account_from_row, accounts_from_rows, last_message_uid, message_from_row, message_uid,
    message_upsert_row, message_upsert_rows, sync_state_of, AccountRow, MessageRow, SyncRecord,
    SEED_ACCOUNT_ADDRESS,
};
use maildock::models::{AuthType, MailMessage, ProviderKind};
use maildock::time_utils::received_at_sort_key;

fn row(provider: &str, auth_type: &str) -> AccountRow {
    AccountRow {
        id: 3,
        provider: provider.into(),
        address: "student@qq.com".into(),
        display_name: "QQ Mail".into(),
        auth_type: auth_type.into(),
        imap_host: "imap.qq.com".into(),
        imap_port: 993,
        is_enabled: 1,
    }
}

fn message(id: &str, received_at: &str) -> MailMessage {
    MailMessage {
        id: id.into(),
        from: "Teacher <teacher@example.com>".into(),
        subject: "Real inbox sample".into(),
        received_at: received_at.into(),
        preview: "Fetched from IMAP in read-only mode.".into(),
        body: "Fetched from IMAP in read-only mode.".into(),
        has_attachments: false,
        is_unread: true,
    }
}

#[test]
fn reads_account_rows() {
    let account = account_from_row(row("qq", "authorization_code")).expect("account");
    assert_eq!(account.id, 3);
    assert_eq!(account.provider, ProviderKind::Qq);
    assert_eq!(account.auth_type, AuthType::AuthorizationCode);
    assert_eq!(account.address, "student@qq.com");
    assert_eq!(account.imap_host, "imap.qq.com");
    assert_eq!(account.imap_port, 993);
    assert!(account.is_enabled);
}

#[test]
fn reports_the_first_unknown_code_of_a_row() {
    assert_eq!(
        account_from_row(row("yahoo", "password")).err(),
        Some("Unknown provider kind: yahoo".to_string())
    );
    assert_eq!(
        account_from_row(row("gmail", "password")).err(),
        Some("Unknown auth type: password".to_string())
    );
}

#[test]
fn reads_all_rows_or_the_first_error() {
    let accounts = accounts_from_rows(vec![row("qq", "oauth"), row("fudan", "authorization_code")])
        .expect("accounts");
    assert_eq!(accounts.len(), 2);
    assert_eq!(accounts[0].auth_type, AuthType::Oauth);
    assert_eq!(accounts[1].provider, ProviderKind::Fudan);
    let error = accounts_from_rows(vec![row("qq", "oauth"), row("x", "y"), row("qq", "z")]).err();
    assert_eq!(error, Some("Unknown provider kind: x".to_string()));
    assert_eq!(accounts_from_rows(Vec::new()).map(|a| a.len()), Ok(0));
}

#[test]
fn takes_the_uid_after_the_last_colon() {
    assert_eq!(message_uid("qq:student@qq.com:42"), "42");
    assert_eq!(message_uid("no-colon"), "no-colon");
    assert_eq!(message_uid("trailing:"), "");
    assert_eq!(last_message_uid(&[]), None);
    let batch = [message("qq:a@b:1", ""), message("qq:a@b:9", "")];
    assert_eq!(last_message_uid(&batch), Some("9".to_string()));
    assert_eq!(SEED_ACCOUNT_ADDRESS, "learning@qq.com");
}

#[test]
fn decodes_cached_mixed_q_encoded_subject_on_read() {
    let cached = MessageRow {
        id: "qq:student@qq.com:20".into(),
        from_address: "=?utf-8?Q?=E9=82=AE=E4=BB=B6=E6=9C=8D=E5=8A=A1?= <service@qq.com>".into(),
        subject: "www.donkX.net邮箱验=?utf-8?Q?=E8=AF=81=E7=A0=81?=".into(),
        received_at: "2026-05-29T08:00:00+08:00".into(),
        preview: "Cached encoded subject sample.".into(),
        body: "Cached encoded subject sample.".into(),
        has_attachments: 0,
        is_unread: 1,
    };

    let messages = vec![message_from_row(cached)];

    assert_eq!(messages[0].subject, "www.donkX.net邮箱验证码");
    assert_eq!(messages[0].from, "邮件服务 <service@qq.com>");
    assert!(!messages[0].subject.contains("=?"));
    assert!(messages[0].is_unread);
    assert!(!messages[0].has_attachments);
}

#[test]
fn builds_upsert_rows() {
    let m = message("qq:student@qq.com:10", "Fri, 29 May 2026 09:30:00 +0800");
    let r = message_upsert_row(4, "INBOX", &m);
    assert_eq!(r.id, "qq:student@qq.com:10");
    assert_eq!(r.provider_message_id, "qq:student@qq.com:10");
    assert_eq!(r.uid, "10");
    assert_eq!(r.account_id, 4);
    assert_eq!(r.folder, "INBOX");
    assert_eq!(r.received_at_epoch, 1780018200);
    assert_eq!(r.received_at_epoch, received_at_sort_key(&m.received_at));
    assert_eq!((r.has_attachments, r.is_unread), (0, 1));
    let rows = message_upsert_rows(4, "INBOX", &[m.clone(), message("qq:x:11", "nonsense")]);
    assert_eq!(rows.len(), 2);
    assert_eq!(rows[1].uid, "11");
    assert_eq!(rows[1].received_at_epoch, 0);
}

#[test]
fn tracks_sync_state_lifecycle() {
    let account_id = 1;
    let mut record = SyncRecord::empty();

    record.mark_started("2026-05-29 08:00:00".into());
    let started = sync_state_of(account_id, "INBOX", Some(record));
    assert!(started.is_syncing);
    assert!(started.last_error.is_none());

    let mut record = SyncRecord {
        last_attempt_at: started.last_attempt_at.clone(),
        last_synced_at: None,
        last_success_at: started.last_success_at.clone(),
        last_uid: None,
        last_error: started.last_error.clone(),
        is_syncing: started.is_syncing,
    };
    record.mark_finished("2026-05-29 08:00:05".into(), Some("10".into()));
    assert_eq!(record.last_uid, Some("10".to_string()));
    let finished = sync_state_of(account_id, "INBOX", Some(record));
    assert!(!finished.is_syncing);
    assert!(finished.last_success_at.is_some());

    let mut record = SyncRecord {
        last_attempt_at: finished.last_attempt_at.clone(),
        last_synced_at: None,
        last_success_at: finished.last_success_at.clone(),
        last_uid: None,
        last_error: None,
        is_syncing: finished.is_syncing,
    };
    record.mark_failed("2026-05-29 08:10:00".into(), "offline".into());
    let failed = sync_state_of(account_id, "INBOX", Some(record));
    assert!(!failed.is_syncing);
    assert_eq!(failed.last_error, Some("offline".into()));
    assert_eq!(failed.last_success_at, Some("2026-05-29 08:00:05".into()));
    assert_eq!(failed.last_attempt_at, Some("2026-05-29 08:10:00".into()));
}

#[test]
fn unknown_folder_has_an_idle_state() {
    let state = sync_state_of(2, "Archive", None);
    assert_eq!(state.account_id, 2);
    assert_eq!(state.folder, "Archive");
    assert!(state.last_attempt_at.is_none() && state.last_success_at.is_none());
    assert!(state.last_error.is_none() && !state.is_syncing);
}

#[test]
fn cached_messages_read_back_with_their_uid() {
    let id = maildock::imap::message_id("a:b@qq.com", 4096);
    assert_eq!(message_uid(&id), "4096");
    let m = MailMessage {
        id: id.clone(),
        from: "  Teacher <t@example.com>  ".into(),
        subject: "=?utf-8?Q?Hi?=".into(),
        received_at: "2026-05-29T08:00:00+08:00".into(),
        preview: "p".into(),
        body: "b".into(),
        has_attachments: true,
        is_unread: false,
    };
    let written = message_upsert_row(1, "INBOX", &m);
    let read = message_from_row(MessageRow {
        id: written.id,
        from_address: written.from_address,
        subject: written.subject,
        received_at: written.received_at,
        preview: written.preview,
        body: written.body,
        has_attachments: written.has_attachments,
        is_unread: written.is_unread,
    });
    assert_eq!(read.id, id);
    assert_eq!(read.from, "Teacher <t@example.com>");
    assert_eq!(read.subject, "Hi");
    assert_eq!(read.received_at, m.received_at);
    assert!(read.has_attachments && !read.is_unread);
}
