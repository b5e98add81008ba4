use maildock::imap::{inbox_report, QqInboxSyncPayload};
use maildock::models::{MailMessage, ProviderKind};
use maildock::providers::QqImapProvider;

#[test]
fn qq_provider_reports_its_inbox() {
    let provider = QqImapProvider;
    assert_eq!(provider.kind(), ProviderKind::Qq);
    let message = MailMessage {
        id: "qq:a@qq.com:1".into(),
        from: "x".into(),
        subject: "y".into(),
        received_at: "z".into(),
        preview: "p".into(),
        body: "b".into(),
        has_attachments: false,
        is_unread: true,
    };
    let payload = provider.payload(QqInboxSyncPayload {
        report: inbox_report(42, 0, None),
        messages: vec![message],
    });
    assert_eq!(payload.folder, "INBOX");
    assert_eq!(payload.total_messages, 42);
    assert_eq!(payload.messages.len(), 1);
    assert_eq!(payload.messages[0].id, "qq:a@qq.com:1");
}
