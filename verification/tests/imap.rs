use maildock::imap::{
    effective_sync_limit, fetch_range, inbox_report, looks_like_multipart_preamble,
    mail_message_from_fetch, mail_message_from_raw, message_id, messages_from_fetches,
    plan_qq_sync, preview_from_body, sequence_set, strip_html_tags, validate_credentials,
    FetchedMessage, QqInboxSyncInput, FETCH_ITEMS,
};

fn parse(raw: &str, id: u32) -> maildock::models::MailMessage {
    mail_message_from_raw("student@qq.com", id, raw.as_bytes(), "2026-05-29T09:30:00+08:00".into(), true)
        .expect("parse message")
}

#[test]
fn decodes_mime_headers_and_quoted_printable_body() {
    let raw_message = [
        "From: =?UTF-8?B?6YKu5Lu25pyN5Yqh?= <service@qq.com>\r\n",
        "Subject: =?UTF-8?B?5rWL6K+V6YKu5Lu2?=\r\n",
        "Date: Fri, 29 May 2026 09:30:00 +0800\r\n",
        "Content-Type: text/plain; charset=utf-8\r\n",
        "Content-Transfer-Encoding: quoted-printable\r\n",
        "\r\n",
        "=E8=BF=99=E6=98=AF=E4=B8=80=E5=B0=81QQ=E9=82=AE=E4=BB=B6"
    ].concat();

    let message = mail_message_from_raw(
        "student@qq.com",
        42,
        raw_message.as_bytes(),
        "2026-05-29T09:30:00+08:00".into(),
        true,
    )
    .expect("parse message");

    assert_eq!(message.subject, "测试邮件");
    assert_eq!(message.from, "邮件服务 <service@qq.com>");
    assert_eq!(message.body, "这是一封QQ邮件");
    assert!(!message.body.contains("=E8"));
}

#[test]
fn decodes_folded_lowercase_rfc2047_subject() {
    let raw_message = [
        "From: <service@qq.com>\r\n",
        "Subject: =?utf-8?B?5rWL6K+V?=\r\n",
        " =?utf-8?B?6YKu5Lu2?=\r\n",
        "Date: Fri, 29 May 2026 09:30:00 +0800\r\n",
        "Content-Type: text/plain; charset=utf-8\r\n",
        "\r\n",
        "hello"
    ].concat();

    let message = mail_message_from_raw(
        "student@qq.com",
        43,
        raw_message.as_bytes(),
        "2026-05-29T09:30:00+08:00".into(),
        true,
    )
    .expect("parse message");

    assert_eq!(message.subject, "测试邮件");
}

#[test]
fn decodes_wrapped_base64_payload_subject() {
    let raw_message = [
        "From: <service@qq.com>\r\n",
        "Subject: =?utf-8?B?5rWL\r\n",
        " 6K+V6YKu5Lu2?=\r\n",
        "Date: Fri, 29 May 2026 09:30:00 +0800\r\n",
        "Content-Type: text/plain; charset=utf-8\r\n",
        "\r\n",
        "hello"
    ].concat();

    let message = mail_message_from_raw(
        "student@qq.com",
        44,
        raw_message.as_bytes(),
        "2026-05-29T09:30:00+08:00".into(),
        true,
    )
    .expect("parse message");

    assert_eq!(message.subject, "测试邮件");
    assert!(!message.subject.contains("=?"));
}

#[test]
fn decodes_mixed_plain_text_and_q_encoded_subject() {
    let raw_message = [
        "From: <service@qq.com>\r\n",
        "Subject: www.donkX.net邮箱验=?utf-8?Q?=E8=AF=81=E7=A0=81?=\r\n",
        "Date: Fri, 29 May 2026 09:30:00 +0800\r\n",
        "Content-Type: text/plain; charset=utf-8\r\n",
        "\r\n",
        "hello"
    ].concat();

    let message = mail_message_from_raw(
        "student@qq.com",
        45,
        raw_message.as_bytes(),
        "2026-05-29T09:30:00+08:00".into(),
        true,
    )
    .expect("parse message");

    assert_eq!(message.subject, "www.donkX.net邮箱验证码");
    assert!(!message.subject.contains("=?"));
}

#[test]
fn preserves_body_paragraph_breaks() {
    let raw_message = [
        "From: <service@qq.com>\r\n",
        "Subject: Paragraphs\r\n",
        "Date: Fri, 29 May 2026 09:30:00 +0800\r\n",
        "Content-Type: text/plain; charset=utf-8\r\n",
        "\r\n",
        "First paragraph\r\n",
        "\r\n",
        "> Quoted reply\r\n",
        "\r\n",
        "Second paragraph"
    ].concat();

    let message = mail_message_from_raw(
        "student@qq.com",
        46,
        raw_message.as_bytes(),
        "2026-05-29T09:30:00+08:00".into(),
        true,
    )
    .expect("parse message");

    assert_eq!(
        message.body,
        "First paragraph\n\n> Quoted reply\n\nSecond paragraph"
    );
}

#[test]
fn skips_multipart_preamble_body() {
    let raw_message = [
        "From: <service@qq.com>\r\n",
        "Subject: Multipart\r\n",
        "Content-Type: text/plain; charset=utf-8\r\n",
        "\r\n",
        "This is a multi-part message in MIME format.\r\n",
        "------=_NextPart_001"
    ].concat();

    let message = mail_message_from_raw(
        "student@qq.com",
        47,
        raw_message.as_bytes(),
        "2026-05-29T09:30:00+08:00".into(),
        true,
    )
    .expect("parse message");

    assert!(!message.body.contains("multi-part message"));
}

#[test]
fn fills_in_missing_subject_sender_and_date() {
    let raw = ["Content-Type: text/plain\r\n", "\r\n", "  body   text  "].concat();
    let message = parse(&raw, 7);
    assert_eq!(message.subject, "(No subject)");
    assert_eq!(message.from, "(Unknown sender)");
    assert_eq!(message.received_at, "2026-05-29T09:30:00+08:00");
    assert_eq!(message.body, "body   text");
    assert_eq!(message.preview, "body text");
    assert_eq!(message.id, "qq:student@qq.com:7");
    assert!(message.is_unread);
    assert!(!message.has_attachments);
}

#[test]
fn reads_html_body_and_attachments_of_multipart_message() {
    let raw = [
        "From: Teacher <teacher@example.com>\r\n",
        "Subject: Notes\r\n",
        "Date: Fri, 29 May 2026 09:30:00 +0800\r\n",
        "MIME-Version: 1.0\r\n",
        "Content-Type: multipart/mixed; boundary=\"XX\"\r\n",
        "\r\n",
        "--XX\r\n",
        "Content-Type: text/html; charset=utf-8\r\n",
        "\r\n",
        "<p>Hello&nbsp;<b>class</b> &amp; friends</p>\r\n",
        "--XX\r\n",
        "Content-Type: application/pdf\r\n",
        "Content-Disposition: ATTACHMENT; filename=\"notes.pdf\"\r\n",
        "\r\n",
        "%PDF\r\n",
        "--XX--\r\n"
    ].concat();
    let message = parse(&raw, 8);
    assert_eq!(message.from, "Teacher <teacher@example.com>");
    assert_eq!(message.subject, "Notes");
    assert_eq!(message.received_at, "Fri, 29 May 2026 09:30:00 +0800");
    assert_eq!(message.body, "Hello  class  & friends");
    assert!(message.has_attachments);
}

#[test]
fn message_without_text_part_gets_placeholder_body() {
    let raw = [
        "From: a@b.c\r\n",
        "Content-Type: image/png\r\n",
        "\r\n",
        "xyz"
    ].concat();
    let message = parse(&raw, 9);
    assert_eq!(message.from, "a@b.c");
    assert_eq!(message.body, "MailDock could not load a plain text body for this message yet.");
}

#[test]
fn validates_credentials_in_order() {
    assert_eq!(validate_credentials("", ""), Err("Email address is required.".to_string()));
    assert_eq!(
        validate_credentials("a@qq.com", ""),
        Err("QQ Mail authorization code is required.".to_string())
    );
    assert_eq!(
        validate_credentials("student", "code"),
        Err("Email address should include @.".to_string())
    );
    assert_eq!(validate_credentials("a@qq.com", "code"), Ok(()));
}

#[test]
fn clamps_sync_limit() {
    assert_eq!(effective_sync_limit(None), 50);
    assert_eq!(effective_sync_limit(Some(0)), 1);
    assert_eq!(effective_sync_limit(Some(30)), 30);
    assert_eq!(effective_sync_limit(Some(500)), 100);
}

#[test]
fn fetches_the_newest_messages() {
    assert_eq!(fetch_range(0, 50), None);
    assert_eq!(fetch_range(10, 50), Some((1, 10)));
    assert_eq!(fetch_range(120, 50), Some((71, 120)));
    assert_eq!(fetch_range(u32::MAX, 0), Some((u32::MAX, u32::MAX)));
    assert_eq!(sequence_set(71, 120), "71:120");
    assert!(FETCH_ITEMS.contains("BODY.PEEK[]"));
}

#[test]
fn plans_a_sync_from_the_request() {
    let plan = plan_qq_sync(&QqInboxSyncInput {
        email: "  Student@QQ.com ".into(),
        authorization_code: " secret ".into(),
        limit: Some(500),
    })
    .expect("plan");
    assert_eq!(plan.email, "student@qq.com");
    assert_eq!(plan.authorization_code, "secret");
    assert_eq!(plan.limit, 100);

    let refused = plan_qq_sync(&QqInboxSyncInput {
        email: "student@qq.com".into(),
        authorization_code: "   ".into(),
        limit: None,
    });
    assert_eq!(refused.err(), Some("QQ Mail authorization code is required.".to_string()));
}

#[test]
fn reports_the_examined_inbox() {
    let report = inbox_report(12, 1, Some(3));
    assert_eq!(report.provider, "qq");
    assert_eq!(report.host, "imap.qq.com");
    assert_eq!(report.port, 993);
    assert_eq!(report.folder, "INBOX");
    assert_eq!((report.exists, report.recent, report.unseen), (12, 1, Some(3)));
}

#[test]
fn strips_html_and_finds_preambles() {
    assert_eq!(strip_html_tags("<p>a &lt;b&gt;</p>"), " a <b> ");
    assert_eq!(strip_html_tags("x &amp;lt; y"), "x < y");
    assert!(looks_like_multipart_preamble("THIS IS A MULTIPART MESSAGE IN MIME FORMAT"));
    assert!(!looks_like_multipart_preamble("hello"));
}

#[test]
fn previews_are_cut_to_160_characters() {
    assert_eq!(preview_from_body(" a \n b\t c "), "a b c");
    let long = "邮".repeat(200);
    let preview = preview_from_body(&long);
    assert_eq!(preview.chars().count(), 160);
    assert_eq!(message_id("student@qq.com", 42), "qq:student@qq.com:42");
}

#[test]
fn converts_fetches_to_messages() {
    let raw_text = ["Subject: Hi\r\n", "Content-Type: text/plain\r\n", "\r\n", "hello"].concat();
    let raw = raw_text.as_bytes();
    let seen = FetchedMessage {
        uid: None,
        sequence_number: 5,
        internal_date: Some("2026-05-29T08:00:00+08:00".into()),
        seen: true,
        body: Some(raw.to_vec()),
    };
    let message = mail_message_from_fetch("student@qq.com", seen).expect("message");
    assert_eq!(message.id, "qq:student@qq.com:5");
    assert_eq!(message.received_at, "2026-05-29T08:00:00+08:00");
    assert!(!message.is_unread);

    let without_date = FetchedMessage {
        uid: Some(77),
        sequence_number: 5,
        internal_date: None,
        seen: false,
        body: Some(raw.to_vec()),
    };
    let message = mail_message_from_fetch("student@qq.com", without_date).expect("message");
    assert_eq!(message.id, "qq:student@qq.com:77");
    assert_eq!(message.received_at, "1970-01-01T00:00:00Z");
    assert!(message.is_unread);

    let batch = vec![
        FetchedMessage { uid: Some(1), sequence_number: 1, internal_date: None, seen: false, body: None },
        FetchedMessage { uid: Some(2), sequence_number: 2, internal_date: None, seen: false, body: Some(raw.to_vec()) },
    ];
    let messages = messages_from_fetches("student@qq.com", batch);
    assert_eq!(messages.len(), 1);
    assert_eq!(messages[0].id, "qq:student@qq.com:2");
}
