use maildock::models::ProviderKind;
use maildock::security::{
    credential_account_name, local_credential_text, parse_local_credential, provider_key,
    safe_key_name, CredentialKey, LocalCredential, LEGACY_LOCAL_CREDENTIAL_HEADER,
    LOCAL_CREDENTIAL_HEADER, SERVICE_NAME,
};

#[test]
fn builds_stable_address_credential_account_name() {
    let key = CredentialKey::for_mailbox(ProviderKind::Qq, "Student@qq.com");

    assert_eq!(credential_account_name(&key), "qq:student@qq.com");
}

#[test]
fn builds_legacy_credential_account_name() {
    let key = CredentialKey::legacy_account_id(ProviderKind::Qq, 42);

    assert_eq!(credential_account_name(&key), "qq:42");
}

#[test]
fn builds_filesystem_safe_key_name() {
    let key = CredentialKey::for_mailbox(ProviderKind::Qq, "Student@qq.com");

    assert_eq!(safe_key_name(&key), "qq_student_qq_com");
}

#[test]
fn names_keys_without_address() {
    let key = CredentialKey { provider: ProviderKind::Gmail, account_id: Some(-7), address: Some(String::new()) };
    assert_eq!(credential_account_name(&key), "gmail:-7");
    let key = CredentialKey { provider: ProviderKind::Fudan, account_id: None, address: None };
    assert_eq!(credential_account_name(&key), "fudan:unknown");
    assert_eq!(provider_key(ProviderKind::Qq), "qq");
    assert_eq!(SERVICE_NAME, "MailDock");
    let key = CredentialKey::for_mailbox(ProviderKind::Qq, "  a-b_c@qq.com ");
    assert_eq!(safe_key_name(&key), "qq_a-b_c_qq_com");
}

#[test]
fn reads_legacy_plaintext_credential_text() {
    let content = format!("{LEGACY_LOCAL_CREDENTIAL_HEADER}\nlegacy-secret");
    match parse_local_credential(&content) {
        LocalCredential::Legacy(secret) => assert_eq!(secret, "legacy-secret"),
        _ => panic!("expected a legacy credential"),
    }
    let content = format!("{LEGACY_LOCAL_CREDENTIAL_HEADER}\r\nline one\r\nline two\n");
    match parse_local_credential(&content) {
        LocalCredential::Legacy(secret) => assert_eq!(secret, "line one\nline two"),
        _ => panic!("expected a legacy credential"),
    }
}

#[test]
fn writes_and_reads_protected_credential_text() {
    let text = local_credential_text(&[1, 2, 3, 250]);
    assert_eq!(text, format!("{LOCAL_CREDENTIAL_HEADER}\nAQID+g=="));
    match parse_local_credential(&text) {
        LocalCredential::Protected(bytes) => assert_eq!(bytes, vec![1, 2, 3, 250]),
        _ => panic!("expected a protected credential"),
    }
    let wrapped = format!("{LOCAL_CREDENTIAL_HEADER}\nAQ\r\nID+g==\n");
    match parse_local_credential(&wrapped) {
        LocalCredential::Protected(bytes) => assert_eq!(bytes, vec![1, 2, 3, 250]),
        _ => panic!("expected a protected credential"),
    }
}

#[test]
fn rejects_other_credential_texts() {
    assert!(matches!(parse_local_credential(""), LocalCredential::Foreign));
    assert!(matches!(parse_local_credential("something else\nsecret"), LocalCredential::Foreign));
    let bad = format!("{LOCAL_CREDENTIAL_HEADER}\nnot base64!");
    assert!(matches!(parse_local_credential(&bad), LocalCredential::Undecodable));
}

#[test]
fn addresses_differing_in_case_and_blanks_share_a_name() {
    let a = CredentialKey::for_mailbox(ProviderKind::Qq, "Student@qq.com");
    let b = CredentialKey::for_mailbox(ProviderKind::Qq, " student@QQ.COM\t");
    let c = CredentialKey::for_mailbox(ProviderKind::Qq, "teacher@qq.com");
    assert_eq!(credential_account_name(&a), credential_account_name(&b));
    assert_ne!(credential_account_name(&a), credential_account_name(&c));
}
