use maildock::models::{AuthType, ProviderKind};

#[test]
fn reads_stored_provider_codes() {
    assert_eq!(ProviderKind::from_db("qq".into()), Ok(ProviderKind::Qq));
    assert_eq!(ProviderKind::from_db("fudan".into()), Ok(ProviderKind::Fudan));
    assert_eq!(ProviderKind::from_db("gmail".into()), Ok(ProviderKind::Gmail));
    assert_eq!(ProviderKind::from_db("QQ".into()), Err("Unknown provider kind: QQ".to_string()));
}

#[test]
fn reads_stored_auth_type_codes() {
    assert_eq!(AuthType::from_db("authorization_code".into()), Ok(AuthType::AuthorizationCode));
    assert_eq!(AuthType::from_db("oauth".into()), Ok(AuthType::Oauth));
    assert_eq!(AuthType::from_db("".into()), Err("Unknown auth type: ".to_string()));
}
