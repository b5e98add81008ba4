use maildock::mail_text::{
    clean_text, decode_base64_payload, decode_charset, decode_rfc2047_q_payload,
    decode_rfc2047_word, decode_rfc2047_words, normalize_body_text, normalize_display_text,
    repair_utf8_decoded_as_gbk,
};

fn chars(s: &str) -> Vec<char> {
    s.chars().collect()
}

fn text(cs: &[char]) -> String {
    cs.iter().collect()
}

#[test]
fn decodes_mixed_plain_text_and_q_encoded_header() {
    let value = "www.donkX.net邮箱验=?utf-8?Q?=E8=AF=81=E7=A0=81?=";

    assert_eq!(normalize_display_text(value), "www.donkX.net邮箱验证码");
}

#[test]
fn decodes_q_encoded_header_with_folded_whitespace() {
    let value = "www.donkX.net邮箱验=?utf-8?Q?=E8=AF=81\r\n =E7=A0=81?=";

    assert_eq!(normalize_display_text(value), "www.donkX.net邮箱验证码");
}

#[test]
fn display_text_drops_blank_lines_and_trims() {
    assert_eq!(normalize_display_text("  Hello  \r\n\r\n  World "), "Hello\nWorld");
}

#[test]
fn adjacent_encoded_words_join_without_the_space_between() {
    let value = "=?utf-8?B?5rWL6K+V?= =?utf-8?B?6YKu5Lu2?=";
    let decoded = decode_rfc2047_words(&chars(value)).expect("decoded");
    assert_eq!(text(&decoded), "测试邮件");
}

#[test]
fn text_without_encoded_words_is_not_decoded() {
    assert!(decode_rfc2047_words(&chars("plain subject")).is_none());
    assert!(decode_rfc2047_words(&chars("broken =?utf-8?Q?abc")).is_none());
}

#[test]
fn unknown_encoding_keeps_the_word_as_written() {
    let value = "=?utf-8?X?abc?= and =?utf-8?Q?ok?=";
    let decoded = decode_rfc2047_words(&chars(value)).expect("decoded");
    assert_eq!(text(&decoded), "=?utf-8?X?abc?= and ok");
}

#[test]
fn decodes_single_words() {
    assert_eq!(text(&decode_rfc2047_word(&chars("UTF-8?q?a_b")).expect("q word")), "a b");
    assert_eq!(text(&decode_rfc2047_word(&chars("utf8?B?aGk=")).expect("b word")), "hi");
    assert!(decode_rfc2047_word(&chars("utf-8?Z?aGk=")).is_none());
    assert!(decode_rfc2047_word(&chars("utf-8")).is_none());
}

#[test]
fn decodes_q_payloads() {
    assert_eq!(decode_rfc2047_q_payload(&chars("a_b=41")), Some(b"a bA".to_vec()));
    assert_eq!(decode_rfc2047_q_payload(&chars("x =3d\ty")), Some(b"x=y".to_vec()));
    assert_eq!(decode_rfc2047_q_payload(&chars("=+5z")), Some(vec![5u8, b'z']));
    assert_eq!(decode_rfc2047_q_payload(&chars("=ZZa")), None);
    assert_eq!(decode_rfc2047_q_payload(&chars("ab=4")), Some(b"ab=4".to_vec()));
}

#[test]
fn decodes_base64_payloads_with_and_without_padding() {
    assert_eq!(decode_base64_payload(&chars("aGk=")), Some(b"hi".to_vec()));
    assert_eq!(decode_base64_payload(&chars("aGk")), Some(b"hi".to_vec()));
    assert_eq!(decode_base64_payload(&chars(" aG\r\n k= ")), Some(b"hi".to_vec()));
    assert_eq!(decode_base64_payload(&chars("  ")), Some(Vec::new()));
    assert_eq!(decode_base64_payload(&chars("a!b")), None);
}

#[test]
fn decodes_named_charsets() {
    let (gbk, _, _) = encoding_rs::GBK.encode("邮件");
    assert_eq!(text(&decode_charset(&chars("GBK"), &gbk).expect("gbk")), "邮件");
    assert_eq!(text(&decode_charset(&chars("UTF-8"), "é".as_bytes()).expect("utf-8")), "é");
    assert!(decode_charset(&chars("utf8"), &[0xff]).is_none());
    assert!(decode_charset(&chars("no-such-charset"), b"abc").is_none());
}

#[test]
fn repairs_utf8_text_read_as_gbk() {
    let (garbled, _, had_errors) = encoding_rs::GBK.decode("测试".as_bytes());
    assert!(!had_errors);
    assert_eq!(text(&repair_utf8_decoded_as_gbk(&chars(&garbled))), "测试");
    assert_eq!(text(&repair_utf8_decoded_as_gbk(&chars("plain"))), "plain");
    assert_eq!(text(&repair_utf8_decoded_as_gbk(&chars("😀 smile"))), "😀 smile");
}

#[test]
fn cleans_text_line_by_line() {
    assert_eq!(clean_text("  a \r\n\r\n b "), "a\nb");
    assert_eq!(clean_text(""), "");
}

#[test]
fn normalizes_body_blank_lines() {
    assert_eq!(normalize_body_text("a\r\n\r\n\r\n\r\nb  \r\n\r\n"), "a\n\n\nb");
    assert_eq!(normalize_body_text("\r\n\r\nx\ry"), "x\ny");
    assert_eq!(normalize_body_text("   "), "");
}
