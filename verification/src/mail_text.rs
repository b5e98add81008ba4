//! Normalisation of header and body text: RFC 2047 encoded words, charset
//! decoding, line clean-up and the repair of UTF-8 text that was mistakenly
//! decoded as GBK.

use vstd::prelude::*;
use vstd::utf8::*;
use base64::Engine;
use crate::text::{
    occurs_at, ascii_lower, char_is_ws, chars_of, contains_seq, find_chars_from, find_from, is_ws,
    join, join_chars, trim_end, trim_start, ws_prefix_len, ws_suffix_len,
    lemma_find_from, push_all, split_char, split_chars, string_of, sub_chars,
    to_ascii_lower, trim, trim_chars,
};

verus! {

broadcast use vstd::string::group_string_axioms;

// ---------------------------------------------------------------------------
// Outside codecs
// ---------------------------------------------------------------------------

/// What `base64::engine::general_purpose::STANDARD.decode` returns for the
/// given input bytes (`None` for a `DecodeError`).
pub uninterp spec fn base64_standard_decoded(input: Seq<u8>) -> Option<Seq<u8>>;

/// What `base64::engine::general_purpose::STANDARD_NO_PAD.decode` returns for
/// the given input bytes (`None` for a `DecodeError`).
pub uninterp spec fn base64_unpadded_decoded(input: Seq<u8>) -> Option<Seq<u8>>;

/// What `encoding_rs::Encoding::for_label(label)` followed by `decode(bytes)`
/// on the encoding found gives: `None` when the label names no encoding,
/// otherwise the decoded text and the had-errors flag.
pub uninterp spec fn charset_decoded(label: Seq<u8>, bytes: Seq<u8>) -> Option<(Seq<char>, bool)>;

/// What `encoding_rs::GBK.encode(text)` gives: the encoded bytes and the
/// flag that reports unmappable characters.
pub uninterp spec fn gbk_encoded(text: Seq<char>) -> (Seq<u8>, bool);

/// Calls `STANDARD.decode` of the `base64` crate (RFC 4648 alphabet,
/// canonical padding required). The contract names the result; base64
/// decoding itself is not restated.
#[verifier::external_body]
pub(crate) fn decode_base64_standard(input: &[u8]) -> (r: Option<Vec<u8>>)
    ensures
        (match r {
            Some(v) => Some(v@),
            None => None::<Seq<u8>>,
        }) == base64_standard_decoded(input@),
{
    base64::engine::general_purpose::STANDARD.decode(input).ok()
}

/// Calls `STANDARD_NO_PAD.decode` of the `base64` crate (RFC 4648 alphabet,
/// no padding allowed). The contract names the result.
#[verifier::external_body]
fn base64_decode_unpadded(input: &[u8]) -> (r: Option<Vec<u8>>)
    ensures
        (match r {
            Some(v) => Some(v@),
            None => None::<Seq<u8>>,
        }) == base64_unpadded_decoded(input@),
{
    base64::engine::general_purpose::STANDARD_NO_PAD.decode(input).ok()
}

/// Looks the charset label up with `encoding_rs::Encoding::for_label` and, when
/// an encoding is found, decodes the bytes with `Encoding::decode` (BOM
/// sniffing, malformed sequences replaced). The contract only names the
/// outcome; the codec tables are not restated. The decoder panics only when
/// its buffer-size arithmetic overflows `usize`, which takes an input of more
/// than `usize::MAX / 4` bytes, more than any process can hold in memory, so
/// no `requires` is stated.
#[verifier::external_body]
fn decode_with_charset_label(label: &[u8], bytes: &[u8]) -> (r: Option<(String, bool)>)
    ensures
        (match r {
            Some((s, e)) => Some((s@, e)),
            None => None::<(Seq<char>, bool)>,
        }) == charset_decoded(label@, bytes@),
{
    match encoding_rs::Encoding::for_label(label) {
        Some(encoding) => {
            let (text, _, had_errors) = encoding.decode(bytes);
            Some((text.into_owned(), had_errors))
        },
        None => None,
    }
}

/// Calls `encoding_rs::GBK.encode`. The contract names the encoded bytes and
/// the unmappable-character flag; the GBK tables are not restated, except
/// the documented fact that GBK is ASCII-compatible: ASCII-only text comes
/// back as its own bytes with no unmappable character. The
/// encoder panics only when its buffer-size arithmetic overflows `usize`,
/// which takes a text of more than 2^62 bytes, more than any process can hold
/// in memory, so no `requires` is stated.
#[verifier::external_body]
fn gbk_encode(text: &str) -> (r: (Vec<u8>, bool))
    ensures
        (r.0@, r.1) == gbk_encoded(text@),
        is_ascii_chars(text@) ==> r.0@ == encode_utf8(text@) && !r.1,
{
    let (bytes, _, had_errors) = encoding_rs::GBK.encode(text);
    (bytes.into_owned(), had_errors)
}

/// Calls `String::from_utf8`: it succeeds exactly on valid UTF-8 and then
/// holds the decoded characters.
#[verifier::external_body]
fn utf8_string(bytes: Vec<u8>) -> (r: Option<String>)
    ensures
        r is Some <==> valid_utf8(bytes@),
        r matches Some(s) ==> s@ == decode_utf8(bytes@),
{
    String::from_utf8(bytes).ok()
}

// ---------------------------------------------------------------------------
// Byte helpers
// ---------------------------------------------------------------------------

/// The UTF-8 encoding of a character sequence, as a vector.
pub fn utf8_bytes(cs: &[char]) -> (r: Vec<u8>)
    ensures
        r@ == encode_utf8(cs@),
{
    let s = string_of(cs);
    let b = s.as_str().as_bytes();
    let mut r: Vec<u8> = Vec::new();
    let mut i: usize = 0;
    while i < b.len()
        invariant
            i <= b@.len(),
            b@ == encode_utf8(cs@),
            r@ == b@.take(i as int),
        decreases b.len() - i,
    {
        r.push(b[i]);
        assert(b@.take(i + 1) =~= b@.take(i as int).push(b@[i as int]));
        i += 1;
    }
    assert(b@.take(b@.len() as int) =~= b@);
    r
}

/// The characters of valid UTF-8 bytes, or `None`.
pub fn chars_of_utf8(bytes: Vec<u8>) -> (r: Option<Vec<char>>)
    ensures
        r is Some <==> valid_utf8(bytes@),
        r matches Some(v) ==> v@ == decode_utf8(bytes@),
{
    match utf8_string(bytes) {
        Some(s) => Some(chars_of(s.as_str())),
        None => None,
    }
}

// ---------------------------------------------------------------------------
// Charsets and the GBK repair
// ---------------------------------------------------------------------------

/// The text of `bytes` in the named charset: UTF-8 for the labels `utf-8` and
/// `utf8` (ASCII case ignored), else the encoding that `encoding_rs` knows by
/// that label; `None` when the label is unknown or the bytes are malformed.
pub open spec fn spec_decode_charset(charset: Seq<char>, bytes: Seq<u8>) -> Option<Seq<char>> {
    if ascii_lower(charset) == seq!['u', 't', 'f', '-', '8'] || ascii_lower(charset) == seq![
        'u',
        't',
        'f',
        '8',
    ] {
        if valid_utf8(bytes) {
            Some(decode_utf8(bytes))
        } else {
            None
        }
    } else {
        match charset_decoded(encode_utf8(charset), bytes) {
            Some((text, had_errors)) => if had_errors {
                None
            } else {
                Some(text)
            },
            None => None,
        }
    }
}

pub fn eq_ignore_ascii_case(s: &[char], lower: &[char]) -> (b: bool)
    ensures
        b == (ascii_lower(s@) == lower@),
{
    let l = to_ascii_lower(s);
    if l.len() != lower.len() {
        assert(l@.len() != lower@.len());
        return false;
    }
    let mut i: usize = 0;
    while i < l.len()
        invariant
            i <= l.len(),
            l.len() == lower.len(),
            l@ == ascii_lower(s@),
            forall|j: int| 0 <= j < i ==> l@[j] == lower@[j],
        decreases l.len() - i,
    {
        if l[i] != lower[i] {
            assert(l@[i as int] != lower@[i as int]);
            return false;
        }
        i += 1;
    }
    assert(l@ =~= lower@);
    true
}

pub fn decode_charset(charset: &[char], bytes: &[u8]) -> (r: Option<Vec<char>>)
    ensures
        (match r {
            Some(v) => Some(v@),
            None => None::<Seq<char>>,
        }) == spec_decode_charset(charset@, bytes@),
{
    let utf_8: &[char] = &['u', 't', 'f', '-', '8'];
    let utf8: &[char] = &['u', 't', 'f', '8'];
    if eq_ignore_ascii_case(charset, utf_8) || eq_ignore_ascii_case(charset, utf8) {
        let mut owned: Vec<u8> = Vec::new();
        let mut i: usize = 0;
        while i < bytes.len()
            invariant
                i <= bytes@.len(),
                owned@ == bytes@.take(i as int),
            decreases bytes.len() - i,
        {
            owned.push(bytes[i]);
            assert(bytes@.take(i + 1) =~= bytes@.take(i as int).push(bytes@[i as int]));
            i += 1;
        }
        assert(bytes@.take(bytes@.len() as int) =~= bytes@);
        return chars_of_utf8(owned);
    }
    let label = utf8_bytes(charset);
    match decode_with_charset_label(label.as_slice(), bytes) {
        Some((text, had_errors)) => {
            if had_errors {
                None
            } else {
                Some(chars_of(text.as_str()))
            }
        },
        None => None,
    }
}

/// Text that was UTF-8 but got decoded as GBK is mapped back: when the text
/// encodes to GBK without unmappable characters and those bytes are valid
/// UTF-8, the UTF-8 reading is taken; otherwise the text is kept.
pub open spec fn spec_repair_utf8_decoded_as_gbk(value: Seq<char>) -> Seq<char> {
    let (bytes, had_errors) = gbk_encoded(value);
    if had_errors {
        value
    } else if valid_utf8(bytes) {
        decode_utf8(bytes)
    } else {
        value
    }
}

pub fn repair_utf8_decoded_as_gbk(value: &[char]) -> (r: Vec<char>)
    ensures
        r@ == spec_repair_utf8_decoded_as_gbk(value@),
        is_ascii_chars(value@) ==> r@ == value@,
{
    let s = string_of(value);
    let (encoded, had_errors) = gbk_encode(s.as_str());
    proof {
        encode_utf8_valid_utf8(value@);
        encode_utf8_decode_utf8(value@);
    }
    if had_errors {
        return sub_chars(value, 0, value.len());
    }
    match chars_of_utf8(encoded) {
        Some(v) => v,
        None => sub_chars(value, 0, value.len()),
    }
}

// ---------------------------------------------------------------------------
// Encoded-word payloads
// ---------------------------------------------------------------------------

/// Value of an ASCII hexadecimal digit.
pub open spec fn hex_value(b: u8) -> Option<u8> {
    if 0x30 <= b <= 0x39 {
        Some((b - 0x30) as u8)
    } else if 0x41 <= b <= 0x46 {
        Some((b - 0x41 + 10) as u8)
    } else if 0x61 <= b <= 0x66 {
        Some((b - 0x61 + 10) as u8)
    } else {
        None
    }
}

/// The byte written as `=XY` in a Q payload: the two bytes read as text and
/// parsed by `u8::from_str_radix(_, 16)`, which takes two hex digits or a
/// `+` sign followed by one.
pub open spec fn q_escape_value(b1: u8, b2: u8) -> Option<u8> {
    match (hex_value(b1), hex_value(b2)) {
        (Some(h), Some(l)) => Some((h * 16 + l) as u8),
        (None, Some(l)) => if b1 == 0x2B {
            Some(l)
        } else {
            None
        },
        _ => None,
    }
}

pub open spec fn is_ascii_ws_byte(b: u8) -> bool {
    b == 0x20 || b == 0x09 || b == 0x0A || b == 0x0C || b == 0x0D
}

/// The bytes of a Q-encoded payload (RFC 2047 section 4.2): whitespace
/// dropped, `_` for a space, `=XY` for an escaped byte, other bytes as they
/// are; `None` when an escape is malformed.
pub open spec fn spec_q_payload(b: Seq<u8>) -> Option<Seq<u8>>
    decreases b.len(),
{
    if b.len() == 0 {
        Some(Seq::empty())
    } else if is_ascii_ws_byte(b[0]) {
        spec_q_payload(b.skip(1))
    } else if b[0] == 0x5F {
        match spec_q_payload(b.skip(1)) {
            Some(rest) => Some(seq![0x20u8] + rest),
            None => None,
        }
    } else if b[0] == 0x3D && 2 < b.len() {
        match q_escape_value(b[1], b[2]) {
            Some(v) => match spec_q_payload(b.skip(3)) {
                Some(rest) => Some(seq![v] + rest),
                None => None,
            },
            None => None,
        }
    } else {
        match spec_q_payload(b.skip(1)) {
            Some(rest) => Some(seq![b[0]] + rest),
            None => None,
        }
    }
}

fn hex_digit(b: u8) -> (r: Option<u8>)
    ensures
        r == hex_value(b),
{
    if 0x30 <= b && b <= 0x39 {
        Some(b - 0x30)
    } else if 0x41 <= b && b <= 0x46 {
        Some(b - 0x41 + 10)
    } else if 0x61 <= b && b <= 0x66 {
        Some(b - 0x61 + 10)
    } else {
        None
    }
}

fn q_escape(b1: u8, b2: u8) -> (r: Option<u8>)
    ensures
        r == q_escape_value(b1, b2),
{
    match (hex_digit(b1), hex_digit(b2)) {
        (Some(h), Some(l)) => Some(h * 16 + l),
        (None, Some(l)) => if b1 == 0x2B {
            Some(l)
        } else {
            None
        },
        _ => None,
    }
}

pub fn decode_rfc2047_q_payload(payload: &[char]) -> (r: Option<Vec<u8>>)
    ensures
        (match r {
            Some(v) => Some(v@),
            None => None::<Seq<u8>>,
        }) == spec_q_payload(encode_utf8(payload@)),
{
    let bytes = utf8_bytes(payload);
    let mut decoded: Vec<u8> = Vec::new();
    let mut index: usize = 0;
    assert(bytes@.skip(0) =~= bytes@);
    while index < bytes.len()
        invariant
            index <= bytes@.len(),
            bytes@ == encode_utf8(payload@),
            spec_q_payload(bytes@) == (match spec_q_payload(bytes@.skip(index as int)) {
                Some(rest) => Some(decoded@ + rest),
                None => None::<Seq<u8>>,
            }),
        decreases bytes.len() - index,
    {
        let ghost rest = bytes@.skip(index as int);
        let b = bytes[index];
        assert(rest[0] == b);
        assert(rest.skip(1) =~= bytes@.skip(index + 1));
        if b == 0x20 || b == 0x09 || b == 0x0A || b == 0x0C || b == 0x0D {
            index += 1;
        } else if b == 0x5F {
            proof {
                match spec_q_payload(rest.skip(1)) {
                    Some(t) => {
                        assert(decoded@.push(0x20u8) + t =~= decoded@ + (seq![0x20u8] + t));
                    },
                    None => {},
                }
            }
            decoded.push(0x20);
            index += 1;
        } else if b == 0x3D && bytes.len() - index > 2 {
            assert(rest.len() > 2);
            assert(rest[1] == bytes@[index + 1] && rest[2] == bytes@[index + 2]);
            assert(rest.skip(3) =~= bytes@.skip(index + 3));
            match q_escape(bytes[index + 1], bytes[index + 2]) {
                Some(v) => {
                    proof {
                        match spec_q_payload(rest.skip(3)) {
                            Some(t) => {
                                assert(decoded@.push(v) + t =~= decoded@ + (seq![v] + t));
                            },
                            None => {},
                        }
                    }
                    decoded.push(v);
                    index += 3;
                },
                None => {
                    assert(!is_ascii_ws_byte(rest[0]) && rest[0] != 0x5F);
                    assert(q_escape_value(rest[1], rest[2]) is None);
                    assert(spec_q_payload(rest) is None);
                    return None;
                },
            }
        } else {
            proof {
                match spec_q_payload(rest.skip(1)) {
                    Some(t) => {
                        assert(decoded@.push(b) + t =~= decoded@ + (seq![b] + t));
                    },
                    None => {},
                }
            }
            decoded.push(b);
            index += 1;
        }
    }
    proof {
        assert(bytes@.skip(index as int) =~= Seq::<u8>::empty());
        assert(decoded@ + Seq::<u8>::empty() =~= decoded@);
    }
    Some(decoded)
}

/// The characters of `s` that are not whitespace.
pub open spec fn without_ws(s: Seq<char>) -> Seq<char>
    decreases s.len(),
{
    if s.len() == 0 {
        Seq::empty()
    } else if is_ws(s.last()) {
        without_ws(s.drop_last())
    } else {
        without_ws(s.drop_last()).push(s.last())
    }
}

/// The bytes of a B-encoded payload (RFC 2047 section 4.1): whitespace is
/// dropped, then the text is decoded as padded base64, else as unpadded
/// base64, else as base64 after padding it with `=` to a multiple of four.
pub open spec fn spec_base64_payload(payload: Seq<char>) -> Option<Seq<u8>> {
    let cleaned = without_ws(payload);
    if cleaned.len() == 0 {
        Some(Seq::empty())
    } else {
        let input = encode_utf8(cleaned);
        match base64_standard_decoded(input) {
            Some(v) => Some(v),
            None => match base64_unpadded_decoded(input) {
                Some(v) => Some(v),
                None => {
                    let padding = ((4 - input.len() % 4) % 4) as nat;
                    base64_standard_decoded(input + Seq::new(padding, |i: int| 0x3Du8))
                },
            },
        }
    }
}

pub fn decode_base64_payload(payload: &[char]) -> (r: Option<Vec<u8>>)
    ensures
        (match r {
            Some(v) => Some(v@),
            None => None::<Seq<u8>>,
        }) == spec_base64_payload(payload@),
{
    let mut cleaned: Vec<char> = Vec::new();
    let mut i: usize = 0;
    while i < payload.len()
        invariant
            i <= payload.len(),
            cleaned@ == without_ws(payload@.take(i as int)),
        decreases payload.len() - i,
    {
        let c = payload[i];
        assert(payload@.take(i + 1).drop_last() =~= payload@.take(i as int));
        if !char_is_ws(c) {
            cleaned.push(c);
        }
        i += 1;
    }
    assert(payload@.take(payload@.len() as int) =~= payload@);
    if cleaned.len() == 0 {
        return Some(Vec::new());
    }
    let input = utf8_bytes(cleaned.as_slice());
    match decode_base64_standard(input.as_slice()) {
        Some(v) => {
            return Some(v);
        },
        None => {},
    }
    match base64_decode_unpadded(input.as_slice()) {
        Some(v) => {
            return Some(v);
        },
        None => {},
    }
    let padding = (4 - input.len() % 4) % 4;
    let mut padded = input.clone();
    let mut k: usize = 0;
    while k < padding
        invariant
            k <= padding,
            padding < 4,
            padded@ == input@ + Seq::new(k as nat, |j: int| 0x3Du8),
        decreases padding - k,
    {
        padded.push(0x3D);
        assert(input@ + Seq::new((k + 1) as nat, |j: int| 0x3Du8) =~= (input@ + Seq::new(
            k as nat,
            |j: int| 0x3Du8,
        )).push(0x3Du8));
        k += 1;
    }
    decode_base64_standard(padded.as_slice())
}

// ---------------------------------------------------------------------------
// Encoded words
// ---------------------------------------------------------------------------

pub open spec fn opt_chars(r: Option<Vec<char>>) -> Option<Seq<char>> {
    match r {
        Some(v) => Some(v@),
        None => None,
    }
}

/// The three `?`-separated parts of `charset?encoding?payload`
/// (`splitn(3, '?')`), or `None` when there are fewer than three.
pub open spec fn word_parts(word: Seq<char>) -> Option<(Seq<char>, Seq<char>, Seq<char>)> {
    match find_from(word, seq!['?'], 0) {
        Some(i) => match find_from(word, seq!['?'], i + 1) {
            Some(j) => Some((word.take(i), word.subrange(i + 1, j), word.skip(j + 1))),
            None => None,
        },
        None => None,
    }
}

/// The text of one encoded word `charset?encoding?payload`: the payload is
/// decoded as base64 for encoding `B` and as Q for `Q` (ASCII case ignored,
/// parts trimmed), then read in the charset.
pub open spec fn spec_decode_word(word: Seq<char>) -> Option<Seq<char>> {
    match word_parts(word) {
        Some((c, e, p)) => {
            let encoding = ascii_lower(trim(e));
            let payload = trim(p);
            let bytes = if encoding == seq!['b'] {
                spec_base64_payload(payload)
            } else if encoding == seq!['q'] {
                spec_q_payload(encode_utf8(payload))
            } else {
                None
            };
            match bytes {
                Some(b) => spec_decode_charset(trim(c), b),
                None => None,
            }
        },
        None => None,
    }
}

pub fn decode_rfc2047_word(word: &[char]) -> (r: Option<Vec<char>>)
    ensures
        opt_chars(r) == spec_decode_word(word@),
{
    let q: &[char] = &['?'];
    assert(q@ == seq!['?']);
    proof {
        lemma_find_from(word@, seq!['?'], 0);
    }
    let i = match find_chars_from(word, q, 0) {
        Some(i) => i,
        None => {
            return None;
        },
    };
    assert(occurs_at(word@, seq!['?'], i as int));
    assert(i + 1 <= word@.len());
    assert(word@.len() == word.len());
    proof {
        lemma_find_from(word@, seq!['?'], i + 1);
    }
    let j = match find_chars_from(word, q, i + 1) {
        Some(j) => j,
        None => {
            return None;
        },
    };
    assert(occurs_at(word@, seq!['?'], j as int));
    assert(j + 1 <= word.len());
    let charset_raw = sub_chars(word, 0, i);
    let encoding_raw = sub_chars(word, i + 1, j);
    let payload_raw = sub_chars(word, j + 1, word.len());
    let charset = trim_chars(charset_raw.as_slice());
    let encoding = to_ascii_lower(trim_chars(encoding_raw.as_slice()).as_slice());
    let payload = trim_chars(payload_raw.as_slice());
    proof {
        assert(word@.take(i as int) =~= charset_raw@);
        assert(word@.skip(j + 1) =~= payload_raw@);
    }
    let b: &[char] = &['b'];
    let qq: &[char] = &['q'];
    let bytes = if encoding.len() == 1 && encoding[0] == 'b' {
        assert(encoding@ =~= seq!['b']);
        match decode_base64_payload(payload.as_slice()) {
            Some(v) => v,
            None => {
                return None;
            },
        }
    } else if encoding.len() == 1 && encoding[0] == 'q' {
        assert(encoding@ =~= seq!['q']);
        match decode_rfc2047_q_payload(payload.as_slice()) {
            Some(v) => v,
            None => {
                return None;
            },
        }
    } else {
        proof {
            if encoding@ == seq!['b'] || encoding@ == seq!['q'] {
                assert(encoding@.len() == 1);
            }
        }
        return None;
    };
    decode_charset(charset.as_slice(), bytes.as_slice())
}

/// End (within `enc`) of an encoded word that follows `=?`: after a first and
/// a second `?`, the first `?=`.
pub open spec fn encoded_word_end(enc: Seq<char>) -> Option<int> {
    match find_from(enc, seq!['?'], 0) {
        Some(f) => match find_from(enc, seq!['?'], f + 1) {
            Some(s) => find_from(enc, seq!['?', '='], s + 1),
            None => None,
        },
        None => None,
    }
}

pub proof fn lemma_encoded_word_end(enc: Seq<char>)
    ensures
        encoded_word_end(enc) matches Some(e) ==> 0 <= e && e + 2 <= enc.len(),
{
    lemma_find_from(enc, seq!['?'], 0);
    match find_from(enc, seq!['?'], 0) {
        Some(f) => {
            lemma_find_from(enc, seq!['?'], f + 1);
            match find_from(enc, seq!['?'], f + 1) {
                Some(s) => {
                    lemma_find_from(enc, seq!['?', '='], s + 1);
                },
                None => {},
            }
        },
        None => {},
    }
}

/// Where the encoded word that follows `=?` ends, computed.
fn find_encoded_word_end(enc: &[char]) -> (r: Option<usize>)
    ensures
        (match r {
            Some(e) => Some(e as int),
            None => None::<int>,
        }) == encoded_word_end(enc@),
        r matches Some(e) ==> e + 2 <= enc@.len(),
{
    let q: &[char] = &['?'];
    let q_eq: &[char] = &['?', '='];
    assert(q@ == seq!['?']);
    assert(q_eq@ == seq!['?', '=']);
    proof {
        lemma_encoded_word_end(enc@);
        lemma_find_from(enc@, seq!['?'], 0);
    }
    let first = match find_chars_from(enc, q, 0) {
        Some(f) => f,
        None => {
            assert(find_from(enc@, seq!['?'], 0) is None);
            return None;
        },
    };
    assert(find_from(enc@, seq!['?'], 0) == Some(first as int));
    assert(occurs_at(enc@, seq!['?'], first as int));
    assert(first + 1 <= enc@.len());
    assert(enc@.len() == enc.len());
    proof {
        lemma_find_from(enc@, seq!['?'], first + 1);
    }
    let second = match find_chars_from(enc, q, first + 1) {
        Some(s) => s,
        None => {
            assert(find_from(enc@, seq!['?'], first + 1) is None);
            return None;
        },
    };
    assert(find_from(enc@, seq!['?'], first + 1) == Some(second as int));
    assert(occurs_at(enc@, seq!['?'], second as int));
    assert(second + 1 <= enc.len());
    let r = find_chars_from(enc, q_eq, second + 1);
    assert(encoded_word_end(enc@) == find_from(enc@, seq!['?', '='], second + 1));
    r
}

/// Decoding of the encoded words in `rem` (RFC 2047): plain text is kept,
/// whitespace between two adjacent encoded words is dropped, a word that does
/// not decode is kept with its delimiters, and an unterminated `=?` ends the
/// scan with the rest kept as it is. The flag tells whether any word decoded.
pub open spec fn rfc2047_scan(rem: Seq<char>, prev_encoded: bool) -> (Seq<char>, bool)
    decreases rem.len(),
{
    match find_from(rem, seq!['=', '?'], 0) {
        None => (rem, false),
        Some(start) => {
            let before = rem.take(start);
            let head = if prev_encoded && trim(before).len() == 0 {
                Seq::empty()
            } else {
                before
            };
            let enc = rem.skip(start + 2);
            match encoded_word_end(enc) {
                None => (head + rem.skip(start), false),
                Some(end) => {
                    proof {
                        lemma_find_from(rem, seq!['=', '?'], 0);
                        lemma_encoded_word_end(enc);
                    }
                    let word = enc.take(end);
                    let rest = enc.skip(end + 2);
                    match spec_decode_word(word) {
                        Some(d) => (head + d + rfc2047_scan(rest, true).0, true),
                        None => {
                            let (t, any) = rfc2047_scan(rest, false);
                            (head + seq!['=', '?'] + word + seq!['?', '='] + t, any)
                        },
                    }
                },
            }
        },
    }
}

/// `w` reads as one whole encoded word between `=?` and `?=`: a charset, an
/// encoding and a payload separated by `?`, with no `?=` before its end.
pub open spec fn is_encoded_word(w: Seq<char>) -> bool {
    encoded_word_end(w + seq!['?', '=']) == Some(w.len() as int)
}

/// The encoded word `w` written with its delimiters.
pub open spec fn delimited(w: Seq<char>) -> Seq<char> {
    seq!['=', '?'] + w + seq!['?', '=']
}

proof fn lemma_encoded_word_end_prefix(x: Seq<char>, y: Seq<char>)
    requires
        encoded_word_end(x) is Some,
    ensures
        encoded_word_end(x + y) == encoded_word_end(x),
{
    let f = find_from(x, seq!['?'], 0)->0;
    crate::text::lemma_find_from_prefix(x, y, seq!['?'], 0);
    let s = find_from(x, seq!['?'], f + 1)->0;
    lemma_find_from(x, seq!['?'], 0);
    crate::text::lemma_find_from_prefix(x, y, seq!['?'], f + 1);
    lemma_find_from(x, seq!['?'], f + 1);
    crate::text::lemma_find_from_prefix(x, y, seq!['?', '='], s + 1);
}

/// Decoding the delimited word `w` followed by `rest` gives its text and
/// goes on with `rest` after an encoded word.
proof fn lemma_scan_word(w: Seq<char>, d: Seq<char>, rest: Seq<char>)
    requires
        is_encoded_word(w),
        spec_decode_word(w) == Some(d),
    ensures
        rfc2047_scan(delimited(w) + rest, false) == (d + rfc2047_scan(rest, true).0, true),
        rfc2047_scan(delimited(w) + rest, true) == (d + rfc2047_scan(rest, true).0, true),
{
    let v = delimited(w) + rest;
    assert(occurs_at(v, seq!['=', '?'], 0)) by {
        assert(v.subrange(0, 2) =~= seq!['=', '?']);
    }
    assert(find_from(v, seq!['=', '?'], 0) == Some(0int));
    assert(v.take(0) =~= Seq::<char>::empty());
    let enc = v.skip(2);
    assert(enc =~= (w + seq!['?', '=']) + rest);
    lemma_encoded_word_end_prefix(w + seq!['?', '='], rest);
    assert(enc.take(w.len() as int) =~= w);
    assert(enc.skip(w.len() as int + 2) =~= rest);
    assert(trim(Seq::<char>::empty()).len() == 0) by {
        assert(ws_prefix_len(Seq::<char>::empty()) == 0);
    }
    assert(Seq::<char>::empty() + d =~= d);
}

/// Text between two decoded encoded words is kept unless it is all
/// whitespace: decoding `=?w1?=` + `t` + `=?w2?=`, for a text `t` without
/// `=?` that is not blank, gives the two words' texts with `t` between them.
pub proof fn text_between_encoded_words_is_kept(
    w1: Seq<char>,
    d1: Seq<char>,
    t: Seq<char>,
    w2: Seq<char>,
    d2: Seq<char>,
)
    requires
        is_encoded_word(w1),
        is_encoded_word(w2),
        spec_decode_word(w1) == Some(d1),
        spec_decode_word(w2) == Some(d2),
        !contains_seq(t, seq!['=', '?']),
        trim(t).len() > 0,
    ensures
        rfc2047_decoded(delimited(w1) + t + delimited(w2)) == Some(d1 + t + d2),
{
    let rest = t + delimited(w2);
    assert(delimited(w1) + t + delimited(w2) =~= delimited(w1) + rest);
    lemma_scan_word(w1, d1, rest);
    let open_mark = seq!['=', '?'];
    assert forall|j: int| 0 <= j < t.len() implies !#[trigger] occurs_at(rest, open_mark, j) by {
        if j + 2 <= t.len() {
            assert(rest.subrange(j, j + 2) =~= t.subrange(j, j + 2));
            if occurs_at(rest, open_mark, j) {
                assert(occurs_at(t, open_mark, j));
            }
        } else {
            assert(rest[j + 1] == '=');
            if occurs_at(rest, open_mark, j) {
                assert(rest.subrange(j, j + 2)[1] == rest[j + 1]);
            }
        }
    }
    assert(occurs_at(rest, seq!['=', '?'], t.len() as int)) by {
        assert(rest.subrange(t.len() as int, t.len() as int + 2) =~= seq!['=', '?']);
    }
    crate::text::lemma_find_from_at(rest, seq!['=', '?'], 0, t.len() as int);
    assert(rest.take(t.len() as int) =~= t);
    let tail = rest.skip(t.len() as int);
    assert(tail =~= delimited(w2) + Seq::<char>::empty());
    lemma_scan_word(w2, d2, Seq::<char>::empty());
    assert(find_from(Seq::<char>::empty(), seq!['=', '?'], 0) is None);
    assert(rfc2047_scan(Seq::<char>::empty(), true) == (Seq::<char>::empty(), false));
    let enc = rest.skip(t.len() as int + 2);
    assert(enc =~= (w2 + seq!['?', '=']) + Seq::<char>::empty());
    lemma_encoded_word_end_prefix(w2 + seq!['?', '='], Seq::<char>::empty());
    assert(enc.take(w2.len() as int) =~= w2);
    assert(enc.skip(w2.len() as int + 2) =~= Seq::<char>::empty());
    assert(rfc2047_scan(rest, true) == (t + (d2 + Seq::<char>::empty()), true));
    assert(d1 + (t + (d2 + Seq::<char>::empty())) =~= d1 + t + d2);
}

/// The decoded text when at least one encoded word decoded, else `None`.
pub open spec fn rfc2047_decoded(value: Seq<char>) -> Option<Seq<char>> {
    let (text, any) = rfc2047_scan(value, false);
    if any {
        Some(text)
    } else {
        None
    }
}

#[verifier::rlimit(40)]
pub fn decode_rfc2047_words(value: &[char]) -> (r: Option<Vec<char>>)
    ensures
        opt_chars(r) == rfc2047_decoded(value@),
{
    let eq_q: &[char] = &['=', '?'];
    let q_eq: &[char] = &['?', '='];
    assert(eq_q@ == seq!['=', '?']);
    assert(q_eq@ == seq!['?', '=']);
    let mut output: Vec<char> = Vec::new();
    let mut remainder: Vec<char> = sub_chars(value, 0, value.len());
    let mut decoded_any = false;
    let mut previous_was_encoded = false;
    assert(value@.subrange(0, value@.len() as int) =~= value@);
    loop
        invariant
            remainder@.len() <= value@.len(),
            eq_q@ == seq!['=', '?'],
            q_eq@ == seq!['?', '='],
            rfc2047_scan(value@, false) == (output@ + rfc2047_scan(
                remainder@,
                previous_was_encoded,
            ).0, decoded_any || rfc2047_scan(remainder@, previous_was_encoded).1),
        decreases remainder@.len(),
    {
        let ghost rem = remainder@;
        let ghost prev = previous_was_encoded;
        let ghost out0 = output@;
        proof {
            lemma_find_from(rem, seq!['=', '?'], 0);
        }
        let start = match find_chars_from(remainder.as_slice(), eq_q, 0) {
            Some(start) => start,
            None => {
                push_all(&mut output, remainder.as_slice());
                return if decoded_any {
                    Some(output)
                } else {
                    None
                };
            },
        };
        assert(occurs_at(rem, seq!['=', '?'], start as int));
        assert(start + 2 <= remainder.len());
        let before = sub_chars(remainder.as_slice(), 0, start);
        let trimmed_before = trim_chars(before.as_slice());
        let keep_before = !(previous_was_encoded && trimmed_before.len() == 0);
        if keep_before {
            push_all(&mut output, before.as_slice());
        }
        let ghost head = if prev && trim(rem.take(start as int)).len() == 0 {
            Seq::<char>::empty()
        } else {
            rem.take(start as int)
        };
        assert(before@ =~= rem.take(start as int));
        assert(output@ == out0 + head);
        let enc = sub_chars(remainder.as_slice(), start + 2, remainder.len());
        assert(enc@ =~= rem.skip(start + 2));
        let end = find_encoded_word_end(enc.as_slice());
        let end = match end {
            Some(e) => e,
            None => {
                let tail = sub_chars(remainder.as_slice(), start, remainder.len());
                assert(tail@ =~= rem.skip(start as int));
                push_all(&mut output, tail.as_slice());
                return if decoded_any {
                    Some(output)
                } else {
                    None
                };
            },
        };
        let word = sub_chars(enc.as_slice(), 0, end);
        assert(word@ =~= enc@.take(end as int));
        match decode_rfc2047_word(word.as_slice()) {
            Some(decoded_word) => {
                push_all(&mut output, decoded_word.as_slice());
                decoded_any = true;
                previous_was_encoded = true;
            },
            None => {
                push_all(&mut output, eq_q);
                push_all(&mut output, word.as_slice());
                push_all(&mut output, q_eq);
                previous_was_encoded = false;
            },
        }
        let rest = sub_chars(enc.as_slice(), end + 2, enc.len());
        assert(rest@ =~= enc@.skip(end + 2));
        remainder = rest;
    }
}

// ---------------------------------------------------------------------------
// Line clean-up
// ---------------------------------------------------------------------------

/// The trimmed lines that are not empty, in order.
pub open spec fn clean_lines(ls: Seq<Seq<char>>) -> Seq<Seq<char>>
    decreases ls.len(),
{
    if ls.len() == 0 {
        Seq::empty()
    } else {
        let kept = clean_lines(ls.drop_last());
        let t = trim(ls.last());
        if t.len() > 0 {
            kept.push(t)
        } else {
            kept
        }
    }
}

/// Every line trimmed, empty lines dropped, lines joined with `\n`.
pub open spec fn spec_clean_text(s: Seq<char>) -> Seq<char> {
    join(clean_lines(split_char(s, '\n')), seq!['\n'])
}

pub fn clean_chars(value: &[char]) -> (r: Vec<char>)
    ensures
        r@ == spec_clean_text(value@),
{
    let lines = split_chars(value, '\n');
    let mut kept: Vec<Vec<char>> = Vec::new();
    let mut i: usize = 0;
    while i < lines.len()
        invariant
            i <= lines.len(),
            lines.deep_view() == split_char(value@, '\n'),
            kept.deep_view() == clean_lines(lines.deep_view().take(i as int)),
        decreases lines.len() - i,
    {
        let t = trim_chars(lines[i].as_slice());
        proof {
            assert(lines.deep_view().take(i + 1).drop_last() =~= lines.deep_view().take(i as int));
            assert(lines.deep_view().take(i + 1).last() == lines[i as int]@);
        }
        if t.len() > 0 {
            let ghost before = kept.deep_view();
            let ghost tv = t@;
            kept.push(t);
            proof {
                crate::text::lemma_deep_view_chars(kept@.last());
            }
            assert(kept.deep_view() =~= before.push(tv));
        }
        i += 1;
    }
    assert(lines.deep_view().take(lines.len() as int) =~= lines.deep_view());
    let nl: &[char] = &['\n'];
    assert(nl@ == seq!['\n']);
    join_chars(&kept, nl)
}

pub fn clean_text(value: &str) -> (r: String)
    ensures
        r@ == spec_clean_text(value@),
{
    let cs = chars_of(value);
    string_of(clean_chars(cs.as_slice()).as_slice())
}

// ---------------------------------------------------------------------------
// Display and body text
// ---------------------------------------------------------------------------

/// Header text for display: encoded words decoded (the text as it is when
/// none decodes), lines cleaned, then the GBK repair.
pub open spec fn spec_normalize_display_text(value: Seq<char>) -> Seq<char> {
    let decoded = match rfc2047_decoded(value) {
        Some(d) => d,
        None => value,
    };
    spec_repair_utf8_decoded_as_gbk(spec_clean_text(decoded))
}

pub fn normalize_display_chars(value: &[char]) -> (r: Vec<char>)
    ensures
        r@ == spec_normalize_display_text(value@),
{
    let decoded = match decode_rfc2047_words(value) {
        Some(d) => d,
        None => sub_chars(value, 0, value.len()),
    };
    assert(value@.subrange(0, value@.len() as int) =~= value@);
    let cleaned = clean_chars(decoded.as_slice());
    repair_utf8_decoded_as_gbk(cleaned.as_slice())
}

pub fn normalize_display_text(value: &str) -> (r: String)
    ensures
        r@ == spec_normalize_display_text(value@),
{
    let cs = chars_of(value);
    string_of(normalize_display_chars(cs.as_slice()).as_slice())
}

/// `\r\n` and lone `\r` line breaks turned into `\n`.
pub open spec fn normalize_newlines(s: Seq<char>) -> Seq<char>
    decreases s.len(),
{
    if s.len() == 0 {
        Seq::empty()
    } else if s.len() >= 2 && s[0] == '\r' && s[1] == '\n' {
        seq!['\n'] + normalize_newlines(s.skip(2))
    } else if s[0] == '\r' {
        seq!['\n'] + normalize_newlines(s.skip(1))
    } else {
        seq![s[0]] + normalize_newlines(s.skip(1))
    }
}

fn normalize_newline_chars(s: &[char]) -> (r: Vec<char>)
    ensures
        r@ == normalize_newlines(s@),
{
    let mut out: Vec<char> = Vec::new();
    let mut i: usize = 0;
    assert(s@.skip(0) =~= s@);
    while i < s.len()
        invariant
            i <= s.len(),
            normalize_newlines(s@) == out@ + normalize_newlines(s@.skip(i as int)),
        decreases s.len() - i,
    {
        let ghost rest = s@.skip(i as int);
        assert(rest[0] == s@[i as int]);
        if s[i] == '\r' && s.len() - i >= 2 && s[i + 1] == '\n' {
            assert(rest[1] == s@[i + 1]);
            assert(rest.skip(2) =~= s@.skip(i + 2));
            out.push('\n');
            assert(out@ + normalize_newlines(s@.skip(i + 2)) =~= out@.drop_last() + (seq!['\n']
                + normalize_newlines(rest.skip(2))));
            i += 2;
        } else {
            let c = if s[i] == '\r' {
                '\n'
            } else {
                s[i]
            };
            assert(rest.skip(1) =~= s@.skip(i + 1));
            out.push(c);
            assert(out@ + normalize_newlines(s@.skip(i + 1)) =~= out@.drop_last() + (seq![c]
                + normalize_newlines(rest.skip(1))));
            i += 1;
        }
    }
    assert(s@.skip(i as int) =~= Seq::<char>::empty());
    assert(out@ + Seq::<char>::empty() =~= out@);
    out
}

/// Body lines with trailing whitespace removed, where a run of blank lines
/// keeps at most two of them and blank lines before the first text line are
/// dropped. The second component counts the blank lines of the current run.
pub open spec fn body_lines(ls: Seq<Seq<char>>) -> (Seq<Seq<char>>, nat)
    decreases ls.len(),
{
    if ls.len() == 0 {
        (Seq::empty(), 0)
    } else {
        let (acc, blanks) = body_lines(ls.drop_last());
        let t = crate::text::trim_end(ls.last());
        if trim(t).len() == 0 {
            let b = blanks + 1;
            if b <= 2 && acc.len() > 0 {
                (acc.push(Seq::empty()), b)
            } else {
                (acc, b)
            }
        } else {
            (acc.push(t), 0)
        }
    }
}

/// The lines without the empty lines at the end.
pub open spec fn drop_trailing_empty(ls: Seq<Seq<char>>) -> Seq<Seq<char>>
    decreases ls.len(),
{
    if ls.len() > 0 && ls.last().len() == 0 {
        drop_trailing_empty(ls.drop_last())
    } else {
        ls
    }
}

/// Body text for display: the GBK repair, line breaks unified, trailing
/// whitespace removed from each line, runs of blank lines cut to two, blank
/// lines at the start and end dropped, and the whole trimmed.
pub open spec fn spec_normalize_body_text(value: Seq<char>) -> Seq<char> {
    spec_body_layout(spec_repair_utf8_decoded_as_gbk(value))
}

/// The line layout of a body: line breaks unified, trailing whitespace
/// removed from each line, runs of blank lines cut to two, blank lines at the
/// start and end dropped, and the whole trimmed.
pub open spec fn spec_body_layout(text: Seq<char>) -> Seq<char> {
    let lines = split_char(normalize_newlines(text), '\n');
    trim(join(drop_trailing_empty(body_lines(lines).0), seq!['\n']))
}

/// A line with text and no whitespace at either end, and no line break.
pub open spec fn is_plain_line(l: Seq<char>) -> bool {
    &&& l.len() > 0
    &&& trim(l) == l
    &&& forall|i: int| 0 <= i < l.len() ==> #[trigger] l[i] != '\n' && l[i] != '\r'
}

/// Lines with one blank line between each two.
pub open spec fn with_blank_lines(ls: Seq<Seq<char>>) -> Seq<Seq<char>>
    decreases ls.len(),
{
    if ls.len() <= 1 {
        ls
    } else {
        with_blank_lines(ls.drop_last()).push(Seq::empty()).push(ls.last())
    }
}

proof fn lemma_plain_line(l: Seq<char>)
    requires
        is_plain_line(l),
    ensures
        trim_end(l) == l,
        trim(trim_end(l)).len() > 0,
        !is_ws(l[0]),
        !is_ws(l.last()),
{
    crate::text::lemma_ws_prefix_len(l);
    let p = ws_prefix_len(l);
    let ts = trim_start(l);
    crate::text::lemma_ws_suffix_len(ts);
    assert(p == 0);
    assert(ts =~= l);
    crate::text::lemma_ws_suffix_len(l);
    assert(ws_suffix_len(l) == 0);
    assert(trim_end(l) =~= l);
}

/// A text without carriage returns.
pub open spec fn has_no_cr(s: Seq<char>) -> bool {
    forall|i: int| 0 <= i < s.len() ==> #[trigger] s[i] != '\r'
}

proof fn lemma_newlines_unchanged(s: Seq<char>)
    requires
        has_no_cr(s),
    ensures
        normalize_newlines(s) == s,
    decreases s.len(),
{
    if s.len() > 0 {
        assert(s[0] != '\r');
        assert forall|i: int| 0 <= i < s.skip(1).len() implies #[trigger] s.skip(1)[i] != '\r' by {
            assert(s.skip(1)[i] == s[i + 1]);
        }
        lemma_newlines_unchanged(s.skip(1));
        assert(seq![s[0]] + s.skip(1) =~= s);
    }
}

proof fn lemma_with_blank_lines_shape(ls: Seq<Seq<char>>)
    requires
        ls.len() > 0,
    ensures
        with_blank_lines(ls).len() == 2 * ls.len() - 1,
        with_blank_lines(ls).last() == ls.last(),
    decreases ls.len(),
{
    if ls.len() > 1 {
        lemma_with_blank_lines_shape(ls.drop_last());
    }
}

/// The pieces of paragraphs joined by a blank line, split at line breaks.
proof fn lemma_split_paragraphs(ls: Seq<Seq<char>>)
    requires
        ls.len() > 0,
        forall|i: int| 0 <= i < ls.len() ==> is_plain_line(#[trigger] ls[i]),
    ensures
        split_char(join(ls, seq!['\n', '\n']), '\n') == with_blank_lines(ls),
        has_no_cr(join(ls, seq!['\n', '\n'])),
    decreases ls.len(),
{
    let l = ls.last();
    assert(is_plain_line(ls[ls.len() - 1]));
    let empty = Seq::<char>::empty();
    if ls.len() == 1 {
        crate::text::lemma_split_without_sep(empty, l, '\n');
        assert(empty + l =~= l);
        assert(split_char(empty, '\n') =~= seq![empty]);
        assert(seq![empty].update(0, empty + l) =~= seq![l]);
        assert(with_blank_lines(ls) =~= seq![l]);
    } else {
        let rest = ls.drop_last();
        assert forall|i: int| 0 <= i < rest.len() implies is_plain_line(#[trigger] rest[i]) by {
            assert(rest[i] == ls[i]);
        }
        lemma_split_paragraphs(rest);
        let j = join(rest, seq!['\n', '\n']);
        let jn = j.push('\n');
        let jnn = jn.push('\n');
        assert(jn.drop_last() =~= j);
        assert(jnn.drop_last() =~= jn);
        assert(jn.last() == '\n');
        assert(jnn.last() == '\n');
        assert(split_char(jn, '\n') == split_char(j, '\n').push(empty));
        assert(split_char(jnn, '\n') == split_char(jn, '\n').push(empty));
        crate::text::lemma_split_without_sep(jnn, l, '\n');
        assert(join(ls, seq!['\n', '\n']) =~= jnn + l);
        assert(split_char(jnn, '\n').update(split_char(jnn, '\n').len() - 1, empty + l)
            =~= split_char(j, '\n').push(empty).push(l));
        assert(empty + l =~= l);
        let full = join(ls, seq!['\n', '\n']);
        assert forall|i: int| 0 <= i < full.len() implies #[trigger] full[i] != '\r' by {
            if i < j.len() {
                assert(full[i] == j[i]);
            } else if i >= j.len() + 2 {
                assert(full[i] == l[i - j.len() - 2]);
            }
        }
    }
}

proof fn lemma_body_lines_paragraphs(ls: Seq<Seq<char>>)
    requires
        ls.len() > 0,
        forall|i: int| 0 <= i < ls.len() ==> is_plain_line(#[trigger] ls[i]),
    ensures
        body_lines(with_blank_lines(ls)) == (with_blank_lines(ls), 0nat),
    decreases ls.len(),
{
    let l = ls.last();
    assert(is_plain_line(ls[ls.len() - 1]));
    lemma_plain_line(l);
    let empty = Seq::<char>::empty();
    if ls.len() == 1 {
        let w = with_blank_lines(ls);
        assert(w =~= seq![l]);
        assert(w.drop_last() =~= Seq::<Seq<char>>::empty());
        assert(Seq::<Seq<char>>::empty().push(l) =~= w);
        assert(w.last() == l);
        assert(body_lines(Seq::<Seq<char>>::empty()) == (Seq::<Seq<char>>::empty(), 0nat));
        assert(trim(trim_end(l)).len() > 0);
    } else {
        let rest = ls.drop_last();
        assert forall|i: int| 0 <= i < rest.len() implies is_plain_line(#[trigger] rest[i]) by {
            assert(rest[i] == ls[i]);
        }
        lemma_body_lines_paragraphs(rest);
        lemma_with_blank_lines_shape(rest);
        let w = with_blank_lines(rest);
        let x = with_blank_lines(ls);
        assert(x.drop_last() =~= w.push(empty));
        assert(w.push(empty).drop_last() =~= w);
        assert(trim_end(empty) =~= empty);
        assert(trim(empty).len() == 0) by {
            assert(ws_prefix_len(empty) == 0);
        }
        assert(w.push(empty).last() == empty);
        assert(body_lines(w.push(empty)) == (w.push(empty), 1nat));
        assert(x.last() == l);
        assert(trim(trim_end(l)).len() > 0);
        assert(x =~= w.push(empty).push(l));
    }
}

proof fn lemma_join_paragraphs(ls: Seq<Seq<char>>)
    requires
        ls.len() > 0,
    ensures
        join(with_blank_lines(ls), seq!['\n']) == join(ls, seq!['\n', '\n']),
    decreases ls.len(),
{
    if ls.len() > 1 {
        let rest = ls.drop_last();
        lemma_join_paragraphs(rest);
        lemma_with_blank_lines_shape(rest);
        let w = with_blank_lines(rest);
        let empty = Seq::<char>::empty();
        let x = with_blank_lines(ls);
        assert(x.drop_last() =~= w.push(empty));
        assert(w.push(empty).drop_last() =~= w);
        assert(join(x, seq!['\n']) == join(w.push(empty), seq!['\n']) + seq!['\n'] + ls.last());
        assert(join(w.push(empty), seq!['\n']) == join(w, seq!['\n']) + seq!['\n'] + empty);
        assert(join(w, seq!['\n']) + seq!['\n'] + empty + seq!['\n'] + ls.last() =~= join(
            rest,
            seq!['\n', '\n'],
        ) + seq!['\n', '\n'] + ls.last());
    }
}

proof fn lemma_join_ends(ls: Seq<Seq<char>>, sep: Seq<char>)
    requires
        ls.len() > 0,
        forall|i: int| 0 <= i < ls.len() ==> (#[trigger] ls[i]).len() > 0,
    ensures
        join(ls, sep).len() > 0,
        join(ls, sep)[0] == ls[0][0],
        join(ls, sep).last() == ls.last().last(),
    decreases ls.len(),
{
    assert(ls[ls.len() - 1].len() > 0);
    if ls.len() > 1 {
        let rest = ls.drop_last();
        assert forall|i: int| 0 <= i < rest.len() implies (#[trigger] rest[i]).len() > 0 by {
            assert(rest[i] == ls[i]);
        }
        lemma_join_ends(rest, sep);
        assert(rest[0] == ls[0]);
    }
}

/// Runs of blank lines are cut one run at a time: paragraphs of plain lines
/// with one blank line between each two keep their layout, however many
/// paragraphs there are.
pub proof fn paragraph_breaks_are_kept(ls: Seq<Seq<char>>)
    requires
        ls.len() > 0,
        forall|i: int| 0 <= i < ls.len() ==> is_plain_line(#[trigger] ls[i]),
    ensures
        spec_body_layout(join(ls, seq!['\n', '\n'])) == join(ls, seq!['\n', '\n']),
{
    let text = join(ls, seq!['\n', '\n']);
    lemma_split_paragraphs(ls);
    lemma_newlines_unchanged(text);
    lemma_body_lines_paragraphs(ls);
    lemma_with_blank_lines_shape(ls);
    let w = with_blank_lines(ls);
    assert(is_plain_line(ls[ls.len() - 1]));
    assert(drop_trailing_empty(w) == w);
    lemma_join_paragraphs(ls);
    assert forall|i: int| 0 <= i < ls.len() implies (#[trigger] ls[i]).len() > 0 by {
        assert(is_plain_line(ls[i]));
    }
    lemma_join_ends(ls, seq!['\n', '\n']);
    assert(is_plain_line(ls[0]));
    lemma_plain_line(ls[0]);
    lemma_plain_line(ls.last());
    assert(ws_prefix_len(text) == 0);
    assert(trim_start(text) =~= text);
    assert(ws_suffix_len(text) == 0);
    assert(trim_end(text) =~= text);
}

pub fn normalize_body_chars(value: &[char]) -> (r: Vec<char>)
    ensures
        r@ == spec_normalize_body_text(value@),
        is_ascii_chars(value@) ==> r@ == spec_body_layout(value@),
{
    let repaired = repair_utf8_decoded_as_gbk(value);
    let normalized = normalize_newline_chars(repaired.as_slice());
    let all_lines = split_chars(normalized.as_slice(), '\n');
    let mut lines: Vec<Vec<char>> = Vec::new();
    let mut blank_count: usize = 0;
    let mut i: usize = 0;
    while i < all_lines.len()
        invariant
            i <= all_lines.len(),
            blank_count <= i,
            all_lines.deep_view() == split_char(normalized@, '\n'),
            body_lines(all_lines.deep_view().take(i as int)) == (lines.deep_view(), blank_count as nat),
        decreases all_lines.len() - i,
    {
        let trimmed_end = crate::text::trim_end_chars(all_lines[i].as_slice());
        let fully = trim_chars(trimmed_end.as_slice());
        proof {
            assert(all_lines.deep_view().take(i + 1).drop_last() =~= all_lines.deep_view().take(
                i as int,
            ));
            assert(all_lines.deep_view().take(i + 1).last() == all_lines[i as int]@);
        }
        if fully.len() == 0 {
            blank_count += 1;
            if blank_count <= 2 && lines.len() > 0 {
                let ghost before = lines.deep_view();
                lines.push(Vec::new());
                proof {
                    crate::text::lemma_deep_view_chars(lines@.last());
                }
                assert(lines.deep_view() =~= before.push(Seq::<char>::empty()));
            }
        } else {
            blank_count = 0;
            let ghost before = lines.deep_view();
            let ghost tv = trimmed_end@;
            lines.push(trimmed_end);
            proof {
                crate::text::lemma_deep_view_chars(lines@.last());
            }
            assert(lines.deep_view() =~= before.push(tv));
        }
        i += 1;
    }
    assert(all_lines.deep_view().take(all_lines.len() as int) =~= all_lines.deep_view());
    while lines.len() > 0 && lines[lines.len() - 1].len() == 0
        invariant
            drop_trailing_empty(body_lines(all_lines.deep_view()).0) == drop_trailing_empty(
                lines.deep_view(),
            ),
        decreases lines.len(),
    {
        let ghost before = lines.deep_view();
        lines.pop();
        assert(lines.deep_view() =~= before.drop_last());
    }
    let nl: &[char] = &['\n'];
    assert(nl@ == seq!['\n']);
    let joined = join_chars(&lines, nl);
    trim_chars(joined.as_slice())
}

pub fn normalize_body_text(value: &str) -> (r: String)
    ensures
        r@ == spec_normalize_body_text(value@),
        is_ascii_chars(value@) ==> r@ == spec_body_layout(value@),
{
    let cs = chars_of(value);
    string_of(normalize_body_chars(cs.as_slice()).as_slice())
}

} // verus!
