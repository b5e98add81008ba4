//! Names under which mailbox secrets are stored, and the text format of the
//! local credential files that back up the system credential store.

use base64::Engine;
use vstd::prelude::*;
use vstd::string::StringExecFns;
use vstd::utf8::encode_utf8;
use crate::mail_text::{base64_standard_decoded, decode_base64_standard};
use crate::models::{provider_code, ProviderKind};
use crate::text::{
    chars_equal, chars_of, concat_chars, decimal_int, i64_decimal, join, join_chars,
    normalize_address, normalized_address, split_char, split_chars, string_of,
    sub_chars,
};

verus! {

broadcast use vstd::string::group_string_axioms;

/// The system credential store's service name.
pub const SERVICE_NAME: &'static str = "MailDock";

/// First line of a local credential file whose secret is DPAPI-protected.
pub const LOCAL_CREDENTIAL_HEADER: &'static str = "maildock-local-credential-dpapi-v1";

/// First line of an older local credential file that holds the secret as
/// plain text.
pub const LEGACY_LOCAL_CREDENTIAL_HEADER: &'static str = "maildock-local-credential-v1";

/// Which saved secret is meant: a mailbox (by address) or, in the older
/// scheme, an account id.
#[derive(Debug, Clone)]
pub struct CredentialKey {
    pub provider: ProviderKind,
    pub account_id: Option<i64>,
    pub address: Option<String>,
}

impl CredentialKey {
    pub fn for_mailbox(provider: ProviderKind, address: &str) -> (key: Self)
        ensures
            key.provider == provider,
            key.account_id is None,
            key.address matches Some(a) && a@ == normalized_address(address@),
    {
        CredentialKey { provider, account_id: None, address: Some(normalize_address(address)) }
    }

    pub fn legacy_account_id(provider: ProviderKind, account_id: i64) -> (key: Self)
        ensures
            key.provider == provider,
            key.account_id == Some(account_id),
            key.address is None,
    {
        CredentialKey { provider, account_id: Some(account_id), address: None }
    }
}

pub fn provider_key(provider: ProviderKind) -> (r: &'static str)
    ensures
        r@ == provider_code(provider),
{
    match provider {
        ProviderKind::Qq => {
            proof {
                reveal_strlit("qq");
            }
            "qq"
        },
        ProviderKind::Fudan => {
            proof {
                reveal_strlit("fudan");
            }
            "fudan"
        },
        ProviderKind::Gmail => {
            proof {
                reveal_strlit("gmail");
            }
            "gmail"
        },
    }
}

/// The account name a key is stored under: `provider:address` when the key
/// has a non-empty address, else `provider:id`, else `provider:unknown`.
pub open spec fn spec_credential_account_name(key: CredentialKey) -> Seq<char> {
    let prefix = provider_code(key.provider) + seq![':'];
    match key.address {
        Some(a) if a@.len() > 0 => prefix + a@,
        _ => match key.account_id {
            Some(id) => prefix + decimal_int(id as int),
            None => prefix + seq!['u', 'n', 'k', 'n', 'o', 'w', 'n'],
        },
    }
}

pub fn credential_account_name(key: &CredentialKey) -> (r: String)
    ensures
        r@ == spec_credential_account_name(*key),
{
    let mut prefix = chars_of(provider_key(key.provider));
    prefix.push(':');
    if let Some(address) = &key.address {
        let a = chars_of(address.as_str());
        if a.len() > 0 {
            return string_of(concat_chars(prefix.as_slice(), a.as_slice()).as_slice());
        }
    }
    match key.account_id {
        Some(account_id) => {
            let digits = i64_decimal(account_id);
            string_of(concat_chars(prefix.as_slice(), digits.as_slice()).as_slice())
        },
        None => string_of(
            concat_chars(prefix.as_slice(), &['u', 'n', 'k', 'n', 'o', 'w', 'n']).as_slice(),
        ),
    }
}

/// Two keys of one provider that carry non-empty addresses are stored under
/// the same name exactly when the addresses are equal; keys made for a
/// mailbox carry the address trimmed and lower-cased, so the case and the
/// blanks around an address do not matter.
pub proof fn mailbox_names_follow_addresses(k1: CredentialKey, k2: CredentialKey)
    requires
        k1.provider == k2.provider,
        k1.address matches Some(a) && a@.len() > 0,
        k2.address matches Some(b) && b@.len() > 0,
    ensures
        spec_credential_account_name(k1) == spec_credential_account_name(k2) <==> k1.address->0@
            == k2.address->0@,
{
    let prefix = provider_code(k1.provider) + seq![':'];
    let a = k1.address->0@;
    let b = k2.address->0@;
    if spec_credential_account_name(k1) == spec_credential_account_name(k2) {
        assert((prefix + a).skip(prefix.len() as int) =~= a);
        assert((prefix + b).skip(prefix.len() as int) =~= b);
    }
}

/// Characters that may stand in a credential file name as they are.
pub open spec fn is_file_name_safe(c: char) -> bool {
    ('a' <= c && c <= 'z') || ('A' <= c && c <= 'Z') || ('0' <= c && c <= '9') || c == '-' || c
        == '_'
}

/// The account name with every other character replaced by `_`.
pub open spec fn spec_safe_key_name(key: CredentialKey) -> Seq<char> {
    spec_credential_account_name(key).map_values(
        |c: char|
            if is_file_name_safe(c) {
                c
            } else {
                '_'
            },
    )
}

/// The file-safe name keeps every ASCII letter, ASCII digit, `-` and `_` of
/// the account name at its place and puts `_` for every other character.
pub proof fn safe_name_keeps_letters_and_digits(key: CredentialKey)
    ensures
        spec_safe_key_name(key).len() == spec_credential_account_name(key).len(),
        forall|i: int|
            0 <= i < spec_credential_account_name(key).len() ==> {
                let c = #[trigger] spec_credential_account_name(key)[i];
                &&& (('a' <= c <= 'z') || ('A' <= c <= 'Z') || ('0' <= c <= '9') || c == '-' || c
                    == '_') ==> spec_safe_key_name(key)[i] == c
                &&& !(('a' <= c <= 'z') || ('A' <= c <= 'Z') || ('0' <= c <= '9') || c == '-'
                    || c == '_') ==> spec_safe_key_name(key)[i] == '_'
            },
{
}

pub fn safe_key_name(key: &CredentialKey) -> (r: String)
    ensures
        r@ == spec_safe_key_name(*key),
        r@.len() == spec_credential_account_name(*key).len(),
        forall|i: int| 0 <= i < r@.len() ==> is_file_name_safe(#[trigger] r@[i]),
{
    let name = credential_account_name(key);
    let cs = chars_of(name.as_str());
    let mut out: Vec<char> = Vec::new();
    let mut i: usize = 0;
    while i < cs.len()
        invariant
            i <= cs.len(),
            cs@ == spec_credential_account_name(*key),
            out@ == cs@.take(i as int).map_values(
                |c: char|
                    if is_file_name_safe(c) {
                        c
                    } else {
                        '_'
                    },
            ),
        decreases cs.len() - i,
    {
        let c = cs[i];
        let safe = ('a' <= c && c <= 'z') || ('A' <= c && c <= 'Z') || ('0' <= c && c <= '9') || c
            == '-' || c == '_';
        out.push(
            if safe {
                c
            } else {
                '_'
            },
        );
        assert(cs@.take(i + 1).map_values(
            |c: char|
                if is_file_name_safe(c) {
                    c
                } else {
                    '_'
                },
        ) =~= cs@.take(i as int).map_values(
            |c: char|
                if is_file_name_safe(c) {
                    c
                } else {
                    '_'
                },
        ).push(
            if is_file_name_safe(c) {
                c
            } else {
                '_'
            },
        ));
        i += 1;
    }
    assert(cs@.take(cs@.len() as int) =~= cs@);
    string_of(out.as_slice())
}

// ---------------------------------------------------------------------------
// Local credential files
// ---------------------------------------------------------------------------

/// What `base64::engine::general_purpose::STANDARD.encode` returns.
pub uninterp spec fn base64_standard_encoded(input: Seq<u8>) -> Seq<char>;

/// Calls `STANDARD.encode` of the `base64` crate. The contract names the
/// result and states two facts that the crate documents for its standard
/// engine: the text uses only the RFC 4648 standard alphabet and the `=`
/// padding character, and `STANDARD.decode` gives the input back.
#[verifier::external_body]
fn encode_base64_standard(input: &[u8]) -> (r: String)
    ensures
        r@ == base64_standard_encoded(input@),
        forall|i: int| 0 <= i < r@.len() ==> is_base64_char(#[trigger] r@[i]),
        base64_standard_decoded(encode_utf8(r@)) == Some(input@),
{
    base64::engine::general_purpose::STANDARD.encode(input)
}

/// A character of the RFC 4648 standard alphabet, or the padding `=`.
pub open spec fn is_base64_char(c: char) -> bool {
    ('A' <= c && c <= 'Z') || ('a' <= c && c <= 'z') || ('0' <= c && c <= '9') || c == '+' || c
        == '/' || c == '='
}

/// The lines of a text as `str::lines` gives them: split at `\n`, a `\r`
/// before the `\n` removed, and no empty last line after a final `\n`.
pub open spec fn text_lines(s: Seq<char>) -> Seq<Seq<char>> {
    let pieces = split_char(s, '\n');
    if s.len() == 0 {
        Seq::empty()
    } else {
        let ended = pieces.drop_last().map_values(|l: Seq<char>| strip_cr(l));
        if s.last() == '\n' {
            ended
        } else {
            ended.push(pieces.last())
        }
    }
}

pub open spec fn strip_cr(l: Seq<char>) -> Seq<char> {
    if l.len() > 0 && l.last() == '\r' {
        l.drop_last()
    } else {
        l
    }
}

pub open spec fn dpapi_header() -> Seq<char> {
    "maildock-local-credential-dpapi-v1"@
}

pub open spec fn legacy_header() -> Seq<char> {
    "maildock-local-credential-v1"@
}

/// What a local credential file holds.
pub enum LocalCredential {
    /// The protected secret, base64-decoded.
    Protected(Vec<u8>),
    /// A protected-secret file whose text is not base64.
    Undecodable,
    /// A plain-text secret in the older format.
    Legacy(String),
    /// A file that is not a MailDock credential.
    Foreign,
}

/// The reading of a local credential file's text: after the protected
/// header the remaining lines are concatenated and base64-decoded; after the
/// older header they are the secret, joined with `\n`.
pub open spec fn spec_parse_local_credential(content: Seq<char>) -> LocalCredentialView {
    let lines = text_lines(content);
    if lines.len() > 0 && lines[0] == dpapi_header() {
        match base64_standard_decoded(encode_utf8(join(lines.drop_first(), Seq::empty()))) {
            Some(b) => LocalCredentialView::Protected(b),
            None => LocalCredentialView::Undecodable,
        }
    } else if lines.len() > 0 && lines[0] == legacy_header() {
        LocalCredentialView::Legacy(join(lines.drop_first(), seq!['\n']))
    } else {
        LocalCredentialView::Foreign
    }
}

pub ghost enum LocalCredentialView {
    Protected(Seq<u8>),
    Undecodable,
    Legacy(Seq<char>),
    Foreign,
}

impl View for LocalCredential {
    type V = LocalCredentialView;

    open spec fn view(&self) -> LocalCredentialView {
        match self {
            LocalCredential::Protected(b) => LocalCredentialView::Protected(b@),
            LocalCredential::Undecodable => LocalCredentialView::Undecodable,
            LocalCredential::Legacy(s) => LocalCredentialView::Legacy(s@),
            LocalCredential::Foreign => LocalCredentialView::Foreign,
        }
    }
}

/// The lines of a text, computed.
fn lines_of(s: &[char]) -> (r: Vec<Vec<char>>)
    ensures
        r.deep_view() == text_lines(s@),
{
    if s.len() == 0 {
        let r: Vec<Vec<char>> = Vec::new();
        assert(r.deep_view() =~= Seq::<Seq<char>>::empty());
        return r;
    }
    let pieces = split_chars(s, '\n');
    proof {
        crate::text::lemma_split_char_nonempty(s@, '\n');
    }
    let mut out: Vec<Vec<char>> = Vec::new();
    let mut i: usize = 0;
    let n = pieces.len() - 1;
    while i < n
        invariant
            i <= n,
            n + 1 == pieces.len(),
            pieces.deep_view() == split_char(s@, '\n'),
            out.deep_view() == pieces.deep_view().take(i as int).map_values(
                |l: Seq<char>| strip_cr(l),
            ),
        decreases n - i,
    {
        let p = &pieces[i];
        let line = if p.len() > 0 && p[p.len() - 1] == '\r' {
            sub_chars(p.as_slice(), 0, p.len() - 1)
        } else {
            sub_chars(p.as_slice(), 0, p.len())
        };
        proof {
            assert(p@.subrange(0, p@.len() as int) =~= p@);
            assert(p@.drop_last() =~= p@.subrange(0, p@.len() - 1));
        }
        let ghost before = out.deep_view();
        let ghost lv = line@;
        out.push(line);
        proof {
            crate::text::lemma_deep_view_chars(out@.last());
            assert(pieces.deep_view()[i as int] == pieces[i as int]@);
        }
        assert(out.deep_view() =~= before.push(lv));
        assert(pieces.deep_view().take(i + 1).map_values(|l: Seq<char>| strip_cr(l))
            =~= pieces.deep_view().take(i as int).map_values(|l: Seq<char>| strip_cr(l)).push(
            strip_cr(pieces.deep_view()[i as int]),
        ));
        i += 1;
    }
    assert(pieces.deep_view().take(n as int) =~= pieces.deep_view().drop_last());
    if s[s.len() - 1] != '\n' {
        let last = sub_chars(pieces[n].as_slice(), 0, pieces[n].len());
        proof {
            assert(pieces[n as int]@.subrange(0, pieces[n as int]@.len() as int) =~= pieces[n as int]@);
        }
        let ghost before = out.deep_view();
        let ghost lv = last@;
        out.push(last);
        proof {
            crate::text::lemma_deep_view_chars(out@.last());
        }
        assert(out.deep_view() =~= before.push(lv));
    }
    out
}

pub fn parse_local_credential(content: &str) -> (r: LocalCredential)
    ensures
        r@ == spec_parse_local_credential(content@),
{
    proof {
        reveal_strlit("maildock-local-credential-dpapi-v1");
        reveal_strlit("maildock-local-credential-v1");
    }
    let cs = chars_of(content);
    let lines = lines_of(cs.as_slice());
    let header = chars_of(LOCAL_CREDENTIAL_HEADER);
    let legacy = chars_of(LEGACY_LOCAL_CREDENTIAL_HEADER);
    if lines.len() == 0 {
        return LocalCredential::Foreign;
    }
    let rest = sub_vecs(&lines, 1);
    assert(lines.deep_view()[0] == lines[0]@);
    if chars_equal(lines[0].as_slice(), header.as_slice()) {
        let empty: &[char] = &[];
        assert(empty@ =~= Seq::<char>::empty());
        let encoded = join_chars(&rest, empty);
        let bytes = crate::mail_text::utf8_bytes(encoded.as_slice());
        match decode_base64_standard(bytes.as_slice()) {
            Some(b) => LocalCredential::Protected(b),
            None => LocalCredential::Undecodable,
        }
    } else if chars_equal(lines[0].as_slice(), legacy.as_slice()) {
        let nl: &[char] = &['\n'];
        assert(nl@ == seq!['\n']);
        let secret = join_chars(&rest, nl);
        LocalCredential::Legacy(string_of(secret.as_slice()))
    } else {
        LocalCredential::Foreign
    }
}

/// The vectors from index `from` on, copied.
fn sub_vecs(v: &Vec<Vec<char>>, from: usize) -> (r: Vec<Vec<char>>)
    requires
        from <= v.len(),
    ensures
        r.deep_view() == v.deep_view().skip(from as int),
{
    let mut r: Vec<Vec<char>> = Vec::new();
    let mut i = from;
    while i < v.len()
        invariant
            from <= i <= v.len(),
            r.deep_view() == v.deep_view().subrange(from as int, i as int),
        decreases v.len() - i,
    {
        let c = sub_chars(v[i].as_slice(), 0, v[i].len());
        assert(v[i as int]@.subrange(0, v[i as int]@.len() as int) =~= v[i as int]@);
        let ghost before = r.deep_view();
        let ghost cv = c@;
        r.push(c);
        proof {
            crate::text::lemma_deep_view_chars(r@.last());
        }
        assert(r.deep_view() =~= before.push(cv));
        assert(v.deep_view().subrange(from as int, i + 1) =~= v.deep_view().subrange(
            from as int,
            i as int,
        ).push(v.deep_view()[i as int]));
        i += 1;
    }
    r
}

/// Writing protected bytes as a credential file's text and reading that
/// text back gives the same bytes.
proof fn lemma_local_credential_round_trip(protected: Seq<u8>)
    requires
        forall|i: int|
            0 <= i < base64_standard_encoded(protected).len() ==> is_base64_char(
                #[trigger] base64_standard_encoded(protected)[i],
            ),
        base64_standard_decoded(encode_utf8(base64_standard_encoded(protected))) == Some(
            protected,
        ),
    ensures
        spec_parse_local_credential(spec_local_credential_text(protected))
            == LocalCredentialView::Protected(protected),
{
    reveal_strlit("maildock-local-credential-dpapi-v1");
    reveal_strlit("maildock-local-credential-v1");
    let h = dpapi_header();
    let e = base64_standard_encoded(protected);
    let content = spec_local_credential_text(protected);
    assert(forall|i: int| 0 <= i < h.len() ==> h[i] != '\n');
    assert(forall|i: int| 0 <= i < e.len() ==> e[i] != '\n') by {
        assert forall|i: int| 0 <= i < e.len() implies e[i] != '\n' by {
            assert(is_base64_char(e[i]));
        }
    }
    let empty = Seq::<char>::empty();
    crate::text::lemma_split_without_sep(empty, h, '\n');
    assert(empty + h =~= h);
    assert(split_char(empty, '\n') =~= seq![empty]);
    assert(split_char(h, '\n') =~= seq![h]);
    let hn = h.push('\n');
    assert(hn.drop_last() =~= h);
    assert(split_char(hn, '\n') =~= seq![h, empty]);
    crate::text::lemma_split_without_sep(hn, e, '\n');
    assert(content =~= hn + e);
    let pieces = split_char(content, '\n');
    assert(pieces =~= seq![h, e]) by {
        assert(seq![h, empty].last() + e =~= e);
    }
    assert(strip_cr(h) == h);
    let lines = text_lines(content);
    if e.len() > 0 {
        assert(content.last() == e.last());
        assert(is_base64_char(e.last()));
        assert(lines =~= seq![h, e]);
        assert(lines.drop_first() =~= seq![e]);
    } else {
        assert(content.last() == '\n');
        assert(lines =~= seq![h]);
        assert(lines.drop_first() =~= Seq::<Seq<char>>::empty());
    }
    assert(lines[0] == h);
    assert(join(lines.drop_first(), Seq::empty()) =~= e);
}

/// The text of a local credential file for protected secret bytes: the
/// header line, then the bytes in base64.
pub open spec fn spec_local_credential_text(protected: Seq<u8>) -> Seq<char> {
    dpapi_header() + seq!['\n'] + base64_standard_encoded(protected)
}

/// The text of a local credential file for protected secret bytes. Reading
/// it back gives the same bytes.
pub fn local_credential_text(protected: &[u8]) -> (r: String)
    ensures
        r@ == spec_local_credential_text(protected@),
        spec_parse_local_credential(r@) == LocalCredentialView::Protected(protected@),
{
    proof {
        reveal_strlit("maildock-local-credential-dpapi-v1");
    }
    let mut text = String::from_str(LOCAL_CREDENTIAL_HEADER);
    text.append("\n");
    proof {
        reveal_strlit("\n");
    }
    let encoded = encode_base64_standard(protected);
    text.append(encoded.as_str());
    proof {
        lemma_local_credential_round_trip(protected@);
    }
    text
}

} // verus!
