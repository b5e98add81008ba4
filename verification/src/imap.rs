//! The QQ Mail inbox sync: the checks and limits that shape a read-only IMAP
//! sync, and the turning of a fetched raw message into a cached mail item.
//! The network session itself is run by the application around this module.

use mailparse::MailHeaderMap;
use vstd::prelude::*;
use vstd::string::StringExecFns;
use vstd::utf8::{decode_utf8, valid_utf8};
use crate::mail_text::{
    normalize_body_text, normalize_display_text, spec_clean_text, spec_normalize_body_text,
    spec_normalize_display_text, clean_text,
};
use crate::models::{MailMessage, MailMessageView};
use crate::text::{
    ascii_lower, chars_of, contains_chars, contains_seq, decimal, join,
    join_chars, push_all, replace_all, replace_chars, split_whitespace_chars, string_of,
    sub_chars, to_ascii_lower, to_lowercase, trim, trim_chars, u64_decimal, unicode_lowercase,
    words,
};

verus! {

broadcast use vstd::string::group_string_axioms;

pub const QQ_IMAP_HOST: &'static str = "imap.qq.com";

pub const QQ_IMAP_PORT: u16 = 993;

/// Messages fetched when the request names no limit.
pub const DEFAULT_SYNC_LIMIT: u32 = 50;

/// The most messages one sync fetches.
pub const MAX_SYNC_LIMIT: u32 = 100;

/// The items fetched for each message. `BODY.PEEK` reads the first 64 KiB of
/// the raw message without setting the `\Seen` flag, so a sync leaves the
/// mailbox as it was (the inbox itself is opened with `EXAMINE`).
pub const FETCH_ITEMS: &'static str = "(UID FLAGS INTERNALDATE BODY.PEEK[]<0.65536>)";

/// A request to sync a QQ Mail inbox.
#[derive(Debug)]
pub struct QqInboxSyncInput {
    pub email: String,
    pub authorization_code: String,
    pub limit: Option<u32>,
}

/// Mailbox counts reported after opening the inbox read-only.
#[derive(Debug)]
pub struct ImapConnectionReport {
    pub provider: String,
    pub host: String,
    pub port: u16,
    pub folder: String,
    pub exists: u32,
    pub recent: u32,
    pub unseen: Option<u32>,
}

/// What one sync brought: the inbox counts and the messages.
#[derive(Debug)]
pub struct QqInboxSyncPayload {
    pub report: ImapConnectionReport,
    pub messages: Vec<MailMessage>,
}

// ---------------------------------------------------------------------------
// Sync plan
// ---------------------------------------------------------------------------

/// The first problem with the credentials, if any.
pub open spec fn spec_validate_credentials(email: Seq<char>, authorization_code: Seq<char>) -> Option<
    Seq<char>,
> {
    if email.len() == 0 {
        Some("Email address is required."@)
    } else if authorization_code.len() == 0 {
        Some("QQ Mail authorization code is required."@)
    } else if !email.contains('@') {
        Some("Email address should include @."@)
    } else {
        None
    }
}

pub fn validate_credentials(email: &str, authorization_code: &str) -> (r: Result<(), String>)
    ensures
        r is Ok <==> spec_validate_credentials(email@, authorization_code@) is None,
        r matches Err(message) ==> Some(message@) == spec_validate_credentials(
            email@,
            authorization_code@,
        ),
{
    if email.is_empty() {
        return Err(String::from_str("Email address is required."));
    }
    if authorization_code.is_empty() {
        return Err(String::from_str("QQ Mail authorization code is required."));
    }
    let cs = chars_of(email);
    if !crate::text::contains_char(cs.as_slice(), '@') {
        return Err(String::from_str("Email address should include @."));
    }
    Ok(())
}

/// The number of messages a sync fetches: the requested limit (50 when none
/// is given) brought into `1..=100`.
pub open spec fn spec_sync_limit(limit: Option<u32>) -> u32 {
    let requested = match limit {
        Some(l) => l,
        None => DEFAULT_SYNC_LIMIT,
    };
    if requested < 1 {
        1
    } else if requested > MAX_SYNC_LIMIT {
        MAX_SYNC_LIMIT
    } else {
        requested
    }
}

/// A requested limit within `1..=100` is used as it is; `0` becomes `1`, a
/// limit above 100 becomes 100, and no limit means 50.
pub proof fn sync_limit_clamps_to_bounds(n: u32)
    ensures
        1 <= n <= 100 ==> spec_sync_limit(Some(n)) == n,
        n == 0 ==> spec_sync_limit(Some(n)) == 1,
        n > 100 ==> spec_sync_limit(Some(n)) == 100,
        spec_sync_limit(None) == 50,
{
}

pub fn effective_sync_limit(limit: Option<u32>) -> (r: u32)
    ensures
        r == spec_sync_limit(limit),
        1 <= r <= MAX_SYNC_LIMIT,
{
    let requested = match limit {
        Some(l) => l,
        None => DEFAULT_SYNC_LIMIT,
    };
    if requested < 1 {
        1
    } else if requested > MAX_SYNC_LIMIT {
        MAX_SYNC_LIMIT
    } else {
        requested
    }
}

/// The sequence numbers `start..=end` to fetch from a mailbox holding
/// `exists` messages: `start` is `exists - limit + 1` with saturating
/// arithmetic, `end` is `exists`; `None` for an empty mailbox. With a limit of
/// at least one this is the newest `min(limit, exists)` messages.
pub fn fetch_range(exists: u32, limit: u32) -> (r: Option<(u32, u32)>)
    ensures
        exists == 0 <==> r is None,
        r matches Some((start, end)) ==> {
            &&& end == exists
            &&& start == if exists > limit {
                if exists - limit + 1 > u32::MAX {
                    u32::MAX as int
                } else {
                    exists - limit + 1
                }
            } else {
                1
            }
            &&& limit >= 1 ==> 1 <= start <= end
            &&& limit >= 1 ==> end - start + 1 == if limit < exists {
                limit as int
            } else {
                exists as int
            }
        },
{
    if exists == 0 {
        return None;
    }
    let start = exists.saturating_sub(limit).saturating_add(1);
    Some((start, exists))
}

/// The IMAP sequence set `start:end`.
pub fn sequence_set(start: u32, end: u32) -> (r: String)
    ensures
        r@ == decimal(start as nat) + seq![':'] + decimal(end as nat),
{
    let mut v = u64_decimal(start as u64);
    v.push(':');
    let e = u64_decimal(end as u64);
    push_all(&mut v, e.as_slice());
    string_of(v.as_slice())
}

/// A checked sync request: the login address (trimmed, lower-cased), the
/// trimmed authorization code and the fetch limit.
#[derive(Debug)]
pub struct QqSyncPlan {
    pub email: String,
    pub authorization_code: String,
    pub limit: u32,
}

pub fn plan_qq_sync(input: &QqInboxSyncInput) -> (r: Result<QqSyncPlan, String>)
    ensures
        r is Ok <==> spec_validate_credentials(
            trim(input.email@),
            trim(input.authorization_code@),
        ) is None,
        r matches Err(message) ==> Some(message@) == spec_validate_credentials(
            trim(input.email@),
            trim(input.authorization_code@),
        ),
        r matches Ok(plan) ==> {
            &&& plan.email@ == crate::text::normalized_address(input.email@)
            &&& plan.authorization_code@ == trim(input.authorization_code@)
            &&& plan.limit == spec_sync_limit(input.limit)
        },
{
    let email = string_of(trim_chars(chars_of(input.email.as_str()).as_slice()).as_slice());
    let code = string_of(
        trim_chars(chars_of(input.authorization_code.as_str()).as_slice()).as_slice(),
    );
    validate_credentials(email.as_str(), code.as_str())?;
    Ok(
        QqSyncPlan {
            email: to_lowercase(email.as_str()),
            authorization_code: code,
            limit: effective_sync_limit(input.limit),
        },
    )
}

/// The report for the inbox opened with `EXAMINE`.
pub fn inbox_report(exists: u32, recent: u32, unseen: Option<u32>) -> (r: ImapConnectionReport)
    ensures
        r.provider@ == "qq"@,
        r.host@ == "imap.qq.com"@,
        r.port == QQ_IMAP_PORT,
        r.folder@ == "INBOX"@,
        r.exists == exists,
        r.recent == recent,
        r.unseen == unseen,
{
    ImapConnectionReport {
        provider: String::from_str("qq"),
        host: String::from_str(QQ_IMAP_HOST),
        port: QQ_IMAP_PORT,
        folder: String::from_str("INBOX"),
        exists,
        recent,
        unseen,
    }
}

// ---------------------------------------------------------------------------
// Message text helpers
// ---------------------------------------------------------------------------

pub open spec fn preamble_phrase_hyphen() -> Seq<char> {
    "this is a multi-part message in mime format"@
}

pub open spec fn preamble_phrase_plain() -> Seq<char> {
    "this is a multipart message in mime format"@
}

/// Text that contains the "This is a multi-part message in MIME format"
/// preamble (ASCII case ignored, either spelling).
pub open spec fn spec_is_multipart_preamble(value: Seq<char>) -> bool {
    contains_seq(ascii_lower(value), preamble_phrase_hyphen()) || contains_seq(
        ascii_lower(value),
        preamble_phrase_plain(),
    )
}

pub fn looks_like_multipart_preamble(value: &str) -> (r: bool)
    ensures
        r == spec_is_multipart_preamble(value@),
{
    let lower = to_ascii_lower(chars_of(value).as_slice());
    let hyphen = chars_of("this is a multi-part message in mime format");
    let plain = chars_of("this is a multipart message in mime format");
    contains_chars(lower.as_slice(), hyphen.as_slice()) || contains_chars(
        lower.as_slice(),
        plain.as_slice(),
    )
}

/// The text outside `<...>` tags, each `>` becoming a space.
pub open spec fn strip_tags_state(s: Seq<char>) -> (Seq<char>, bool)
    decreases s.len(),
{
    if s.len() == 0 {
        (Seq::empty(), false)
    } else {
        let (out, inside) = strip_tags_state(s.drop_last());
        let c = s.last();
        if c == '<' {
            (out, true)
        } else if c == '>' {
            (out.push(' '), false)
        } else if !inside {
            (out.push(c), inside)
        } else {
            (out, inside)
        }
    }
}

/// HTML reduced to text: tags dropped, then `&nbsp;`, `&amp;`, `&lt;` and
/// `&gt;` replaced, in that order.
pub open spec fn spec_strip_html_tags(value: Seq<char>) -> Seq<char> {
    let text = strip_tags_state(value).0;
    replace_all(
        replace_all(
            replace_all(replace_all(text, "&nbsp;"@, " "@), "&amp;"@, "&"@),
            "&lt;"@,
            "<"@,
        ),
        "&gt;"@,
        ">"@,
    )
}

pub fn strip_html_tags(value: &str) -> (r: String)
    ensures
        r@ == spec_strip_html_tags(value@),
{
    let cs = chars_of(value);
    let mut output: Vec<char> = Vec::new();
    let mut inside_tag = false;
    let mut i: usize = 0;
    while i < cs.len()
        invariant
            i <= cs.len(),
            strip_tags_state(cs@.take(i as int)) == (output@, inside_tag),
        decreases cs.len() - i,
    {
        let c = cs[i];
        assert(cs@.take(i + 1).drop_last() =~= cs@.take(i as int));
        if c == '<' {
            inside_tag = true;
        } else if c == '>' {
            inside_tag = false;
            output.push(' ');
        } else if !inside_tag {
            output.push(c);
        }
        i += 1;
    }
    assert(cs@.take(cs@.len() as int) =~= cs@);
    proof {
        reveal_strlit("&nbsp;");
        reveal_strlit("&amp;");
        reveal_strlit("&lt;");
        reveal_strlit("&gt;");
    }
    let nbsp = chars_of("&nbsp;");
    let amp = chars_of("&amp;");
    let lt = chars_of("&lt;");
    let gt = chars_of("&gt;");
    let a = replace_chars(output.as_slice(), nbsp.as_slice(), chars_of(" ").as_slice());
    let b = replace_chars(a.as_slice(), amp.as_slice(), chars_of("&").as_slice());
    let c = replace_chars(b.as_slice(), lt.as_slice(), chars_of("<").as_slice());
    let d = replace_chars(c.as_slice(), gt.as_slice(), chars_of(">").as_slice());
    string_of(d.as_slice())
}

/// The longest preview, in characters.
pub const PREVIEW_CHARS: usize = 160;

/// The body's words joined by single spaces, cut to 160 characters.
pub open spec fn spec_preview_from_body(body: Seq<char>) -> Seq<char> {
    let preview = join(words(body), seq![' ']);
    if preview.len() <= PREVIEW_CHARS {
        preview
    } else {
        preview.take(PREVIEW_CHARS as int)
    }
}

pub fn preview_from_body(body: &str) -> (r: String)
    ensures
        r@ == spec_preview_from_body(body@),
        r@.len() <= PREVIEW_CHARS,
{
    let ws = split_whitespace_chars(chars_of(body).as_slice());
    let sp: &[char] = &[' '];
    assert(sp@ == seq![' ']);
    let preview = join_chars(&ws, sp);
    if preview.len() <= PREVIEW_CHARS {
        string_of(preview.as_slice())
    } else {
        string_of(sub_chars(preview.as_slice(), 0, PREVIEW_CHARS).as_slice())
    }
}

/// The cache id of a QQ message: `qq:<address>:<remote id>`.
pub open spec fn spec_message_id(email: Seq<char>, remote_id: u32) -> Seq<char> {
    seq!['q', 'q', ':'] + email + seq![':'] + decimal(remote_id as nat)
}

pub fn message_id(email: &str, remote_id: u32) -> (r: String)
    ensures
        r@ == spec_message_id(email@, remote_id),
{
    let mut v: Vec<char> = Vec::new();
    v.push('q');
    v.push('q');
    v.push(':');
    push_all(&mut v, chars_of(email).as_slice());
    v.push(':');
    push_all(&mut v, u64_decimal(remote_id as u64).as_slice());
    assert(v@ =~= spec_message_id(email@, remote_id));
    string_of(v.as_slice())
}

// ---------------------------------------------------------------------------
// Parsed message model
// ---------------------------------------------------------------------------

/// One mailbox of an address header.
#[derive(Debug, Clone)]
pub struct Mailbox {
    pub display_name: Option<String>,
    pub addr: String,
}

pub ghost struct MailboxView {
    pub display_name: Option<Seq<char>>,
    pub addr: Seq<char>,
}

impl View for Mailbox {
    type V = MailboxView;

    open spec fn view(&self) -> MailboxView {
        MailboxView {
            display_name: match self.display_name {
                Some(d) => Some(d@),
                None => None,
            },
            addr: self.addr@,
        }
    }
}

/// An entry of an address list: one mailbox, or a named group of them.
#[derive(Debug, Clone)]
pub enum AddressEntry {
    Single(Mailbox),
    Group(Vec<Mailbox>),
}

pub ghost enum AddressEntryView {
    Single(MailboxView),
    Group(Seq<MailboxView>),
}

impl View for AddressEntry {
    type V = AddressEntryView;

    open spec fn view(&self) -> AddressEntryView {
        match self {
            AddressEntry::Single(a) => AddressEntryView::Single(a@),
            AddressEntry::Group(g) => AddressEntryView::Group(g@.map_values(|a: Mailbox| a@)),
        }
    }
}

pub open spec fn addr_list_view(list: Seq<AddressEntry>) -> Seq<AddressEntryView> {
    list.map_values(|a: AddressEntry| a@)
}

/// One part of a (possibly multipart) message, in the depth-first order of
/// `ParsedMail::parts`.
#[derive(Debug, Clone)]
pub struct BodyPart {
    pub mimetype: String,
    pub body: Option<String>,
    pub disposition: Option<String>,
}

pub ghost struct BodyPartView {
    pub mimetype: Seq<char>,
    pub body: Option<Seq<char>>,
    pub disposition: Option<Seq<char>>,
}

impl View for BodyPart {
    type V = BodyPartView;

    open spec fn view(&self) -> BodyPartView {
        BodyPartView {
            mimetype: self.mimetype@,
            body: match self.body {
                Some(b) => Some(b@),
                None => None,
            },
            disposition: match self.disposition {
                Some(d) => Some(d@),
                None => None,
            },
        }
    }
}

pub open spec fn parts_view(parts: Seq<BodyPart>) -> Seq<BodyPartView> {
    parts.map_values(|p: BodyPart| p@)
}

// ---------------------------------------------------------------------------
// mailparse
// ---------------------------------------------------------------------------

/// Whether `mailparse::parse_mail` accepts the raw message.
pub uninterp spec fn mail_parses(raw: Seq<u8>) -> bool;

/// The first header named `key` (ASCII case ignored) of the parsed message:
/// its raw value bytes and the value that `MailHeader::get_value` decodes.
pub uninterp spec fn mail_first_header(raw: Seq<u8>, key: Seq<char>) -> Option<(Seq<u8>, Seq<char>)>;

/// For the first header named `key`: what `mailparse::addrparse_header`
/// gives (`None` for a parse error); `None` outside when there is no such
/// header.
pub uninterp spec fn mail_header_addresses(raw: Seq<u8>, key: Seq<char>) -> Option<
    Option<Seq<AddressEntryView>>,
>;

/// What `mailparse::addrparse` gives for an address list text (`None` for a
/// parse error).
pub uninterp spec fn parsed_address_list(text: Seq<char>) -> Option<Seq<AddressEntryView>>;

/// The parts of the parsed message (`ParsedMail::parts`): MIME type, the body
/// that `get_body` decodes (`None` for an error), and the first value of the
/// header named `disposition_key`.
pub uninterp spec fn mail_body_parts(raw: Seq<u8>, disposition_key: Seq<char>) -> Seq<BodyPartView>;

/// What `String::from_utf8_lossy` gives for the bytes.
pub uninterp spec fn utf8_lossy(bytes: Seq<u8>) -> Seq<char>;

/// Calls `mailparse::parse_mail` and reports whether it succeeded.
#[verifier::external_body]
fn parses_as_mail(raw: &[u8]) -> (r: bool)
    ensures
        r == mail_parses(raw@),
{
    mailparse::parse_mail(raw).is_ok()
}

/// Parses the message with `mailparse::parse_mail` and looks up the first
/// header named `key` with `MailHeaderMap::get_first_header`, returning its
/// raw value (`get_value_raw`) and decoded value (`get_value`). The contract
/// names the result; header decoding is not restated.
#[verifier::external_body]
fn first_header(raw: &[u8], key: &str) -> (r: Option<(Vec<u8>, String)>)
    ensures
        (match r {
            Some((b, s)) => Some((b@, s@)),
            None => None::<(Seq<u8>, Seq<char>)>,
        }) == mail_first_header(raw@, key@),
{
    let parsed = mailparse::parse_mail(raw).ok()?;
    let header = parsed.headers.get_first_header(key)?;
    Some((header.get_value_raw().to_vec(), header.get_value()))
}

/// Parses the message with `mailparse::parse_mail`, takes the first header
/// named `key` and reads it with `mailparse::addrparse_header`, moving the
/// fields of each entry into the library's address type, one arm per
/// variant. The contract names the result.
#[verifier::external_body]
fn header_addresses(raw: &[u8], key: &str) -> (r: Option<Option<Vec<AddressEntry>>>)
    ensures
        (match r {
            Some(Some(l)) => Some(Some(addr_list_view(l@))),
            Some(None) => Some(None),
            None => None::<Option<Seq<AddressEntryView>>>,
        }) == mail_header_addresses(raw@, key@),
{
    let parsed = mailparse::parse_mail(raw).ok()?;
    let header = parsed.headers.get_first_header(key)?;
    let one = |i: &mailparse::SingleInfo| Mailbox { display_name: i.display_name.clone(), addr: i.addr.clone() };
    Some(mailparse::addrparse_header(header).ok().map(|list| list.iter().map(|a| match a {
        mailparse::MailAddr::Single(i) => AddressEntry::Single(one(i)),
        mailparse::MailAddr::Group(g) => AddressEntry::Group(g.addrs.iter().map(one).collect()),
    }).collect()))
}

/// Calls `mailparse::addrparse` on an address list text, moving the fields
/// of each entry into the library's address type, one arm per variant. The
/// contract names the result.
#[verifier::external_body]
fn address_list(text: &str) -> (r: Option<Vec<AddressEntry>>)
    ensures
        (match r {
            Some(l) => Some(addr_list_view(l@)),
            None => None::<Seq<AddressEntryView>>,
        }) == parsed_address_list(text@),
{
    let one = |i: &mailparse::SingleInfo| Mailbox { display_name: i.display_name.clone(), addr: i.addr.clone() };
    mailparse::addrparse(text).ok().map(|list| list.iter().map(|a| match a {
        mailparse::MailAddr::Single(i) => AddressEntry::Single(one(i)),
        mailparse::MailAddr::Group(g) => AddressEntry::Group(g.addrs.iter().map(one).collect()),
    }).collect())
}

/// Parses the message with `mailparse::parse_mail` and lists its parts with
/// `ParsedMail::parts`: for each, the MIME type, the body from `get_body`
/// and the first value of the header named `disposition_key`. An unparsable
/// message has no parts. The contract names the result.
#[verifier::external_body]
fn body_parts(raw: &[u8], disposition_key: &str) -> (r: Vec<BodyPart>)
    ensures
        parts_view(r@) == mail_body_parts(raw@, disposition_key@),
{
    match mailparse::parse_mail(raw) {
        Ok(parsed) => parsed.parts().map(
            |p| BodyPart {
                mimetype: p.ctype.mimetype.clone(),
                body: p.get_body().ok(),
                disposition: p.headers.get_first_value(disposition_key),
            },
        ).collect(),
        Err(_) => Vec::new(),
    }
}

/// Calls `String::from_utf8_lossy`: malformed sequences become U+FFFD, and
/// valid UTF-8 is decoded as it is (documented).
#[verifier::external_body]
fn utf8_lossy_string(bytes: &[u8]) -> (r: String)
    ensures
        r@ == utf8_lossy(bytes@),
        valid_utf8(bytes@) ==> r@ == decode_utf8(bytes@),
{
    String::from_utf8_lossy(bytes).into_owned()
}

// ---------------------------------------------------------------------------
// From a raw message to a cached mail item
// ---------------------------------------------------------------------------

/// A header's display text: the raw value (read as lossy UTF-8) normalised;
/// when that still holds `=?`, the value as `mailparse` decoded it,
/// normalised.
pub open spec fn spec_decoded_header(header: Option<(Seq<u8>, Seq<char>)>) -> Option<Seq<char>> {
    match header {
        Some((raw, value)) => {
            let decoded = spec_normalize_display_text(utf8_lossy(raw));
            if contains_seq(decoded, seq!['=', '?']) {
                Some(spec_normalize_display_text(value))
            } else {
                Some(decoded)
            }
        },
        None => None,
    }
}

pub fn decoded_header_value(header: &Option<(Vec<u8>, String)>) -> (r: Option<String>)
    ensures
        (match r {
            Some(s) => Some(s@),
            None => None::<Seq<char>>,
        }) == spec_decoded_header(
            match header {
                Some((b, s)) => Some((b@, s@)),
                None => None,
            },
        ),
{
    match header {
        Some((raw, value)) => {
            let raw_value = utf8_lossy_string(raw.as_slice());
            let decoded = normalize_display_text(raw_value.as_str());
            let marker: &[char] = &['=', '?'];
            assert(marker@ == seq!['=', '?']);
            if contains_chars(chars_of(decoded.as_str()).as_slice(), marker) {
                Some(normalize_display_text(value.as_str()))
            } else {
                Some(decoded)
            }
        },
        None => None,
    }
}

/// A mailbox for display: `name <addr>` when it has a display name that is
/// not blank (the name normalised), else the bare address.
pub open spec fn spec_mailbox_text(a: MailboxView) -> Seq<char> {
    match a.display_name {
        Some(d) => if trim(d).len() > 0 {
            spec_normalize_display_text(d) + seq![' ', '<'] + a.addr + seq!['>']
        } else {
            a.addr
        },
        None => a.addr,
    }
}

pub fn mailbox_text(a: &Mailbox) -> (r: String)
    ensures
        r@ == spec_mailbox_text(a@),
{
    match &a.display_name {
        Some(display_name) => {
            let t = trim_chars(chars_of(display_name.as_str()).as_slice());
            if t.len() > 0 {
                let name = normalize_display_text(display_name.as_str());
                let mut v = chars_of(name.as_str());
                v.push(' ');
                v.push('<');
                push_all(&mut v, chars_of(a.addr.as_str()).as_slice());
                v.push('>');
                assert(v@ =~= spec_mailbox_text(a@));
                string_of(v.as_slice())
            } else {
                string_of(chars_of(a.addr.as_str()).as_slice())
            }
        },
        None => string_of(chars_of(a.addr.as_str()).as_slice()),
    }
}

/// The first mailbox of an address list, for display: the first entry, or
/// the first member of a group.
pub open spec fn spec_first_mailbox_text(list: Seq<AddressEntryView>) -> Option<Seq<char>> {
    if list.len() == 0 {
        None
    } else {
        match list[0] {
            AddressEntryView::Single(a) => Some(spec_mailbox_text(a)),
            AddressEntryView::Group(members) => if members.len() == 0 {
                None
            } else {
                Some(spec_mailbox_text(members[0]))
            },
        }
    }
}

pub fn first_mailbox_text(list: &Vec<AddressEntry>) -> (r: Option<String>)
    ensures
        (match r {
            Some(s) => Some(s@),
            None => None::<Seq<char>>,
        }) == spec_first_mailbox_text(addr_list_view(list@)),
{
    if list.len() == 0 {
        return None;
    }
    match &list[0] {
        AddressEntry::Single(a) => Some(mailbox_text(a)),
        AddressEntry::Group(members) => {
            if members.len() == 0 {
                None
            } else {
                assert(members@.map_values(|a: Mailbox| a@)[0] == members@[0]@);
                Some(mailbox_text(&members[0]))
            }
        },
    }
}

/// The sender for display: the `From` header read as an address list (or,
/// when that fails, its decoded text read as one), first mailbox.
pub open spec fn spec_decoded_from(raw: Seq<u8>) -> Option<Seq<char>> {
    match mail_header_addresses(raw, "From"@) {
        Some(Some(list)) => spec_first_mailbox_text(list),
        Some(None) => match spec_decoded_header(mail_first_header(raw, "From"@)) {
            Some(decoded) => match parsed_address_list(decoded) {
                Some(list) => spec_first_mailbox_text(list),
                None => None,
            },
            None => None,
        },
        None => None,
    }
}

fn decoded_from(raw: &[u8]) -> (r: Option<String>)
    ensures
        (match r {
            Some(s) => Some(s@),
            None => None::<Seq<char>>,
        }) == spec_decoded_from(raw@),
{
    match header_addresses(raw, "From") {
        Some(Some(list)) => first_mailbox_text(&list),
        Some(None) => {
            let header = first_header(raw, "From");
            match decoded_header_value(&header) {
                Some(decoded) => match address_list(decoded.as_str()) {
                    Some(list) => first_mailbox_text(&list),
                    None => None,
                },
                None => None,
            }
        },
        None => None,
    }
}

/// A MIME type equal to `t` with ASCII case ignored.
pub open spec fn is_mimetype(m: Seq<char>, t: Seq<char>) -> bool {
    ascii_lower(m) == t
}

/// Outcome of looking through the parts for a text body.
pub ghost enum BodySearch {
    Found(Seq<char>),
    /// A matching part whose body could not be decoded ends the search.
    Failed,
    NotFound,
}

/// The first `text/plain` part from index `i` on whose body is not the
/// multipart preamble.
pub open spec fn plain_body_from(parts: Seq<BodyPartView>, i: int) -> BodySearch
    decreases parts.len() - i,
{
    if i < 0 || i >= parts.len() {
        BodySearch::NotFound
    } else if is_mimetype(parts[i].mimetype, "text/plain"@) {
        match parts[i].body {
            Some(b) => if spec_is_multipart_preamble(b) {
                plain_body_from(parts, i + 1)
            } else {
                BodySearch::Found(b)
            },
            None => BodySearch::Failed,
        }
    } else {
        plain_body_from(parts, i + 1)
    }
}

/// The first `text/html` part from index `i` on whose body, stripped of
/// tags, is not the multipart preamble; the stripped text.
pub open spec fn html_body_from(parts: Seq<BodyPartView>, i: int) -> BodySearch
    decreases parts.len() - i,
{
    if i < 0 || i >= parts.len() {
        BodySearch::NotFound
    } else if is_mimetype(parts[i].mimetype, "text/html"@) {
        match parts[i].body {
            Some(b) => if spec_is_multipart_preamble(spec_strip_html_tags(b)) {
                html_body_from(parts, i + 1)
            } else {
                BodySearch::Found(spec_strip_html_tags(b))
            },
            None => BodySearch::Failed,
        }
    } else {
        html_body_from(parts, i + 1)
    }
}

/// The text body of a message: a plain-text part first, else an HTML part.
pub open spec fn spec_text_body(parts: Seq<BodyPartView>) -> Option<Seq<char>> {
    match plain_body_from(parts, 0) {
        BodySearch::Found(b) => Some(b),
        BodySearch::Failed => None,
        BodySearch::NotFound => match html_body_from(parts, 0) {
            BodySearch::Found(b) => Some(b),
            _ => None,
        },
    }
}

pub fn decoded_text_body(parts: &Vec<BodyPart>) -> (r: Option<String>)
    ensures
        (match r {
            Some(s) => Some(s@),
            None => None::<Seq<char>>,
        }) == spec_text_body(parts_view(parts@)),
{
    let ghost ps = parts_view(parts@);
    let plain = chars_of("text/plain");
    let html = chars_of("text/html");
    let mut i: usize = 0;
    while i < parts.len()
        invariant
            i <= parts.len(),
            ps == parts_view(parts@),
            plain@ == "text/plain"@,
            plain_body_from(ps, 0) == plain_body_from(ps, i as int),
        decreases parts.len() - i,
    {
        let part = &parts[i];
        assert(ps[i as int] == part@);
        let m = to_ascii_lower(chars_of(part.mimetype.as_str()).as_slice());
        if crate::text::chars_equal(m.as_slice(), plain.as_slice()) {
            match &part.body {
                Some(body) => {
                    if !looks_like_multipart_preamble(body.as_str()) {
                        return Some(string_of(chars_of(body.as_str()).as_slice()));
                    }
                },
                None => {
                    return None;
                },
            }
        }
        i += 1;
    }
    let mut j: usize = 0;
    while j < parts.len()
        invariant
            j <= parts.len(),
            ps == parts_view(parts@),
            html@ == "text/html"@,
            plain_body_from(ps, 0) == BodySearch::NotFound,
            html_body_from(ps, 0) == html_body_from(ps, j as int),
        decreases parts.len() - j,
    {
        let part = &parts[j];
        assert(ps[j as int] == part@);
        let m = to_ascii_lower(chars_of(part.mimetype.as_str()).as_slice());
        if crate::text::chars_equal(m.as_slice(), html.as_slice()) {
            match &part.body {
                Some(body) => {
                    let stripped = strip_html_tags(body.as_str());
                    if !looks_like_multipart_preamble(stripped.as_str()) {
                        return Some(stripped);
                    }
                },
                None => {
                    return None;
                },
            }
        }
        j += 1;
    }
    None
}

/// A part whose `Content-Disposition`, lower-cased, mentions `attachment`.
pub open spec fn spec_is_attachment(part: BodyPartView) -> bool {
    let disposition = match part.disposition {
        Some(d) => d,
        None => Seq::empty(),
    };
    contains_seq(unicode_lowercase(disposition), "attachment"@)
}

pub fn is_attachment_part(part: &BodyPart) -> (r: bool)
    ensures
        r == spec_is_attachment(part@),
{
    let disposition = match &part.disposition {
        Some(d) => to_lowercase(d.as_str()),
        None => to_lowercase(""),
    };
    proof {
        reveal_strlit("");
        assert(""@ =~= Seq::<char>::empty());
    }
    let pat = chars_of("attachment");
    contains_chars(chars_of(disposition.as_str()).as_slice(), pat.as_slice())
}

pub fn has_attachment_part(parts: &Vec<BodyPart>) -> (r: bool)
    ensures
        r == exists|i: int| 0 <= i < parts@.len() && spec_is_attachment(#[trigger] parts@[i]@),
{
    let mut i: usize = 0;
    while i < parts.len()
        invariant
            i <= parts.len(),
            forall|j: int| 0 <= j < i ==> !spec_is_attachment(#[trigger] parts@[j]@),
        decreases parts.len() - i,
    {
        if is_attachment_part(&parts[i]) {
            return true;
        }
        i += 1;
    }
    false
}

pub open spec fn no_subject() -> Seq<char> {
    "(No subject)"@
}

pub open spec fn unknown_sender() -> Seq<char> {
    "(Unknown sender)"@
}

pub open spec fn missing_body() -> Seq<char> {
    "MailDock could not load a plain text body for this message yet."@
}

/// The cached item for a raw message, when `mailparse` parses it.
pub open spec fn spec_message_from_raw(
    email: Seq<char>,
    remote_id: u32,
    raw: Seq<u8>,
    fallback_received_at: Seq<char>,
    is_unread: bool,
) -> Option<MailMessageView> {
    if !mail_parses(raw) {
        None
    } else {
        let subject = match spec_decoded_header(mail_first_header(raw, "Subject"@)) {
            Some(s) => if s.len() > 0 {
                s
            } else {
                no_subject()
            },
            None => no_subject(),
        };
        let from = match spec_decoded_from(raw) {
            Some(f) => f,
            None => unknown_sender(),
        };
        let received_at = match mail_first_header(raw, "Date"@) {
            Some((_, value)) => if spec_clean_text(value).len() > 0 {
                spec_clean_text(value)
            } else {
                fallback_received_at
            },
            None => fallback_received_at,
        };
        let parts = mail_body_parts(raw, "Content-Disposition"@);
        let body = match spec_text_body(parts) {
            Some(b) => if spec_normalize_body_text(b).len() > 0 {
                spec_normalize_body_text(b)
            } else {
                missing_body()
            },
            None => missing_body(),
        };
        Some(
            MailMessageView {
                id: spec_message_id(email, remote_id),
                from,
                subject,
                received_at,
                preview: spec_preview_from_body(body),
                body,
                has_attachments: exists|i: int|
                    0 <= i < parts.len() && spec_is_attachment(#[trigger] parts[i]),
                is_unread,
            },
        )
    }
}

pub fn mail_message_from_raw(
    email: &str,
    remote_id: u32,
    raw_message: &[u8],
    fallback_received_at: String,
    is_unread: bool,
) -> (r: Option<MailMessage>)
    ensures
        (match r {
            Some(m) => Some(m@),
            None => None::<MailMessageView>,
        }) == spec_message_from_raw(
            email@,
            remote_id,
            raw_message@,
            fallback_received_at@,
            is_unread,
        ),
{
    if !parses_as_mail(raw_message) {
        return None;
    }
    let subject = match decoded_header_value(&first_header(raw_message, "Subject")) {
        Some(s) => if s.as_str().is_empty() {
            String::from_str("(No subject)")
        } else {
            s
        },
        None => String::from_str("(No subject)"),
    };
    let from = match decoded_from(raw_message) {
        Some(f) => f,
        None => String::from_str("(Unknown sender)"),
    };
    let received_at = match first_header(raw_message, "Date") {
        Some((_, value)) => {
            let cleaned = clean_text(value.as_str());
            if cleaned.as_str().is_empty() {
                fallback_received_at
            } else {
                cleaned
            }
        },
        None => fallback_received_at,
    };
    let parts = body_parts(raw_message, "Content-Disposition");
    let body = match decoded_text_body(&parts) {
        Some(b) => {
            let normalized = normalize_body_text(b.as_str());
            if normalized.as_str().is_empty() {
                String::from_str("MailDock could not load a plain text body for this message yet.")
            } else {
                normalized
            }
        },
        None => String::from_str("MailDock could not load a plain text body for this message yet."),
    };
    let preview = preview_from_body(body.as_str());
    let has_attachments = has_attachment_part(&parts);
    proof {
        assert(parts_view(parts@) == mail_body_parts(raw_message@, "Content-Disposition"@));
        assert forall|i: int| 0 <= i < parts@.len() implies parts_view(parts@)[i] == #[trigger] parts@[i]@ by {}
    }
    Some(
        MailMessage {
            id: message_id(email, remote_id),
            from,
            subject,
            received_at,
            preview,
            body,
            has_attachments,
            is_unread,
        },
    )
}

/// What the fetch of one message brought, as plain values: UID (when the
/// server sent one), sequence number, `INTERNALDATE` in RFC 3339, whether it
/// carries the `\Seen` flag, and the peeked raw message.
pub struct FetchedMessage {
    pub uid: Option<u32>,
    pub sequence_number: u32,
    pub internal_date: Option<String>,
    pub seen: bool,
    pub body: Option<Vec<u8>>,
}

pub open spec fn epoch_text() -> Seq<char> {
    "1970-01-01T00:00:00Z"@
}

/// The cached item for a fetched message: identified by UID (else sequence
/// number), dated by the message's `Date` header, else its internal date,
/// else the epoch, unread unless `\Seen`; none without a body.
pub open spec fn spec_message_from_fetch(email: Seq<char>, fetch: FetchedMessage) -> Option<
    MailMessageView,
> {
    let remote_id = match fetch.uid {
        Some(uid) => uid,
        None => fetch.sequence_number,
    };
    let received_at = match fetch.internal_date {
        Some(d) => d@,
        None => epoch_text(),
    };
    match fetch.body {
        Some(raw) => spec_message_from_raw(email, remote_id, raw@, received_at, !fetch.seen),
        None => None,
    }
}

pub fn mail_message_from_fetch(email: &str, fetch: FetchedMessage) -> (r: Option<MailMessage>)
    ensures
        (match r {
            Some(m) => Some(m@),
            None => None::<MailMessageView>,
        }) == spec_message_from_fetch(email@, fetch),
{
    let remote_id = match fetch.uid {
        Some(uid) => uid,
        None => fetch.sequence_number,
    };
    let received_at = match fetch.internal_date {
        Some(d) => d,
        None => String::from_str("1970-01-01T00:00:00Z"),
    };
    match fetch.body {
        Some(raw) => mail_message_from_raw(email, remote_id, raw.as_slice(), received_at, !fetch.seen),
        None => None,
    }
}

/// The cached items for a batch of fetches, in fetch order; a fetch that
/// gives no item (no body, or a body that does not parse) is left out.
pub open spec fn spec_messages_from_fetches(email: Seq<char>, fetches: Seq<FetchedMessage>) -> Seq<
    MailMessageView,
>
    decreases fetches.len(),
{
    if fetches.len() == 0 {
        Seq::empty()
    } else {
        let rest = spec_messages_from_fetches(email, fetches.drop_last());
        match spec_message_from_fetch(email, fetches.last()) {
            Some(m) => rest.push(m),
            None => rest,
        }
    }
}

/// A fetch gives a cached item exactly when it brought a body that parses as
/// a mail; the item is unread exactly when the fetch does not carry `\Seen`,
/// and it is identified by the UID, else the sequence number.
pub proof fn fetch_gives_item_when_body_parses(email: Seq<char>, fetch: FetchedMessage)
    ensures
        spec_message_from_fetch(email, fetch) is Some <==> (fetch.body matches Some(raw)
            && mail_parses(raw@)),
        spec_message_from_fetch(email, fetch) matches Some(m) ==> m.is_unread == !fetch.seen
            && m.id == spec_message_id(
            email,
            match fetch.uid {
                Some(u) => u,
                None => fetch.sequence_number,
            },
        ),
{
}

/// A batch keeps one item for every fetch that gives one, read or not, in
/// fetch order: it is the fetches' items with the fetches that give none left
/// out.
pub proof fn batch_keeps_every_item(email: Seq<char>, fetches: Seq<FetchedMessage>)
    ensures
        spec_messages_from_fetches(email, fetches) == fetches.filter_map(
            |f: FetchedMessage| spec_message_from_fetch(email, f),
        ),
    decreases fetches.len(),
{
    if fetches.len() > 0 {
        batch_keeps_every_item(email, fetches.drop_last());
        let rest = spec_messages_from_fetches(email, fetches.drop_last());
        match spec_message_from_fetch(email, fetches.last()) {
            Some(m) => {
                assert(rest.push(m) =~= rest + seq![m]);
            },
            None => {},
        }
    }
}

pub fn messages_from_fetches(email: &str, fetches: Vec<FetchedMessage>) -> (r: Vec<MailMessage>)
    ensures
        r@.map_values(|m: MailMessage| m@) == spec_messages_from_fetches(email@, fetches@),
{
    let ghost all = fetches@;
    let mut messages: Vec<MailMessage> = Vec::new();
    for fetch in it: fetches.into_iter()
        invariant
            it.seq() == all,
            messages@.map_values(|m: MailMessage| m@) == spec_messages_from_fetches(
                email@,
                all.take(it.index() as int),
            ),
    {
        let ghost i = it.index();
        let ghost f = fetch;
        assert(all.take(i + 1).drop_last() =~= all.take(i as int));
        assert(all.take(i + 1).last() == f);
        let ghost before = messages@;
        match mail_message_from_fetch(email, fetch) {
            Some(m) => {
                messages.push(m);
                assert(messages@.map_values(|m: MailMessage| m@) =~= before.map_values(
                    |m: MailMessage| m@,
                ).push(messages@.last()@));
            },
            None => {},
        }
    }
    assert(all.take(all.len() as int) =~= all);
    messages
}

} // verus!
