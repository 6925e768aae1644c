//! Model behind the read-only explorer page: what is shown of a relay, of a
//! domain, of an owner and of the local identities. Fetching stands outside;
//! here plain values become what the page shows.
use vstd::prelude::*;
use vstd::string::*;
use vstd::utf8::encode_utf8;
use crate::bytes::digest_at;
use crate::digest::append_bytes;
use crate::entry::DomainState;
use crate::entry::digest_of;
use crate::entry::lemma_digest_of;
use crate::idmap::IdMap;
use crate::ids::DomainId;
use crate::ids::OwnerId;
use crate::ids::same_id;
use crate::text::bytes_before;
use crate::text::decimal;
use crate::text::decimal_text;
use crate::text::digit;
use crate::text::digit_char;
use crate::text::joined;
use crate::text::law_visible_text_is_trimmed;
use crate::text::text_before;
use crate::text::text_order;
use crate::text::trim;
use crate::text::trimmed;
use crate::types::Transaction;
use crate::types::TxBody;
use crate::types::TxModel;
use crate::types::tx_models;

verus! {

/// Kind of a backend error.
#[derive(Clone, Copy, Debug, PartialEq, Eq, Structural)]
pub enum GuiErrorKind {
    InvalidAddr,
    RelayUnreachable,
    Relay,
    Store,
    Keystore,
    Corrupted,
}

/// Errors of the backend, shown to the user.
#[derive(Debug, PartialEq, Eq)]
pub enum GuiError {
    /// Invalid RPC address or owner text.
    InvalidAddr(String),
    /// The relay is not reachable.
    RelayUnreachable(String),
    /// The relay answered with an error.
    Relay(String),
    /// Reading the chain store failed.
    Store(String),
    /// Reading the keystore failed.
    Keystore(String),
    /// Malformed store data.
    Corrupted(String),
}

impl View for GuiError {
    type V = (GuiErrorKind, Seq<char>);

    open spec fn view(&self) -> (GuiErrorKind, Seq<char>) {
        match *self {
            GuiError::InvalidAddr(t) => (GuiErrorKind::InvalidAddr, t@),
            GuiError::RelayUnreachable(t) => (GuiErrorKind::RelayUnreachable, t@),
            GuiError::Relay(t) => (GuiErrorKind::Relay, t@),
            GuiError::Store(t) => (GuiErrorKind::Store, t@),
            GuiError::Keystore(t) => (GuiErrorKind::Keystore, t@),
            GuiError::Corrupted(t) => (GuiErrorKind::Corrupted, t@),
        }
    }
}

/// Text of an error on the page.
pub open spec fn gui_text(e: GuiError) -> Seq<char> {
    match e {
        GuiError::InvalidAddr(t) => "invalid relay address '"@ + t@ + "'"@,
        GuiError::RelayUnreachable(t) => "cannot reach the relay at "@ + t@
            + " \u{2014} is 'scone relay' running?"@,
        GuiError::Relay(t) => "relay error: "@ + t@,
        GuiError::Store(t) => "store error: "@ + t@,
        GuiError::Keystore(t) => "keystore error: "@ + t@,
        GuiError::Corrupted(t) => "corrupted store entry: "@ + t@,
    }
}

impl GuiError {
    /// Text of the error on the page.
    pub fn message(&self) -> (text: String)
        ensures
            text@ == gui_text(*self),
    {
        match self {
            GuiError::InvalidAddr(t) => {
                let mut text = joined("invalid relay address '", t.as_str());
                text.append("'");
                text
            },
            GuiError::RelayUnreachable(t) => {
                let mut text = joined("cannot reach the relay at ", t.as_str());
                text.append(" \u{2014} is 'scone relay' running?");
                text
            },
            GuiError::Relay(t) => joined("relay error: ", t.as_str()),
            GuiError::Store(t) => joined("store error: ", t.as_str()),
            GuiError::Keystore(t) => joined("keystore error: ", t.as_str()),
            GuiError::Corrupted(t) => joined("corrupted store entry: ", t.as_str()),
        }
    }
}

/// Lower-case hex of a byte string.
pub open spec fn hex_text(b: Seq<u8>) -> Seq<char> {
    Seq::new(
        2 * b.len(),
        |i: int|
            digit(
                (if i % 2 == 0 {
                    b[i / 2] / 16
                } else {
                    b[i / 2] % 16
                }) as nat,
            ),
    )
}

/// Hex of 32 bytes: 64 lower-case digits.
pub fn hex64(bytes: &[u8; 32]) -> (text: String)
    ensures
        text@ == hex_text(bytes@),
        text@.len() == 64,
{
    let mut text = String::new();
    let mut i: usize = 0;
    while i < 32
        invariant
            i <= 32,
            text@ =~= hex_text(bytes@).subrange(0, 2 * i),
        decreases 32 - i,
    {
        let b: u8 = bytes[i];
        text.push(digit_char(b / 16));
        text.push(digit_char(b % 16));
        i += 1;
    }
    assert(hex_text(bytes@).subrange(0, 64) =~= hex_text(bytes@));
    text
}

/// Value of a lower-case ASCII hex digit.
pub open spec fn hex_value(b: u8) -> Option<u8> {
    if 48 <= b <= 57 {
        Some((b - 48) as u8)
    } else if 97 <= b <= 102 {
        Some((b - 87) as u8)
    } else {
        None
    }
}

/// Value of a lower-case ASCII hex digit.
fn hex_digit(b: u8) -> (v: Option<u8>)
    ensures
        v == hex_value(b),
        v matches Some(x) ==> x < 16,
{
    if 48 <= b && b <= 57 {
        Some(b - 48)
    } else if 97 <= b && b <= 102 {
        Some(b - 87)
    } else {
        None
    }
}

/// Whether bytes are 64 lower-case hex digits.
pub open spec fn is_hex64(t: Seq<u8>) -> bool {
    t.len() == 64 && forall|i: int| 0 <= i < 64 ==> hex_value(#[trigger] t[i]) is Some
}

/// The bytes that 64 hex digits spell.
pub open spec fn hex_bytes(t: Seq<u8>) -> Seq<u8> {
    Seq::new(32, |i: int| (16 * hex_value(t[2 * i])->0 + hex_value(t[2 * i + 1])->0) as u8)
}

/// Text of the refusal of a malformed owner id.
pub open spec fn owner_refusal(len: nat) -> Seq<char> {
    "OwnerId must be 64 hex chars, got "@ + decimal(len)
}

/// Decodes 64 lower-case hex digits into 32 bytes, and nothing else.
pub fn parse_hex64(text: &str) -> (r: Result<[u8; 32], GuiError>)
    ensures
        if is_hex64(encode_utf8(text@)) {
            r is Ok && r->Ok_0@ == hex_bytes(encode_utf8(text@))
        } else {
            r is Err && r->Err_0@ == (
                GuiErrorKind::InvalidAddr,
                owner_refusal(encode_utf8(text@).len()),
            )
        },
{
    let b = text.as_bytes();
    let n: usize = b.len();
    let mut out: [u8; 32] = [0u8; 32];
    let mut good = n == 64;
    let mut i: usize = 0;
    while good && i < 32
        invariant
            i <= 32,
            n == b@.len(),
            b@ == encode_utf8(text@),
            good ==> n == 64,
            good ==> forall|j: int| 0 <= j < 2 * i ==> hex_value(#[trigger] b@[j]) is Some,
            good ==> forall|j: int| 0 <= j < i ==> #[trigger] out@[j] == hex_bytes(b@)[j],
            !good ==> !is_hex64(b@),
        decreases 32 - i + (if good {
            1int
        } else {
            0int
        }),
    {
        match (hex_digit(b[2 * i]), hex_digit(b[2 * i + 1])) {
            (Some(high), Some(low)) => {
                let ghost before = out@;
                out[i] = 16 * high + low;
                proof {
                    assert forall|j: int| 0 <= j < 2 * (i + 1) implies hex_value(#[trigger] b@[j]) is Some by {
                        assert(j < 2 * i || j == 2 * i || j == 2 * i + 1);
                    }
                    assert forall|j: int| 0 <= j < i + 1 implies #[trigger] out@[j] == hex_bytes(b@)[j] by {
                        if j < i {
                            assert(out@[j] == before[j]);
                        }
                    }
                }
                i += 1;
            },
            _ => {
                assert(hex_value(b@[2 * i as int]) is None || hex_value(b@[2 * i + 1]) is None);
                good = false;
            },
        }
    }
    if !good {
        let number = decimal_text(n as u64);
        return Err(GuiError::InvalidAddr(joined("OwnerId must be 64 hex chars, got ", number.as_str())));
    }
    assert(out@ =~= hex_bytes(b@));
    Ok(out)
}

/// Decodes an owner id as typed: white space around it is ignored, and what
/// is left must be 64 lower-case hex digits.
pub fn decode_hex64(text: &str) -> (r: Result<[u8; 32], GuiError>)
    ensures
        ({
            let t = encode_utf8(trimmed(text@));
            if is_hex64(t) {
                r is Ok && r->Ok_0@ == hex_bytes(t)
            } else {
                r is Err && r->Err_0@ == (GuiErrorKind::InvalidAddr, owner_refusal(t.len()))
            }
        }),
{
    let t = trim(text);
    parse_hex64(t.as_str())
}

/// Hex and back gives the bytes: the digits of 32 bytes pass the trim
/// unchanged and decode to them.
pub proof fn law_hex_roundtrip(b: Seq<u8>)
    requires
        b.len() == 32,
    ensures
        trimmed(hex_text(b)) == hex_text(b),
        is_hex64(encode_utf8(hex_text(b))),
        hex_bytes(encode_utf8(hex_text(b))) == b,
{
    let text = hex_text(b);
    assert forall|i: int| 0 <= i < text.len() implies '!' <= #[trigger] text[i] <= '~' && (text[i] as nat) < 128
        && hex_value(text[i] as u8) == Some(
        (if i % 2 == 0 {
            b[i / 2] / 16
        } else {
            b[i / 2] % 16
        }) as u8,
    ) by {}
    law_visible_text_is_trimmed(text);
    vstd::utf8::is_ascii_chars_encode_utf8(text);
    let t = encode_utf8(text);
    assert forall|i: int| 0 <= i < 64 implies hex_value(#[trigger] t[i]) is Some by {
        assert(t[i] == text[i] as u8);
    }
    assert forall|i: int| 0 <= i < 32 implies hex_bytes(t)[i] == b[i] by {
        assert(t[2 * i] == text[2 * i] as u8);
        assert(t[2 * i + 1] == text[2 * i + 1] as u8);
        assert((2 * i) / 2 == i && (2 * i + 1) / 2 == i);
    }
    assert(hex_bytes(t) =~= b);
}

/// Default relay RPC address.
pub const DEFAULT_RPC_ADDR: &'static str = "127.0.0.1:7474";

/// Default data directory of the relay.
pub const DEFAULT_DATA_DIR: &'static str = ".scone";

/// The relay address of an input field, already without white space around
/// it: the default when it is empty.
pub fn address_or_default(text: &str) -> (addr: String)
    ensures
        addr@ == (if text@.len() == 0 {
            DEFAULT_RPC_ADDR@
        } else {
            text@
        }),
{
    if text.is_empty() {
        String::from_str(DEFAULT_RPC_ADDR)
    } else {
        String::from_str(text)
    }
}

/// The relay address of an input field.
pub fn relay_address(input: &str) -> (addr: String)
    ensures
        addr@ == (if trimmed(input@).len() == 0 {
            DEFAULT_RPC_ADDR@
        } else {
            trimmed(input@)
        }),
{
    let t = trim(input);
    address_or_default(t.as_str())
}

/// Relay status card.
#[derive(Debug, PartialEq)]
pub struct RelayStatus {
    pub peer_id: String,
    pub tip: String,
    pub height: u64,
    pub peers: u64,
    pub domain_count: u64,
    pub mempool: u64,
}

impl Clone for RelayStatus {
    fn clone(&self) -> (copy: RelayStatus)
        ensures
            copy == *self,
    {
        RelayStatus {
            peer_id: self.peer_id.clone(),
            tip: self.tip.clone(),
            height: self.height,
            peers: self.peers,
            domain_count: self.domain_count,
            mempool: self.mempool,
        }
    }
}

impl Default for RelayStatus {
    fn default() -> (status: RelayStatus)
        ensures
            status.peer_id@ == Seq::<char>::empty(),
            status.tip@ == Seq::<char>::empty(),
            status.height == 0,
            status.peers == 0,
            status.domain_count == 0,
            status.mempool == 0,
    {
        RelayStatus {
            peer_id: String::new(),
            tip: String::new(),
            height: 0,
            peers: 0,
            domain_count: 0,
            mempool: 0,
        }
    }
}

/// A text field of a reply; a dash when it is missing or malformed.
pub fn text_or_dash(value: Option<String>) -> (text: String)
    ensures
        text@ == or_dash(text_of(value)),
{
    match value {
        Some(t) => t,
        None => String::from_str("-"),
    }
}

/// A number field of a reply; zero when it is missing or malformed.
pub fn number_or_zero(value: Option<u64>) -> (n: u64)
    ensures
        n == or_zero(value),
{
    match value {
        Some(n) => n,
        None => 0,
    }
}

/// Fields of a status reply, each if it was there and well-formed.
pub struct StatusReply {
    pub peer_id: Option<String>,
    pub tip: Option<String>,
    pub height: Option<u64>,
    pub peers: Option<u64>,
    pub domain_count: Option<u64>,
    pub mempool: Option<u64>,
}

/// The status card of a reply.
pub fn status_card(reply: StatusReply) -> (status: RelayStatus)
    ensures
        status.peer_id@ == or_dash(text_of(reply.peer_id)),
        status.tip@ == or_dash(text_of(reply.tip)),
        status.height == or_zero(reply.height),
        status.peers == or_zero(reply.peers),
        status.domain_count == or_zero(reply.domain_count),
        status.mempool == or_zero(reply.mempool),
{
    RelayStatus {
        peer_id: text_or_dash(reply.peer_id),
        tip: text_or_dash(reply.tip),
        height: number_or_zero(reply.height),
        peers: number_or_zero(reply.peers),
        domain_count: number_or_zero(reply.domain_count),
        mempool: number_or_zero(reply.mempool),
    }
}

/// One DNS record of an explored domain.
#[derive(Debug, PartialEq, Eq)]
pub struct DnsEntry {
    pub kind: String,
    pub value: String,
}

impl Clone for DnsEntry {
    fn clone(&self) -> (copy: DnsEntry)
        ensures
            copy == *self,
    {
        DnsEntry { kind: self.kind.clone(), value: self.value.clone() }
    }
}

/// One explored domain.
#[derive(Debug, PartialEq)]
pub struct DomainCard {
    pub name: String,
    pub domain_id: String,
    pub registered: bool,
    pub owner: String,
    pub sequence: u64,
    pub record_hash: String,
    pub dns: Vec<DnsEntry>,
}

/// A domain card as a value.
#[verifier::ext_equal]
pub struct CardModel {
    pub name: Seq<char>,
    pub domain_id: Seq<char>,
    pub registered: bool,
    pub owner: Seq<char>,
    pub sequence: u64,
    pub record_hash: Seq<char>,
    pub dns: Seq<(Seq<char>, Seq<char>)>,
}

impl View for DomainCard {
    type V = CardModel;

    open spec fn view(&self) -> CardModel {
        CardModel {
            name: self.name@,
            domain_id: self.domain_id@,
            registered: self.registered,
            owner: self.owner@,
            sequence: self.sequence,
            record_hash: self.record_hash@,
            dns: self.dns@.map_values(|e: DnsEntry| (e.kind@, e.value@)),
        }
    }
}

impl Clone for DomainCard {
    fn clone(&self) -> (copy: DomainCard)
        ensures
            copy@ == self@,
    {
        let mut dns: Vec<DnsEntry> = Vec::new();
        let mut i: usize = 0;
        while i < self.dns.len()
            invariant
                i <= self.dns@.len(),
                dns@ =~= self.dns@.subrange(0, i as int),
            decreases self.dns@.len() - i,
        {
            dns.push(self.dns[i].clone());
            i += 1;
        }
        assert(dns@ =~= self.dns@);
        DomainCard {
            name: self.name.clone(),
            domain_id: self.domain_id.clone(),
            registered: self.registered,
            owner: self.owner.clone(),
            sequence: self.sequence,
            record_hash: self.record_hash.clone(),
            dns,
        }
    }
}

/// The values of a list of cards.
pub open spec fn card_models(cards: Seq<DomainCard>) -> Seq<CardModel> {
    cards.map_values(|c: DomainCard| c@)
}

/// Whether a reply holds no DNS record. `dns` is the number of records in the
/// reply, if it has such a list.
pub fn lacks_records(dns: Option<usize>) -> (r: bool)
    ensures
        r == (dns is None || dns == Some(0usize)),
{
    match dns {
        None => true,
        Some(n) => n == 0,
    }
}

/// Whether a lookup found a verified record.
pub fn is_verified(verified: Option<bool>) -> (r: bool)
    ensures
        r == (verified == Some(true)),
{
    match verified {
        Some(v) => v,
        None => false,
    }
}

/// Fields of a domain reply, each if it was there and well-formed.
pub struct DomainReply {
    pub name: Option<String>,
    pub domain_id: Option<String>,
    pub registered: Option<bool>,
    pub owner: Option<String>,
    pub sequence: Option<u64>,
    pub record_hash: Option<String>,
    /// Type and value of each record.
    pub dns: Option<Vec<(Option<String>, Option<String>)>>,
}

/// A text or a dash.
pub open spec fn or_dash(t: Option<Seq<char>>) -> Seq<char> {
    match t {
        Some(t) => t,
        None => "-"@,
    }
}

/// A number or zero.
pub open spec fn or_zero(n: Option<u64>) -> u64 {
    match n {
        Some(n) => n,
        None => 0,
    }
}

/// A text or the mark of a missing record.
pub open spec fn or_none(t: Option<Seq<char>>) -> Seq<char> {
    match t {
        Some(t) => t,
        None => "(none)"@,
    }
}

/// The characters of an optional text.
pub open spec fn text_of(t: Option<String>) -> Option<Seq<char>> {
    match t {
        Some(t) => Some(t@),
        None => None,
    }
}

/// Type and value of DNS records, each with a dash for what is missing.
pub open spec fn dns_texts(list: Seq<(Option<Seq<char>>, Option<Seq<char>>)>) -> Seq<(Seq<char>, Seq<char>)> {
    list.map_values(|e: (Option<Seq<char>>, Option<Seq<char>>)| (or_dash(e.0), or_dash(e.1)))
}

/// The characters of optional texts in pairs.
pub open spec fn text_pairs(list: Seq<(Option<String>, Option<String>)>) -> Seq<
    (Option<Seq<char>>, Option<Seq<char>>),
> {
    list.map_values(|e: (Option<String>, Option<String>)| (text_of(e.0), text_of(e.1)))
}

/// The card of a domain reply.
pub fn reply_card(reply: DomainReply) -> (card: DomainCard)
    ensures
        card@.name == or_dash(text_of(reply.name)),
        card@.domain_id == or_dash(text_of(reply.domain_id)),
        card@.registered == (reply.registered == Some(true)),
        card@.owner == or_dash(text_of(reply.owner)),
        card@.sequence == or_zero(reply.sequence),
        card@.record_hash == or_none(text_of(reply.record_hash)),
        card@.dns == (match reply.dns {
            Some(list) => dns_texts(text_pairs(list@)),
            None => Seq::empty(),
        }),
{
    let mut dns: Vec<DnsEntry> = Vec::new();
    match reply.dns {
        Some(list) => {
            let mut i: usize = 0;
            let n: usize = list.len();
            while i < n
                invariant
                    n == list@.len(),
                    i <= n,
                    dns@.len() == i,
                    forall|j: int|
                        0 <= j < i ==> (#[trigger] dns@[j]).kind@ == or_dash(text_of(list@[j].0)) && dns@[j].value@
                            == or_dash(text_of(list@[j].1)),
                decreases n - i,
            {
                let e = &list[i];
                let kind = match &e.0 {
                    Some(t) => Some(t.clone()),
                    None => None,
                };
                let value = match &e.1 {
                    Some(t) => Some(t.clone()),
                    None => None,
                };
                dns.push(DnsEntry { kind: text_or_dash(kind), value: text_or_dash(value) });
                i += 1;
            }
            assert(dns@.map_values(|e: DnsEntry| (e.kind@, e.value@)) =~= dns_texts(text_pairs(list@)));
        },
        None => {
            assert(dns@.map_values(|e: DnsEntry| (e.kind@, e.value@)) =~= Seq::empty());
        },
    }
    DomainCard {
        name: text_or_dash(reply.name),
        domain_id: text_or_dash(reply.domain_id),
        registered: match reply.registered {
            Some(r) => r,
            None => false,
        },
        owner: text_or_dash(reply.owner),
        sequence: number_or_zero(reply.sequence),
        record_hash: match reply.record_hash {
            Some(t) => t,
            None => String::from_str("(none)"),
        },
        dns,
    }
}

/// One identity of the local keystore.
#[derive(Debug, PartialEq, Eq)]
pub struct IdentityRow {
    pub name: String,
    pub owner_id: String,
}

impl Clone for IdentityRow {
    fn clone(&self) -> (copy: IdentityRow)
        ensures
            copy == *self,
    {
        IdentityRow { name: self.name.clone(), owner_id: self.owner_id.clone() }
    }
}

/// The rows of the identities found: their owner ids are not known without
/// unlocking them.
pub fn list_identities(names: Vec<String>) -> (rows: Vec<IdentityRow>)
    ensures
        rows@.len() == names@.len(),
        forall|i: int|
            0 <= i < rows@.len() ==> (#[trigger] rows@[i]).name@ == names@[i]@ && rows@[i].owner_id@
                == Seq::<char>::empty(),
{
    let mut rows: Vec<IdentityRow> = Vec::new();
    let mut i: usize = 0;
    while i < names.len()
        invariant
            i <= names@.len(),
            rows@.len() == i,
            forall|j: int|
                0 <= j < i ==> (#[trigger] rows@[j]).name@ == names@[j]@ && rows@[j].owner_id@
                    == Seq::<char>::empty(),
        decreases names@.len() - i,
    {
        rows.push(IdentityRow { name: names[i].clone(), owner_id: String::new() });
        i += 1;
    }
    rows
}

/// Domains of one owner.
#[derive(Debug, PartialEq)]
pub struct OwnerPortfolio {
    pub domains: Vec<DomainCard>,
}

impl Clone for OwnerPortfolio {
    fn clone(&self) -> (copy: OwnerPortfolio)
        ensures
            card_models(copy.domains@) == card_models(self.domains@),
    {
        let mut domains: Vec<DomainCard> = Vec::new();
        let mut i: usize = 0;
        while i < self.domains.len()
            invariant
                i <= self.domains@.len(),
                domains@.len() == i,
                forall|j: int| 0 <= j < i ==> (#[trigger] domains@[j])@ == self.domains@[j]@,
            decreases self.domains@.len() - i,
        {
            domains.push(self.domains[i].clone());
            i += 1;
        }
        assert(card_models(domains@) =~= card_models(self.domains@));
        OwnerPortfolio { domains }
    }
}

impl Default for OwnerPortfolio {
    fn default() -> (portfolio: OwnerPortfolio)
        ensures
            portfolio.domains@ == Seq::<DomainCard>::empty(),
    {
        OwnerPortfolio { domains: Vec::new() }
    }
}

/// A row of the domain table: its key, and the state it decodes to or why it
/// does not.
pub struct StoreRow {
    pub key: Vec<u8>,
    pub state: Result<DomainState, String>,
}

/// Bytes before each stored block: the block index header.
pub const BLOCK_INDEX_HEADER: usize = 40;

/// The block inside a value of the block table.
pub fn block_body(raw: &Vec<u8>) -> (r: Result<Vec<u8>, GuiError>)
    ensures
        if raw@.len() < BLOCK_INDEX_HEADER {
            r is Err && r->Err_0@ == (GuiErrorKind::Corrupted, "blocks_by_height: short header"@)
        } else {
            r is Ok && r->Ok_0@ == raw@.skip(BLOCK_INDEX_HEADER as int)
        },
{
    if raw.len() < BLOCK_INDEX_HEADER {
        return Err(GuiError::Corrupted(String::from_str("blocks_by_height: short header")));
    }
    let mut body: Vec<u8> = Vec::new();
    append_bytes(&mut body, vstd::slice::slice_subrange(raw.as_slice(), BLOCK_INDEX_HEADER, raw.len()));
    assert(body@ =~= raw@.skip(BLOCK_INDEX_HEADER as int));
    Ok(body)
}

/// Names by domain id, with those that some transactions register.
pub open spec fn names_with(names: Map<DomainId, String>, txs: Seq<TxModel>) -> Map<DomainId, String>
    decreases txs.len(),
{
    if txs.len() == 0 {
        names
    } else {
        let rest = names_with(names, txs.drop_last());
        match txs.last().body {
            TxBody::RegisterDomain { name, domain_id, parent } => rest.insert(domain_id, name),
            _ => rest,
        }
    }
}

/// Notes the names that a block's transactions register.
pub fn domain_names(names: &mut IdMap<String>, txs: &Vec<Transaction>)
    requires
        old(names).wf(),
    ensures
        final(names).wf(),
        final(names)@ == names_with(old(names)@, tx_models(txs@)),
{
    let ghost models = tx_models(txs@);
    let ghost first = names@;
    let mut i: usize = 0;
    assert(models.subrange(0, 0) =~= Seq::empty());
    while i < txs.len()
        invariant
            names.wf(),
            i <= txs@.len(),
            models == tx_models(txs@),
            names@ == names_with(first, models.subrange(0, i as int)),
        decreases txs@.len() - i,
    {
        proof {
            let more = models.subrange(0, i + 1);
            assert(more.drop_last() =~= models.subrange(0, i as int));
            assert(more.last() == txs@[i as int]@);
        }
        match &txs[i].body {
            TxBody::RegisterDomain { name, domain_id, parent: _ } => {
                names.insert(*domain_id, name.clone());
            },
            _ => {},
        }
        i += 1;
    }
    assert(models.subrange(0, i as int) =~= models);
}

/// Card of a stored domain: its name where one is known, else its id in
/// brackets.
pub open spec fn stored_card(id: DomainId, st: DomainState, names: Map<DomainId, String>) -> CardModel {
    CardModel {
        name: if names.contains_key(id) {
            names[id]@
        } else {
            "("@ + hex_text(id@) + ")"@
        },
        domain_id: hex_text(id@),
        registered: true,
        owner: hex_text(st.owner@),
        sequence: st.sequence,
        record_hash: match st.record_hash {
            Some(h) => hex_text(h@),
            None => "(none)"@,
        },
        dns: Seq::empty(),
    }
}

/// Cards of the rows that an owner holds, in row order, or the first thing
/// that is wrong with a row.
pub open spec fn owned_cards(rows: Seq<StoreRow>, owner: OwnerId, names: Map<DomainId, String>) -> Result<
    Seq<CardModel>,
    (GuiErrorKind, Seq<char>),
>
    decreases rows.len(),
{
    if rows.len() == 0 {
        Ok(Seq::empty())
    } else {
        match owned_cards(rows.drop_last(), owner, names) {
            Err(e) => Err(e),
            Ok(cards) => match rows.last().state {
                Err(text) => Err((GuiErrorKind::Corrupted, text@)),
                Ok(st) => if st.owner != owner {
                    Ok(cards)
                } else if rows.last().key@.len() != 32 {
                    Err((GuiErrorKind::Corrupted, "domain key"@))
                } else {
                    Ok(cards.push(stored_card(digest_of(rows.last().key@), st, names)))
                },
            },
        }
    }
}

/// A card added behind all cards that its name does not come before.
pub open spec fn with_card(cards: Seq<CardModel>, c: CardModel) -> Seq<CardModel>
    decreases cards.len(),
{
    if cards.len() == 0 || !text_order(c.name, cards.last().name) {
        cards.push(c)
    } else {
        with_card(cards.drop_last(), c).push(cards.last())
    }
}

/// Cards in order of their names; equal names keep their order.
pub open spec fn by_name(cards: Seq<CardModel>) -> Seq<CardModel>
    decreases cards.len(),
{
    if cards.len() == 0 {
        Seq::empty()
    } else {
        with_card(by_name(cards.drop_last()), cards.last())
    }
}

/// Card of a stored domain.
fn card_of(id: &DomainId, st: &DomainState, names: &IdMap<String>) -> (card: DomainCard)
    requires
        names.wf(),
    ensures
        card@ == stored_card(*id, *st, names@),
{
    let id_text = hex64(id);
    let name = match names.get(id) {
        Some(n) => n.clone(),
        None => {
            let mut text = joined("(", id_text.as_str());
            text.append(")");
            text
        },
    };
    let record_hash = match &st.record_hash {
        Some(h) => hex64(h),
        None => String::from_str("(none)"),
    };
    let dns: Vec<DnsEntry> = Vec::new();
    assert(dns@.map_values(|e: DnsEntry| (e.kind@, e.value@)) =~= Seq::empty());
    DomainCard {
        name,
        domain_id: id_text,
        registered: true,
        owner: hex64(&st.owner),
        sequence: st.sequence,
        record_hash,
        dns,
    }
}

proof fn lemma_with_card(cards: Seq<CardModel>, c: CardModel, pos: int)
    requires
        0 <= pos <= cards.len(),
        forall|i: int| pos <= i < cards.len() ==> text_order(c.name, (#[trigger] cards[i]).name),
        pos > 0 ==> !text_order(c.name, cards[pos - 1].name),
    ensures
        with_card(cards, c) == cards.insert(pos, c),
    decreases cards.len(),
{
    if pos == cards.len() {
        assert(cards.insert(pos, c) =~= cards.push(c));
        if cards.len() > 0 {
            assert(cards.last() == cards[pos - 1]);
        }
    } else {
        let rest = cards.drop_last();
        assert(text_order(c.name, cards[cards.len() - 1].name));
        assert forall|i: int| pos <= i < rest.len() implies text_order(c.name, (#[trigger] rest[i]).name) by {
            assert(rest[i] == cards[i]);
        }
        lemma_with_card(rest, c, pos);
        assert(cards.insert(pos, c) =~= rest.insert(pos, c).push(cards.last()));
    }
}

/// Adds a card in order of its name.
fn place_card(cards: &mut Vec<DomainCard>, card: DomainCard)
    ensures
        card_models(final(cards)@) == with_card(card_models(old(cards)@), card@),
{
    let ghost models = card_models(cards@);
    let ghost c = card@;
    let mut pos: usize = cards.len();
    while pos > 0 && text_before(card.name.as_str(), cards[pos - 1].name.as_str())
        invariant
            pos <= cards@.len(),
            cards@ == old(cards)@,
            models == card_models(cards@),
            c == card@,
            forall|i: int| pos <= i < models.len() ==> text_order(c.name, (#[trigger] models[i]).name),
        ensures
            pos <= cards@.len(),
            cards@ == old(cards)@,
            forall|i: int| pos <= i < models.len() ==> text_order(c.name, (#[trigger] models[i]).name),
            pos > 0 ==> !text_order(c.name, models[pos - 1].name),
        decreases pos,
    {
        assert(models[pos - 1] == cards@[pos - 1]@);
        pos -= 1;
    }
    proof {
        lemma_with_card(models, c, pos as int);
    }
    let ghost before = cards@;
    cards.insert(pos, card);
    assert(card_models(cards@) =~= models.insert(pos as int, c));
}

/// The domains of an owner among the rows of the domain table, in order of
/// their names.
pub fn explore_store(owner: &OwnerId, rows: &Vec<StoreRow>, names: &IdMap<String>) -> (r: Result<
    OwnerPortfolio,
    GuiError,
>)
    requires
        names.wf(),
    ensures
        match owned_cards(rows@, *owner, names@) {
            Err(e) => r is Err && r->Err_0@ == e,
            Ok(cards) => r is Ok && card_models(r->Ok_0.domains@) == by_name(cards),
        },
{
    let mut domains: Vec<DomainCard> = Vec::new();
    let mut i: usize = 0;
    proof {
        assert(rows@.subrange(0, 0) =~= Seq::empty());
        assert(card_models(domains@) =~= by_name(Seq::empty()));
    }
    while i < rows.len()
        invariant
            names.wf(),
            i <= rows@.len(),
            owned_cards(rows@.subrange(0, i as int), *owner, names@) is Ok,
            card_models(domains@) == by_name(owned_cards(rows@.subrange(0, i as int), *owner, names@)->Ok_0),
        decreases rows@.len() - i,
    {
        let row = &rows[i];
        let ghost more = rows@.subrange(0, i + 1);
        proof {
            assert(more.drop_last() =~= rows@.subrange(0, i as int));
            assert(more.last() == rows@[i as int]);
        }
        match &row.state {
            Err(text) => {
                proof {
                    lemma_cards_stop(rows@, *owner, names@, i + 1);
                }
                return Err(GuiError::Corrupted(text.clone()));
            },
            Ok(st) => {
                if same_id(&st.owner, owner) {
                    if row.key.len() != 32 {
                        proof {
                            lemma_cards_stop(rows@, *owner, names@, i + 1);
                        }
                        return Err(GuiError::Corrupted(String::from_str("domain key")));
                    }
                    let id = digest_at(row.key.as_slice(), 0);
                    proof {
                        assert(row.key@.subrange(0, 32) =~= row.key@);
                        lemma_digest_of(id);
                        let cards = owned_cards(more.drop_last(), *owner, names@)->Ok_0;
                        let c = stored_card(id, *st, names@);
                        assert(cards.push(c).drop_last() =~= cards);
                    }
                    let card = card_of(&id, st, names);
                    place_card(&mut domains, card);
                }
            },
        }
        i += 1;
    }
    assert(rows@.subrange(0, i as int) =~= rows@);
    Ok(OwnerPortfolio { domains })
}

proof fn lemma_cards_stop(rows: Seq<StoreRow>, owner: OwnerId, names: Map<DomainId, String>, n: int)
    requires
        0 <= n <= rows.len(),
        owned_cards(rows.subrange(0, n), owner, names) is Err,
    ensures
        owned_cards(rows, owner, names) == owned_cards(rows.subrange(0, n), owner, names),
    decreases rows.len() - n,
{
    if n == rows.len() {
        assert(rows.subrange(0, n) =~= rows);
    } else {
        assert(rows.subrange(0, n + 1).drop_last() =~= rows.subrange(0, n));
        lemma_cards_stop(rows, owner, names, n + 1);
    }
}

/// Byte order is total: what does not come before one string, which does not
/// come before another, does not come before that one.
proof fn lemma_bytes_order(a: Seq<u8>, b: Seq<u8>, c: Seq<u8>)
    requires
        !bytes_before(a, b),
        !bytes_before(b, c),
    ensures
        !bytes_before(a, c),
    decreases a.len(),
{
    if a.len() > 0 && b.len() > 0 && c.len() > 0 {
        if a[0] == c[0] {
            lemma_bytes_order(a.drop_first(), b.drop_first(), c.drop_first());
        }
    }
}

/// A portfolio lists an owner's cards once each, and no name comes before
/// one listed earlier.
pub proof fn law_portfolio_is_sorted(cards: Seq<CardModel>)
    ensures
        by_name(cards).len() == cards.len(),
        by_name(cards).to_multiset() == cards.to_multiset(),
        forall|i: int, j: int|
            0 <= i < j < cards.len() ==> !text_order(
                (#[trigger] by_name(cards)[j]).name,
                (#[trigger] by_name(cards)[i]).name,
            ),
    decreases cards.len(),
{
    broadcast use vstd::seq_lib::group_to_multiset_ensures;

    if cards.len() > 0 {
        let rest = cards.drop_last();
        law_portfolio_is_sorted(rest);
        lemma_with_card_sorted(by_name(rest), cards.last());
        assert(cards =~= rest.push(cards.last()));
    } else {
        assert(by_name(cards) =~= cards);
    }
}

proof fn lemma_with_card_sorted(s: Seq<CardModel>, c: CardModel)
    requires
        forall|i: int, j: int|
            0 <= i < j < s.len() ==> !text_order((#[trigger] s[j]).name, (#[trigger] s[i]).name),
    ensures
        with_card(s, c).len() == s.len() + 1,
        with_card(s, c).to_multiset() == s.to_multiset().insert(c),
        forall|i: int, j: int|
            0 <= i < j < s.len() + 1 ==> !text_order(
                (#[trigger] with_card(s, c)[j]).name,
                (#[trigger] with_card(s, c)[i]).name,
            ),
        forall|i: int|
            0 <= i < s.len() + 1 ==> (#[trigger] with_card(s, c)[i]) == c || s.contains(with_card(s, c)[i]),
    decreases s.len(),
{
    broadcast use vstd::seq_lib::group_to_multiset_ensures;

    let t = with_card(s, c);
    if s.len() == 0 || !text_order(c.name, s.last().name) {
        assert forall|i: int, j: int| 0 <= i < j < t.len() implies !text_order(
            (#[trigger] t[j]).name,
            (#[trigger] t[i]).name,
        ) by {
            if j == s.len() {
                if i < s.len() - 1 {
                    let last = s.len() - 1;
                    assert(!text_order(s[last].name, s[i].name));
                    lemma_bytes_order(encode_utf8(c.name), encode_utf8(s[last].name), encode_utf8(s[i].name));
                }
            } else {
                assert(t[j] == s[j] && t[i] == s[i]);
            }
        }
    } else {
        let rest = s.drop_last();
        lemma_with_card_sorted(rest, c);
        let u = with_card(rest, c);
        let last = s.last();
        assert(s =~= rest.push(last));
        lemma_order_asymmetric(encode_utf8(c.name), encode_utf8(last.name));
        assert forall|i: int, j: int| 0 <= i < j < t.len() implies !text_order(
            (#[trigger] t[j]).name,
            (#[trigger] t[i]).name,
        ) by {
            if j == u.len() {
                assert(t[i] == u[i]);
                if u[i] != c {
                    assert(rest.contains(u[i]));
                    let k = choose|k: int| 0 <= k < rest.len() && rest[k] == u[i];
                    assert(!text_order(s[s.len() - 1].name, s[k].name));
                }
            } else {
                assert(t[j] == u[j] && t[i] == u[i]);
            }
        }
        assert forall|i: int| 0 <= i < t.len() implies (#[trigger] t[i]) == c || s.contains(t[i]) by {
            if i < u.len() {
                assert(t[i] == u[i]);
                if u[i] != c {
                    let k = choose|k: int| 0 <= k < rest.len() && rest[k] == u[i];
                    assert(s[k] == t[i]);
                }
            } else {
                assert(s[s.len() - 1] == t[i]);
            }
        }
        assert(t.to_multiset() =~= s.to_multiset().insert(c));
    }
}

proof fn lemma_order_asymmetric(a: Seq<u8>, b: Seq<u8>)
    requires
        bytes_before(a, b),
    ensures
        !bytes_before(b, a),
    decreases a.len(),
{
    if a.len() > 0 && a[0] == b[0] {
        lemma_order_asymmetric(a.drop_first(), b.drop_first());
    }
}

} // verus!
