//! Replies of a relay, read from JSON.
//!
//! A reply is read member by member; what is missing or of another type
//! shows as a dash, as zero or as no record at all.
use vstd::prelude::*;
use vstd::string::*;
use crate::gui::DomainCard;
use crate::gui::DomainReply;
use crate::gui::RelayStatus;
use crate::gui::StatusReply;
use crate::gui::dns_texts;
use crate::gui::is_verified;
use crate::gui::lacks_records;
use crate::gui::number_or_zero;
use crate::gui::or_dash;
use crate::gui::or_none;
use crate::gui::or_zero;
use crate::gui::reply_card;
use crate::gui::status_card;
use crate::gui::text_of;
use crate::gui::text_or_dash;
use crate::gui::text_pairs;
use crate::json::flag_member;
use crate::json::json_flags;
use crate::json::json_lists;
use crate::json::json_numbers;
use crate::json::json_texts;
use crate::json::list_member;
use crate::json::member;
use crate::json::number_member;
use crate::json::text_member;

verus! {

/// Text members of the records of a DNS list.
pub open spec fn record_members(list: Seq<serde_json::Value>) -> Seq<(Option<Seq<char>>, Option<Seq<char>>)> {
    list.map_values(
        |e: serde_json::Value| (member(json_texts(e), "type"@), member(json_texts(e), "value"@)),
    )
}

/// DNS records of a domain reply.
pub open spec fn reply_dns(v: serde_json::Value) -> Seq<(Seq<char>, Seq<char>)> {
    match member(json_lists(v), "dns"@) {
        Some(list) => dns_texts(record_members(list)),
        None => Seq::empty(),
    }
}

/// A text member; a dash when it is missing or malformed.
pub fn str_field(v: &serde_json::Value, key: &str) -> (text: String)
    ensures
        text@ == or_dash(member(json_texts(*v), key@)),
{
    text_or_dash(text_member(v, key))
}

/// A number member; zero when it is missing or malformed.
pub fn u64_field(v: &serde_json::Value, key: &str) -> (n: u64)
    ensures
        n == or_zero(member(json_numbers(*v), key@)),
{
    number_or_zero(number_member(v, key))
}

/// The status card of a `status` reply.
pub fn relay_status(v: &serde_json::Value) -> (status: RelayStatus)
    ensures
        status.peer_id@ == or_dash(member(json_texts(*v), "peer_id"@)),
        status.tip@ == or_dash(member(json_texts(*v), "tip"@)),
        status.height == or_zero(member(json_numbers(*v), "height"@)),
        status.peers == or_zero(member(json_numbers(*v), "peers"@)),
        status.domain_count == or_zero(member(json_numbers(*v), "domain_count"@)),
        status.mempool == or_zero(member(json_numbers(*v), "mempool"@)),
{
    status_card(
        StatusReply {
            peer_id: text_member(v, "peer_id"),
            tip: text_member(v, "tip"),
            height: number_member(v, "height"),
            peers: number_member(v, "peers"),
            domain_count: number_member(v, "domain_count"),
            mempool: number_member(v, "mempool"),
        },
    )
}

/// Whether a record should be looked up before a card is shown: while the
/// reply holds no DNS record of the name.
pub fn wants_resolution(v: &serde_json::Value) -> (r: bool)
    ensures
        r == reply_lacks_records(*v),
{
    let dns: Option<usize> = match list_member(v, "dns") {
        Some(list) => Some(list.len()),
        None => None,
    };
    lacks_records(dns)
}

/// Whether a lookup reply is worth asking for the card again: only if the
/// record was verified.
pub fn worth_refetching(v: &serde_json::Value) -> (r: bool)
    ensures
        r == (member(json_flags(*v), "verified"@) == Some(true)),
{
    is_verified(flag_member(v, "verified"))
}

/// Stages of the lookup of a domain name.
#[derive(Clone, Copy, Debug, PartialEq, Eq, Structural)]
pub enum Lookup {
    /// The relay is asked what it knows of the name.
    Info,
    /// The relay is asked to resolve the record of the name.
    Record,
    /// The relay is asked again, after it resolved the record.
    Again,
    /// The last reply that was kept is shown.
    Done,
}

/// Stage after a stage and the reply to its question, `None` for a question
/// that failed.
pub open spec fn lookup_after(stage: Lookup, reply: Option<serde_json::Value>) -> Lookup {
    match (stage, reply) {
        (Lookup::Info, Some(v)) if reply_lacks_records(v) => Lookup::Record,
        (Lookup::Record, Some(v)) if member(json_flags(v), "verified"@) == Some(true) => Lookup::Again,
        _ => Lookup::Done,
    }
}

/// Whether a reply holds no DNS record.
pub open spec fn reply_lacks_records(v: serde_json::Value) -> bool {
    match member(json_lists(v), "dns"@) {
        Some(list) => list.len() == 0,
        None => true,
    }
}

impl Lookup {
    /// Whether this stage asks for the card itself. A question for it that
    /// fails ends the lookup with its error, and its reply is what is shown;
    /// a failed resolution only leaves the reply before it.
    pub fn asks_for_card(self) -> (r: bool)
        ensures
            r == (self == Lookup::Info || self == Lookup::Again),
    {
        matches!(self, Lookup::Info | Lookup::Again)
    }

    /// The next stage, given the reply to the question of this one.
    pub fn next(self, reply: Option<&serde_json::Value>) -> (stage: Lookup)
        ensures
            stage == lookup_after(self, (match reply { Some(v) => Some(*v), None => None })),
    {
        match (self, reply) {
            (Lookup::Info, Some(v)) => if wants_resolution(v) {
                Lookup::Record
            } else {
                Lookup::Done
            },
            (Lookup::Record, Some(v)) => if worth_refetching(v) {
                Lookup::Again
            } else {
                Lookup::Done
            },
            _ => Lookup::Done,
        }
    }
}

/// A lookup asks the relay three questions at most.
pub proof fn law_lookup_ends(
    a: Option<serde_json::Value>,
    b: Option<serde_json::Value>,
    c: Option<serde_json::Value>,
)
    ensures
        lookup_after(lookup_after(lookup_after(Lookup::Info, a), b), c) == Lookup::Done,
{
}

/// Type and value of each record of a list.
fn read_records(list: &Vec<serde_json::Value>) -> (records: Vec<(Option<String>, Option<String>)>)
    ensures
        text_pairs(records@) == record_members(list@),
{
    let mut records: Vec<(Option<String>, Option<String>)> = Vec::new();
    let mut i: usize = 0;
    while i < list.len()
        invariant
            i <= list@.len(),
            records@.len() == i,
            forall|j: int|
                0 <= j < i ==> text_of((#[trigger] records@[j]).0) == member(json_texts(list@[j]), "type"@)
                    && text_of(records@[j].1) == member(json_texts(list@[j]), "value"@),
        decreases list@.len() - i,
    {
        records.push((text_member(&list[i], "type"), text_member(&list[i], "value")));
        i += 1;
    }
    assert(text_pairs(records@) =~= record_members(list@));
    records
}

/// The card of a `domain_info` reply.
pub fn domain_card(v: &serde_json::Value) -> (card: DomainCard)
    ensures
        card@.name == or_dash(member(json_texts(*v), "name"@)),
        card@.domain_id == or_dash(member(json_texts(*v), "domain_id"@)),
        card@.registered == (member(json_flags(*v), "registered"@) == Some(true)),
        card@.owner == or_dash(member(json_texts(*v), "owner"@)),
        card@.sequence == or_zero(member(json_numbers(*v), "sequence"@)),
        card@.record_hash == or_none(member(json_texts(*v), "record_hash"@)),
        card@.dns == reply_dns(*v),
{
    let dns = match list_member(v, "dns") {
        Some(list) => Some(read_records(list)),
        None => None,
    };
    reply_card(
        DomainReply {
            name: text_member(v, "name"),
            domain_id: text_member(v, "domain_id"),
            registered: flag_member(v, "registered"),
            owner: text_member(v, "owner"),
            sequence: number_member(v, "sequence"),
            record_hash: text_member(v, "record_hash"),
            dns,
        },
    )
}

} // verus!
