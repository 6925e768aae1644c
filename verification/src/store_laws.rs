//! What an owner is shown of a store: their domains, each once, as stored.
use vstd::prelude::*;
use crate::entry::DomainState;
use crate::entry::digest_of;
use crate::gui::CardModel;
use crate::gui::GuiErrorKind;
use crate::gui::StoreRow;
use crate::gui::by_name;
use crate::gui::dns_texts;
use crate::gui::hex_text;
use crate::gui::names_with;
use crate::gui::owned_cards;
use crate::gui::stored_card;
use crate::gui::with_card;
use crate::idmap::holds_key;
use crate::ids::DomainId;
use crate::ids::OwnerId;
use crate::ids::ordinal;
use crate::json::json_flags;
use crate::json::json_lists;
use crate::json::member;
use crate::relay::Lookup;
use crate::relay::lookup_after;
use crate::state_backend::Pkey;
use crate::state_backend::is_page;
use crate::text::decimal;
use crate::text::text_order;
use crate::types::TxBody;
use crate::types::TxModel;

verus! {

/// Whether a row is one that an owner holds.
pub open spec fn holds_row(row: StoreRow, owner: OwnerId) -> bool {
    row.state matches Ok(st) && st.owner == owner
}

/// Whether nothing is wrong with a row as an owner's portfolio reads it.
pub open spec fn sound_row(row: StoreRow, owner: OwnerId) -> bool {
    row.state is Ok && (holds_row(row, owner) ==> row.key@.len() == 32)
}

/// A portfolio is shown exactly if nothing is wrong with a row, and holds the
/// domains of the owner and no others, one card for each row.
pub proof fn law_portfolio(rows: Seq<StoreRow>, owner: OwnerId, names: Map<DomainId, String>, c: CardModel)
    ensures
        owned_cards(rows, owner, names) is Ok <==> forall|i: int|
            0 <= i < rows.len() ==> sound_row(#[trigger] rows[i], owner),
        owned_cards(rows, owner, names) matches Ok(cards) ==> {
            &&& cards.len() == rows.filter(|row: StoreRow| holds_row(row, owner)).len()
            &&& cards.contains(c) <==> exists|i: int|
                0 <= i < rows.len() && holds_row(#[trigger] rows[i], owner) && c == stored_card(
                    digest_of(rows[i].key@),
                    rows[i].state->Ok_0,
                    names,
                )
        },
        owned_cards(rows, owner, names) matches Err(e) ==> e.0 == GuiErrorKind::Corrupted,
    decreases rows.len(),
{
    reveal(Seq::filter);
    if rows.len() > 0 {
        let front = rows.drop_last();
        let last = rows.last();
        let n = front.len() as int;
        law_portfolio(front, owner, names, c);
        assert(rows[n] == last);
        assert forall|i: int| 0 <= i < n implies #[trigger] front[i] == rows[i] by {}
        if forall|i: int| 0 <= i < rows.len() ==> sound_row(#[trigger] rows[i], owner) {
            assert forall|i: int| 0 <= i < n implies sound_row(#[trigger] front[i], owner) by {
                assert(sound_row(rows[i], owner));
            }
            assert(sound_row(rows[n], owner));
        }
        if owned_cards(rows, owner, names) is Ok {
            let cards = owned_cards(front, owner, names)->Ok_0;
            let all = owned_cards(rows, owner, names)->Ok_0;
            let mine = stored_card(digest_of(last.key@), last.state->Ok_0, names);
            assert forall|i: int| 0 <= i < rows.len() implies sound_row(#[trigger] rows[i], owner) by {
                if i < n {
                    assert(sound_row(front[i], owner));
                }
            }
            if cards.contains(c) {
                let i = choose|i: int|
                    0 <= i < front.len() && holds_row(#[trigger] front[i], owner) && c == stored_card(
                        digest_of(front[i].key@),
                        front[i].state->Ok_0,
                        names,
                    );
                assert(holds_row(rows[i], owner));
                let j = choose|j: int| 0 <= j < cards.len() && cards[j] == c;
                assert(all[j] == c);
            }
            if holds_row(last, owner) {
                assert(all == cards.push(mine));
                assert(all[cards.len() as int] == mine);
                if all.contains(c) {
                    let j = choose|j: int| 0 <= j < all.len() && all[j] == c;
                    if j < cards.len() {
                        assert(cards[j] == c);
                        assert(cards.contains(c));
                    } else {
                        assert(holds_row(rows[n], owner));
                    }
                }
            } else {
                assert(all == cards);
            }
            if exists|i: int|
                0 <= i < rows.len() && holds_row(#[trigger] rows[i], owner) && c == stored_card(
                    digest_of(rows[i].key@),
                    rows[i].state->Ok_0,
                    names,
                ) {
                let i = choose|i: int|
                    0 <= i < rows.len() && holds_row(#[trigger] rows[i], owner) && c == stored_card(
                        digest_of(rows[i].key@),
                        rows[i].state->Ok_0,
                        names,
                    );
                if i < n {
                    assert(holds_row(front[i], owner));
                    assert(cards.contains(c));
                }
            }
        }
    }
}

/// A card shows the domain as it is stored: its id, its owner, its sequence,
/// and its records or that there are none, under its name where one is known.
pub proof fn law_card(id: DomainId, st: DomainState, names: Map<DomainId, String>)
    ensures
        ({
            let c = stored_card(id, st, names);
            &&& c.registered
            &&& c.domain_id == hex_text(id@)
            &&& c.owner == hex_text(st.owner@)
            &&& c.sequence == st.sequence
            &&& st.record_hash matches Some(h) ==> c.record_hash == hex_text(h@)
            &&& st.record_hash is None ==> c.record_hash == "(none)"@
            &&& names.contains_key(id) ==> c.name == names[id]@
            &&& !names.contains_key(id) ==> c.name == "("@ + hex_text(id@) + ")"@
            &&& c.dns.len() == 0
        }),
{
}

/// A domain has the name under which it was registered last, or the one it
/// had.
pub proof fn law_names(names: Map<DomainId, String>, txs: Seq<TxModel>, id: DomainId)
    ensures
        ({
            let all = names_with(names, txs);
            let names_it = |i: int| txs[i].body matches TxBody::RegisterDomain { domain_id, .. } && domain_id == id;
            let named = exists|i: int| 0 <= i < txs.len() && #[trigger] names_it(i);
            &&& all.contains_key(id) <==> names.contains_key(id) || named
            &&& !named && names.contains_key(id) ==> all[id] == names[id]
            &&& named ==> exists|i: int|
                0 <= i < txs.len() && #[trigger] names_it(i) && all[id] == txs[i].body->RegisterDomain_name
                    && forall|j: int| i < j < txs.len() ==> !#[trigger] names_it(j)
        }),
    decreases txs.len(),
{
    let names_it = |i: int| txs[i].body matches TxBody::RegisterDomain { domain_id, .. } && domain_id == id;
    if txs.len() > 0 {
        let front = txs.drop_last();
        let n = front.len() as int;
        let before = |i: int| front[i].body matches TxBody::RegisterDomain { domain_id, .. } && domain_id == id;
        law_names(names, front, id);
        assert(txs[n] == txs.last());
        assert forall|i: int| 0 <= i < n implies #[trigger] names_it(i) == before(i) by {
            assert(front[i] == txs[i]);
        }
        if !names_it(n) {
            if exists|i: int| 0 <= i < front.len() && #[trigger] before(i) {
                let i = choose|i: int|
                    0 <= i < front.len() && #[trigger] before(i) && names_with(names, front)[id]
                        == front[i].body->RegisterDomain_name && forall|j: int|
                        i < j < front.len() ==> !#[trigger] before(j);
                assert(names_it(i));
                assert forall|j: int| i < j < txs.len() implies !#[trigger] names_it(j) by {
                    if j < n {
                        assert(!before(j));
                    }
                }
            }
            if exists|i: int| 0 <= i < txs.len() && #[trigger] names_it(i) {
                let i = choose|i: int| 0 <= i < txs.len() && #[trigger] names_it(i);
                assert(before(i));
            }
        }
    }
}

/// Adding a card in its place adds that card and keeps the others.
proof fn lemma_with_card(cards: Seq<CardModel>, c: CardModel)
    ensures
        with_card(cards, c).to_multiset() == cards.to_multiset().insert(c),
    decreases cards.len(),
{
    broadcast use vstd::seq_lib::group_to_multiset_ensures;

    if !(cards.len() == 0 || !text_order(c.name, cards.last().name)) {
        let front = cards.drop_last();
        lemma_with_card(front, c);
        assert(front.push(cards.last()) =~= cards);
        assert(front.to_multiset().insert(c).insert(cards.last()) =~= front.to_multiset().insert(
            cards.last(),
        ).insert(c));
    }
}

/// Sorting cards by name loses none and adds none.
pub proof fn law_sorting_keeps_the_cards(cards: Seq<CardModel>)
    ensures
        by_name(cards).to_multiset() == cards.to_multiset(),
    decreases cards.len(),
{
    broadcast use vstd::seq_lib::group_to_multiset_ensures;

    if cards.len() > 0 {
        let front = cards.drop_last();
        law_sorting_keeps_the_cards(front);
        lemma_with_card(by_name(front), cards.last());
        assert(front.push(cards.last()) =~= cards);
    } else {
        assert(by_name(cards) =~= cards);
    }
}

/// The number that decimal digits spell.
pub open spec fn spelled(t: Seq<char>) -> int
    decreases t.len(),
{
    if t.len() == 0 {
        0
    } else {
        10 * spelled(t.drop_last()) + (t.last() as int - '0' as int)
    }
}

/// The decimal digits of a number spell it, without a leading zero.
pub proof fn law_decimal(n: nat)
    ensures
        spelled(decimal(n)) == n,
        decimal(n).len() > 0,
        decimal(n).len() > 1 ==> decimal(n)[0] != '0',
        decimal(n)[0] == '0' ==> n == 0,
    decreases n,
{
    reveal_with_fuel(spelled, 2);
    if n < 10 {
        assert(decimal(n).drop_last() =~= Seq::empty());
    } else {
        law_decimal(n / 10);
        assert(decimal(n).drop_last() =~= decimal(n / 10));
        assert(decimal(n)[0] == decimal(n / 10)[0]);
    }
}

/// A reply's records are shown one by one, in order, each with its type and
/// its value, or a dash for what is missing.
pub proof fn law_shown_records(list: Seq<(Option<Seq<char>>, Option<Seq<char>>)>, i: int)
    requires
        0 <= i < list.len(),
    ensures
        dns_texts(list).len() == list.len(),
        list[i].0 matches Some(t) ==> dns_texts(list)[i].0 == t,
        list[i].1 matches Some(t) ==> dns_texts(list)[i].1 == t,
        list[i].0 is None ==> dns_texts(list)[i].0 == "-"@,
        list[i].1 is None ==> dns_texts(list)[i].1 == "-"@,
{
}

/// A name is resolved only if the first reply shows no record of it, and the
/// card is asked for again only if the resolved record was verified; nothing
/// follows a failed question.
pub proof fn law_lookup(stage: Lookup, reply: Option<serde_json::Value>)
    ensures
        lookup_after(stage, reply) == Lookup::Record <==> stage == Lookup::Info && (reply matches Some(v) && (member(
            json_lists(v),
            "dns"@,
        ) matches Some(list) ==> list.len() == 0)),
        lookup_after(stage, reply) == Lookup::Again <==> stage == Lookup::Record && (reply matches Some(v) && member(
            json_flags(v),
            "verified"@,
        ) == Some(true)),
        lookup_after(stage, reply) == Lookup::Record || lookup_after(stage, reply) == Lookup::Again || lookup_after(
            stage,
            reply,
        ) == Lookup::Done,
{
}

/// Pages of a scan that follow each other share no key and leave none out:
/// whatever is in reach is on one of the two, or at the next cursor or
/// beyond.
pub proof fn law_pages(
    m: Map<Pkey, Seq<u8>>,
    from: Option<Pkey>,
    limit: nat,
    page: Seq<(Pkey, Vec<u8>)>,
    cursor: Pkey,
    next: Seq<(Pkey, Vec<u8>)>,
    after: Option<Pkey>,
    k: Pkey,
)
    requires
        is_page(m, from, limit, page, Some(cursor)),
        is_page(m, Some(cursor), limit, next, after),
        m.contains_key(k),
        from matches Some(f) ==> ordinal(k) >= ordinal(f),
    ensures
        ({
            let first = exists|i: int| 0 <= i < page.len() && (#[trigger] page[i]).0 == k;
            let second = exists|i: int| 0 <= i < next.len() && (#[trigger] next[i]).0 == k;
            &&& !(first && second)
            &&& first || second || (after matches Some(c) && ordinal(k) >= ordinal(c))
            &&& after is None ==> first || second
        }),
{
    if holds_key(page, k) {
        let i = choose|i: int| 0 <= i < page.len() && (#[trigger] page[i]).0 == k;
        assert(page[i].0 == k);
    }
    if holds_key(next, k) {
        let i = choose|i: int| 0 <= i < next.len() && (#[trigger] next[i]).0 == k;
        assert(next[i].0 == k);
    }
}

} // verus!
