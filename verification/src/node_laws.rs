//! What a node promises: which transactions wait, which blocks enter its
//! chain or its parking, and what its own blocks are.
use vstd::prelude::*;
use crate::block_hash::hash_of_header;
use crate::block_hash::header_digest;
use crate::chain_model::ChainModel;
use crate::chain_model::lemma_extended_layout;
use crate::crypto::ed25519_public;
use crate::crypto::ed25519_signature;
use crate::entry::Entry;
use crate::error::BlockchainError;
use crate::fork_laws::law_attaching;
use crate::fork_laws::law_switching;
use crate::fork_model::adopted;
use crate::fork_model::attached;
use crate::fork_model::open_pre;
use crate::fork_model::tried;
use crate::ids::BlockHash;
use crate::ids::Digest;
use crate::ids::MerkleRoot;
use crate::ids::PublicKey;
use crate::ids::lemma_ordinal_injective;
use crate::ids::ordinal;
use crate::merkle::tx_root_of;
use crate::net::laws::law_best_branch_is_longest;
use crate::net::laws::parked_by_hash;
use crate::node::BlockOutcome;
use crate::node::NodeModel;
use crate::node::TxOutcome;
use crate::node::blocks::AttemptModel;
use crate::node::blocks::attempted;
use crate::node::blocks::drained;
use crate::node::blocks::own_block;
use crate::node::blocks::readopted;
use crate::node::blocks::screened;
use crate::node::blocks::switched_to;
use crate::node::blocks::unparked;
use crate::node::fits_tip;
use crate::node::node_seed;
use crate::node::offered;
use crate::node::precheck_fault;
use crate::node::progressed;
use crate::node::received;
use crate::node::settled;
use crate::node::without;
use crate::parking::best_branch;
use crate::parking::extends_tip;
use crate::parking::forebear;
use crate::parking::is_best_parked;
use crate::parking::is_lowest;
use crate::parking::is_parked_branch;
use crate::parking::next_parked;
use crate::parking::with_room;
use crate::producer::BLOCK_SIGN_TAG;
use crate::rejections::RejectKind;
use crate::state_model::tx_fault;
use crate::txid::tx_id;
use crate::types::BlockModel;
use crate::types::NetworkId;
use crate::types::ProtocolError;
use crate::types::TxBody;
use crate::types::TxModel;
use crate::validate::signature_fault;

verus! {

// ---- Transactions ----------------------------------------------------------

/// What is turned away at first sight the state rules refuse too, whatever
/// the network and the time.
pub proof fn law_first_sight_is_sound(m: ChainModel, t: TxModel, net: NetworkId, now: u64)
    ensures
        precheck_fault(m, t) is Some ==> tx_fault(m.state, net, t, now) is Some,
{
}

/// What is turned away at first sight: registrations under a namespace that
/// is missing or closed, or of a registered domain; updates of an unknown
/// domain, out of sequence, or by another than the owner; claims of a taken
/// namespace; and openings of a namespace by another than its owner.
pub proof fn law_first_sight(m: ChainModel, t: TxModel)
    ensures
        ({
            let entries = m.state.entries;
            precheck_fault(m, t) is None <==> match t.body {
                TxBody::RegisterDomain { domain_id, parent, .. } => {
                    &&& entries.contains_key(parent)
                    &&& entries[parent] matches Entry::Tld(space) && space.open
                    &&& !(entries.contains_key(domain_id) && entries[domain_id] is Domain)
                },
                TxBody::UpdateDomain { domain_id, sequence, .. } => {
                    &&& entries.contains_key(domain_id)
                    &&& entries[domain_id] matches Entry::Domain(st) && sequence == st.sequence + 1 && st.owner
                        == t.owner
                },
                TxBody::RegisterTld { tld_id, .. } => !(entries.contains_key(tld_id) && entries[tld_id] is Tld),
                TxBody::SetTldOpen { tld_id, .. } => {
                    &&& entries.contains_key(tld_id)
                    &&& entries[tld_id] matches Entry::Tld(space) && space.owner == t.owner
                },
                _ => true,
            }
        }),
{
}

/// A transaction is taken exactly if it has an id that was neither seen nor
/// waits, is signed by its owner, is not turned away at first sight and is
/// not in the replay window. It then waits behind all others, of which the
/// oldest leaves if there are 512; nothing else changes. Any other leaves the
/// node as it was.
pub proof fn law_received_transactions(n: NodeModel, t: TxModel)
    ensures
        received(n, t).1 == TxOutcome::New <==> {
            &&& tx_id(t) is Ok
            &&& !n.seen_txs.contains(tx_id(t)->Ok_0)
            &&& forall|i: int| 0 <= i < n.mempool.len() ==> (#[trigger] n.mempool[i]).0 != tx_id(t)->Ok_0
            &&& signature_fault(t) is None
            &&& precheck_fault(n.chain, t) is None
            &&& !n.chain.included.contains_key(tx_id(t)->Ok_0)
        },
        received(n, t).1 == TxOutcome::Duplicate <==> tx_id(t) is Ok && (n.seen_txs.contains(tx_id(t)->Ok_0)
            || exists|i: int| 0 <= i < n.mempool.len() && (#[trigger] n.mempool[i]).0 == tx_id(t)->Ok_0),
        received(n, t).1 != TxOutcome::New ==> received(n, t).0 == n,
        received(n, t).1 == TxOutcome::New ==> {
            let c = received(n, t).0;
            let id = tx_id(t)->Ok_0;
            let k = c.mempool.len();
            &&& k == if n.mempool.len() < 512 {
                n.mempool.len() + 1
            } else {
                n.mempool.len()
            }
            &&& c.mempool[k - 1] == (id, t)
            &&& forall|i: int| 0 <= i < k - 1 ==> #[trigger] c.mempool[i] == n.mempool[n.mempool.len() - (k - 1) + i]
            &&& c.seen_txs == n.seen_txs.insert(id)
            &&& c == NodeModel { mempool: c.mempool, seen_txs: c.seen_txs, ..n }
        },
{
}

/// Whether some transaction has an id.
pub open spec fn has_id(txs: Seq<TxModel>, id: Digest) -> bool {
    exists|i: int| 0 <= i < txs.len() && tx_id(#[trigger] txs[i]) == Ok::<Digest, ProtocolError>(id)
}

/// Taking out the transactions under an id keeps the others in order.
proof fn lemma_without(pool: Seq<(Digest, TxModel)>, id: Digest)
    ensures
        without(pool, id) == pool.filter(|e: (Digest, TxModel)| e.0 != id),
    decreases pool.len(),
{
    reveal(Seq::filter);
    if pool.len() > 0 {
        lemma_without(pool.drop_last(), id);
    }
}

/// Filtering twice is filtering by both.
proof fn lemma_filter_twice(
    pool: Seq<(Digest, TxModel)>,
    p: spec_fn((Digest, TxModel)) -> bool,
    q: spec_fn((Digest, TxModel)) -> bool,
    r: spec_fn((Digest, TxModel)) -> bool,
)
    requires
        forall|e: (Digest, TxModel)| #[trigger] r(e) <==> p(e) && q(e),
    ensures
        pool.filter(p).filter(q) == pool.filter(r),
    decreases pool.len(),
{
    reveal(Seq::filter);
    if pool.len() > 0 {
        let front = pool.drop_last();
        let e = pool.last();
        lemma_filter_twice(front, p, q, r);
        assert(r(e) <==> p(e) && q(e));
        if p(e) {
            let kept = front.filter(p);
            assert(kept.push(e).drop_last() =~= kept);
        }
    }
}

/// Keeping everything changes nothing.
proof fn lemma_filter_all(pool: Seq<(Digest, TxModel)>, p: spec_fn((Digest, TxModel)) -> bool)
    requires
        forall|e: (Digest, TxModel)| #[trigger] p(e),
    ensures
        pool.filter(p) == pool,
    decreases pool.len(),
{
    reveal(Seq::filter);
    if pool.len() > 0 {
        lemma_filter_all(pool.drop_last(), p);
        assert(p(pool.last()));
        assert(pool.drop_last().push(pool.last()) =~= pool);
    }
}

/// When blocks enter the chain, exactly their transactions stop waiting; the
/// others keep their order, and all of them count as seen. Nothing else of
/// the node changes.
pub proof fn law_settled_transactions(n: NodeModel, txs: Seq<TxModel>)
    ensures
        settled(n, txs).mempool == n.mempool.filter(|e: (Digest, TxModel)| !has_id(txs, e.0)),
        forall|id: Digest| #[trigger]
            settled(n, txs).seen_txs.contains(id) <==> n.seen_txs.contains(id) || has_id(txs, id),
        settled(n, txs) == (NodeModel {
            mempool: settled(n, txs).mempool,
            seen_txs: settled(n, txs).seen_txs,
            ..n
        }),
    decreases txs.len(),
{
    let keep = |e: (Digest, TxModel)| !has_id(txs, e.0);
    if txs.len() == 0 {
        lemma_filter_all(n.mempool, keep);
    } else {
        let front = txs.drop_last();
        let last = txs.last();
        law_settled_transactions(n, front);
        let p = settled(n, front);
        let before = |e: (Digest, TxModel)| !has_id(front, e.0);
        assert forall|id: Digest| #[trigger] has_id(txs, id) <==> has_id(front, id) || tx_id(last) == Ok::<
            Digest,
            ProtocolError,
        >(id) by {
            assert(txs[txs.len() - 1] == last);
            if has_id(front, id) {
                let i = choose|i: int|
                    0 <= i < front.len() && tx_id(#[trigger] front[i]) == Ok::<Digest, ProtocolError>(id);
                assert(txs[i] == front[i]);
            }
            if has_id(txs, id) {
                let i = choose|i: int|
                    0 <= i < txs.len() && tx_id(#[trigger] txs[i]) == Ok::<Digest, ProtocolError>(id);
                if i < front.len() {
                    assert(front[i] == txs[i]);
                }
            }
        }
        match tx_id(last) {
            Err(_) => {
                assert(keep =~= before);
            },
            Ok(id) => {
                let other = |e: (Digest, TxModel)| e.0 != id;
                lemma_without(p.mempool, id);
                lemma_filter_twice(n.mempool, before, other, keep);
            },
        }
    }
}

/// A node whose chain moved starts its waiting time anew.
pub proof fn law_progress(n: NodeModel, tick: u64, txs: Seq<TxModel>)
    ensures
        progressed(n, tick, txs).last_progress_tick == tick,
        progressed(n, tick, txs).stuck_rounds == 0,
        progressed(n, tick, txs).chain == n.chain,
        progressed(n, tick, txs).parked == n.parked,
        progressed(n, tick, txs).guard == n.guard,
{
    law_settled_transactions(NodeModel { last_progress_tick: tick, stuck_rounds: 0, ..n }, txs);
}

/// Of the waiting transactions, those go into a block that are not in the
/// replay window and are not turned away at first sight; each of the others
/// is counted once.
pub proof fn law_screening(m: ChainModel, pool: Seq<(Digest, TxModel)>, t: TxModel)
    ensures
        screened(m, pool).0.len() + screened(m, pool).1.len() == pool.len(),
        screened(m, pool).1.contains(t) <==> exists|i: int|
            0 <= i < pool.len() && (#[trigger] pool[i]).1 == t && !m.included.contains_key(pool[i].0)
                && precheck_fault(m, t) is None,
        screened(m, pool).0.len() == 0 <==> forall|i: int|
            0 <= i < pool.len() ==> !m.included.contains_key((#[trigger] pool[i]).0) && precheck_fault(
                m,
                pool[i].1,
            ) is None,
        screened(m, pool).0.len() == 0 ==> screened(m, pool).1 == pool.map_values(
            |e: (Digest, TxModel)| e.1,
        ),
    decreases pool.len(),
{
    if pool.len() > 0 {
        let front = pool.drop_last();
        let (id, last) = pool.last();
        law_screening(m, front, t);
        let (kinds, txs) = screened(m, front);
        let n = front.len() as int;
        assert(pool[n] == (id, last));
        assert forall|i: int| 0 <= i < n implies #[trigger] pool[i] == front[i] by {}
        let good = !m.included.contains_key(id) && precheck_fault(m, last) is None;
        if txs.contains(t) {
            let i = choose|i: int|
                0 <= i < front.len() && (#[trigger] front[i]).1 == t && !m.included.contains_key(front[i].0)
                    && precheck_fault(m, t) is None;
            assert(pool[i].1 == t);
            if good {
                let j = choose|j: int| 0 <= j < txs.len() && txs[j] == t;
                assert(txs.push(last)[j] == t);
            }
        }
        if good {
            assert(txs.push(last)[txs.len() as int] == last);
            if screened(m, pool).1.contains(t) {
                let j = choose|j: int| 0 <= j < txs.push(last).len() && txs.push(last)[j] == t;
                if j < txs.len() {
                    assert(txs[j] == t);
                    assert(txs.contains(t));
                } else {
                    assert(pool[n].1 == t);
                }
            }
        }
        if exists|i: int|
            0 <= i < pool.len() && (#[trigger] pool[i]).1 == t && !m.included.contains_key(pool[i].0)
                && precheck_fault(m, t) is None {
            let i = choose|i: int|
                0 <= i < pool.len() && (#[trigger] pool[i]).1 == t && !m.included.contains_key(pool[i].0)
                    && precheck_fault(m, t) is None;
            if i < n {
                assert(front[i].1 == t);
                assert(txs.contains(t));
            }
        }
        if screened(m, pool).0.len() == 0 {
            assert(good);
            assert(screened(m, pool).1 =~= pool.map_values(|e: (Digest, TxModel)| e.1));
        }
        if forall|i: int|
            0 <= i < pool.len() ==> !m.included.contains_key((#[trigger] pool[i]).0) && precheck_fault(
                m,
                pool[i].1,
            ) is None {
            assert forall|i: int| 0 <= i < n implies !m.included.contains_key((#[trigger] front[i]).0)
                && precheck_fault(m, front[i].1) is None by {
                assert(pool[i] == front[i]);
            }
            assert(pool[n].0 == id);
        }
    } else {
        assert(screened(m, pool).1 =~= pool.map_values(|e: (Digest, TxModel)| e.1));
    }
}

// ---- Blocks -----------------------------------------------------------------

/// A chain that refuses a block outside its place is left as it was.
proof fn lemma_refused_attachment(m: ChainModel, b: BlockModel, lists: Seq<Seq<PublicKey>>)
    requires
        !fits_tip(m, b),
        attached(m, b, lists).1 is Some,
    ensures
        attached(m, b, lists).0 == m,
{
    reveal(tried);
}

/// What becomes of an offered block. One without a hash is turned away, and
/// one that was seen changes nothing. The next block of the chain is pushed:
/// it is accepted or turned away for good, and never parked. Any other is
/// parked under its hash, unless its parent is known and it takes the place
/// of the tip. In all cases but the first the block now counts as seen, and
/// what enters the chain ends it.
pub proof fn law_offered_blocks(n: NodeModel, b: BlockModel, lists: Seq<Seq<PublicKey>>)
    requires
        n.chain.laid_out(),
    ensures
        ({
            let (c, out) = offered(n, b, lists);
            let next = b.header.prev_hash == n.chain.tip && b.header.height == n.chain.canonical.last().header.height
                + 1;
            let known = exists|i: u64| #[trigger]
                n.chain.known.contains_key(i) && n.chain.known[i] == b.header.prev_hash;
            match hash_of_header(b.header) {
                Err(_) => c == n && out == BlockOutcome::Rejected(RejectKind::BadHeader),
                Ok(h) => {
                    &&& out == BlockOutcome::Duplicate <==> n.seen_blocks.contains(h)
                    &&& out == BlockOutcome::Duplicate ==> c == n
                    &&& out != BlockOutcome::Duplicate ==> {
                        &&& c.seen_blocks == n.seen_blocks.insert(h)
                        &&& next ==> (out is Rejected || out == BlockOutcome::Accepted) && (out
                            == BlockOutcome::Accepted <==> tried(n.chain, b, lists[0]).1 is None)
                        &&& out is Rejected ==> next
                        &&& !next && !known ==> out == BlockOutcome::ParkedOrphan
                        &&& !next && known ==> (out == BlockOutcome::Accepted <==> attached(n.chain, b, lists).1 is None)
                        &&& !next && known ==> out == BlockOutcome::Accepted || out == BlockOutcome::ParkedKnown
                        &&& out == BlockOutcome::Accepted ==> c.chain.canonical.last() == b && c.chain.tip == h
                            && c.parked == with_room(n.parked)
                        &&& out == BlockOutcome::ParkedOrphan || out == BlockOutcome::ParkedKnown ==> c.chain
                            == n.chain && c.parked == with_room(n.parked).insert(h, b)
                        &&& out is Rejected ==> c.parked == with_room(n.parked) && c.chain.canonical
                            == n.chain.canonical && c.chain.tip == n.chain.tip
                        &&& c.mempool == n.mempool && c.guard == n.guard && c.pending == n.pending
                    }
                },
            }
        }),
{
    if hash_of_header(b.header) is Ok {
        let h = hash_of_header(b.header)->Ok_0;
        if !n.seen_blocks.contains(h) {
            if fits_tip(n.chain, b) {
                reveal(tried);
                if tried(n.chain, b, lists[0]).1 is None {
                    lemma_extended_layout(n.chain, b, open_pre(b.txs));
                }
            } else if n.chain.knows(b.header.prev_hash) {
                law_attaching(n.chain, b, lists);
                if attached(n.chain, b, lists).1 is Some {
                    lemma_refused_attachment(n.chain, b, lists);
                }
            }
        }
    }
}

/// Some parked block is the lowest.
proof fn lemma_lowest(p: Map<Digest, BlockModel>) -> (k: Digest)
    requires
        p.dom().finite(),
        p.len() > 0,
    ensures
        is_lowest(p, k),
    decreases p.len(),
{
    let x = p.dom().choose();
    assert(p.contains_key(x));
    let rest = p.remove(x);
    if rest.len() == 0 {
        assert forall|j: Digest| #[trigger] p.contains_key(j) implies j == x by {
            if j != x {
                assert(rest.dom().contains(j));
            }
        }
        x
    } else {
        let y = lemma_lowest(rest);
        assert(rest.contains_key(y));
        let lower = p[x].header.height < p[y].header.height || (p[x].header.height == p[y].header.height && ordinal(x)
            <= ordinal(y));
        let k = if lower {
            x
        } else {
            y
        };
        assert forall|j: Digest| #[trigger] p.contains_key(j) implies p[k].header.height < p[j].header.height || (
        p[k].header.height == p[j].header.height && ordinal(k) <= ordinal(j)) by {
            if j != x {
                assert(rest.contains_key(j));
                assert(rest[j] == p[j] && rest[y] == p[y]);
            }
        }
        k
    }
}

/// A parking of 2048 blocks gives up one to make room: the lowest, and of
/// those the one with the lowest hash. A smaller one keeps all.
pub proof fn law_room(p: Map<Digest, BlockModel>)
    requires
        p.dom().finite(),
    ensures
        p.len() < 2048 ==> with_room(p) == p,
        p.len() >= 2048 ==> exists|k: Digest|
            {
                &&& #[trigger] p.contains_key(k)
                &&& with_room(p) == p.remove(k)
                &&& forall|j: Digest| #[trigger]
                    p.contains_key(j) && j != k ==> p[k].header.height < p[j].header.height || (p[k].header.height
                        == p[j].header.height && ordinal(k) < ordinal(j))
            },
{
    if p.len() >= 2048 {
        let w = lemma_lowest(p);
        let k = choose|k: Digest| is_lowest(p, k);
        assert(p.contains_key(k));
        assert forall|j: Digest| #[trigger] p.contains_key(j) && j != k implies p[k].header.height
            < p[j].header.height || (p[k].header.height == p[j].header.height && ordinal(k) < ordinal(j)) by {
            if ordinal(k) == ordinal(j) {
                lemma_ordinal_injective(k, j);
            }
        }
    }
}

/// Among some parked blocks that extend a tip, one has the lowest hash.
proof fn lemma_lowest_extension(
    p: Map<Digest, BlockModel>,
    ks: Set<Digest>,
    tip: BlockHash,
    height: u64,
) -> (k: Digest)
    requires
        ks.finite(),
        ks.len() > 0,
        forall|j: Digest| #[trigger] ks.contains(j) ==> extends_tip(p, j, tip, height),
    ensures
        ks.contains(k),
        forall|j: Digest| #[trigger] ks.contains(j) ==> ordinal(k) <= ordinal(j),
    decreases ks.len(),
{
    let x = ks.choose();
    let rest = ks.remove(x);
    if rest.len() == 0 {
        assert forall|j: Digest| #[trigger] ks.contains(j) implies j == x by {
            if j != x {
                assert(rest.contains(j));
            }
        }
        x
    } else {
        let y = lemma_lowest_extension(p, rest, tip, height);
        let k = if ordinal(x) <= ordinal(y) {
            x
        } else {
            y
        };
        assert forall|j: Digest| #[trigger] ks.contains(j) implies ordinal(k) <= ordinal(j) by {
            if j != x {
                assert(rest.contains(j));
            }
        }
        k
    }
}

/// The parked block that comes next stands on the tip at the next height, and
/// has the lowest hash of those that do; there is none only if none does.
pub proof fn law_next_parked(p: Map<Digest, BlockModel>, tip: BlockHash, height: u64)
    requires
        p.dom().finite(),
    ensures
        match next_parked(p, tip, height) {
            Some(k) => p.contains_key(k) && p[k].header.prev_hash == tip && p[k].header.height == height + 1
                && forall|j: Digest| #[trigger]
                p.contains_key(j) && p[j].header.prev_hash == tip && p[j].header.height == height + 1 ==> ordinal(k)
                    <= ordinal(j),
            None => forall|j: Digest| #[trigger]
                p.contains_key(j) ==> p[j].header.prev_hash != tip || p[j].header.height != height + 1,
        },
{
    if exists|k: Digest| extends_tip(p, k, tip, height) {
        let ks = p.dom().filter(|k: Digest| extends_tip(p, k, tip, height));
        let e = choose|k: Digest| extends_tip(p, k, tip, height);
        assert(ks.contains(e));
        let w = lemma_lowest_extension(p, ks, tip, height);
        assert(extends_tip(p, w, tip, height) && forall|j: Digest| #[trigger]
            extends_tip(p, j, tip, height) ==> ordinal(w) <= ordinal(j)) by {
            assert forall|j: Digest| #[trigger] extends_tip(p, j, tip, height) implies ordinal(w) <= ordinal(j) by {
                assert(ks.contains(j));
            }
        }
        let k = next_parked(p, tip, height)->0;
        assert(extends_tip(p, k, tip, height));
        assert forall|j: Digest| #[trigger]
            p.contains_key(j) && p[j].header.prev_hash == tip && p[j].header.height == height + 1 implies ordinal(k)
            <= ordinal(j) by {
            assert(extends_tip(p, j, tip, height));
        }
    } else {
        assert forall|j: Digest| #[trigger] p.contains_key(j) implies p[j].header.prev_hash != tip
            || p[j].header.height != height + 1 by {
            assert(!extends_tip(p, j, tip, height));
        }
    }
}

/// Draining pushes the next parked block: what the chain takes leaves the
/// parking and ends the chain; what it refuses stays parked.
pub proof fn law_draining(n: NodeModel, producers: Seq<PublicKey>)
    requires
        n.chain.laid_out(),
        n.parked.dom().finite(),
    ensures
        ({
            let (c, moved) = drained(n, producers);
            let next = next_parked(n.parked, n.chain.tip, n.chain.canonical.last().header.height);
            &&& next is None ==> c == n && !moved
            &&& next matches Some(k) ==> {
                &&& moved <==> tried(n.chain, n.parked[k], producers).1 is None
                &&& moved ==> c.chain.canonical.last() == n.parked[k] && c.parked == n.parked.remove(k)
                &&& !moved ==> c.parked == n.parked && c.chain.canonical == n.chain.canonical
            }
            &&& c == NodeModel { chain: c.chain, parked: c.parked, ..n }
        }),
{
    reveal(tried);
    law_next_parked(n.parked, n.chain.tip, n.chain.height());
    if let Some(k) = next_parked(n.parked, n.chain.tip, n.chain.height()) {
        if tried(n.chain, n.parked[k], producers).1 is None {
            lemma_extended_layout(n.chain, n.parked[k], open_pre(n.parked[k].txs));
        }
    }
}

/// The blocks of an adopted branch leave the parking, and no others.
pub proof fn law_unparking(p: Map<Digest, BlockModel>, blocks: Seq<BlockModel>, k: Digest)
    ensures
        unparked(p, blocks).contains_key(k) <==> p.contains_key(k) && forall|i: int|
            0 <= i < blocks.len() ==> hash_of_header((#[trigger] blocks[i]).header) != Ok::<
                BlockHash,
                BlockchainError,
            >(k),
        unparked(p, blocks).contains_key(k) ==> unparked(p, blocks)[k] == p[k],
    decreases blocks.len(),
{
    if blocks.len() > 0 {
        let front = blocks.drop_last();
        law_unparking(p, front, k);
        let n = front.len() as int;
        assert(blocks[n] == blocks.last());
        if unparked(p, blocks).contains_key(k) {
            assert forall|i: int| 0 <= i < blocks.len() implies hash_of_header((#[trigger] blocks[i]).header) != Ok::<
                BlockHash,
                BlockchainError,
            >(k) by {
                if i < n {
                    assert(front[i] == blocks[i]);
                }
            }
        }
        if p.contains_key(k) && forall|i: int|
            0 <= i < blocks.len() ==> hash_of_header((#[trigger] blocks[i]).header) != Ok::<
                BlockHash,
                BlockchainError,
            >(k) {
            assert forall|i: int| 0 <= i < n implies hash_of_header((#[trigger] front[i]).header) != Ok::<
                BlockHash,
                BlockchainError,
            >(k) by {
                assert(front[i] == blocks[i]);
            }
            assert(hash_of_header(blocks[n].header) != Ok::<BlockHash, BlockchainError>(k));
        }
    }
}

/// A node switches to its best parked branch exactly if its chain adopts it;
/// the chain then ends in the branch's last block. Otherwise nothing changes.
pub proof fn law_readoption(n: NodeModel, lists: Seq<Seq<PublicKey>>)
    ensures
        ({
            let (c, won) = readopted(n, lists);
            let branch = best_branch(n.parked, n.chain);
            &&& won is Some <==> branch.len() > 0 && adopted(n.chain, branch, lists).1
            &&& won matches Some(blocks) ==> blocks == branch && c.chain.canonical.last() == branch[branch.len() - 1]
                && c.parked == unparked(n.parked, branch)
            &&& won is None ==> c.chain == n.chain && c.parked == n.parked
            &&& c == NodeModel { chain: c.chain, parked: c.parked, ..n }
        }),
{
    law_switching(n.chain, best_branch(n.parked, n.chain), lists);
}

/// A branch that is offered is adopted or leaves the node as it was.
pub proof fn law_offered_branch(n: NodeModel, blocks: Seq<BlockModel>, lists: Seq<Seq<PublicKey>>)
    ensures
        switched_to(n, blocks, lists).1 <==> adopted(n.chain, blocks, lists).1,
        switched_to(n, blocks, lists).1 ==> switched_to(n, blocks, lists).0.chain.canonical.last()
            == blocks[blocks.len() - 1],
        !switched_to(n, blocks, lists).1 ==> switched_to(n, blocks, lists).0 == n,
        switched_to(n, blocks, lists).0 == (NodeModel { chain: switched_to(n, blocks, lists).0.chain, ..n }),
{
    law_switching(n.chain, blocks, lists);
}

/// A node's own block stands on its tip at the next height, in the network's
/// version, commits to exactly the given transactions, and carries the
/// node's key and its signature over the header's signing hash.
pub proof fn law_own_block(
    n: NodeModel,
    timestamp: u64,
    txs: Seq<TxModel>,
    signing: Result<Seq<u8>, ProtocolError>,
    encoding: Result<Seq<u8>, ProtocolError>,
)
    requires
        n.chain.canonical.last().header.height < u64::MAX,
    ensures
        own_block(n, timestamp, txs, signing, encoding) is Ok <==> signing is Ok && encoding is Ok && tx_root_of(
            txs,
        ) is Ok,
        own_block(n, timestamp, txs, signing, encoding) matches Ok(b) ==> {
            let h = b.header;
            &&& b.txs == txs
            &&& h.prev_hash == n.chain.tip
            &&& h.height == n.chain.canonical.last().header.height + 1
            &&& h.version == n.chain.network.protocol.version
            &&& tx_root_of(b.txs) == Ok::<MerkleRoot, BlockchainError>(h.tx_root)
            &&& h.timestamp == timestamp
            &&& h.encoding == encoding && h.signing_encoding == signing
            &&& header_digest(signing) matches Ok(d) && h.consensus == BLOCK_SIGN_TAG@ + ed25519_public(n.seed)
                + ed25519_signature(n.seed, BLOCK_SIGN_TAG@ + d@)
        },
{
}

/// An attempt at an own block either ends the chain with it or leaves the
/// blocks of the chain as they were.
pub proof fn law_attempts(
    n: NodeModel,
    timestamp: u64,
    txs: Seq<TxModel>,
    signing: Result<Seq<u8>, ProtocolError>,
    encoding: Result<Seq<u8>, ProtocolError>,
    producers: Seq<PublicKey>,
)
    requires
        n.chain.laid_out(),
        n.chain.canonical.last().header.height < u64::MAX,
    ensures
        ({
            let (c, out) = attempted(n, timestamp, txs, signing, encoding, producers);
            let own = own_block(n, timestamp, txs, signing, encoding);
            &&& out is NotBuilt <==> own is Err
            &&& out is NotBuilt ==> c == n
            &&& own matches Ok(b) ==> (out is Produced <==> tried(n.chain, b, producers).1 is None)
            &&& out matches AttemptModel::Produced(b) ==> own == Ok::<BlockModel, BlockchainError>(b)
                && c.chain.canonical.last() == b
            &&& out is Refused ==> c.chain.canonical == n.chain.canonical && c.chain.tip == n.chain.tip
            &&& c == NodeModel { chain: c.chain, ..n }
        }),
{
    reveal(tried);
    if let Ok(b) = own_block(n, timestamp, txs, signing, encoding) {
        if tried(n.chain, b, producers).1 is None {
            lemma_extended_layout(n.chain, b, open_pre(b.txs));
        }
    }
}

/// Among the parked branches that begin on the chain, the best is a longest
/// one, and of those the one whose last block has the lowest hash.
pub proof fn law_best_branch(p: Map<Digest, BlockModel>, m: ChainModel, tip: Digest, n: nat)
    requires
        p.dom().finite(),
        parked_by_hash(p),
        is_parked_branch(p, m, tip, n),
    ensures
        ({
            let best = best_branch(p, m);
            &&& best.len() >= n
            &&& best.len() == n ==> (hash_of_header(best[n - 1].header) matches Ok(h) && ordinal(h) <= ordinal(tip))
        }),
{
    law_best_branch_is_longest(p, m, tip, n);
    let (t, k) = choose|t: Digest, k: nat| is_best_parked(p, m, t, k);
    assert(best_branch(p, m).len() > 0);
    assert(is_best_parked(p, m, t, k));
    assert(is_parked_branch(p, m, t, k));
    let best = best_branch(p, m);
    assert(best[k - 1] == p[forebear(p, t, 0)]);
    assert(p.contains_key(forebear(p, t, 0)));
}

/// The first 256 nodes have different seeds.
pub proof fn law_node_seeds_differ(i: usize, j: usize)
    requires
        i < 256,
        j < 256,
        node_seed(i) == node_seed(j),
    ensures
        i == j,
{
}

} // verus!
