//! What the votes on checkpoints promise: what is signed, collected and
//! counted.
use vstd::prelude::*;
use crate::crypto::ed25519_signature;
use crate::error::SignerFault;
use crate::finality::Tally;
use crate::finality::checkpoint_refusal;
use crate::finality::content_fault;
use crate::finality::finalized_with;
use crate::finality::proposed;
use crate::ids::Digest;
use crate::ids::PublicKey;
use crate::ids::Signature;
use crate::ids::ordinal;
use crate::node::NodeModel;
use crate::node::votes::BallotModel;
use crate::node::votes::CountModel;
use crate::node::votes::ProposalModel;
use crate::node::votes::anchored;
use crate::node::votes::capped;
use crate::node::votes::cast;
use crate::node::votes::collected_at;
use crate::node::votes::counted_votes;
use crate::node::votes::is_anchor;
use crate::node::votes::merged;
use crate::node::votes::more_sigs;
use crate::node::votes::picked;
use crate::node::votes::sealed;
use crate::node::votes::sig_list;
use crate::node::votes::sigs_of;
use crate::node::votes::voted;
use crate::signer::GuardModel;
use crate::signer::SignedContext;
use crate::signer::StoredState;
use crate::signer::context_list;
use crate::signer::guard_of;
use crate::signer::record_at;
use crate::signer::record_fault;
use crate::signer::records;
use crate::signer::sign_fault;
use crate::signer::signed;
use crate::smt_model::lemma_sorted_list;
use crate::smt_model::sorted_members;
use crate::types::CheckpointData;
use crate::types::CheckpointModel;

verus! {

// ---- The guard ---------------------------------------------------------------

/// A guard signs for a key exactly if it is not sealed and the epoch is above
/// the last one signed, or the content is the one signed last. What it signed
/// it remembers, for that key alone.
pub proof fn law_signing(g: GuardModel, signer: PublicKey, d: CheckpointData, h: Digest)
    ensures
        sign_fault(g, signer, d.epoch, h) is None <==> !g.sealed && (g.last.contains_key(signer) ==> d.epoch
            > g.last[signer].epoch || (d.epoch == g.last[signer].epoch && h == g.last[signer].signing_hash)),
        g.sealed ==> sign_fault(g, signer, d.epoch, h) == Some(SignerFault::Sealed),
        !g.sealed && sign_fault(g, signer, d.epoch, h) is Some ==> sign_fault(g, signer, d.epoch, h) == Some(
            SignerFault::Conflict {
                signed_epoch: g.last[signer].epoch,
                signed_height: g.last[signer].height,
                epoch: d.epoch,
            },
        ),
        ({
            let t = signed(g, signer, d, h);
            &&& t.sealed == g.sealed
            &&& t.last.contains_key(signer)
            &&& t.last[signer].signer == signer && t.last[signer].signing_hash == h && t.last[signer].epoch
                == d.epoch && t.last[signer].height == d.height
            &&& forall|k: PublicKey|
                k != signer ==> (#[trigger] t.last.contains_key(k) <==> g.last.contains_key(k)) && (
                g.last.contains_key(k) ==> t.last[k] == g.last[k])
        }),
{
}

/// A guard whose stored state cannot be read, is empty or holds any broken
/// record is sealed; one that never stored anything starts free.
pub proof fn law_broken_state_seals(b: Vec<u8>, i: int)
    ensures
        guard_of(StoredState::Missing).last == Map::<PublicKey, SignedContext>::empty() && !guard_of(
            StoredState::Missing,
        ).sealed,
        guard_of(StoredState::Unreadable).sealed,
        b@.len() == 0 || b@.len() % 96 != 0 ==> guard_of(StoredState::Bytes(b)).sealed,
        0 <= i < b@.len() / 96 && record_fault(b@.subrange(96 * i, 96 * i + 96)) is Some ==> guard_of(
            StoredState::Bytes(b),
        ).sealed,
{
    if 0 <= i < b@.len() / 96 && record_fault(b@.subrange(96 * i, 96 * i + 96)) is Some {
        assert(record_at(b@, i) == b@.subrange(96 * i, 96 * i + 96));
    }
}

// ---- Collected signatures -----------------------------------------------------

/// Merging signatures keeps every signer; a signer in the list has the last
/// signature that the list gives, any other the one it had.
pub proof fn law_more_signatures(sigs: Map<PublicKey, Signature>, list: Seq<(PublicKey, Signature)>, k: PublicKey)
    ensures
        ({
            let all = more_sigs(sigs, list);
            let named = exists|i: int| 0 <= i < list.len() && (#[trigger] list[i]).0 == k;
            &&& all.contains_key(k) <==> sigs.contains_key(k) || named
            &&& !named && sigs.contains_key(k) ==> all[k] == sigs[k]
            &&& named ==> exists|i: int|
                0 <= i < list.len() && (#[trigger] list[i]).0 == k && all[k] == list[i].1 && forall|j: int|
                    i < j < list.len() ==> (#[trigger] list[j]).0 != k
        }),
    decreases list.len(),
{
    if list.len() > 0 {
        let front = list.drop_last();
        let n = front.len() as int;
        law_more_signatures(sigs, front, k);
        assert(list[n] == list.last());
        assert forall|i: int| 0 <= i < n implies #[trigger] front[i] == list[i] by {}
        if list[n].0 != k {
            if exists|i: int| 0 <= i < front.len() && (#[trigger] front[i]).0 == k {
                let i = choose|i: int|
                    0 <= i < front.len() && (#[trigger] front[i]).0 == k && more_sigs(sigs, front)[k] == front[i].1
                        && forall|j: int| i < j < front.len() ==> (#[trigger] front[j]).0 != k;
                assert(list[i].0 == k);
                assert forall|j: int| i < j < list.len() implies (#[trigger] list[j]).0 != k by {
                    if j < n {
                        assert(front[j].0 != k);
                    }
                }
            }
            if exists|i: int| 0 <= i < list.len() && (#[trigger] list[i]).0 == k {
                let i = choose|i: int| 0 <= i < list.len() && (#[trigger] list[i]).0 == k;
                assert(front[i].0 == k);
            }
        }
    }
}

/// A merged list has each signer once, in ascending order of the keys, with
/// the collected signature.
pub proof fn law_signature_list(sigs: Map<PublicKey, Signature>)
    requires
        sigs.dom().finite(),
    ensures
        forall|i: int, j: int|
            0 <= i < j < sig_list(sigs).len() ==> ordinal((#[trigger] sig_list(sigs)[i]).0) < ordinal(
                (#[trigger] sig_list(sigs)[j]).0,
            ),
        forall|e: (PublicKey, Signature)| #[trigger]
            sig_list(sigs).contains(e) <==> sigs.contains_key(e.0) && sigs[e.0] == e.1,
{
    let keys = sorted_members(sigs.dom());
    let list = sig_list(sigs);
    lemma_sorted_list(sigs.dom());
    assert forall|i: int, j: int| 0 <= i < j < list.len() implies ordinal((#[trigger] list[i]).0) < ordinal(
        (#[trigger] list[j]).0,
    ) by {
        assert(list[i].0 == keys[i] && list[j].0 == keys[j]);
    }
    assert forall|e: (PublicKey, Signature)| #[trigger] list.contains(e) <==> sigs.contains_key(e.0) && sigs[e.0]
        == e.1 by {
        if list.contains(e) {
            let i = choose|i: int| 0 <= i < list.len() && list[i] == e;
            assert(keys.to_set().contains(keys[i]));
        }
        if sigs.contains_key(e.0) && sigs[e.0] == e.1 {
            assert(keys.to_set().contains(e.0));
            let i = choose|i: int| 0 <= i < keys.len() && keys[i] == e.0;
            assert(list[i] == e);
        }
    }
}

/// Picking keeps exactly the signatures by the keys, in order.
proof fn lemma_picked(list: Seq<(PublicKey, Signature)>, keys: Seq<PublicKey>)
    ensures
        picked(list, keys) == list.filter(|e: (PublicKey, Signature)| keys.contains(e.0)),
    decreases list.len(),
{
    reveal(Seq::filter);
    if list.len() > 0 {
        lemma_picked(list.drop_last(), keys);
    }
}

/// The signatures that count for a committee: those of its members, and all
/// of them.
pub proof fn law_counted_signatures(
    sigs: Map<PublicKey, Signature>,
    committee: Seq<PublicKey>,
    e: (PublicKey, Signature),
)
    requires
        sigs.dom().finite(),
    ensures
        sigs_of(sigs, committee).contains(e) <==> committee.contains(e.0) && sigs.contains_key(e.0) && sigs[e.0]
            == e.1,
        sigs_of(sigs, committee).len() <= sigs.dom().len(),
{
    let list = sig_list(sigs);
    let p = |x: (PublicKey, Signature)| committee.contains(x.0);
    law_signature_list(sigs);
    lemma_picked(list, committee);
    let out = list.filter(p);
    lemma_sorted_list(sigs.dom());
    let keys = sorted_members(sigs.dom());
    assert(keys.no_duplicates()) by {
        assert forall|i: int, j: int| 0 <= i < keys.len() && 0 <= j < keys.len() && i != j implies keys[i] != keys[j] by {
            if i < j {
                assert(ordinal(keys[i]) < ordinal(keys[j]));
            } else {
                assert(ordinal(keys[j]) < ordinal(keys[i]));
            }
        }
    }
    keys.unique_seq_to_set();
    lemma_filtered(list, p, e);
    assert(out.contains(e) <==> list.contains(e) && p(e));
}

/// A filtered list is no longer, and holds exactly what passes.
proof fn lemma_filtered(
    list: Seq<(PublicKey, Signature)>,
    p: spec_fn((PublicKey, Signature)) -> bool,
    e: (PublicKey, Signature),
)
    ensures
        list.filter(p).len() <= list.len(),
        list.filter(p).contains(e) <==> list.contains(e) && p(e),
    decreases list.len(),
{
    reveal(Seq::filter);
    if list.len() > 0 {
        let front = list.drop_last();
        let last = list.last();
        lemma_filtered(front, p, e);
        let kept = front.filter(p);
        let all = list.filter(p);
        assert(list[list.len() - 1] == last);
        if front.contains(e) {
            let i = choose|i: int| 0 <= i < front.len() && front[i] == e;
            assert(list[i] == e);
        }
        if list.contains(e) {
            let i = choose|i: int| 0 <= i < list.len() && list[i] == e;
            if i < front.len() {
                assert(front[i] == e);
            }
        }
        if p(last) {
            assert(all == kept.push(last));
            assert(all[kept.len() as int] == last);
            if kept.contains(e) {
                let i = choose|i: int| 0 <= i < kept.len() && kept[i] == e;
                assert(all[i] == e);
            }
            if all.contains(e) {
                let i = choose|i: int| 0 <= i < all.len() && all[i] == e;
                if i < kept.len() {
                    assert(kept[i] == e);
                }
            }
        }
    }
}

/// Of more than 64 collected contents, those with the highest hashes stay,
/// unchanged.
pub proof fn law_collected_contents(pending: Map<Digest, (CheckpointData, Map<PublicKey, Signature>)>)
    requires
        pending.dom().finite(),
    ensures
        pending.len() <= 64 ==> capped(pending) == pending,
        pending.len() > 64 ==> capped(pending).len() == 64,
        capped(pending).dom().finite(),
        forall|k: Digest| #[trigger]
            capped(pending).contains_key(k) ==> pending.contains_key(k) && capped(pending)[k] == pending[k],
        forall|a: Digest, b: Digest|
            #![trigger capped(pending).contains_key(a), pending.contains_key(b)]
            capped(pending).contains_key(a) && pending.contains_key(b) && !capped(pending).contains_key(b)
                ==> ordinal(b) < ordinal(a),
    decreases pending.len(),
{
    if pending.len() > 64 {
        let keys = sorted_members(pending.dom());
        lemma_sorted_list(pending.dom());
        let some = pending.dom().choose();
        assert(keys.to_set().contains(some));
        let k = keys[0];
        assert(keys.to_set().contains(k));
        assert(pending.contains_key(k));
        let rest = pending.remove(k);
        law_collected_contents(rest);
        assert(capped(pending) == capped(rest));
        assert forall|a: Digest, b: Digest|
            #![trigger capped(pending).contains_key(a), pending.contains_key(b)]
            capped(pending).contains_key(a) && pending.contains_key(b) && !capped(pending).contains_key(b) implies ordinal(
            b,
        ) < ordinal(a) by {
            if b == k {
                assert(rest.contains_key(a));
                assert(keys.to_set().contains(a));
                let i = choose|i: int| 0 <= i < keys.len() && keys[i] == a;
                assert(ordinal(keys[0]) < ordinal(keys[i]));
            } else {
                assert(rest.contains_key(b));
            }
        }
    }
}

/// A node merges the signatures of a proposal exactly if its chain can take
/// the content and has not finalized it. It tells of the merged proposal
/// exactly if there are more signers than before and the content stays.
pub proof fn law_merging(n: NodeModel, p: ProposalModel)
    requires
        n.pending.dom().finite(),
        n.pending.len() < 64 || n.pending.contains_key(p.signing_hash),
        n.pending.len() <= 64,
    ensures
        ({
            let (c, news) = merged(n, p);
            let had = if n.pending.contains_key(p.signing_hash) {
                n.pending[p.signing_hash].1
            } else {
                Map::empty()
            };
            let wanted = content_fault(n.chain, p.data) is None && n.chain.known.contains_key(p.data.height)
                && n.chain.known[p.data.height] == p.data.block_hash && forall|i: int|
                0 <= i < n.chain.checkpoints.len() ==> (#[trigger] n.chain.checkpoints[i]).data != p.data;
            &&& !wanted ==> c == n && news is None
            &&& wanted ==> {
                let now = c.pending[p.signing_hash].1;
                &&& c.pending.contains_key(p.signing_hash)
                &&& now == more_sigs(had, p.signatures)
                &&& news is Some <==> now.len() != had.len()
                &&& news matches Some(q) ==> q.signing_hash == p.signing_hash && q.data
                    == c.pending[p.signing_hash].0 && q.signatures == sig_list(now)
                &&& forall|h: Digest|
                    h != p.signing_hash ==> (#[trigger] c.pending.contains_key(h) <==> n.pending.contains_key(h)) && (
                    n.pending.contains_key(h) ==> c.pending[h] == n.pending[h])
                &&& c == NodeModel { pending: c.pending, ..n }
            }
        }),
{
    let (d, before) = collected_at(n, p.data, p.signing_hash);
    let after = more_sigs(before, p.signatures);
    let all = n.pending.insert(p.signing_hash, (d, after));
    assert(all.dom() =~= n.pending.dom().insert(p.signing_hash));
    assert(all.len() <= 64);
    assert(capped(all) == all);
}

// ---- Votes -----------------------------------------------------------------

/// A node signs a proposal exactly if it runs, has committed to no other
/// content of the epoch, has the content's block on its own chain within the
/// content rules, sits in a committee that is large enough of which a member
/// signed already, has not signed it yet, and its guard lets it. What it
/// signs it signs with its own key, over the content's hash, and its guard
/// remembers it.
pub proof fn law_voting(n: NodeModel, p: ProposalModel, committee: Seq<PublicKey>)
    ensures
        ({
            let (c, ballot) = voted(n, p, committee);
            let faithful = n.epoch_committed.contains_key(p.data.epoch) ==> n.epoch_committed[p.data.epoch]
                == p.signing_hash;
            &&& ballot is Signed <==> {
                &&& n.alive
                &&& faithful
                &&& content_fault(n.chain, p.data) is None
                &&& n.chain.known.contains_key(p.data.height) && n.chain.known[p.data.height] == p.data.block_hash
                &&& committee.len() >= n.chain.network.protocol.min_finality_committee
                &&& committee.contains(n.pk)
                &&& exists|i: int| 0 <= i < p.signatures.len() && committee.contains((#[trigger] p.signatures[i]).0)
                &&& !n.signed_cps.contains(p.signing_hash)
                &&& sign_fault(n.guard, n.pk, p.data.epoch, p.signing_hash) is None
            }
            &&& ballot matches BallotModel::Signed(signature, stored) ==> signature == ed25519_signature(
                n.seed,
                p.signing_hash@,
            ) && stored == records(context_list(c.guard.last)) && c.guard == signed(
                n.guard,
                n.pk,
                p.data,
                p.signing_hash,
            )
            &&& !(ballot is Signed) ==> c.guard == n.guard
            &&& n.alive && !faithful <==> ballot is Conflict
            &&& n.alive ==> c.epoch_committed.contains_key(p.data.epoch) && (faithful
                ==> c.epoch_committed[p.data.epoch] == p.signing_hash)
            &&& c == NodeModel { guard: c.guard, epoch_committed: c.epoch_committed, ..n }
        }),
{
}

/// Of the nodes on one chain, one at most is to propose a checkpoint, and
/// where one is due the designated member is, if it runs.
pub proof fn law_one_proposer(a: NodeModel, b: NodeModel, interval: u64, committee: Seq<PublicKey>)
    requires
        a.chain == b.chain,
    ensures
        is_anchor(a, interval, committee) && is_anchor(b, interval, committee) ==> a.pk == b.pk,
        is_anchor(a, interval, committee) && b.pk == a.pk && b.alive ==> is_anchor(b, interval, committee),
        is_anchor(a, interval, committee) ==> a.alive && committee.contains(a.pk) && proposed(a.chain) is Some
            && committee.len() >= a.chain.network.protocol.min_finality_committee && (interval > 0
            ==> a.chain.canonical.last().header.height % interval == 0),
{
    if is_anchor(a, interval, committee) {
        let i = proposed(a.chain)->0.epoch as int % committee.len() as int;
        assert(committee[i] == a.pk);
    }
}

/// A cast vote counts as signed, and is collected with the signatures of the
/// proposal.
pub proof fn law_casting(n: NodeModel, p: ProposalModel, signature: Signature)
    ensures
        ({
            let c = cast(n, p, signature);
            let had = if n.pending.contains_key(p.signing_hash) {
                n.pending[p.signing_hash].1
            } else {
                Map::empty()
            };
            &&& c.signed_cps == n.signed_cps.insert(p.signing_hash)
            &&& c.pending.contains_key(p.signing_hash)
            &&& c.pending[p.signing_hash].1 == more_sigs(had, p.signatures).insert(n.pk, signature)
            &&& forall|h: Digest|
                h != p.signing_hash ==> (#[trigger] c.pending.contains_key(h) <==> n.pending.contains_key(h)) && (
                n.pending.contains_key(h) ==> c.pending[h] == n.pending[h])
            &&& c == NodeModel { signed_cps: c.signed_cps, pending: c.pending, ..n }
        }),
{
}

/// A collected content is to be finalized exactly if the chain can take it,
/// names the chain's own block, and at least a quorum of a committee that is
/// large enough signed it; the signatures are then those of the members. It
/// is given up exactly if the chain can no longer take it, or the committee
/// is too small.
pub proof fn law_counting(n: NodeModel, h: Digest, committee: Seq<PublicKey>, quorum: usize)
    requires
        n.pending.contains_key(h),
    ensures
        ({
            let (c, out) = counted_votes(n, h, committee, quorum);
            let d = n.pending[h].0;
            let fits = content_fault(n.chain, d) is None;
            let ours = n.chain.known.contains_key(d.height) && n.chain.known[d.height] == d.block_hash;
            let large = committee.len() >= n.chain.network.protocol.min_finality_committee;
            let votes = sigs_of(n.pending[h].1, committee);
            &&& out is Quorum <==> fits && ours && large && votes.len() >= quorum
            &&& out matches CountModel::Quorum(p) ==> p.data == d && p.signing_hash == h && p.signatures == votes
            &&& c.pending == if !fits || (ours && !large) {
                n.pending.remove(h)
            } else {
                n.pending
            }
            &&& c == NodeModel { pending: c.pending, ..n }
        }),
{
}

/// A node finalizes a checkpoint exactly if its chain accepts it, or has it
/// as its last already; either way the content is no longer collected.
pub proof fn law_sealing(n: NodeModel, cp: CheckpointModel, tally: Tally, next_seed: Digest)
    ensures
        ({
            let (c, taken) = sealed(n, cp, tally, next_seed);
            let last = n.chain.checkpoints.len() > 0 && n.chain.checkpoints[n.chain.checkpoints.len() - 1].hash
                == cp.hash;
            &&& taken <==> last || checkpoint_refusal(n.chain, cp.data, tally) is None
            &&& c.pending == n.pending.remove(cp.signing_hash)
            &&& c.chain == if taken && !last {
                finalized_with(n.chain, cp, next_seed)
            } else {
                n.chain
            }
            &&& c == NodeModel { pending: c.pending, chain: c.chain, ..n }
        }),
{
}

/// The designated member signs the content of its tip exactly if it is its
/// turn, it committed to no other content of the epoch, has not signed this
/// one yet, and its guard lets it.
pub proof fn law_anchoring(n: NodeModel, interval: u64, committee: Seq<PublicKey>, h: Digest)
    ensures
        ({
            let (c, ballot) = anchored(n, interval, committee, h);
            let d = proposed(n.chain)->0;
            let turn = is_anchor(n, interval, committee);
            let faithful = n.epoch_committed.contains_key(d.epoch) ==> n.epoch_committed[d.epoch] == h;
            &&& !turn ==> c == n && ballot is Abstain
            &&& turn && !faithful ==> c == n && ballot is Conflict
            &&& ballot is Signed <==> turn && faithful && !n.signed_cps.contains(h) && sign_fault(
                n.guard,
                n.pk,
                d.epoch,
                h,
            ) is None
            &&& ballot matches BallotModel::Signed(signature, stored) ==> signature == ed25519_signature(n.seed, h@)
                && c.guard == signed(n.guard, n.pk, d, h) && stored == records(context_list(c.guard.last))
            &&& !(ballot is Signed) ==> c.guard == n.guard
            &&& turn && faithful ==> c.epoch_committed.contains_key(d.epoch) && c.epoch_committed[d.epoch] == h
            &&& c == NodeModel { guard: c.guard, epoch_committed: c.epoch_committed, ..n }
        }),
{
}

} // verus!
