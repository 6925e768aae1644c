//! Kinds of refusals, and how often each was seen.
use vstd::prelude::*;
use vstd::string::*;
use vstd::utf8::encode_utf8;
use vstd::utf8::is_ascii_chars;
use vstd::utf8::is_ascii_chars_encode_utf8;
use crate::error::BlockchainError;
use crate::text::bytes_before;
use crate::text::text_order;

verus! {

/// Kind of a refusal, in the order of the names.
#[derive(Clone, Copy, Debug, PartialEq, Eq, Structural)]
pub enum RejectKind {
    BadHeader,
    BlockPruned,
    CheckpointConflict,
    DomainAlreadyRegistered,
    InvalidProducer,
    InvalidSequence,
    InvalidSignature,
    NotOwner,
    Other,
    ParentNotTip,
    SignerRefused,
    TldAlreadyRegistered,
    TldClosed,
    TxInvalid,
    TxMalformed,
    TxReplay,
    UnknownDomain,
    UnknownParent,
    UnknownTld,
}

/// Number of kinds.
pub const KIND_COUNT: usize = 19;

/// Position of a kind in the order of the names.
pub open spec fn kind_index(k: RejectKind) -> nat {
    match k {
        RejectKind::BadHeader => 0,
        RejectKind::BlockPruned => 1,
        RejectKind::CheckpointConflict => 2,
        RejectKind::DomainAlreadyRegistered => 3,
        RejectKind::InvalidProducer => 4,
        RejectKind::InvalidSequence => 5,
        RejectKind::InvalidSignature => 6,
        RejectKind::NotOwner => 7,
        RejectKind::Other => 8,
        RejectKind::ParentNotTip => 9,
        RejectKind::SignerRefused => 10,
        RejectKind::TldAlreadyRegistered => 11,
        RejectKind::TldClosed => 12,
        RejectKind::TxInvalid => 13,
        RejectKind::TxMalformed => 14,
        RejectKind::TxReplay => 15,
        RejectKind::UnknownDomain => 16,
        RejectKind::UnknownParent => 17,
        RejectKind::UnknownTld => 18,
    }
}

/// Name of a kind.
pub open spec fn kind_name(k: RejectKind) -> Seq<char> {
    match k {
        RejectKind::BadHeader => "bad_header"@,
        RejectKind::BlockPruned => "block_pruned"@,
        RejectKind::CheckpointConflict => "cp_conflict"@,
        RejectKind::DomainAlreadyRegistered => "domain_already_registered"@,
        RejectKind::InvalidProducer => "invalid_producer"@,
        RejectKind::InvalidSequence => "invalid_sequence"@,
        RejectKind::InvalidSignature => "invalid_signature"@,
        RejectKind::NotOwner => "not_owner"@,
        RejectKind::Other => "other"@,
        RejectKind::ParentNotTip => "parent_not_tip"@,
        RejectKind::SignerRefused => "signer_refused"@,
        RejectKind::TldAlreadyRegistered => "tld_already_registered"@,
        RejectKind::TldClosed => "tld_closed"@,
        RejectKind::TxInvalid => "tx_invalid"@,
        RejectKind::TxMalformed => "tx_malformed"@,
        RejectKind::TxReplay => "tx_replay"@,
        RejectKind::UnknownDomain => "unknown_domain"@,
        RejectKind::UnknownParent => "unknown_parent"@,
        RejectKind::UnknownTld => "unknown_tld"@,
    }
}

impl RejectKind {
    /// Position in the order of the names.
    fn index(self) -> (i: usize)
        ensures
            i == kind_index(self),
            i < KIND_COUNT,
    {
        match self {
            RejectKind::BadHeader => 0,
            RejectKind::BlockPruned => 1,
            RejectKind::CheckpointConflict => 2,
            RejectKind::DomainAlreadyRegistered => 3,
            RejectKind::InvalidProducer => 4,
            RejectKind::InvalidSequence => 5,
            RejectKind::InvalidSignature => 6,
            RejectKind::NotOwner => 7,
            RejectKind::Other => 8,
            RejectKind::ParentNotTip => 9,
            RejectKind::SignerRefused => 10,
            RejectKind::TldAlreadyRegistered => 11,
            RejectKind::TldClosed => 12,
            RejectKind::TxInvalid => 13,
            RejectKind::TxMalformed => 14,
            RejectKind::TxReplay => 15,
            RejectKind::UnknownDomain => 16,
            RejectKind::UnknownParent => 17,
            RejectKind::UnknownTld => 18,
        }
    }

    /// The kind at a position of the order.
    fn at(i: usize) -> (k: RejectKind)
        requires
            i < KIND_COUNT,
        ensures
            kind_index(k) == i,
    {
        match i {
            0 => RejectKind::BadHeader,
            1 => RejectKind::BlockPruned,
            2 => RejectKind::CheckpointConflict,
            3 => RejectKind::DomainAlreadyRegistered,
            4 => RejectKind::InvalidProducer,
            5 => RejectKind::InvalidSequence,
            6 => RejectKind::InvalidSignature,
            7 => RejectKind::NotOwner,
            8 => RejectKind::Other,
            9 => RejectKind::ParentNotTip,
            10 => RejectKind::SignerRefused,
            11 => RejectKind::TldAlreadyRegistered,
            12 => RejectKind::TldClosed,
            13 => RejectKind::TxInvalid,
            14 => RejectKind::TxMalformed,
            15 => RejectKind::TxReplay,
            16 => RejectKind::UnknownDomain,
            17 => RejectKind::UnknownParent,
            _ => RejectKind::UnknownTld,
        }
    }

    /// Name of the kind.
    pub fn name(self) -> (text: &'static str)
        ensures
            text@ == kind_name(self),
    {
        match self {
            RejectKind::BadHeader => "bad_header",
            RejectKind::BlockPruned => "block_pruned",
            RejectKind::CheckpointConflict => "cp_conflict",
            RejectKind::DomainAlreadyRegistered => "domain_already_registered",
            RejectKind::InvalidProducer => "invalid_producer",
            RejectKind::InvalidSequence => "invalid_sequence",
            RejectKind::InvalidSignature => "invalid_signature",
            RejectKind::NotOwner => "not_owner",
            RejectKind::Other => "other",
            RejectKind::ParentNotTip => "parent_not_tip",
            RejectKind::SignerRefused => "signer_refused",
            RejectKind::TldAlreadyRegistered => "tld_already_registered",
            RejectKind::TldClosed => "tld_closed",
            RejectKind::TxInvalid => "tx_invalid",
            RejectKind::TxMalformed => "tx_malformed",
            RejectKind::TxReplay => "tx_replay",
            RejectKind::UnknownDomain => "unknown_domain",
            RejectKind::UnknownParent => "unknown_parent",
            RejectKind::UnknownTld => "unknown_tld",
        }
    }
}

/// Two byte strings are in the order of the first bytes in which they differ.
proof fn lemma_bytes_order(a: Seq<u8>, b: Seq<u8>, n: nat)
    requires
        n < a.len(),
        n < b.len(),
        forall|i: int| 0 <= i < n ==> a[i] == #[trigger] b[i],
        a[n as int] < b[n as int],
    ensures
        bytes_before(a, b),
    decreases n,
{
    if n > 0 {
        assert(a[0] == b[0]);
        let x = a.drop_first();
        let y = b.drop_first();
        assert forall|i: int| 0 <= i < n - 1 implies x[i] == #[trigger] y[i] by {
            assert(a[i + 1] == b[i + 1]);
        }
        lemma_bytes_order(x, y, (n - 1) as nat);
    }
}

/// The place at which the names of a kind and the next one part.
spec fn parting(k: RejectKind) -> nat {
    match k {
        RejectKind::BadHeader => 1,
        RejectKind::InvalidProducer => 8,
        RejectKind::InvalidSequence => 9,
        RejectKind::TldAlreadyRegistered => 4,
        RejectKind::TldClosed => 1,
        RejectKind::TxInvalid => 3,
        RejectKind::TxMalformed => 3,
        RejectKind::UnknownDomain => 8,
        RejectKind::UnknownParent => 8,
        _ => 0,
    }
}

/// Order of bytes is transitive.
proof fn lemma_bytes_before_transitive(a: Seq<u8>, b: Seq<u8>, c: Seq<u8>)
    requires
        bytes_before(a, b),
        bytes_before(b, c),
    ensures
        bytes_before(a, c),
    decreases a.len(),
{
    if a.len() > 0 && a[0] == b[0] && b[0] == c[0] {
        lemma_bytes_before_transitive(a.drop_first(), b.drop_first(), c.drop_first());
    }
}

/// The characters of the names.
proof fn lemma_names()
    ensures
        forall|k: RejectKind| is_ascii_chars(#[trigger] kind_name(k)),
        forall|k: RejectKind, j: RejectKind|
            kind_index(j) == kind_index(k) + 1 ==> #[trigger] parted(k, j),
{
    reveal_strlit("bad_header");
    reveal_strlit("block_pruned");
    reveal_strlit("cp_conflict");
    reveal_strlit("domain_already_registered");
    reveal_strlit("invalid_producer");
    reveal_strlit("invalid_sequence");
    reveal_strlit("invalid_signature");
    reveal_strlit("not_owner");
    reveal_strlit("other");
    reveal_strlit("parent_not_tip");
    reveal_strlit("signer_refused");
    reveal_strlit("tld_already_registered");
    reveal_strlit("tld_closed");
    reveal_strlit("tx_invalid");
    reveal_strlit("tx_malformed");
    reveal_strlit("tx_replay");
    reveal_strlit("unknown_domain");
    reveal_strlit("unknown_parent");
    reveal_strlit("unknown_tld");
}

/// Whether the names of two kinds agree up to a place and are in order there.
spec fn parted(k: RejectKind, j: RejectKind) -> bool {
    let n = parting(k);
    &&& n < kind_name(k).len()
    &&& n < kind_name(j).len()
    &&& forall|i: int| 0 <= i < n ==> kind_name(k)[i] == #[trigger] kind_name(j)[i]
    &&& kind_name(k)[n as int] < kind_name(j)[n as int]
}

/// The name of a kind comes before that of the next.
proof fn lemma_next_name(k: RejectKind, j: RejectKind)
    requires
        kind_index(j) == kind_index(k) + 1,
    ensures
        text_order(kind_name(k), kind_name(j)),
{
    lemma_names();
    let n = parting(k);
    let a = kind_name(k);
    let b = kind_name(j);
    assert(parted(k, j));
    assert(is_ascii_chars(a) && is_ascii_chars(b));
    is_ascii_chars_encode_utf8(a);
    is_ascii_chars_encode_utf8(b);
    let x = encode_utf8(a);
    let y = encode_utf8(b);
    assert forall|i: int| 0 <= i < n implies x[i] == #[trigger] y[i] by {
        assert(a[i] == b[i]);
    }
    assert(x[n as int] == a[n as int] as u8 && y[n as int] == b[n as int] as u8);
    lemma_bytes_order(x, y, n);
}

/// There is a kind at every place of the order.
spec fn kind_at(i: nat) -> RejectKind {
    choose|k: RejectKind| kind_index(k) == i
}

/// There is a kind at every place of the order.
proof fn lemma_kind_at(i: nat)
    requires
        i < KIND_COUNT,
    ensures
        kind_index(kind_at(i)) == i,
{
    assert(kind_index(RejectKind::BadHeader) == 0 && kind_index(RejectKind::BlockPruned) == 1 && kind_index(
        RejectKind::CheckpointConflict,
    ) == 2 && kind_index(RejectKind::DomainAlreadyRegistered) == 3 && kind_index(RejectKind::InvalidProducer)
        == 4 && kind_index(RejectKind::InvalidSequence) == 5 && kind_index(RejectKind::InvalidSignature) == 6
        && kind_index(RejectKind::NotOwner) == 7 && kind_index(RejectKind::Other) == 8 && kind_index(
        RejectKind::ParentNotTip,
    ) == 9 && kind_index(RejectKind::SignerRefused) == 10 && kind_index(RejectKind::TldAlreadyRegistered) == 11
        && kind_index(RejectKind::TldClosed) == 12 && kind_index(RejectKind::TxInvalid) == 13 && kind_index(
        RejectKind::TxMalformed,
    ) == 14 && kind_index(RejectKind::TxReplay) == 15 && kind_index(RejectKind::UnknownDomain) == 16
        && kind_index(RejectKind::UnknownParent) == 17 && kind_index(RejectKind::UnknownTld) == 18);
}

/// The kinds stand in the byte order of their names: one comes before
/// another exactly if its name does.
pub proof fn law_kinds_are_in_name_order(a: RejectKind, b: RejectKind)
    ensures
        kind_index(a) < kind_index(b) <==> text_order(kind_name(a), kind_name(b)),
{
    if kind_index(a) < kind_index(b) {
        lemma_names_ascend(a, b);
    } else if kind_index(b) < kind_index(a) {
        lemma_names_ascend(b, a);
        lemma_not_both(encode_utf8(kind_name(a)), encode_utf8(kind_name(b)));
    } else {
        assert(a == b);
        lemma_not_both(encode_utf8(kind_name(a)), encode_utf8(kind_name(a)));
    }
}

/// Names further on are greater.
proof fn lemma_names_ascend(a: RejectKind, b: RejectKind)
    requires
        kind_index(a) < kind_index(b),
    ensures
        text_order(kind_name(a), kind_name(b)),
    decreases kind_index(b),
{
    let i = (kind_index(b) - 1) as nat;
    lemma_kind_at(i);
    let c = kind_at(i);
    lemma_next_name(c, b);
    if kind_index(a) < i {
        lemma_names_ascend(a, c);
        lemma_bytes_before_transitive(
            encode_utf8(kind_name(a)),
            encode_utf8(kind_name(c)),
            encode_utf8(kind_name(b)),
        );
    } else {
        assert(a == c);
    }
}

/// Of two byte strings at most one comes before the other.
proof fn lemma_not_both(a: Seq<u8>, b: Seq<u8>)
    ensures
        !(bytes_before(a, b) && bytes_before(b, a)),
    decreases a.len(),
{
    if a.len() > 0 && b.len() > 0 {
        lemma_not_both(a.drop_first(), b.drop_first());
    }
}

/// Kind of a chain error.
pub open spec fn kind_of(e: BlockchainError) -> RejectKind {
    match e {
        BlockchainError::TxReplay => RejectKind::TxReplay,
        BlockchainError::DomainAlreadyRegistered => RejectKind::DomainAlreadyRegistered,
        BlockchainError::InvalidSequence { .. } => RejectKind::InvalidSequence,
        BlockchainError::NotOwner => RejectKind::NotOwner,
        BlockchainError::NotTldOwner => RejectKind::NotOwner,
        BlockchainError::UnknownDomain => RejectKind::UnknownDomain,
        BlockchainError::UnknownTld => RejectKind::UnknownTld,
        BlockchainError::TldClosed => RejectKind::TldClosed,
        BlockchainError::TldAlreadyRegistered => RejectKind::TldAlreadyRegistered,
        BlockchainError::UnknownParent => RejectKind::UnknownParent,
        BlockchainError::ParentNotTip => RejectKind::ParentNotTip,
        BlockchainError::InvalidProducer(_) => RejectKind::InvalidProducer,
        BlockchainError::BlockPruned { .. } => RejectKind::BlockPruned,
        BlockchainError::InvalidSignature => RejectKind::InvalidSignature,
        _ => RejectKind::Other,
    }
}

/// Kind of a chain error.
pub fn classify(e: &BlockchainError) -> (k: RejectKind)
    ensures
        k == kind_of(*e),
{
    match e {
        BlockchainError::TxReplay => RejectKind::TxReplay,
        BlockchainError::DomainAlreadyRegistered => RejectKind::DomainAlreadyRegistered,
        BlockchainError::InvalidSequence { .. } => RejectKind::InvalidSequence,
        BlockchainError::NotOwner => RejectKind::NotOwner,
        BlockchainError::NotTldOwner => RejectKind::NotOwner,
        BlockchainError::UnknownDomain => RejectKind::UnknownDomain,
        BlockchainError::UnknownTld => RejectKind::UnknownTld,
        BlockchainError::TldClosed => RejectKind::TldClosed,
        BlockchainError::TldAlreadyRegistered => RejectKind::TldAlreadyRegistered,
        BlockchainError::UnknownParent => RejectKind::UnknownParent,
        BlockchainError::ParentNotTip => RejectKind::ParentNotTip,
        BlockchainError::InvalidProducer(_) => RejectKind::InvalidProducer,
        BlockchainError::BlockPruned { .. } => RejectKind::BlockPruned,
        BlockchainError::InvalidSignature => RejectKind::InvalidSignature,
        _ => RejectKind::Other,
    }
}

/// How often each kind was seen.
pub struct Rejections {
    counts: Vec<usize>,
}

/// One more, up to the largest number.
pub open spec fn counted(n: usize) -> usize {
    if n == usize::MAX {
        n
    } else {
        (n + 1) as usize
    }
}

/// No refusal of any kind.
pub open spec fn no_rejections() -> Map<RejectKind, usize> {
    Map::new(|k: RejectKind| true, |k: RejectKind| 0usize)
}

/// The count of one kind raised.
pub open spec fn tallied(m: Map<RejectKind, usize>, k: RejectKind) -> Map<RejectKind, usize> {
    m.insert(k, counted(m[k]))
}

/// The counts of several kinds raised in turn.
pub open spec fn tallied_all(m: Map<RejectKind, usize>, kinds: Seq<RejectKind>) -> Map<RejectKind, usize>
    decreases kinds.len(),
{
    if kinds.len() == 0 {
        m
    } else {
        tallied(tallied_all(m, kinds.drop_last()), kinds.last())
    }
}

impl View for Rejections {
    type V = Map<RejectKind, usize>;

    closed spec fn view(&self) -> Map<RejectKind, usize> {
        Map::new(|k: RejectKind| true, |k: RejectKind| self.counts@[kind_index(k) as int])
    }
}

impl Rejections {
    /// There is a count of each kind.
    pub closed spec fn wf(&self) -> bool {
        self.counts@.len() == KIND_COUNT
    }

    /// No refusal yet.
    pub fn new() -> (r: Rejections)
        ensures
            r.wf(),
            r@ == no_rejections(),
    {
        let mut counts: Vec<usize> = Vec::new();
        let mut i: usize = 0;
        while i < KIND_COUNT
            invariant
                i <= KIND_COUNT,
                counts@.len() == i,
                forall|j: int| 0 <= j < i ==> counts@[j] == 0,
            decreases KIND_COUNT - i,
        {
            counts.push(0);
            i += 1;
        }
        let r = Rejections { counts };
        assert(r@ =~= no_rejections());
        r
    }

    /// Notes a refusal.
    pub fn count(&mut self, kind: RejectKind)
        requires
            old(self).wf(),
        ensures
            final(self).wf(),
            final(self)@ == tallied(old(self)@, kind),
    {
        let i: usize = kind.index();
        let n: usize = self.counts[i];
        let ghost before = self@;
        self.counts.set(i, if n == usize::MAX { n } else { n + 1 });
        assert forall|k: RejectKind| self@[k] == tallied(before, kind)[k] by {
            if kind_index(k) == kind_index(kind) {
                assert(k == kind);
            }
        }
        assert(self@ =~= tallied(before, kind));
    }

    /// Notes several refusals.
    pub fn count_all(&mut self, kinds: &Vec<RejectKind>)
        requires
            old(self).wf(),
        ensures
            final(self).wf(),
            final(self)@ == tallied_all(old(self)@, kinds@),
    {
        let ghost before = self@;
        let mut i: usize = 0;
        proof {
            assert(kinds@.subrange(0, 0) =~= Seq::empty());
        }
        while i < kinds.len()
            invariant
                i <= kinds@.len(),
                self.wf(),
                self@ == tallied_all(before, kinds@.subrange(0, i as int)),
            decreases kinds@.len() - i,
        {
            proof {
                let more = kinds@.subrange(0, i + 1);
                assert(more.drop_last() =~= kinds@.subrange(0, i as int));
                assert(more.last() == kinds@[i as int]);
            }
            self.count(kinds[i]);
            i += 1;
        }
        assert(kinds@.subrange(0, i as int) =~= kinds@);
    }

    /// How often a kind was seen.
    pub fn get(&self, kind: RejectKind) -> (n: usize)
        requires
            self.wf(),
        ensures
            n == self@[kind],
    {
        let i: usize = kind.index();
        self.counts[i]
    }

    /// Every kind that was seen, in the order of the names, with its count.
    pub fn nonzero(&self) -> (list: Vec<(RejectKind, usize)>)
        requires
            self.wf(),
        ensures
            forall|i: int, j: int|
                0 <= i < j < list@.len() ==> text_order(
                    kind_name((#[trigger] list@[i]).0),
                    kind_name((#[trigger] list@[j]).0),
                ),
            forall|i: int| 0 <= i < list@.len() ==> (#[trigger] list@[i]).1 == self@[list@[i].0] && list@[i].1 > 0,
            forall|k: RejectKind| #[trigger] self@[k] > 0 ==> list@.contains((k, self@[k])),
    {
        let mut list: Vec<(RejectKind, usize)> = Vec::new();
        let mut i: usize = 0;
        while i < KIND_COUNT
            invariant
                i <= KIND_COUNT,
                self.wf(),
                forall|a: int, b: int|
                    0 <= a < b < list@.len() ==> kind_index((#[trigger] list@[a]).0) < kind_index(
                        (#[trigger] list@[b]).0,
                    ),
                forall|a: int|
                    0 <= a < list@.len() ==> (#[trigger] list@[a]).1 == self@[list@[a].0] && list@[a].1 > 0
                        && kind_index(list@[a].0) < i,
                forall|k: RejectKind|
                    kind_index(k) < i && #[trigger] self@[k] > 0 ==> list@.contains((k, self@[k])),
            decreases KIND_COUNT - i,
        {
            let k = RejectKind::at(i);
            let n: usize = self.counts[i];
            assert(n == self@[k]);
            let ghost before = list@;
            if n > 0 {
                list.push((k, n));
                assert forall|x: RejectKind| kind_index(x) < i + 1 && #[trigger] self@[x] > 0 implies list@.contains(
                    (x, self@[x]),
                ) by {
                    if kind_index(x) == i {
                        assert(x == k);
                        assert(list@[before.len() as int] == (x, self@[x]));
                    } else {
                        let a = choose|a: int| 0 <= a < before.len() && before[a] == (x, self@[x]);
                        assert(list@[a] == (x, self@[x]));
                    }
                }
            } else {
                assert forall|x: RejectKind| kind_index(x) < i + 1 && #[trigger] self@[x] > 0 implies list@.contains(
                    (x, self@[x]),
                ) by {
                    if kind_index(x) == i {
                        assert(x == k);
                    }
                }
            }
            i += 1;
        }
        assert forall|k: RejectKind| #[trigger] self@[k] > 0 implies list@.contains((k, self@[k])) by {
            assert(kind_index(k) < KIND_COUNT);
        }
        assert forall|a: int, b: int| 0 <= a < b < list@.len() implies text_order(
            kind_name((#[trigger] list@[a]).0),
            kind_name((#[trigger] list@[b]).0),
        ) by {
            law_kinds_are_in_name_order(list@[a].0, list@[b].0);
        }
        list
    }
}

} // verus!
