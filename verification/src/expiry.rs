//! The expiration queue: pending expiry instants with their domains.
use vstd::prelude::*;
use crate::ids::DomainId;
use crate::ids::id_before;
use crate::ids::lemma_ordinal_injective;
use crate::ids::ordinal;
use crate::ids::same_id;

verus! {

/// Order of the queue: by instant, then by id.
pub open spec fn pair_before(a: (u64, DomainId), b: (u64, DomainId)) -> bool {
    a.0 < b.0 || (a.0 == b.0 && ordinal(a.1) < ordinal(b.1))
}

/// A sequence of pairs in strictly ascending queue order.
pub open spec fn pairs_ascending(s: Seq<(u64, DomainId)>) -> bool {
    forall|i: int, j: int| 0 <= i < j < s.len() ==> pair_before(#[trigger] s[i], #[trigger] s[j])
}

/// The pairs of `queue` that are due at `now`, in queue order.
pub open spec fn due_pairs(queue: Set<(u64, DomainId)>, now: u64) -> Seq<(u64, DomainId)> {
    choose|q: Seq<(u64, DomainId)>|
        pairs_ascending(q) && #[trigger] q.to_set() == queue.filter(|p: (u64, DomainId)| p.0 <= now)
}

/// Two ascending sequences of pairs with the same members are one sequence.
pub proof fn lemma_pairs_unique(a: Seq<(u64, DomainId)>, b: Seq<(u64, DomainId)>)
    requires
        pairs_ascending(a),
        pairs_ascending(b),
        a.to_set() == b.to_set(),
    ensures
        a == b,
    decreases a.len(),
{
    if a.len() == 0 {
        if b.len() > 0 {
            assert(b.to_set().contains(b[0]));
            assert(a.to_set().contains(b[0]));
            assert(a.contains(b[0]));
        }
        assert(a =~= b);
    } else {
        assert(a.to_set().contains(a.last()));
        assert(b.contains(a.last()));
        let j = choose|j: int| 0 <= j < b.len() && b[j] == a.last();
        assert(b.to_set().contains(b.last()));
        assert(a.contains(b.last()));
        let i = choose|i: int| 0 <= i < a.len() && a[i] == b.last();
        assert(i == a.len() - 1) by {
            if i < a.len() - 1 {
                assert(pair_before(a[i], a[a.len() - 1]));
                assert(j < b.len() - 1 ==> pair_before(b[j], b[b.len() - 1]));
            }
        }
        let a1 = a.drop_last();
        let b1 = b.drop_last();
        assert(a1.to_set() =~= b1.to_set()) by {
            assert forall|x: (u64, DomainId)| a1.to_set().contains(x) == b1.to_set().contains(x) by {
                if a1.contains(x) {
                    let n = choose|n: int| 0 <= n < a1.len() && a1[n] == x;
                    assert(a[n] == x);
                    assert(a.to_set().contains(x));
                    assert(b.contains(x));
                    let k = choose|k: int| 0 <= k < b.len() && b[k] == x;
                    assert(pair_before(a[n], a[a.len() - 1]));
                    assert(k < b.len() - 1);
                    assert(b1[k] == x);
                }
                if b1.contains(x) {
                    let n = choose|n: int| 0 <= n < b1.len() && b1[n] == x;
                    assert(b[n] == x);
                    assert(b.to_set().contains(x));
                    assert(a.contains(x));
                    let k = choose|k: int| 0 <= k < a.len() && a[k] == x;
                    assert(pair_before(b[n], b[b.len() - 1]));
                    assert(k < a.len() - 1);
                    assert(a1[k] == x);
                }
            }
        }
        assert forall|p: int, q: int| 0 <= p < q < a1.len() implies pair_before(
            #[trigger] a1[p],
            #[trigger] a1[q],
        ) by {
            assert(pair_before(a[p], a[q]));
        }
        assert forall|p: int, q: int| 0 <= p < q < b1.len() implies pair_before(
            #[trigger] b1[p],
            #[trigger] b1[q],
        ) by {
            assert(pair_before(b[p], b[q]));
        }
        lemma_pairs_unique(a1, b1);
        assert(a =~= a1.push(a.last()));
        assert(b =~= b1.push(b.last()));
    }
}

/// Pending expirations, held in queue order.
pub struct ExpiryQueue {
    pairs: Vec<(u64, DomainId)>,
}

impl View for ExpiryQueue {
    type V = Set<(u64, DomainId)>;

    closed spec fn view(&self) -> Set<(u64, DomainId)> {
        self.pairs@.to_set()
    }
}

impl ExpiryQueue {
    /// The pairs are in strictly ascending order.
    pub closed spec fn wf(&self) -> bool {
        pairs_ascending(self.pairs@)
    }

    /// An empty queue.
    pub fn new() -> (queue: Self)
        ensures
            queue.wf(),
            queue@ == Set::<(u64, DomainId)>::empty(),
    {
        let queue = ExpiryQueue { pairs: Vec::new() };
        assert(queue@ =~= Set::<(u64, DomainId)>::empty());
        queue
    }

    /// First position that is not before (until, id) in queue order.
    fn lower_bound(&self, until: u64, id: &DomainId) -> (pos: usize)
        requires
            self.wf(),
        ensures
            pos <= self.pairs@.len(),
            forall|i: int| 0 <= i < pos ==> pair_before(#[trigger] self.pairs@[i], (until, *id)),
            forall|i: int|
                pos <= i < self.pairs@.len() ==> !pair_before(#[trigger] self.pairs@[i], (until, *id)),
    {
        let mut lo: usize = 0;
        let mut hi: usize = self.pairs.len();
        while lo < hi
            invariant
                self.wf(),
                lo <= hi <= self.pairs@.len(),
                forall|i: int| 0 <= i < lo ==> pair_before(#[trigger] self.pairs@[i], (until, *id)),
                forall|i: int|
                    hi <= i < self.pairs@.len() ==> !pair_before(#[trigger] self.pairs@[i], (until, *id)),
            decreases hi - lo,
        {
            let mid: usize = lo + (hi - lo) / 2;
            let at: u64 = self.pairs[mid].0;
            if at < until || (at == until && id_before(&self.pairs[mid].1, id)) {
                assert forall|i: int| 0 <= i < mid + 1 implies pair_before(
                    #[trigger] self.pairs@[i],
                    (until, *id),
                ) by {
                    if i < mid {
                        assert(pair_before(self.pairs@[i], self.pairs@[mid as int]));
                    }
                }
                lo = mid + 1;
            } else {
                assert forall|i: int| mid <= i < self.pairs@.len() implies !pair_before(
                    #[trigger] self.pairs@[i],
                    (until, *id),
                ) by {
                    if i > mid {
                        assert(pair_before(self.pairs@[mid as int], self.pairs@[i]));
                    }
                }
                hi = mid;
            }
        }
        lo
    }

    /// Parks `id` to expire at `until`.
    pub fn insert(&mut self, until: u64, id: DomainId)
        requires
            old(self).wf(),
        ensures
            final(self).wf(),
            final(self)@ == old(self)@.insert((until, id)),
    {
        let pos = self.lower_bound(until, &id);
        let ghost s = self.pairs@;
        let ghost x = (until, id);
        if pos < self.pairs.len() && self.pairs[pos].0 == until && !id_before(&id, &self.pairs[pos].1) {
            proof {
                lemma_ordinal_injective(s[pos as int].1, id);
                assert(s[pos as int] == x);
                assert(s.contains(x));
                assert(self@ =~= old(self)@.insert(x));
            }
            return;
        }
        self.pairs.insert(pos, (until, id));
        proof {
            let t = self.pairs@;
            assert forall|i: int, j: int| 0 <= i < j < t.len() implies pair_before(
                #[trigger] t[i],
                #[trigger] t[j],
            ) by {
                let si = if i < pos { i } else { i - 1 };
                let sj = if j < pos { j } else { j - 1 };
                if i != pos && j != pos {
                    assert(pair_before(s[si], s[sj]));
                } else if i == pos {
                    assert(!pair_before(s[sj], x));
                    if sj > pos {
                        assert(pair_before(s[pos as int], s[sj]));
                    }
                    assert(!pair_before(s[pos as int], x));
                } else {
                    assert(pair_before(s[si], x));
                }
            }
            assert forall|y: (u64, DomainId)| t.contains(y) == (s.contains(y) || y == x) by {
                if s.contains(y) {
                    let i = choose|i: int| 0 <= i < s.len() && s[i] == y;
                    if i < pos {
                        assert(t[i] == y);
                    } else {
                        assert(t[i + 1] == y);
                    }
                }
                if y == x {
                    assert(t[pos as int] == y);
                }
                if t.contains(y) && y != x {
                    let i = choose|i: int| 0 <= i < t.len() && t[i] == y;
                    if i < pos {
                        assert(s[i] == y);
                    } else {
                        assert(s[i - 1] == y);
                    }
                }
            }
            assert(self@ =~= old(self)@.insert(x));
        }
    }

    /// Takes `id` out of the slot of `until`, if it is there.
    pub fn remove(&mut self, until: u64, id: DomainId)
        requires
            old(self).wf(),
        ensures
            final(self).wf(),
            final(self)@ == old(self)@.remove((until, id)),
    {
        let pos = self.lower_bound(until, &id);
        let ghost s = self.pairs@;
        let ghost x = (until, id);
        if pos < self.pairs.len() && self.pairs[pos].0 == until && !id_before(&id, &self.pairs[pos].1) {
            proof {
                lemma_ordinal_injective(s[pos as int].1, id);
                assert(s[pos as int] == x);
            }
            self.pairs.remove(pos);
            proof {
                let t = self.pairs@;
                assert forall|i: int, j: int| 0 <= i < j < t.len() implies pair_before(
                    #[trigger] t[i],
                    #[trigger] t[j],
                ) by {
                    let si = if i < pos { i } else { i + 1 };
                    let sj = if j < pos { j } else { j + 1 };
                    assert(pair_before(s[si], s[sj]));
                }
                assert forall|y: (u64, DomainId)| t.contains(y) == (s.contains(y) && y != x) by {
                    if s.contains(y) && y != x {
                        let i = choose|i: int| 0 <= i < s.len() && s[i] == y;
                        if i < pos {
                            assert(t[i] == y);
                        } else {
                            assert(t[i - 1] == y);
                        }
                    }
                    if t.contains(y) {
                        let i = choose|i: int| 0 <= i < t.len() && t[i] == y;
                        if i < pos {
                            assert(s[i] == y);
                            assert(pair_before(s[i], s[pos as int]));
                        } else {
                            assert(s[i + 1] == y);
                            assert(pair_before(s[pos as int], s[i + 1]));
                        }
                    }
                }
                assert(self@ =~= old(self)@.remove(x));
            }
        } else {
            proof {
                if s.contains(x) {
                    let i = choose|i: int| 0 <= i < s.len() && s[i] == x;
                    if i < pos {
                        assert(pair_before(s[i], x));
                    } else if i > pos {
                        assert(pair_before(s[pos as int], s[i]));
                    } else {
                        assert(s[pos as int] == x);
                    }
                    assert(false);
                }
                assert(self@ =~= old(self)@.remove(x));
            }
        }
    }

    /// Takes out every pair that is due at `now`, in queue order.
    pub fn take_due(&mut self, now: u64) -> (due: Vec<(u64, DomainId)>)
        requires
            old(self).wf(),
        ensures
            final(self).wf(),
            due@ == due_pairs(old(self)@, now),
            pairs_ascending(due@),
            due@.to_set() == old(self)@.filter(|p: (u64, DomainId)| p.0 <= now),
            final(self)@ == old(self)@.filter(|p: (u64, DomainId)| p.0 > now),
    {
        let ghost s = self.pairs@;
        let mut n: usize = 0;
        while n < self.pairs.len() && self.pairs[n].0 <= now
            invariant
                self.pairs@ == s,
                n <= s.len(),
                forall|i: int| 0 <= i < n ==> (#[trigger] s[i]).0 <= now,
            decreases s.len() - n,
        {
            n += 1;
        }
        let rest = self.pairs.split_off(n);
        let mut due: Vec<(u64, DomainId)> = Vec::new();
        due.append(&mut self.pairs);
        self.pairs = rest;
        proof {
            assert(due@ =~= s.subrange(0, n as int));
            let r = self.pairs@;
            assert(r =~= s.subrange(n as int, s.len() as int));
            assert forall|i: int, j: int| 0 <= i < j < due@.len() implies pair_before(
                #[trigger] due@[i],
                #[trigger] due@[j],
            ) by {
                assert(pair_before(s[i], s[j]));
            }
            assert forall|i: int, j: int| 0 <= i < j < r.len() implies pair_before(
                #[trigger] r[i],
                #[trigger] r[j],
            ) by {
                assert(pair_before(s[n + i], s[n + j]));
            }
            assert forall|i: int| n <= i < s.len() implies (#[trigger] s[i]).0 > now by {
                if i > n {
                    assert(pair_before(s[n as int], s[i]));
                }
            }
            assert forall|y: (u64, DomainId)| due@.contains(y) == (s.contains(y) && y.0 <= now) by {
                if s.contains(y) && y.0 <= now {
                    let i = choose|i: int| 0 <= i < s.len() && s[i] == y;
                    assert(i < n);
                    assert(due@[i] == y);
                }
                if due@.contains(y) {
                    let i = choose|i: int| 0 <= i < due@.len() && due@[i] == y;
                    assert(s[i] == y);
                }
            }
            assert forall|y: (u64, DomainId)| r.contains(y) == (s.contains(y) && y.0 > now) by {
                if s.contains(y) && y.0 > now {
                    let i = choose|i: int| 0 <= i < s.len() && s[i] == y;
                    assert(i >= n);
                    assert(r[i - n] == y);
                }
                if r.contains(y) {
                    let i = choose|i: int| 0 <= i < r.len() && r[i] == y;
                    assert(s[n + i] == y);
                }
            }
            assert(due@.to_set() =~= old(self)@.filter(|p: (u64, DomainId)| p.0 <= now));
            assert(self@ =~= old(self)@.filter(|p: (u64, DomainId)| p.0 > now));
            lemma_pairs_unique(due_pairs(old(self)@, now), due@);
        }
        due
    }
}


impl ExpiryQueue {
    /// The pairs in queue order.
    pub fn to_pairs(&self) -> (pairs: Vec<(u64, DomainId)>)
        ensures
            pairs@.to_set() == self@,
            self.wf() ==> pairs_ascending(pairs@),
    {
        let mut pairs: Vec<(u64, DomainId)> = Vec::new();
        let mut i: usize = 0;
        while i < self.pairs.len()
            invariant
                i <= self.pairs@.len(),
                pairs@ =~= self.pairs@.subrange(0, i as int),
            decreases self.pairs@.len() - i,
        {
            pairs.push(self.pairs[i]);
            i += 1;
        }
        assert(pairs@ =~= self.pairs@);
        pairs
    }
}

impl Clone for ExpiryQueue {
    fn clone(&self) -> (copy: Self)
        ensures
            copy@ == self@,
            self.wf() ==> copy.wf(),
    {
        ExpiryQueue { pairs: self.to_pairs() }
    }
}


impl ExpiryQueue {
    /// Whether two queues hold the same pairs.
    pub fn same_queue(&self, other: &ExpiryQueue) -> (same: bool)
        requires
            self.wf(),
            other.wf(),
        ensures
            same == (self@ == other@),
    {
        proof {
            if self@ == other@ {
                lemma_pairs_unique(self.pairs@, other.pairs@);
            }
        }
        if self.pairs.len() != other.pairs.len() {
            return false;
        }
        let mut i: usize = 0;
        while i < self.pairs.len()
            invariant
                i <= self.pairs@.len(),
                self.pairs@.len() == other.pairs@.len(),
                self@ == other@ ==> self.pairs@ == other.pairs@,
                forall|j: int| 0 <= j < i ==> self.pairs@[j] == other.pairs@[j],
            decreases self.pairs@.len() - i,
        {
            if self.pairs[i].0 != other.pairs[i].0 || !same_id(&self.pairs[i].1, &other.pairs[i].1) {
                return false;
            }
            i += 1;
        }
        assert(self.pairs@ =~= other.pairs@);
        true
    }
}

} // verus!
