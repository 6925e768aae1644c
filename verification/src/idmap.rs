//! A map keyed by 32-byte identifiers, held as a sorted vector.
use vstd::prelude::*;
use crate::bytes::copy_bytes;
use crate::ids::Digest;
use crate::ids::id_before;
use crate::ids::lemma_ordinal_injective;
use crate::ids::ordinal;
use crate::smt_model::lemma_sorted_members;
use crate::smt_model::sorted_members;

verus! {

/// Ordered map from identifiers to values.
pub struct IdMap<V> {
    entries: Vec<(Digest, V)>,
}

/// Entries in strictly ascending key order.
pub open spec fn keys_ascending<V>(s: Seq<(Digest, V)>) -> bool {
    forall|i: int, j: int| 0 <= i < j < s.len() ==> ordinal(#[trigger] s[i].0) < ordinal(#[trigger] s[j].0)
}

/// Whether `s` holds an entry under `k`.
pub open spec fn holds_key<V>(s: Seq<(Digest, V)>, k: Digest) -> bool {
    exists|i: int| 0 <= i < s.len() && (#[trigger] s[i]).0 == k
}

/// The value under `k` in `s`.
pub open spec fn value_of<V>(s: Seq<(Digest, V)>, k: Digest) -> V {
    s[choose|i: int| 0 <= i < s.len() && (#[trigger] s[i]).0 == k].1
}

/// The map that a sequence of entries spells.
pub open spec fn entries_map<V>(s: Seq<(Digest, V)>) -> Map<Digest, V> {
    Map::new(|k: Digest| holds_key(s, k), |k: Digest| value_of(s, k))
}

impl<V> View for IdMap<V> {
    type V = Map<Digest, V>;

    closed spec fn view(&self) -> Map<Digest, V> {
        entries_map(self.entries@)
    }
}

proof fn lemma_entry<V>(s: Seq<(Digest, V)>, i: int)
    requires
        keys_ascending(s),
        0 <= i < s.len(),
    ensures
        entries_map(s).contains_key(s[i].0),
        entries_map(s)[s[i].0] == s[i].1,
{
    let k = s[i].0;
    let n = choose|n: int| 0 <= n < s.len() && (#[trigger] s[n]).0 == k;
    assert(holds_key(s, k));
    assert(n == i) by {
        if n < i {
            assert(ordinal(s[n].0) < ordinal(s[i].0));
        } else if i < n {
            assert(ordinal(s[i].0) < ordinal(s[n].0));
        }
    }
}

proof fn lemma_insert_entry<V>(s: Seq<(Digest, V)>, pos: int, k: Digest, v: V)
    requires
        keys_ascending(s),
        0 <= pos <= s.len(),
        forall|i: int| 0 <= i < pos ==> ordinal((#[trigger] s[i]).0) < ordinal(k),
        forall|i: int| pos <= i < s.len() ==> ordinal((#[trigger] s[i]).0) > ordinal(k),
    ensures
        keys_ascending(s.insert(pos, (k, v))),
        entries_map(s.insert(pos, (k, v))) == entries_map(s).insert(k, v),
        !entries_map(s).contains_key(k),
{
    let t = s.insert(pos, (k, v));
    assert forall|i: int, j: int| 0 <= i < j < t.len() implies ordinal(#[trigger] t[i].0) < ordinal(
        #[trigger] t[j].0,
    ) by {
        let si = if i < pos { i } else { i - 1 };
        let sj = if j < pos { j } else { j - 1 };
        if i != pos && j != pos {
            assert(ordinal(s[si].0) < ordinal(s[sj].0));
        } else if i == pos {
            assert(ordinal(s[sj].0) > ordinal(k));
        } else {
            assert(ordinal(s[si].0) < ordinal(k));
        }
    }
    assert(keys_ascending(t));
    assert(entries_map(t) =~= entries_map(s).insert(k, v)) by {
        lemma_entry(t, pos);
        assert(t[pos] == (k, v));
        assert forall|x: Digest| holds_key(t, x) == (x == k || holds_key(s, x)) by {
            if holds_key(s, x) {
                let i = choose|i: int| 0 <= i < s.len() && (#[trigger] s[i]).0 == x;
                if i < pos {
                    assert(t[i] == s[i]);
                } else {
                    assert(t[i + 1] == s[i]);
                }
            }
            if holds_key(t, x) {
                let i = choose|i: int| 0 <= i < t.len() && (#[trigger] t[i]).0 == x;
                if i < pos {
                    assert(t[i] == s[i]);
                } else if i > pos {
                    assert(t[i] == s[i - 1]);
                }
            }
        }
        assert forall|x: Digest| holds_key(t, x) && x != k implies #[trigger] entries_map(t)[x]
            == entries_map(s)[x] by {
            let i = choose|i: int| 0 <= i < s.len() && (#[trigger] s[i]).0 == x;
            lemma_entry(s, i);
            if i < pos {
                assert(t[i] == s[i]);
                lemma_entry(t, i);
            } else {
                assert(t[i + 1] == s[i]);
                lemma_entry(t, i + 1);
            }
        }
    }
    if holds_key(s, k) {
        let i = choose|i: int| 0 <= i < s.len() && (#[trigger] s[i]).0 == k;
        assert(false);
    }
}

proof fn lemma_remove_entry<V>(s: Seq<(Digest, V)>, pos: int)
    requires
        keys_ascending(s),
        0 <= pos < s.len(),
    ensures
        keys_ascending(s.remove(pos)),
        entries_map(s.remove(pos)) == entries_map(s).remove(s[pos].0),
{
    let t = s.remove(pos);
    let k = s[pos].0;
    let v = s[pos].1;
    assert forall|i: int, j: int| 0 <= i < j < t.len() implies ordinal(#[trigger] t[i].0) < ordinal(
        #[trigger] t[j].0,
    ) by {
        let si = if i < pos { i } else { i + 1 };
        let sj = if j < pos { j } else { j + 1 };
        assert(ordinal(s[si].0) < ordinal(s[sj].0));
    }
    assert forall|i: int| 0 <= i < pos implies ordinal((#[trigger] t[i]).0) < ordinal(k) by {
        assert(ordinal(s[i].0) < ordinal(s[pos].0));
    }
    assert forall|i: int| pos <= i < t.len() implies ordinal((#[trigger] t[i]).0) > ordinal(k) by {
        assert(ordinal(s[pos].0) < ordinal(s[i + 1].0));
    }
    lemma_insert_entry(t, pos, k, v);
    assert(t.insert(pos, (k, v)) =~= s);
    assert(entries_map(t) =~= entries_map(s).remove(k));
}

proof fn lemma_update_entry<V>(s: Seq<(Digest, V)>, pos: int, v: V)
    requires
        keys_ascending(s),
        0 <= pos < s.len(),
    ensures
        keys_ascending(s.update(pos, (s[pos].0, v))),
        entries_map(s.update(pos, (s[pos].0, v))) == entries_map(s).insert(s[pos].0, v),
{
    let k = s[pos].0;
    lemma_remove_entry(s, pos);
    let t = s.remove(pos);
    assert forall|i: int| 0 <= i < pos implies ordinal((#[trigger] t[i]).0) < ordinal(k) by {
        assert(ordinal(s[i].0) < ordinal(s[pos].0));
    }
    assert forall|i: int| pos <= i < t.len() implies ordinal((#[trigger] t[i]).0) > ordinal(k) by {
        assert(ordinal(s[pos].0) < ordinal(s[i + 1].0));
    }
    lemma_insert_entry(t, pos, k, v);
    assert(t.insert(pos, (k, v)) =~= s.update(pos, (k, v)));
    assert(entries_map(s).remove(k).insert(k, v) =~= entries_map(s).insert(k, v));
}

proof fn lemma_map_len<V>(s: Seq<(Digest, V)>)
    requires
        keys_ascending(s),
    ensures
        entries_map(s).dom().finite(),
        entries_map(s).len() == s.len(),
    decreases s.len(),
{
    if s.len() == 0 {
        assert(entries_map(s) =~= Map::empty());
    } else {
        let p = s.len() - 1;
        lemma_remove_entry(s, p);
        lemma_entry(s, p);
        lemma_map_len(s.remove(p));
        let m = entries_map(s);
        let k = s[p].0;
        assert(m.dom() =~= m.remove(k).dom().insert(k));
    }
}

impl<V> IdMap<V> {
    /// Entries are in strictly ascending key order.
    pub closed spec fn wf(&self) -> bool {
        keys_ascending(self.entries@)
    }

    /// The entries, in ascending key order.
    pub closed spec fn items(&self) -> Seq<(Digest, V)> {
        self.entries@
    }

    /// What `items` says of the map.
    pub proof fn lemma_items(&self)
        requires
            self.wf(),
        ensures
            keys_ascending(self.items()),
            self@ == entries_map(self.items()),
            self@.dom().finite(),
            self@.len() == self.items().len(),
            forall|i: int|
                0 <= i < self.items().len() ==> self@.contains_key((#[trigger] self.items()[i]).0)
                    && self@[self.items()[i].0] == self.items()[i].1,
            forall|k: Digest| #[trigger]
                self@.contains_key(k) ==> exists|i: int|
                    0 <= i < self.items().len() && (#[trigger] self.items()[i]).0 == k,
    {
        lemma_map_len(self.entries@);
        assert forall|i: int| 0 <= i < self.items().len() implies self@.contains_key(
            (#[trigger] self.items()[i]).0,
        ) && self@[self.items()[i].0] == self.items()[i].1 by {
            lemma_entry(self.entries@, i);
        }
        assert forall|k: Digest| #[trigger] self@.contains_key(k) implies exists|i: int|
            0 <= i < self.items().len() && (#[trigger] self.items()[i]).0 == k by {
            assert(holds_key(self.entries@, k));
            let i = choose|i: int|
                0 <= i < self.entries@.len() && (#[trigger] self.entries@[i]).0 == k;
            assert(self.items()[i].0 == k);
        }
    }

    /// The items are the keys in order, with their values.
    pub proof fn lemma_items_sorted(&self)
        requires
            self.wf(),
        ensures
            sorted_members(self@.dom()).len() == self.items().len(),
            forall|j: int|
                0 <= j < self.items().len() ==> sorted_members(self@.dom())[j] == (#[trigger] self.items()[j]).0
                    && self@[self.items()[j].0] == self.items()[j].1,
    {
        self.lemma_items();
        let items = self.items();
        let keys = items.map_values(|e: (Digest, V)| e.0);
        assert forall|a: int, b: int| 0 <= a < b < keys.len() implies ordinal(#[trigger] keys[a]) < ordinal(
            #[trigger] keys[b],
        ) by {
            assert(ordinal(items[a].0) < ordinal(items[b].0));
        }
        assert forall|k: Digest| keys.contains(k) == self@.dom().contains(k) by {
            if keys.contains(k) {
                let j = choose|j: int| 0 <= j < keys.len() && keys[j] == k;
                assert(items[j].0 == k);
            }
            if self@.contains_key(k) {
                let j = choose|j: int| 0 <= j < items.len() && (#[trigger] items[j]).0 == k;
                assert(keys[j] == k);
            }
        }
        assert(keys.to_set() =~= self@.dom());
        lemma_sorted_members(keys);
    }

    /// An empty map.
    pub fn new() -> (map: Self)
        ensures
            map.wf(),
            map@ == Map::<Digest, V>::empty(),
    {
        let map = IdMap { entries: Vec::new() };
        assert(map@ =~= Map::<Digest, V>::empty());
        map
    }

    /// Number of entries.
    pub fn len(&self) -> (n: usize)
        requires
            self.wf(),
        ensures
            n == self@.len(),
            n == self.items().len(),
            self@.dom().finite(),
    {
        proof {
            lemma_map_len(self.entries@);
        }
        self.entries.len()
    }

    /// First position whose key is at or after `key` in byte order.
    pub fn lower_bound(&self, key: &Digest) -> (pos: usize)
        requires
            self.wf(),
        ensures
            pos <= self.items().len(),
            forall|i: int| 0 <= i < pos ==> ordinal((#[trigger] self.items()[i]).0) < ordinal(*key),
            forall|i: int|
                pos <= i < self.items().len() ==> ordinal((#[trigger] self.items()[i]).0) >= ordinal(*key),
    {
        let mut lo: usize = 0;
        let mut hi: usize = self.entries.len();
        while lo < hi
            invariant
                self.wf(),
                lo <= hi <= self.entries@.len(),
                forall|i: int| 0 <= i < lo ==> ordinal((#[trigger] self.entries@[i]).0) < ordinal(*key),
                forall|i: int|
                    hi <= i < self.entries@.len() ==> ordinal((#[trigger] self.entries@[i]).0) >= ordinal(*key),
            decreases hi - lo,
        {
            let mid: usize = lo + (hi - lo) / 2;
            if id_before(&self.entries[mid].0, key) {
                assert forall|i: int| 0 <= i < mid + 1 implies ordinal((#[trigger] self.entries@[i]).0)
                    < ordinal(*key) by {
                    if i < mid {
                        assert(ordinal(self.entries@[i].0) < ordinal(self.entries@[mid as int].0));
                    }
                }
                lo = mid + 1;
            } else {
                assert forall|i: int| mid <= i < self.entries@.len() implies ordinal(
                    (#[trigger] self.entries@[i]).0,
                ) >= ordinal(*key) by {
                    if i > mid {
                        assert(ordinal(self.entries@[mid as int].0) < ordinal(self.entries@[i].0));
                    }
                }
                hi = mid;
            }
        }
        lo
    }

    /// Position of `key`, if it is there.
    fn find(&self, key: &Digest) -> (found: Option<usize>)
        requires
            self.wf(),
        ensures
            match found {
                Some(i) => i < self.entries@.len() && self.entries@[i as int].0 == *key
                    && self@.contains_key(*key) && self@[*key] == self.entries@[i as int].1,
                None => !self@.contains_key(*key),
            },
    {
        let pos = self.lower_bound(key);
        if pos < self.entries.len() {
            if !id_before(key, &self.entries[pos].0) {
                proof {
                    lemma_ordinal_injective(self.entries@[pos as int].0, *key);
                    lemma_entry(self.entries@, pos as int);
                }
                return Some(pos);
            }
        }
        proof {
            if holds_key(self.entries@, *key) {
                let i = choose|i: int|
                    0 <= i < self.entries@.len() && (#[trigger] self.entries@[i]).0 == *key;
                if i > pos {
                    assert(ordinal(self.entries@[pos as int].0) < ordinal(self.entries@[i].0));
                }
                assert(false);
            }
        }
        None
    }

    /// Whether `key` has an entry.
    pub fn contains_key(&self, key: &Digest) -> (found: bool)
        requires
            self.wf(),
        ensures
            found == self@.contains_key(*key),
    {
        self.find(key).is_some()
    }

    /// The value under `key`.
    pub fn get(&self, key: &Digest) -> (value: Option<&V>)
        requires
            self.wf(),
        ensures
            match value {
                Some(v) => self@.contains_key(*key) && *v == self@[*key],
                None => !self@.contains_key(*key),
            },
    {
        match self.find(key) {
            Some(i) => Some(&self.entries[i].1),
            None => None,
        }
    }

    /// The entry at position `i` of the key order.
    pub fn entry(&self, i: usize) -> (entry: &(Digest, V))
        requires
            self.wf(),
            i < self.items().len(),
        ensures
            *entry == self.items()[i as int],
            self@.contains_key(entry.0),
            self@[entry.0] == entry.1,
    {
        proof {
            lemma_entry(self.entries@, i as int);
        }
        &self.entries[i]
    }

    /// Sets the value under `key`.
    pub fn insert(&mut self, key: Digest, value: V)
        requires
            old(self).wf(),
        ensures
            final(self).wf(),
            final(self)@ == old(self)@.insert(key, value),
    {
        let pos = self.lower_bound(&key);
        let n = self.entries.len();
        let ghost before = self.entries@;
        if pos < n && !id_before(&key, &self.entries[pos].0) {
            proof {
                lemma_ordinal_injective(before[pos as int].0, key);
                lemma_update_entry(before, pos as int, value);
            }
            self.entries.set(pos, (key, value));
        } else {
            proof {
                assert forall|i: int| pos <= i < before.len() implies ordinal((#[trigger] before[i]).0)
                    > ordinal(key) by {
                    if i > pos {
                        assert(ordinal(before[pos as int].0) < ordinal(before[i].0));
                    }
                }
                lemma_insert_entry(before, pos as int, key, value);
            }
            self.entries.insert(pos, (key, value));
        }
    }

    /// Removes the entry under `key`, if there is one.
    pub fn remove(&mut self, key: &Digest)
        requires
            old(self).wf(),
        ensures
            final(self).wf(),
            final(self)@ == old(self)@.remove(*key),
    {
        match self.find(key) {
            Some(i) => {
                proof {
                    lemma_remove_entry(self.entries@, i as int);
                }
                self.entries.remove(i);
            },
            None => {
                assert(self@.remove(*key) =~= self@);
            },
        }
    }
}

/// The entries whose value is above a cutoff.
pub open spec fn values_above(m: Map<Digest, u64>, cutoff: u64) -> Map<Digest, u64> {
    Map::new(|k: Digest| m.contains_key(k) && m[k] > cutoff, |k: Digest| m[k])
}

impl IdMap<u64> {
    /// Drops every entry whose value is not above a cutoff.
    pub fn retain_above(&mut self, cutoff: u64)
        requires
            old(self).wf(),
        ensures
            final(self).wf(),
            final(self)@ == values_above(old(self)@, cutoff),
    {
        let mut kept: Vec<(Digest, u64)> = Vec::new();
        let ghost s = self.entries@;
        let mut i: usize = 0;
        proof {
            assert(s.subrange(0, 0) =~= Seq::empty());
            assert(entries_map(kept@) =~= values_above(entries_map(s.subrange(0, 0)), cutoff));
        }
        while i < self.entries.len()
            invariant
                self.entries@ == s,
                keys_ascending(s),
                i <= s.len(),
                keys_ascending(kept@),
                forall|j: int|
                    0 <= j < kept@.len() ==> i > 0 && ordinal((#[trigger] kept@[j]).0) <= ordinal(s[i - 1].0),
                entries_map(kept@) == values_above(entries_map(s.subrange(0, i as int)), cutoff),
            decreases s.len() - i,
        {
            let e: (Digest, u64) = self.entries[i];
            let ghost before = kept@;
            let ghost done = s.subrange(0, i as int);
            proof {
                assert forall|n: int| 0 <= n < done.len() implies ordinal((#[trigger] done[n]).0) < ordinal(e.0) by {
                    assert(ordinal(s[n].0) < ordinal(s[i as int].0));
                }
                assert(keys_ascending(done)) by {
                    assert forall|a: int, b: int| 0 <= a < b < done.len() implies ordinal(
                        #[trigger] done[a].0,
                    ) < ordinal(#[trigger] done[b].0) by {
                        assert(ordinal(s[a].0) < ordinal(s[b].0));
                    }
                }
                lemma_insert_entry(done, i as int, e.0, e.1);
                assert(done.insert(i as int, (e.0, e.1)) =~= s.subrange(0, i + 1));
                assert forall|j: int| 0 <= j < before.len() implies ordinal((#[trigger] before[j]).0) < ordinal(
                    e.0,
                ) by {
                    assert(kept@[j] == before[j]);
                    assert(i > 0);
                    assert(ordinal(s[i - 1].0) < ordinal(s[i as int].0));
                }
            }
            if e.1 > cutoff {
                proof {
                    lemma_insert_entry(before, before.len() as int, e.0, e.1);
                }
                kept.push(e);
                assert(kept@ =~= before.insert(before.len() as int, (e.0, e.1)));
                assert(entries_map(kept@) =~= values_above(entries_map(s.subrange(0, i + 1)), cutoff));
            } else {
                assert(entries_map(kept@) =~= values_above(entries_map(s.subrange(0, i + 1)), cutoff));
            }
            i += 1;
        }
        assert(s.subrange(0, i as int) =~= s);
        self.entries = kept;
    }
}


impl<V: Copy> Clone for IdMap<V> {
    fn clone(&self) -> (copy: Self)
        ensures
            copy@ == self@,
            copy.items() == self.items(),
            self.wf() ==> copy.wf(),
    {
        let mut entries: Vec<(Digest, V)> = Vec::new();
        let mut i: usize = 0;
        while i < self.entries.len()
            invariant
                i <= self.entries@.len(),
                entries@ =~= self.entries@.subrange(0, i as int),
            decreases self.entries@.len() - i,
        {
            entries.push(self.entries[i]);
            i += 1;
        }
        assert(entries@ =~= self.entries@);
        IdMap { entries }
    }
}

impl IdMap<Vec<u8>> {
    /// A copy of a map of byte strings.
    pub fn copied(&self) -> (copy: Self)
        ensures
            copy@.dom() == self@.dom(),
            self.wf() ==> copy.wf(),
            self.wf() ==> forall|k: Digest| #[trigger] self@.contains_key(k) ==> copy@[k]@ == self@[k]@,
    {
        let mut entries: Vec<(Digest, Vec<u8>)> = Vec::new();
        let mut i: usize = 0;
        while i < self.entries.len()
            invariant
                i <= self.entries@.len(),
                entries@.len() == i,
                forall|j: int|
                    0 <= j < i ==> (#[trigger] entries@[j]).0 == self.entries@[j].0 && entries@[j].1@
                        == self.entries@[j].1@,
            decreases self.entries@.len() - i,
        {
            let e = &self.entries[i];
            entries.push((e.0, copy_bytes(&e.1)));
            i += 1;
        }
        let copy = IdMap { entries };
        proof {
            let a = self.entries@;
            let b = copy.entries@;
            assert forall|k: Digest| holds_key(a, k) == holds_key(b, k) by {
                if holds_key(a, k) {
                    let j = choose|j: int| 0 <= j < a.len() && (#[trigger] a[j]).0 == k;
                    assert(b[j].0 == k);
                }
                if holds_key(b, k) {
                    let j = choose|j: int| 0 <= j < b.len() && (#[trigger] b[j]).0 == k;
                    assert(a[j].0 == k);
                }
            }
            assert(copy@.dom() =~= self@.dom());
            if keys_ascending(a) {
                assert forall|x: int, y: int| 0 <= x < y < b.len() implies ordinal(#[trigger] b[x].0) < ordinal(
                    #[trigger] b[y].0,
                ) by {
                    assert(ordinal(a[x].0) < ordinal(a[y].0));
                }
            }
            if keys_ascending(a) {
                assert forall|k: Digest| #[trigger] self@.contains_key(k) implies copy@[k]@ == self@[k]@ by {
                    let j = choose|j: int| 0 <= j < a.len() && (#[trigger] a[j]).0 == k;
                    lemma_entry(a, j);
                    lemma_entry(b, j);
                    assert(b[j].0 == k);
                }
            }
        }
        copy
    }
}

} // verus!
