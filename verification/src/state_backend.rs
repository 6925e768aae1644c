//! Ordered key-value store of the chain state.
use vstd::prelude::*;
use crate::bytes::copy_bytes;
use crate::idmap::IdMap;
use crate::idmap::holds_key;
use crate::idmap::keys_ascending;
use crate::ids::DomainId;
use crate::ids::TldId;
use crate::ids::ordinal;

verus! {

/// Store key: the 32 bytes of a domain or namespace id.
pub type Pkey = [u8; 32];

/// Whether `k` comes at or after the start of a scan.
pub open spec fn in_scan(from: Option<Pkey>, k: Pkey) -> bool {
    from matches Some(f) ==> ordinal(k) >= ordinal(f)
}

/// Whether `page` and `cursor` are the answer of a scan of `m` from `from`
/// (inclusive) for at most `limit` entries: the first entries in ascending
/// key order, and the first key left out.
pub open spec fn is_page(
    m: Map<Pkey, Seq<u8>>,
    from: Option<Pkey>,
    limit: nat,
    page: Seq<(Pkey, Vec<u8>)>,
    cursor: Option<Pkey>,
) -> bool {
    &&& page.len() <= limit
    &&& keys_ascending(page)
    &&& forall|i: int|
        0 <= i < page.len() ==> in_scan(from, (#[trigger] page[i]).0) && m.contains_key(page[i].0)
            && m[page[i].0] == page[i].1@
    &&& match cursor {
        None => forall|k: Pkey| #[trigger] m.contains_key(k) && in_scan(from, k) ==> holds_key(page, k),
        Some(c) => {
            &&& page.len() == limit
            &&& m.contains_key(c)
            &&& in_scan(from, c)
            &&& !holds_key(page, c)
            &&& forall|k: Pkey| #[trigger]
                m.contains_key(k) && in_scan(from, k) ==> holds_key(page, k) || ordinal(k) >= ordinal(c)
            &&& forall|i: int| 0 <= i < page.len() ==> ordinal((#[trigger] page[i]).0) < ordinal(c)
        },
    }
}

/// Ordered key-value store for the chain state.
///
/// Every operation is deterministic; scans run in ascending key order.
pub trait StateBackend: Sized {
    /// The stored entries.
    spec fn entries(&self) -> Map<Pkey, Seq<u8>>;

    /// The store is in order.
    spec fn in_order(&self) -> bool;

    /// Point read of one entry.
    fn get(&self, key: &Pkey) -> (value: Option<Vec<u8>>)
        requires
            self.in_order(),
        ensures
            match value {
                Some(v) => self.entries().contains_key(*key) && v@ == self.entries()[*key],
                None => !self.entries().contains_key(*key),
            },
    ;

    /// Inserts or replaces one entry.
    fn put(&mut self, key: Pkey, value: Vec<u8>)
        requires
            old(self).in_order(),
        ensures
            final(self).in_order(),
            final(self).entries() == old(self).entries().insert(key, value@),
    ;

    /// Removes one entry, if it is there.
    fn delete(&mut self, key: &Pkey)
        requires
            old(self).in_order(),
        ensures
            final(self).in_order(),
            final(self).entries() == old(self).entries().remove(*key),
    ;

    /// Scan in ascending key order from `from` (inclusive; none: from the
    /// start) for at most `limit` entries, with the cursor to go on from.
    fn range(&self, from: Option<&Pkey>, limit: usize) -> (r: (Vec<(Pkey, Vec<u8>)>, Option<Pkey>))
        requires
            self.in_order(),
        ensures
            is_page(
                self.entries(),
                (match from {
                    Some(f) => Some(*f),
                    None => None,
                }),
                limit as nat,
                r.0@,
                r.1,
            ),
    ;

    /// Number of entries.
    fn len(&self) -> (n: usize)
        requires
            self.in_order(),
        ensures
            n == self.entries().len(),
            self.entries().dom().finite(),
    ;

    /// Whether there is no entry.
    fn is_empty(&self) -> (r: bool)
        requires
            self.in_order(),
        ensures
            r == (self.entries() == Map::<Pkey, Seq<u8>>::empty()),
    {
        let n = self.len();
        proof {
            if n == 0 {
                assert(self.entries().dom() =~= Set::empty());
                assert(self.entries() =~= Map::empty());
            } else if self.entries() == Map::<Pkey, Seq<u8>>::empty() {
                assert(self.entries().dom() =~= Set::empty());
            }
        }
        n == 0
    }
}

/// In-memory store, kept in key order.
pub struct MemoryBackend {
    map: IdMap<Vec<u8>>,
}

impl MemoryBackend {
    /// An empty store.
    pub fn new() -> (backend: Self)
        ensures
            backend.in_order(),
            backend.entries() == Map::<Pkey, Seq<u8>>::empty(),
    {
        let backend = MemoryBackend { map: IdMap::new() };
        assert(backend.entries() =~= Map::<Pkey, Seq<u8>>::empty());
        backend
    }
}

impl Default for MemoryBackend {
    fn default() -> (backend: Self)
        ensures
            backend.in_order(),
            backend.entries() == Map::<Pkey, Seq<u8>>::empty(),
    {
        MemoryBackend::new()
    }
}

impl Clone for MemoryBackend {
    fn clone(&self) -> (copy: Self)
        ensures
            self.in_order() ==> copy.in_order() && copy.entries() == self.entries(),
    {
        let copy = MemoryBackend { map: self.map.copied() };
        proof {
            if self.in_order() {
                assert(copy.entries() =~= self.entries());
            }
        }
        copy
    }
}

impl StateBackend for MemoryBackend {
    closed spec fn entries(&self) -> Map<Pkey, Seq<u8>> {
        self.map@.map_values(|v: Vec<u8>| v@)
    }

    closed spec fn in_order(&self) -> bool {
        self.map.wf()
    }

    fn get(&self, key: &Pkey) -> (value: Option<Vec<u8>>) {
        match self.map.get(key) {
            Some(v) => Some(copy_bytes(v)),
            None => None,
        }
    }

    fn put(&mut self, key: Pkey, value: Vec<u8>) {
        self.map.insert(key, value);
        assert(self.entries() =~= old(self).entries().insert(key, value@));
    }

    fn delete(&mut self, key: &Pkey) {
        self.map.remove(key);
        assert(self.entries() =~= old(self).entries().remove(*key));
    }

    fn range(&self, from: Option<&Pkey>, limit: usize) -> (r: (Vec<(Pkey, Vec<u8>)>, Option<Pkey>)) {
        let start: usize = match from {
            Some(f) => self.map.lower_bound(f),
            None => 0,
        };
        let n: usize = self.map.len();
        let stop: usize = if n - start > limit {
            start + limit
        } else {
            n
        };
        let ghost items = self.map.items();
        let ghost f: Option<Pkey> = match from {
            Some(f) => Some(*f),
            None => None,
        };
        proof {
            self.map.lemma_items();
        }
        let mut page: Vec<(Pkey, Vec<u8>)> = Vec::new();
        let mut i: usize = start;
        while i < stop
            invariant
                self.map.wf(),
                items == self.map.items(),
                start <= i <= stop <= items.len(),
                page@.len() == i - start,
                forall|j: int|
                    0 <= j < page@.len() ==> (#[trigger] page@[j]).0 == items[start + j].0 && page@[j].1@
                        == items[start + j].1@,
            decreases stop - i,
        {
            let e = self.map.entry(i);
            page.push((e.0, copy_bytes(&e.1)));
            i += 1;
        }
        let cursor: Option<Pkey> = if stop < n {
            Some(self.map.entry(stop).0)
        } else {
            None
        };
        proof {
            let m = self.entries();
            assert forall|a: int, b: int| 0 <= a < b < page@.len() implies ordinal(#[trigger] page@[a].0)
                < ordinal(#[trigger] page@[b].0) by {
                assert(ordinal(items[start + a].0) < ordinal(items[start + b].0));
            }
            assert forall|a: int| 0 <= a < page@.len() implies in_scan(f, (#[trigger] page@[a]).0)
                && m.contains_key(page@[a].0) && m[page@[a].0] == page@[a].1@ by {
                let e = items[start + a];
                assert(self.map@.contains_key(e.0));
            }
            assert forall|k: Pkey| #[trigger] m.contains_key(k) && in_scan(f, k) implies holds_key(page@, k)
                || (stop < n && ordinal(k) >= ordinal(items[stop as int].0)) by {
                assert(self.map@.contains_key(k));
                let j = choose|j: int| 0 <= j < items.len() && (#[trigger] items[j]).0 == k;
                assert(j >= start);
                if j < stop {
                    assert(page@[j - start].0 == k);
                } else if j > stop {
                    assert(ordinal(items[stop as int].0) < ordinal(items[j].0));
                }
            }
            if stop < n {
                let c = items[stop as int].0;
                assert(self.map@.contains_key(c));
                assert forall|a: int| 0 <= a < page@.len() implies ordinal((#[trigger] page@[a]).0) < ordinal(
                    c,
                ) by {
                    assert(ordinal(items[start + a].0) < ordinal(items[stop as int].0));
                }
                assert(in_scan(f, c)) by {
                    assert(items[stop as int].0 == c);
                }
            }
        }
        (page, cursor)
    }

    fn len(&self) -> (n: usize) {
        assert(self.entries().dom() =~= self.map@.dom());
        self.map.len()
    }
}

/// Store key of a domain: its id.
pub fn domain_key(id: &DomainId) -> (key: Pkey)
    ensures
        key == *id,
{
    *id
}

/// Store key of a namespace: its id.
pub fn tld_key(id: &TldId) -> (key: Pkey)
    ensures
        key == *id,
{
    *id
}

} // verus!
