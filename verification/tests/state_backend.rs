use scone::digest::hash256;
use scone::state_backend::{domain_key, tld_key, MemoryBackend, Pkey, StateBackend};

#[test]
fn empty_backend_is_empty() {
    let b = MemoryBackend::new();
    assert!(b.is_empty());
    assert_eq!(b.len(), 0);
    assert_eq!(b.get(&[0; 32]), None);
}

#[test]
fn put_get_delete_roundtrip() {
    let mut b = MemoryBackend::new();
    b.put([1; 32], vec![0xaa, 0xbb]);
    assert_eq!(b.get(&[1; 32]), Some(vec![0xaa, 0xbb]));
    assert_eq!(b.len(), 1);
    b.delete(&[1; 32]);
    assert_eq!(b.get(&[1; 32]), None);
    assert!(b.is_empty());
    // Deleting a missing key is a no-op, never a panic.
    b.delete(&[1; 32]);
}

#[test]
fn put_replaces() {
    let mut b = MemoryBackend::new();
    b.put([7; 32], vec![1]);
    b.put([7; 32], vec![2, 3]);
    assert_eq!(b.get(&[7; 32]), Some(vec![2, 3]));
    assert_eq!(b.len(), 1);
}

#[test]
fn range_is_ascending_and_pageable() {
    let mut b = MemoryBackend::new();
    // Keys of increasing value (first byte varies).
    for i in 0u8..10 {
        let mut k = [0u8; 32];
        k[0] = i;
        b.put(k, vec![i]);
    }
    // Full scan by pages of 3: ascending, no loss, no overlap.
    let mut seen: Vec<u8> = Vec::new();
    let mut cursor: Option<Pkey> = None;
    loop {
        let (page, next) = b.range(cursor.as_ref(), 3);
        for (k, v) in page {
            assert_eq!(k[0], v[0]);
            seen.push(k[0]);
        }
        cursor = next;
        if cursor.is_none() {
            break;
        }
    }
    assert_eq!(seen, (0u8..10).collect::<Vec<_>>());
}

#[test]
fn range_from_is_inclusive_and_limit_zero_is_empty() {
    let mut b = MemoryBackend::new();
    for i in 0u8..5 {
        let mut k = [0u8; 32];
        k[0] = i;
        b.put(k, vec![i]);
    }
    let mut from = [0u8; 32];
    from[0] = 2;
    let (page, next) = b.range(Some(&from), 2);
    assert_eq!(page.len(), 2);
    assert_eq!(page[0].0[0], 2);
    assert_eq!(page[1].0[0], 3);
    assert_eq!(next.as_ref().map(|k| k[0]), Some(4));
    let (empty, next) = b.range(None, 0);
    assert!(empty.is_empty());
    assert_eq!(next.as_ref().map(|k| k[0]), Some(0));
}

#[test]
fn domain_and_tld_keys_are_raw_ids() {
    let d = hash256(&b"a.uip".to_vec());
    let t = hash256(&b"uip".to_vec());
    assert_eq!(domain_key(&d), d);
    assert_eq!(tld_key(&t), t);
}

#[test]
fn keys_order_by_their_last_byte_too() {
    let mut b = MemoryBackend::default();
    let mut k = [9u8; 32];
    for last in [200u8, 3, 77] {
        k[31] = last;
        b.put(k, vec![last]);
    }
    let (page, next) = b.range(None, 10);
    assert_eq!(page.iter().map(|e| e.1[0]).collect::<Vec<_>>(), vec![3, 77, 200]);
    assert_eq!(next, None);
    // From beyond the last key: nothing, and no cursor.
    let (page, next) = b.range(Some(&[10u8; 32]), 10);
    assert!(page.is_empty());
    assert_eq!(next, None);
}
