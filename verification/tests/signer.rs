use scone::crypto::SigningKey;
use scone::digest::hash256;
use scone::error::BlockchainError;
use scone::error::SignerFault;
use scone::signer::RECORD_LEN;
use scone::signer::SignedContext;
use scone::signer::SignerGuard;
use scone::signer::StoredState;
use scone::types::CheckpointData;

fn key(seed: u8) -> SigningKey {
    SigningKey::from_bytes([seed; 32])
}

fn cp(epoch: u64, salt: u8) -> CheckpointData {
    CheckpointData {
        epoch,
        height: epoch * 4 + 1,
        block_hash: [salt; 32],
        prev_checkpoint_hash: [0; 32],
        state_root: [salt.wrapping_add(1); 32],
        recovery: 0,
    }
}

/// What is signed of a checkpoint.
fn signing_hash(d: &CheckpointData) -> [u8; 32] {
    hash256(&[&d.epoch.to_le_bytes()[..], &d.height.to_le_bytes(), &d.block_hash, &d.state_root].concat())
}

fn may_sign(g: &SignerGuard, signer: &SigningKey, d: &CheckpointData) -> Result<(), BlockchainError> {
    g.may_sign(&signer.public_key(), d, &signing_hash(d))
}

/// A store that may fail.
struct Disk {
    bytes: Option<Vec<u8>>,
    broken: bool,
}

impl Disk {
    fn new() -> Disk {
        Disk { bytes: None, broken: false }
    }

    fn load(&self) -> SignerGuard {
        SignerGuard::load(match &self.bytes {
            None => StoredState::Missing,
            Some(b) => StoredState::Bytes(b.clone()),
        })
    }

    fn write(&mut self, bytes: &[u8]) -> bool {
        if !self.broken {
            self.bytes = Some(bytes.to_vec());
        }
        !self.broken
    }

    fn authorize(&mut self, g: &mut SignerGuard, sk: &SigningKey, d: &CheckpointData) -> Result<[u8; 64], BlockchainError> {
        let pending = g.authorize(sk, d, &signing_hash(d))?;
        let stored = self.write(pending.state_bytes());
        pending.release(stored)
    }
}

/// Sign, crash, restart, contradicting proposal: refused.
#[test]
fn conflicting_checkpoint_refused_after_restart() {
    let mut disk = Disk::new();
    let sk = key(9);
    let mut g = disk.load();
    disk.authorize(&mut g, &sk, &cp(5, 1)).unwrap();
    // A new instance reads the state back.
    let mut g2 = disk.load();
    assert!(may_sign(&g2, &sk, &cp(5, 2)).is_err(), "same epoch, other content");
    assert!(may_sign(&g2, &sk, &cp(4, 1)).is_err(), "past epoch");
    assert!(may_sign(&g2, &sk, &cp(5, 1)).is_ok(), "same content again");
    assert!(may_sign(&g2, &sk, &cp(6, 1)).is_ok(), "next epoch");
    disk.authorize(&mut g2, &sk, &cp(6, 1)).unwrap();
    assert!(may_sign(&g2, &sk, &cp(6, 2)).is_err(), "the new epoch is locked");
}

/// The vote of one key does not bind another.
#[test]
fn keys_are_independent() {
    let mut disk = Disk::new();
    let mut g = disk.load();
    disk.authorize(&mut g, &key(1), &cp(5, 1)).unwrap();
    assert!(may_sign(&g, &key(2), &cp(5, 2)).is_ok());
}

/// A corrupt state fails closed: nothing is signed.
#[test]
fn corrupt_state_fails_closed() {
    let disk = Disk { bytes: Some(b"garbage-not-96b".to_vec()), broken: false };
    let g = disk.load();
    assert_eq!(may_sign(&g, &key(3), &cp(1, 1)), Err(BlockchainError::Signer(SignerFault::Sealed)));
    let g = SignerGuard::load(StoredState::Unreadable);
    assert!(may_sign(&g, &key(3), &cp(1, 1)).is_err());
}

/// A failed write withholds the signature, and the context in memory still
/// protects the session.
#[test]
fn disk_failure_withholds_signature_but_protects_memory() {
    let mut disk = Disk::new();
    let sk = key(4);
    let mut g = disk.load();
    disk.broken = true;
    assert_eq!(
        disk.authorize(&mut g, &sk, &cp(7, 1)),
        Err(BlockchainError::Signer(SignerFault::NotPersisted)),
        "signature withheld"
    );
    assert_eq!(
        may_sign(&g, &sk, &cp(7, 2)),
        Err(BlockchainError::Signer(SignerFault::Conflict { signed_epoch: 7, signed_height: 29, epoch: 7 })),
        "the context in memory protects the session"
    );
}

/// The stored state reads back bit by bit, one record per key, and the
/// signature verifies.
#[test]
fn persisted_state_roundtrips_and_signature_verifies() {
    let mut disk = Disk::new();
    let sk = key(5);
    let data = cp(3, 7);
    let mut g = disk.load();
    let sig = disk.authorize(&mut g, &sk, &data).unwrap();
    // Stored before the signature is out.
    assert_eq!(disk.bytes.as_ref().unwrap().len(), RECORD_LEN);
    let g2 = disk.load();
    let ctx = g2.last_signed(&sk.public_key()).unwrap();
    assert_eq!(ctx.signing_hash, signing_hash(&data));
    assert_eq!(ctx.epoch, data.epoch);
    assert_eq!(ctx.height, data.height);
    let verifying = ed25519_dalek::VerifyingKey::from_bytes(&sk.public_key()).unwrap();
    assert!(verifying.verify_strict(&signing_hash(&data), &ed25519_dalek::Signature::from_bytes(&sig)).is_ok());
    // The same content may be signed again.
    assert!(may_sign(&g2, &sk, &data).is_ok());
}

/// No stored state is a fresh one, not a sealed one.
#[test]
fn missing_state_is_virgin_not_sealed() {
    let g = SignerGuard::load(StoredState::Missing);
    assert!(may_sign(&g, &key(6), &cp(1, 1)).is_ok());
    assert_eq!(g.last_signed(&key(6).public_key()), None);
}

/// Records are written in the order of their keys, each with its tag.
#[test]
fn records_are_ordered_and_tagged() {
    let mut disk = Disk::new();
    let mut g = disk.load();
    for seed in [3u8, 1, 2] {
        disk.authorize(&mut g, &key(seed), &cp(u64::from(seed), seed)).unwrap();
    }
    let bytes = disk.bytes.clone().unwrap();
    assert_eq!(RECORD_LEN, 96);
    assert_eq!(bytes.len(), 3 * RECORD_LEN);
    let mut keys: Vec<[u8; 32]> = Vec::new();
    for record in bytes.chunks(RECORD_LEN) {
        assert_eq!(&record[..16], b"SCONE-SIGNER-V1\0");
        let c = SignedContext::from_bytes(record).unwrap();
        assert_eq!(c.to_bytes(), record);
        keys.push(c.signer);
    }
    let mut sorted = keys.clone();
    sorted.sort();
    assert_eq!(keys, sorted);
    assert_eq!(g.persisted(), bytes);
}

/// A record of another length or tag, or of a key that does not decode.
#[test]
fn bad_records_are_refused() {
    let c = SignedContext { signer: key(1).public_key(), signing_hash: [2; 32], epoch: 3, height: 4 };
    let good = c.to_bytes();
    assert_eq!(SignedContext::from_bytes(&good[1..]), Err(BlockchainError::Signer(SignerFault::BadRecord)));
    let mut tag = good.clone();
    tag[0] ^= 1;
    assert_eq!(SignedContext::from_bytes(&tag), Err(BlockchainError::Signer(SignerFault::BadRecord)));
    let mut bad = 0;
    for b in 0..=255u8 {
        let mut r = good.clone();
        r[16..48].copy_from_slice(&[b; 32]);
        if SignedContext::from_bytes(&r) == Err(BlockchainError::Signer(SignerFault::BadKey)) {
            bad += 1;
        }
    }
    assert!(bad > 0, "about half of all byte strings are no key");
}

/// Texts of the refusals.
#[test]
fn signer_texts() {
    assert_eq!(
        SignerFault::Conflict { signed_epoch: 7, signed_height: 29, epoch: 6 }.message(),
        "key already signed epoch 7 (height 29) \u{2014} refusing conflicting checkpoint of epoch 6 (double-signing is slashable)"
    );
    assert_eq!(SignerFault::Sealed.message(), "signer state sealed (unreadable) \u{2014} refusing to sign anything");
}
