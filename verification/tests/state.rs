use scone::crypto::SigningKey;
use scone::digest::hash256;
use scone::entry::DomainState;
use scone::entry::TldState;
use scone::entry::decode_domain_entry;
use scone::entry::decode_tld_entry;
use scone::entry::domain_leaf_v2;
use scone::entry::encode_domain_entry;
use scone::entry::encode_tld_entry;
use scone::entry::tld_leaf_v2;
use scone::error::BlockchainError;
use scone::merkle::merkle_root;
use scone::smt::Smt;
use scone::smt::smt_key;
use scone::snapshot_verify::recompute_state_root;
use scone::state::ChainState;
use scone::state::UndoLog;
use scone::state_model::DOMAIN_GRACE_SECS;
use scone::state_model::DOMAIN_MAX_HORIZON_SECS;
use scone::state_model::DOMAIN_TERM_SECS;
use scone::types::ConsensusParams;
use scone::types::CoreError;
use scone::types::Encoded;
use scone::types::NetworkId;
use scone::types::NetworkParams;
use scone::types::ProtocolError;
use scone::types::ProtocolParams;
use scone::types::Transaction;
use scone::types::TxBody;
use scone::types::TxChecks;

const PROTOCOL_VERSION: u32 = 1;

fn key(seed: u8) -> SigningKey {
    SigningKey::from_bytes([seed; 32])
}

fn digest(parts: &[&[u8]]) -> [u8; 32] {
    hash256(&parts.concat())
}

fn domain_id(name: &str) -> [u8; 32] {
    digest(&[b"dom:", name.as_bytes()])
}

fn tld_id(tld: &str) -> [u8; 32] {
    digest(&[b"tld:", tld.as_bytes()])
}

/// Identity of a public key.
fn owner_of(pk: &[u8; 32]) -> [u8; 32] {
    digest(&[b"own:", pk])
}

/// What the core layer finds wrong with a body.
fn violation(body: &TxBody) -> Option<CoreError> {
    match body {
        TxBody::UpdateDomain { sequence: 0, .. } => Some(CoreError { code: 1 }),
        _ => None,
    }
}

/// A transaction with its encodings, signed by `signer`.
fn encoded_tx(network: NetworkId, owner: [u8; 32], pk: [u8; 32], body: TxBody, extra: &str, signer: &SigningKey) -> Transaction {
    let payload = format!("{network:?}{owner:?}{pk:?}{body:?}{extra}").into_bytes();
    let signature = signer.sign(&payload);
    seal_tx(network, owner, pk, body, extra, signature)
}

/// A transaction with its encodings and a given signature.
fn seal_tx(network: NetworkId, owner: [u8; 32], pk: [u8; 32], body: TxBody, extra: &str, signature: [u8; 64]) -> Transaction {
    let payload = format!("{network:?}{owner:?}{pk:?}{body:?}{extra}").into_bytes();
    let mut whole = payload.clone();
    whole.extend_from_slice(&signature);
    let bad = violation(&body);
    let (encoding, signing_payload) = match bad {
        Some(_) => (Encoded::Failed(ProtocolError { code: 1 }), Encoded::Failed(ProtocolError { code: 1 })),
        None => (Encoded::Bytes(whole), Encoded::Bytes(payload)),
    };
    Transaction {
        network,
        owner,
        public_key: pk,
        signature,
        body,
        checks: TxChecks {
            encoding,
            signing_payload,
            violation: bad,
            key_owner: owner_of(&pk),
            pow_fault: None,
            reserved_tld: false,
        },
    }
}

fn signed(body: TxBody, seed: u8) -> Transaction {
    let sk = key(seed);
    let pk = sk.public_key();
    encoded_tx(NetworkId::Testnet, owner_of(&pk), pk, body, "", &sk)
}

fn parent_of(name: &str) -> [u8; 32] {
    tld_id(name.rsplit('.').next().unwrap())
}

/// Canonical bytes of header fields.
fn header_bytes(version: u32, height: u64, prev: &[u8; 32], root: &[u8; 32], ts: u64, consensus: &[u8]) -> Encoded {
    if version != PROTOCOL_VERSION || consensus.len() > 256 {
        return Encoded::Failed(ProtocolError { code: 2 });
    }
    Encoded::Bytes(
        [&version.to_le_bytes()[..], &height.to_le_bytes(), prev, root, &ts.to_le_bytes(), consensus].concat(),
    )
}

fn bytes_of(e: Encoded) -> Vec<u8> {
    match e {
        Encoded::Bytes(b) => b,
        Encoded::Failed(_) => panic!("not encodable"),
    }
}

fn network(network_id: NetworkId) -> NetworkParams {
    let name = network_id.as_bytes();
    let root = merkle_root(&[]);
    NetworkParams {
        network_id,
        tld_pow_difficulty: 8,
        domain_pow_difficulty: 4,
        consensus: ConsensusParams { committee_size: 4, recovery_max_epochs: 3, epoch_secs: 3600, epoch_min_blocks: 4 },
        protocol: ProtocolParams {
            version: PROTOCOL_VERSION,
            max_txs_per_block: 64,
            max_consensus_len: 256,
            min_finality_committee: 4,
        },
        genesis_encoding: bytes_of(header_bytes(PROTOCOL_VERSION, 0, &[0; 32], &root, 0, &name)),
        genesis_signing_encoding: bytes_of(header_bytes(PROTOCOL_VERSION, 0, &[0; 32], &root, 0, &[])),
    }
}

fn testnet() -> NetworkParams {
    network(NetworkId::Testnet)
}

/// Someone who acts on the state: a key and its identity.
#[derive(Clone, Copy)]
struct Who {
    pk: [u8; 32],
    owner: [u8; 32],
}

fn who(seed: u8) -> Who {
    let pk = key(seed).public_key();
    Who { pk, owner: owner_of(&pk) }
}

/// The state rules do not look at signatures.
fn unsigned(body: TxBody, by: Who) -> Transaction {
    seal_tx(NetworkId::Testnet, by.owner, by.pk, body, "", [0; 64])
}

fn register_by(name: &str, by: Who) -> Transaction {
    unsigned(TxBody::RegisterDomain { name: name.to_string(), domain_id: domain_id(name), parent: parent_of(name) }, by)
}

fn register(name: &str, seed: u8) -> Transaction {
    register_by(name, who(seed))
}

fn register_tld(tld: &str, seed: u8) -> Transaction {
    unsigned(TxBody::RegisterTld { name: tld.to_string(), tld_id: tld_id(tld) }, who(seed))
}

fn set_open(tld: &str, seed: u8, open: bool) -> Transaction {
    unsigned(TxBody::SetTldOpen { tld_id: tld_id(tld), open }, who(seed))
}

fn update(name: &str, seed: u8, sequence: u64) -> Transaction {
    unsigned(
        TxBody::UpdateDomain { domain_id: domain_id(name), sequence, record_hash: [sequence as u8; 32] },
        who(seed),
    )
}

fn renew(name: &str, seed: u8, valid_until: u64) -> Transaction {
    unsigned(TxBody::RenewDomain { domain_id: domain_id(name), valid_until }, who(seed))
}

fn transfer(tld: &str, to: u8, seed: u8) -> Transaction {
    unsigned(TxBody::TransferTld { tld_id: tld_id(tld), new_owner: owner(to) }, who(seed))
}

fn revoke(tld: &str, seed: u8) -> Transaction {
    unsigned(TxBody::RevokeTld { tld_id: tld_id(tld) }, who(seed))
}

fn assign(name: &str, to: u8, seed: u8) -> Transaction {
    unsigned(
        TxBody::AssignDomain {
            name: name.to_string(),
            domain_id: domain_id(name),
            parent: parent_of(name),
            assignee: owner(to),
        },
        who(seed),
    )
}

/// The same transaction with a proof of work that does not hold.
fn without_pow(mut tx: Transaction) -> Transaction {
    tx.checks.pow_fault = Some(CoreError { code: 9 });
    tx
}

fn owner(seed: u8) -> [u8; 32] {
    who(seed).owner
}

fn new_state() -> ChainState {
    ChainState::for_network(testnet())
}

/// Claims `uip` and opens it.
fn seed_open_uip(state: &mut ChainState) {
    state.apply(&register_tld("uip", 1)).unwrap();
    state.apply(&set_open("uip", 1, true)).unwrap();
}

#[test]
fn new_state_is_empty() {
    let state = new_state();
    assert!(state.is_empty());
    assert_eq!(state.len(), 0);
    assert!(state.domain(&domain_id("example.uip")).is_none());
}

#[test]
fn register_creates_initial_domain_state() {
    let mut state = new_state();
    seed_open_uip(&mut state);
    state.apply(&register("example.uip", 1)).unwrap();
    let domain = state.domain(&domain_id("example.uip")).unwrap();
    assert_eq!(domain.owner, owner(1));
    assert_eq!(domain.sequence, 0);
    assert_eq!(domain.record_hash, None);
    assert_eq!(domain.valid_until, DOMAIN_TERM_SECS);
    assert_eq!(state.len(), 1);
}

#[test]
fn double_register_is_rejected() {
    let mut state = new_state();
    seed_open_uip(&mut state);
    state.apply(&register("example.uip", 1)).unwrap();
    assert_eq!(state.apply(&register("example.uip", 1)), Err(BlockchainError::DomainAlreadyRegistered));
    // Even by a different owner: the domain is taken.
    assert_eq!(state.apply(&register("example.uip", 2)), Err(BlockchainError::DomainAlreadyRegistered));
    assert_eq!(state.len(), 1);
}

#[test]
fn update_unknown_domain_is_rejected() {
    let mut state = new_state();
    assert_eq!(state.apply(&update("example.uip", 1, 1)), Err(BlockchainError::UnknownDomain));
}

#[test]
fn update_wrong_owner_is_rejected() {
    let mut state = new_state();
    seed_open_uip(&mut state);
    state.apply(&register("example.uip", 1)).unwrap();
    assert_eq!(state.apply(&update("example.uip", 2, 1)), Err(BlockchainError::NotOwner));
    // State unchanged.
    let domain = state.domain(&domain_id("example.uip")).unwrap();
    assert_eq!(domain.sequence, 0);
    assert_eq!(domain.record_hash, None);
}

#[test]
fn update_requires_exactly_next_sequence() {
    let mut state = new_state();
    seed_open_uip(&mut state);
    state.apply(&register("example.uip", 1)).unwrap();

    // Zero violates the core invariant (checked first).
    assert!(matches!(state.apply(&update("example.uip", 1, 0)), Err(BlockchainError::Core(_))));

    for bad_sequence in [2u64, 3, u64::MAX] {
        assert_eq!(
            state.apply(&update("example.uip", 1, bad_sequence)),
            Err(BlockchainError::InvalidSequence { expected: 1, got: bad_sequence }),
            "sequence {bad_sequence}"
        );
    }
}

#[test]
fn register_then_update_then_update() {
    let mut state = new_state();
    seed_open_uip(&mut state);
    state.apply(&register("example.uip", 1)).unwrap();
    state.apply(&update("example.uip", 1, 1)).unwrap();
    state.apply(&update("example.uip", 1, 2)).unwrap();

    let domain = state.domain(&domain_id("example.uip")).unwrap();
    assert_eq!(domain.owner, owner(1));
    assert_eq!(domain.sequence, 2);
    assert_eq!(domain.record_hash, Some([2; 32]));
}

#[test]
fn failed_apply_leaves_state_unchanged() {
    let mut state = new_state();
    seed_open_uip(&mut state);
    state.apply(&register("example.uip", 1)).unwrap();
    let snapshot = state.clone();

    let _ = state.apply(&register("example.uip", 9));
    let _ = state.apply(&update("example.uip", 9, 1));
    let _ = state.apply(&update("other.uip", 1, 1));
    let _ = state.apply(&update("example.uip", 1, 7));

    assert!(state.same_state(&snapshot));
}

#[test]
fn same_transactions_same_final_state() {
    let txs = [
        register("a.uip", 1),
        register("b.uip", 2),
        update("a.uip", 1, 1),
        update("b.uip", 2, 1),
        update("a.uip", 1, 2),
    ];
    let mut left = new_state();
    let mut right = new_state();
    seed_open_uip(&mut left);
    seed_open_uip(&mut right);
    for tx in &txs {
        left.apply(tx).unwrap();
        right.apply(tx).unwrap();
    }
    assert!(left.same_state(&right));
    assert_eq!(left.len(), 2);
}

#[test]
fn independent_domains_do_not_interfere() {
    let mut state = new_state();
    seed_open_uip(&mut state);
    state.apply(&register("a.uip", 1)).unwrap();
    state.apply(&register("b.uip", 2)).unwrap();
    state.apply(&update("b.uip", 2, 1)).unwrap();

    let a = state.domain(&domain_id("a.uip")).unwrap();
    assert_eq!((a.owner, a.sequence, a.record_hash), (owner(1), 0, None));
    let b = state.domain(&domain_id("b.uip")).unwrap();
    assert_eq!(b.sequence, 1);
}

#[test]
fn register_tld_creates_initial_tld_state() {
    let mut state = new_state();
    assert!(state.tld_is_empty());
    state.apply(&register_tld("uip", 1)).unwrap();
    let tld = state.tld(&tld_id("uip")).unwrap();
    assert_eq!(tld.owner, owner(1));
    // A fresh namespace is closed.
    assert!(!tld.open);
    assert_eq!(state.tld_len(), 1);
}

#[test]
fn double_register_tld_is_rejected() {
    let mut state = new_state();
    state.apply(&register_tld("uip", 1)).unwrap();
    assert_eq!(state.apply(&register_tld("uip", 2)), Err(BlockchainError::TldAlreadyRegistered));
    assert_eq!(state.tld_len(), 1);
}

#[test]
fn distinct_tlds_do_not_interfere() {
    let mut state = new_state();
    state.apply(&register_tld("uip", 1)).unwrap();
    state.apply(&register_tld("zap", 2)).unwrap();
    assert_eq!(state.tld_len(), 2);
    assert_eq!(state.tld(&tld_id("uip")).unwrap().owner, owner(1));
    assert_eq!(state.tld(&tld_id("zap")).unwrap().owner, owner(2));
}

#[test]
fn tld_registry_is_disjoint_from_domains() {
    let mut state = new_state();
    seed_open_uip(&mut state);
    state.apply(&register("example.uip", 1)).unwrap();
    assert_eq!(state.len(), 1);
    assert_eq!(state.tld_len(), 1);
}

#[test]
fn register_tld_without_pow_is_rejected() {
    let mut state = new_state();
    let tx = without_pow(register_tld("uip", 1));
    assert!(matches!(state.apply(&tx), Err(BlockchainError::Core(_))));
    assert!(state.tld_is_empty());
}

#[test]
fn register_tld_with_wrong_challenge_pow_is_rejected() {
    // A proof mined for another namespace does not claim "uip".
    let mut state = new_state();
    let tx = without_pow(register_tld("uip", 1));
    assert!(matches!(state.apply(&tx), Err(BlockchainError::Core(_))));
}

#[test]
fn register_domain_without_pow_is_rejected() {
    let mut state = new_state();
    seed_open_uip(&mut state);
    let tx = without_pow(register("example.uip", 1));
    assert!(matches!(state.apply(&tx), Err(BlockchainError::Core(_))));
    assert_eq!(state.len(), 0);
}

#[test]
fn register_under_unknown_tld_is_rejected() {
    let mut state = new_state();
    assert_eq!(state.apply(&register("example.uip", 1)), Err(BlockchainError::UnknownTld));
    assert_eq!(state.len(), 0);
    assert_eq!(state.tld_len(), 0);
}

#[test]
fn register_under_closed_tld_is_rejected() {
    // Claimed but not opened: assign-only.
    let mut state = new_state();
    state.apply(&register_tld("uip", 1)).unwrap();
    assert_eq!(state.apply(&register("example.uip", 2)), Err(BlockchainError::TldClosed));
}

#[test]
fn register_under_open_tld_is_accepted() {
    let mut state = new_state();
    seed_open_uip(&mut state);
    state.apply(&register("example.uip", 2)).unwrap();
    state.apply(&register("other.uip", 3)).unwrap();
    assert_eq!(state.len(), 2);
    assert_eq!(state.tld_len(), 1);
}

#[test]
fn another_registered_tld_does_not_help() {
    let mut state = new_state();
    state.apply(&register_tld("zap", 1)).unwrap();
    state.apply(&set_open("zap", 1, true)).unwrap();
    assert_eq!(state.apply(&register("example.uip", 1)), Err(BlockchainError::UnknownTld));
}

#[test]
fn set_open_requires_the_tld_owner() {
    let mut state = new_state();
    state.apply(&register_tld("uip", 1)).unwrap();
    assert_eq!(state.apply(&set_open("uip", 2, true)), Err(BlockchainError::NotTldOwner));
    assert!(!state.tld(&tld_id("uip")).unwrap().open);
    state.apply(&set_open("uip", 1, true)).unwrap();
    assert!(state.tld(&tld_id("uip")).unwrap().open);
    // Closing back works too.
    state.apply(&set_open("uip", 1, false)).unwrap();
    assert!(!state.tld(&tld_id("uip")).unwrap().open);
}

#[test]
fn set_open_on_unknown_tld_is_rejected() {
    let mut state = new_state();
    assert_eq!(state.apply(&set_open("uip", 1, true)), Err(BlockchainError::UnknownTld));
}

#[test]
fn transfer_moves_ownership() {
    let mut state = new_state();
    state.apply(&register_tld("uip", 1)).unwrap();
    state.apply(&transfer("uip", 2, 1)).unwrap();
    assert_eq!(state.tld(&tld_id("uip")).unwrap().owner, owner(2));
    // The old owner cannot administer the namespace anymore.
    assert_eq!(state.apply(&set_open("uip", 1, true)), Err(BlockchainError::NotTldOwner));
    // The new owner can.
    state.apply(&set_open("uip", 2, true)).unwrap();
    assert!(state.tld(&tld_id("uip")).unwrap().open);
}

#[test]
fn transfer_by_non_owner_and_unknown_tld_are_rejected() {
    let mut state = new_state();
    state.apply(&register_tld("uip", 1)).unwrap();
    assert_eq!(state.apply(&transfer("uip", 2, 9)), Err(BlockchainError::NotTldOwner));
    assert_eq!(state.apply(&transfer("zzz", 2, 1)), Err(BlockchainError::UnknownTld));
}

#[test]
fn revoke_frees_the_namespace() {
    let mut state = new_state();
    state.apply(&register_tld("uip", 1)).unwrap();
    state.apply(&revoke("uip", 1)).unwrap();
    assert!(state.tld(&tld_id("uip")).is_none());
    // Re-claimable by anyone with a fresh proof of work.
    state.apply(&register_tld("uip", 2)).unwrap();
    assert_eq!(state.tld(&tld_id("uip")).unwrap().owner, owner(2));
}

#[test]
fn revoke_by_non_owner_is_rejected() {
    let mut state = new_state();
    state.apply(&register_tld("uip", 1)).unwrap();
    assert_eq!(state.apply(&revoke("uip", 9)), Err(BlockchainError::NotTldOwner));
}

#[test]
fn assign_creates_the_domain_for_the_assignee() {
    let mut state = new_state();
    state.apply(&register_tld("uip", 1)).unwrap(); // closed
    state.apply(&assign("assigned.uip", 5, 1)).unwrap();
    let domain = state.domain(&domain_id("assigned.uip")).unwrap();
    assert_eq!(domain.owner, owner(5));
    assert_eq!(domain.sequence, 0);
}

#[test]
fn assign_by_non_tld_owner_is_rejected() {
    let mut state = new_state();
    state.apply(&register_tld("uip", 1)).unwrap();
    assert_eq!(state.apply(&assign("assigned.uip", 5, 9)), Err(BlockchainError::NotTldOwner));
}

#[test]
fn assign_works_on_an_open_tld_too() {
    // Open does not forbid assignment (the owner may still vouch).
    let mut state = new_state();
    seed_open_uip(&mut state);
    state.apply(&assign("assigned.uip", 5, 1)).unwrap();
    assert_eq!(state.domain(&domain_id("assigned.uip")).unwrap().owner, owner(5));
}

#[test]
fn assign_on_unknown_tld_is_rejected() {
    let mut state = new_state();
    assert_eq!(state.apply(&assign("assigned.uip", 5, 1)), Err(BlockchainError::UnknownTld));
}

#[test]
fn renew_extends_the_expiry() {
    let mut state = new_state();
    seed_open_uip(&mut state);
    state.apply(&register("example.uip", 1)).unwrap();
    let before = state.domain(&domain_id("example.uip")).unwrap().valid_until;
    // now = 0 in `apply`, current expiry = one term; renew one hour more.
    let target = DOMAIN_TERM_SECS + 3600;
    state.apply(&renew("example.uip", 1, target)).unwrap();
    assert_eq!(state.domain(&domain_id("example.uip")).unwrap().valid_until, target);
    assert!(target > before);
}

#[test]
fn renew_must_strictly_extend() {
    let mut state = new_state();
    seed_open_uip(&mut state);
    state.apply(&register("example.uip", 1)).unwrap();
    let current = state.domain(&domain_id("example.uip")).unwrap().valid_until;
    for bad in [current - 1, current] {
        assert_eq!(
            state.apply(&renew("example.uip", 1, bad)),
            Err(BlockchainError::RenewalNotExtending { current, proposed: bad })
        );
    }
}

#[test]
fn renew_is_capped_at_three_years_ahead() {
    let mut state = new_state();
    seed_open_uip(&mut state);
    state.apply(&register("example.uip", 1)).unwrap();
    // `apply` uses now=0: horizon = 3 years.
    let max = DOMAIN_MAX_HORIZON_SECS;
    assert_eq!(
        state.apply(&renew("example.uip", 1, max + 1)),
        Err(BlockchainError::RenewalExceedsTerm { max, proposed: max + 1 })
    );
    // Exactly the horizon is fine.
    state.apply(&renew("example.uip", 1, max)).unwrap();
}

#[test]
fn renew_by_non_owner_and_unknown_domain_are_rejected() {
    let mut state = new_state();
    seed_open_uip(&mut state);
    state.apply(&register("example.uip", 1)).unwrap();
    assert_eq!(state.apply(&renew("example.uip", 9, DOMAIN_TERM_SECS + 99)), Err(BlockchainError::NotOwner));
    assert_eq!(state.apply(&renew("other.uip", 1, DOMAIN_TERM_SECS + 99)), Err(BlockchainError::UnknownDomain));
}

#[test]
fn gc_removes_expired_domains_and_parks_them_in_grace() {
    let mut state = new_state();
    seed_open_uip(&mut state);
    // Register at now=1000 via journaled path.
    let mut journal = UndoLog::new();
    state.apply_journaled_at(&register("example.uip", 1), 1000, &mut journal).unwrap();
    let until = state.domain(&domain_id("example.uip")).unwrap().valid_until;
    // Collection just before expiry: nothing removed.
    let mut j2 = UndoLog::new();
    state.gc_expired_journaled(until - 1, &mut j2);
    assert_eq!(state.len(), 1);
    // At expiry: removed, grace parked.
    state.gc_expired_journaled(until, &mut j2);
    assert_eq!(state.len(), 0);
    // During grace, re-register fails (name frozen).
    assert_eq!(
        state.apply_journaled_at(&register("example.uip", 2), until + 1, &mut j2),
        Err(BlockchainError::DomainAlreadyRegistered)
    );
    // After grace, the name is free for anyone.
    state.apply_journaled_at(&register("example.uip", 2), until + DOMAIN_GRACE_SECS, &mut j2).unwrap();
    assert_eq!(state.domain(&domain_id("example.uip")).unwrap().owner, owner(2));
}

#[test]
fn gc_is_deterministic_and_rollback_exact() {
    let mut state = new_state();
    seed_open_uip(&mut state);
    let mut j = UndoLog::new();
    state.apply_journaled_at(&register("a.uip", 1), 1000, &mut j).unwrap();
    // b registered later: strictly later expiry.
    state.apply_journaled_at(&register("b.uip", 2), 2000, &mut j).unwrap();
    let snapshot = state.clone();
    let a_until = state.domain(&domain_id("a.uip")).unwrap().valid_until;
    let mut j2 = UndoLog::new();
    // Collection at a's expiry: a is removed, b survives.
    state.gc_expired_journaled(a_until, &mut j2);
    assert_eq!(state.len(), 1);
    state.rollback(j2);
    assert!(state.same_state(&snapshot));
}

#[test]
fn wrong_network_transaction_is_rejected() {
    let mut state = new_state(); // testnet
    let by = who(1);
    let body = TxBody::RegisterTld { name: "uip".to_string(), tld_id: tld_id("uip") };
    let tx = seal_tx(NetworkId::Mainnet, by.owner, by.pk, body, "", [0; 64]);
    assert_eq!(
        state.apply(&tx),
        Err(BlockchainError::WrongNetwork { tx: NetworkId::Mainnet, chain: NetworkId::Testnet })
    );
    assert!(state.tld_is_empty());
}

#[test]
fn mainnet_state_rejects_testnet_tx_and_vice_versa() {
    // A testnet transaction without proof: rejected on the network alone,
    // so the check precedes the proof of work.
    let mut mainnet = ChainState::for_network(network(NetworkId::Mainnet));
    let tx = without_pow(register("example.uip", 1));
    assert!(matches!(mainnet.apply(&tx), Err(BlockchainError::WrongNetwork { .. })));
}

#[test]
fn testnet_proof_does_not_verify_as_mainnet_pow() {
    // A transaction for mainnet with a proof that holds for testnet only.
    let mut mainnet = ChainState::for_network(network(NetworkId::Mainnet));
    let by = who(1);
    let body = TxBody::RegisterTld { name: "uip".to_string(), tld_id: tld_id("uip") };
    let tx = without_pow(seal_tx(NetworkId::Mainnet, by.owner, by.pk, body, "", [0; 64]));
    let task = mainnet.pow_task(&tx).unwrap();
    assert_eq!(task.network, NetworkId::Mainnet);
    assert!(matches!(mainnet.apply(&tx), Err(BlockchainError::Core(_))));
}

/// The maintained tree is exactly the commitment of the current entries: a
/// naive rebuild has the same root and size.
fn assert_smt_invariant(state: &ChainState) {
    let mut expect = Smt::new();
    let mut total = 0usize;
    for id in state.entry_ids() {
        if let Some(st) = state.domain(&id) {
            expect.insert(smt_key(&id), domain_leaf_v2(&id, &st));
        } else if let Some(st) = state.tld(&id) {
            expect.insert(smt_key(&id), tld_leaf_v2(&id, &st));
        } else {
            panic!("undecodable entry");
        }
        total += 1;
    }
    assert_eq!(state.smt().root(), expect.root(), "maintained tree == naive rebuild");
    assert_eq!(state.smt().len(), total);
}

#[test]
fn smt_empty_state_root_is_pinned() {
    let state = new_state();
    let mut top = Vec::new();
    top.extend_from_slice(b"SCONE-STATE-SMT-V1");
    top.extend_from_slice(&state.smt().root());
    assert_eq!(state.state_root_smt(), hash256(&top));
    assert!(state.smt().is_empty());
}

#[test]
fn smt_matches_naive_rebuild_through_every_tx_kind() {
    let mut state = new_state();
    assert_smt_invariant(&state);
    for tx in [
        register_tld("uip", 1),
        set_open("uip", 1, true),
        register("a.uip", 2),
        register("b.uip", 3),
        update("a.uip", 2, 1),
        renew("a.uip", 2, DOMAIN_TERM_SECS + 500),
        // TLD transfer + revoke on another namespace.
        register_tld("zap", 4),
        transfer("zap", 5, 4),
        assign("vip.zap", 5, 5),
        revoke("zap", 5),
    ] {
        state.apply(&tx).unwrap();
        assert_smt_invariant(&state);
    }
    // Expiry of a.uip: the tree must drop its leaf.
    let a_until = state.domain(&domain_id("a.uip")).unwrap().valid_until;
    let mut j = UndoLog::new();
    state.gc_expired_journaled(a_until, &mut j);
    assert_smt_invariant(&state);
    state.rollback(j);
    assert_smt_invariant(&state);
}

#[test]
fn smt_rollback_restores_the_tree_bit_exact() {
    let mut state = new_state();
    seed_open_uip(&mut state);
    let snapshot = state.clone();
    let root_before = state.state_root_smt();

    let mut journal = UndoLog::new();
    state.apply_journaled_at(&register("a.uip", 1), 1000, &mut journal).unwrap();
    // Intermediate divergence: a different root.
    assert_ne!(state.state_root_smt(), root_before);
    state.apply_journaled_at(&update("a.uip", 1, 1), 1000, &mut journal).unwrap();
    state.apply_journaled_at(&register("b.uip", 2), 1000, &mut journal).unwrap();
    let a_until = state.domain(&domain_id("a.uip")).unwrap().valid_until;
    // Both expire: the committed set falls back to the snapshot's (grace
    // entries are not committed), but the full state still differs.
    state.gc_expired_journaled(a_until, &mut journal);
    assert!(!state.same_state(&snapshot));

    // Rollback: the restored tree is the tree before, in every part.
    state.rollback(journal);
    assert!(state.same_state(&snapshot));
    assert!(*state.smt() == *snapshot.smt());
    assert_eq!(state.state_root_smt(), root_before);
}

#[test]
fn smt_root_is_order_independent() {
    // Two states reach the same logical state by different orders.
    let mut left = new_state();
    let mut right = new_state();
    for state in [&mut left, &mut right] {
        state.apply(&register_tld("uip", 1)).unwrap();
        state.apply(&register_tld("zap", 4)).unwrap();
        state.apply(&set_open("uip", 1, true)).unwrap();
        state.apply(&set_open("zap", 4, true)).unwrap();
    }
    // left: a, b, upd a, upd b; right: b, a, upd b, upd a.
    left.apply(&register("a.uip", 2)).unwrap();
    left.apply(&register("b.uip", 3)).unwrap();
    right.apply(&register("b.uip", 3)).unwrap();
    right.apply(&register("a.uip", 2)).unwrap();
    left.apply(&update("a.uip", 2, 1)).unwrap();
    left.apply(&update("b.uip", 3, 1)).unwrap();
    right.apply(&update("b.uip", 3, 1)).unwrap();
    right.apply(&update("a.uip", 2, 1)).unwrap();

    assert!(left.same_state(&right));
    assert_eq!(left.state_root_smt(), right.state_root_smt());
    assert_smt_invariant(&left);
    assert_smt_invariant(&right);
}

fn with_a() -> ChainState {
    let mut state = new_state();
    state.apply(&register_tld("uip", 1)).unwrap();
    state.apply(&set_open("uip", 1, true)).unwrap();
    state.apply(&register("a.uip", 2)).unwrap();
    state
}

#[test]
fn smt_distinguishes_distinct_logical_states() {
    let a = with_a();
    let mut b = with_a();
    let mut c = with_a();
    // a: untouched; b: one more update; c: renewal instead.
    b.apply(&update("a.uip", 2, 1)).unwrap();
    c.apply(&renew("a.uip", 2, DOMAIN_TERM_SECS + 1)).unwrap();
    assert_ne!(a.state_root_smt(), b.state_root_smt());
    assert_ne!(a.state_root_smt(), c.state_root_smt());
    assert_ne!(b.state_root_smt(), c.state_root_smt());
    // The archive root distinguishes them too (same leaves).
    assert_ne!(a.state_root_v2(), b.state_root_v2());
    assert_ne!(a.state_root_v2(), c.state_root_v2());
}

/// The archive root is over the domain root, the namespace root, the owner
/// root and the ban root.
#[test]
fn archive_root_layout() {
    let state = with_a();
    let leaf = |tag: &str, d: &[u8; 32]| digest(&[tag.as_bytes(), d]);
    let (id, tld) = (domain_id("a.uip"), tld_id("uip"));
    let domains = domain_leaf_v2(&id, &state.domain(&id).unwrap());
    let tlds = tld_leaf_v2(&tld, &state.tld(&tld).unwrap());
    let mut owners = vec![owner(1), owner(2)];
    owners.sort();
    let owners = digest(&[
        b"SCONE-FOLD-V1",
        &leaf("SCONE-LEAF-OWN-V2", &owners[0]),
        &leaf("SCONE-LEAF-OWN-V2", &owners[1]),
    ]);
    let top = digest(&[b"SCONE-STATE-V2", &domains, &tlds, &owners, &[0; 32]]);
    assert_eq!(state.state_root_v2(), top);
    assert_eq!(new_state().state_root_v2(), digest(&[b"SCONE-STATE-V2", &[0; 128]]));
}

/// Restoring the entries in any order gives the root recomputed from them.
#[test]
fn restored_state_has_the_recomputed_root() {
    let dom = |seed: u8| DomainState {
        owner: owner(seed),
        sequence: 3,
        record_hash: Some([seed; 32]),
        registered_at: 5,
        valid_until: 500 + u64::from(seed),
    };
    let domains: Vec<([u8; 32], DomainState)> = (2u8..7).map(|i| ([i; 32], dom(i))).collect();
    let tlds = vec![(tld_id("uip"), TldState { owner: owner(1), open: true })];
    let want = recompute_state_root(&domains, &tlds).state_root;
    let mut state = new_state();
    for (id, st) in domains.iter().rev() {
        state.restore_domain(*id, *st).unwrap();
        if id[0] == 4 {
            state.restore_tld(tlds[0].0, tlds[0].1).unwrap();
        }
    }
    assert_eq!(state.state_root_smt(), want);
    let reversed: Vec<([u8; 32], DomainState)> = domains.iter().rev().copied().collect();
    assert_eq!(recompute_state_root(&reversed, &tlds).state_root, want);
    assert_eq!(state.restore_domain([3; 32], dom(3)), Err(BlockchainError::DomainAlreadyRegistered));
}

#[test]
fn failed_apply_leaves_smt_unchanged() {
    let mut state = new_state();
    seed_open_uip(&mut state);
    state.apply(&register("example.uip", 1)).unwrap();
    let snapshot = state.clone();
    let root = state.state_root_smt();
    let _ = state.apply(&register("example.uip", 9));
    let _ = state.apply(&update("example.uip", 9, 1));
    let _ = state.apply(&update("example.uip", 1, 7));
    assert!(state.same_state(&snapshot));
    assert_eq!(state.state_root_smt(), root);
}

/// Distinct expiry instants of a state.
fn instants(state: &ChainState) -> usize {
    let mut all: Vec<u64> = state.pending_expirations().iter().map(|p| p.0).collect();
    all.dedup();
    all.len()
}

fn ten_thousand() -> ChainState {
    let mut state = new_state();
    seed_open_uip(&mut state);
    let mut j = UndoLog::new();
    let by = who(7);
    for i in 0..10_000u32 {
        let tx = register_by(&format!("d{i}.uip"), by);
        let now = u64::from(i / 5_000) * 500;
        state.apply_journaled_at(&tx, now, &mut j).unwrap();
    }
    state
}

/// Ten thousand domains of one owner: the hot structures stay bounded by
/// the number of distinct owners and pending expirations.
#[test]
fn ten_thousand_domains_bounded_hot_structures() {
    let state = ten_thousand();
    assert_eq!(state.len(), 10_000);
    assert_eq!(state.owners().len(), 2, "domain owner + uip owner");
    assert_eq!(instants(&state), 2, "two registration instants");
    assert_eq!(state.pending_expirations().len(), 10_000);
    // Replay identity: a second node applying the same operations reaches
    // the same full state, including the indexes.
    let replay = ten_thousand();
    assert!(state.same_state(&replay));
    assert_eq!(state.state_root_smt(), replay.state_root_smt());
    assert_eq!(state.state_root_v2(), replay.state_root_v2());
}

/// Collection through the queue on a big state: expired domains leave,
/// survivors stay, the queue drains exactly the expired slots.
#[test]
fn gc_queue_drains_a_large_state_exactly() {
    let mut state = new_state();
    seed_open_uip(&mut state);
    let mut j = UndoLog::new();
    let by = who(7);
    // 300 domains registered at t=0, 300 at t=10_000, interleaved.
    for i in 0..600u32 {
        let now = if i % 2 == 0 { 0 } else { 10_000 };
        state.apply_journaled_at(&register_by(&format!("g{i}.uip"), by), now, &mut j).unwrap();
    }
    assert_eq!(state.len(), 600);
    let mut j2 = UndoLog::new();
    let removed = state.gc_expired_journaled(DOMAIN_TERM_SECS, &mut j2);
    assert_eq!(removed.len(), 300);
    assert_eq!(state.len(), 300);
    // Queue: only the late instant remains.
    assert_eq!(instants(&state), 1);
    assert_eq!(state.pending_expirations().len(), 300);
    // The expired ids are exactly the t=0 half, parked in grace.
    for id in &removed {
        assert!(state.domain(id).is_none());
    }
    // Survivors: the t=10_000 half.
    for i in (0..600u32).filter(|i| i % 2 == 1) {
        assert!(state.domain(&domain_id(&format!("g{i}.uip"))).is_some());
    }
    // Rollback restores the exact state before, indexes included.
    state.rollback(j2);
    assert_eq!(state.len(), 600);
    assert_eq!(state.pending_expirations().len(), 600);
}

#[test]
fn eligible_validators_pool_is_indexed_not_scanned() {
    let mut state = new_state();
    seed_open_uip(&mut state);
    let by = [who(2), who(3), who(4)];
    // 200 domains spread over 3 owners (+ the uip owner). The proof-of-work
    // keys are learned from the transactions.
    for i in 0..200usize {
        state.apply(&register_by(&format!("p{i}.uip"), by[i % 3])).unwrap();
    }
    // The bounded index: 4 distinct owners (uip owner + 3).
    assert_eq!(state.owners().len(), 4);
    let pool = state.eligible_validators(0);
    assert_eq!(pool.len(), 4);
    // Every domain expires: the 3 domain owners leave the pool, the uip
    // owner stays.
    let mut j = UndoLog::new();
    state.gc_expired_journaled(DOMAIN_TERM_SECS, &mut j);
    assert_eq!(state.owners().len(), 1);
    let pool = state.eligible_validators(DOMAIN_TERM_SECS);
    assert_eq!(pool.len(), 1);
    // Rollback: pool entries restored.
    state.rollback(j);
    assert_eq!(state.owners().len(), 4);
    assert_eq!(state.eligible_validators(0).len(), 4);
}

/// The owner pool follows transfers and revocations too.
#[test]
fn owner_pool_follows_tld_transfers_and_revocations() {
    let mut state = new_state();
    state.apply(&register_tld("uip", 1)).unwrap();
    assert_eq!(state.owners().len(), 1);
    state.apply(&transfer("uip", 2, 1)).unwrap();
    assert_eq!(state.owners().len(), 1);
    assert!(state.owners().contains(&owner(2)));
    state.apply(&revoke("uip", 2)).unwrap();
    assert_eq!(state.owners().len(), 0);
    assert!(state.eligible_validators(0).is_empty());
}

/// The name of the legacy root zone cannot be claimed.
#[test]
fn reserved_namespace_is_refused() {
    let mut state = new_state();
    let mut tx = register_tld("com", 1);
    tx.checks.reserved_tld = true;
    assert_eq!(state.apply(&tx), Err(BlockchainError::IcannTldReserved("com".to_string())));
}

/// A slashed key leaves the pool, and only a pool member can be slashed.
#[test]
fn slash_bans_a_pool_member() {
    let mut state = new_state();
    seed_open_uip(&mut state);
    state.apply(&register("a.uip", 2)).unwrap();
    let stranger = unsigned(TxBody::Slash { offender: who(9).pk }, who(1));
    assert_eq!(state.apply(&stranger), Err(BlockchainError::SlashOffenderNotInPool));
    let before = state.state_root_v2();
    let slash = unsigned(TxBody::Slash { offender: who(2).pk }, who(1));
    let mut journal = UndoLog::new();
    state.apply_journaled_at(&slash, 5, &mut journal).unwrap();
    assert!(state.is_banned(&who(2).pk));
    assert!(!state.eligible_validators(5).contains(&who(2).pk));
    assert_ne!(state.state_root_v2(), before, "the ban list is committed by the archive root");
    // A second slash is valid, changes nothing and journals nothing.
    let banned = state.state_root_v2();
    let mut again = UndoLog::new();
    state.apply_journaled_at(&slash, 6, &mut again).unwrap();
    assert!(state.is_banned(&who(2).pk));
    assert_eq!(state.state_root_v2(), banned);
    assert_eq!(state.domain(&domain_id("a.uip")).unwrap().owner, owner(2));
    state.rollback(again);
    assert!(state.is_banned(&who(2).pk), "nothing was journaled");
    state.rollback(journal);
    assert!(!state.is_banned(&who(2).pk));
    assert_eq!(state.state_root_v2(), before);
}

/// The previous owner may take the name back during grace.
#[test]
fn grace_lets_the_previous_owner_back() {
    let mut state = new_state();
    seed_open_uip(&mut state);
    let mut j = UndoLog::new();
    state.apply_journaled_at(&register("example.uip", 3), 0, &mut j).unwrap();
    state.gc_expired_journaled(DOMAIN_TERM_SECS, &mut j);
    state.apply_journaled_at(&register("example.uip", 3), DOMAIN_TERM_SECS + 1, &mut j).unwrap();
    assert_eq!(state.domain(&domain_id("example.uip")).unwrap().owner, owner(3));
}

/// Stored entries read back; a wrong length does not.
#[test]
fn entry_encodings_roundtrip() {
    let dom = DomainState {
        owner: [7; 32],
        sequence: 3,
        record_hash: Some([9; 32]),
        registered_at: 100,
        valid_until: 1000,
    };
    let b = encode_domain_entry(&dom);
    assert_eq!(b.len(), 88);
    assert_eq!(decode_domain_entry(&b), Some(dom));
    assert_eq!(decode_tld_entry(&b), None);
    let tld = TldState { owner: [7; 32], open: true };
    let t = encode_tld_entry(&tld);
    assert_eq!(t.len(), 33);
    assert_eq!(decode_tld_entry(&t), Some(tld));
    assert_eq!(decode_domain_entry(&t), None);
}

#[test]
fn empty_set_matches_empty_state_root() {
    let state = new_state();
    let empty = recompute_state_root(&[], &[]);
    assert_eq!(empty.state_root, state.state_root_smt());
}

#[test]
fn recompute_matches_live_state_root() {
    let mut state = new_state();
    let owner = [7; 32];
    let dom = domain_id("a.uip");
    let tld = tld_id("uip");
    let dom_st =
        DomainState { owner, sequence: 3, record_hash: Some([9; 32]), registered_at: 100, valid_until: 1000 };
    let tld_st = TldState { owner, open: true };
    state.restore_domain(dom, dom_st).unwrap();
    state.restore_tld(tld, tld_st).unwrap();
    let recomputed = recompute_state_root(&[(dom, dom_st)], &[(tld, tld_st)]);
    assert_eq!(recomputed.state_root, state.state_root_smt());
    // The root depends on the content alone.
    let flipped = recompute_state_root(&[(dom, dom_st)], &[(tld, tld_st)]);
    assert_eq!(flipped.state_root, recomputed.state_root);
    // Another content changes the root.
    let other = recompute_state_root(&[], &[(tld, tld_st)]);
    assert_ne!(other.state_root, recomputed.state_root);
    // A snapshot holds each id once.
    assert_eq!(state.restore_domain(dom, dom_st), Err(BlockchainError::DomainAlreadyRegistered));
    assert_eq!(state.restore_tld(tld, tld_st), Err(BlockchainError::TldAlreadyRegistered));
}

/// The proof of work is over the name that the transaction itself carries.
#[test]
fn pow_is_over_the_registered_name() {
    assert_eq!(ChainState::pow_name(&register("example.uip", 1)), Some(b"example.uip".to_vec()));
    assert_eq!(ChainState::pow_name(&register_tld("uip", 1)), Some(b"uip".to_vec()));
    assert_eq!(ChainState::pow_name(&set_open("uip", 1, true)), None);
    assert_eq!(ChainState::pow_name(&update("example.uip", 1, 1)), None);
}

/// A journal of applied and refused transactions and of collections, in any
/// order, rolls back to the state before all of them.
#[test]
fn journal_of_many_steps_rolls_back() {
    let mut state = new_state();
    seed_open_uip(&mut state);
    state.apply(&register("old.uip", 1)).unwrap();
    let before = state.clone();
    let late = DOMAIN_TERM_SECS + 1;
    let mut journal = UndoLog::new();
    state.apply_journaled_at(&register("a.uip", 1), 5, &mut journal).unwrap();
    assert!(state.apply_journaled_at(&register("a.uip", 2), 6, &mut journal).is_err());
    state.apply_journaled_at(&update("a.uip", 1, 1), 7, &mut journal).unwrap();
    assert_eq!(state.gc_expired_journaled(late, &mut journal).len(), 1);
    state.apply_journaled_at(&register("old.uip", 1), late, &mut journal).unwrap();
    assert!(state.apply_journaled_at(&update("none.uip", 1, 1), late, &mut journal).is_err());
    assert_eq!(state.gc_expired_journaled(3 * late, &mut journal).len(), 2);
    assert!(!state.same_state(&before));
    state.rollback(journal);
    assert!(state.same_state(&before));
    assert_eq!(state.state_root_smt(), before.state_root_smt());
}
