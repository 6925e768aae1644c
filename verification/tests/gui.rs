use scone::chain::Blockchain;
use scone::consensus::Consensus;
use scone::consensus::PermissiveConsensus;
use scone::crypto::SigningKey;
use scone::digest::hash256;
use scone::error::BlockchainError;
use scone::finality::Draw;
use scone::finality::SeedSource;
use scone::finality::everyone_in;
use scone::gui::DEFAULT_RPC_ADDR;
use scone::gui::GuiError;
use scone::gui::OwnerPortfolio;
use scone::gui::RelayStatus;
use scone::gui::StoreRow;
use scone::gui::block_body;
use scone::gui::decode_hex64;
use scone::gui::domain_names;
use scone::gui::explore_store;
use scone::gui::hex64;
use scone::gui::list_identities;
use scone::gui::parse_hex64;
use scone::gui::relay_address;
use scone::idmap::IdMap;
use scone::merkle::merkle_root;
use scone::merkle::tx_root;
use scone::page::ExploreMode;
use scone::page::PageState;
use scone::page::ResultArea;
use scone::page::owner_display;
use scone::producer::encode_producer_payload;
use scone::producer::producer_signing_hash;
use scone::producer::sign_block_hash;
use scone::relay::Lookup;
use scone::relay::domain_card;
use scone::relay::relay_status;
use scone::relay::str_field;
use scone::relay::u64_field;
use scone::relay::wants_resolution;
use scone::relay::worth_refetching;
use scone::types::Block;
use scone::types::BlockHeader;
use scone::types::ConsensusParams;
use scone::types::CoreError;
use scone::types::Encoded;
use scone::types::NetworkId;
use scone::types::NetworkParams;
use scone::types::ProtocolError;
use scone::types::ProtocolParams;
use scone::types::Transaction;
use scone::types::TxBody;
use scone::types::TxChecks;

const PROTOCOL_VERSION: u32 = 1;

fn key(seed: u8) -> SigningKey {
    SigningKey::from_bytes([seed; 32])
}

fn digest(parts: &[&[u8]]) -> [u8; 32] {
    hash256(&parts.concat())
}

fn domain_id(name: &str) -> [u8; 32] {
    digest(&[b"dom:", name.as_bytes()])
}

fn tld_id(tld: &str) -> [u8; 32] {
    digest(&[b"tld:", tld.as_bytes()])
}

/// Identity of a public key.
fn owner_of(pk: &[u8; 32]) -> [u8; 32] {
    digest(&[b"own:", pk])
}

/// What the core layer finds wrong with a body.
fn violation(body: &TxBody) -> Option<CoreError> {
    match body {
        TxBody::UpdateDomain { sequence: 0, .. } => Some(CoreError { code: 1 }),
        _ => None,
    }
}

/// A transaction with its encodings, signed by `signer`.
fn encoded_tx(network: NetworkId, owner: [u8; 32], pk: [u8; 32], body: TxBody, extra: &str, signer: &SigningKey) -> Transaction {
    let payload = format!("{network:?}{owner:?}{pk:?}{body:?}{extra}").into_bytes();
    let signature = signer.sign(&payload);
    seal_tx(network, owner, pk, body, extra, signature)
}

/// A transaction with its encodings and a given signature.
fn seal_tx(network: NetworkId, owner: [u8; 32], pk: [u8; 32], body: TxBody, extra: &str, signature: [u8; 64]) -> Transaction {
    let payload = format!("{network:?}{owner:?}{pk:?}{body:?}{extra}").into_bytes();
    let mut whole = payload.clone();
    whole.extend_from_slice(&signature);
    let bad = violation(&body);
    let (encoding, signing_payload) = match bad {
        Some(_) => (Encoded::Failed(ProtocolError { code: 1 }), Encoded::Failed(ProtocolError { code: 1 })),
        None => (Encoded::Bytes(whole), Encoded::Bytes(payload)),
    };
    Transaction {
        network,
        owner,
        public_key: pk,
        signature,
        body,
        checks: TxChecks {
            encoding,
            signing_payload,
            violation: bad,
            key_owner: owner_of(&pk),
            pow_fault: None,
            reserved_tld: false,
        },
    }
}

fn signed(body: TxBody, seed: u8) -> Transaction {
    let sk = key(seed);
    let pk = sk.public_key();
    encoded_tx(NetworkId::Testnet, owner_of(&pk), pk, body, "", &sk)
}

fn parent_of(name: &str) -> [u8; 32] {
    tld_id(name.rsplit('.').next().unwrap())
}

fn register_domain_tx(name: &str, seed: u8) -> Transaction {
    signed(TxBody::RegisterDomain { name: name.to_string(), domain_id: domain_id(name), parent: parent_of(name) }, seed)
}

fn register_tld_tx(tld: &str, seed: u8) -> Transaction {
    signed(TxBody::RegisterTld { name: tld.to_string(), tld_id: tld_id(tld) }, seed)
}

fn set_open_tx(tld: &str, seed: u8, open: bool) -> Transaction {
    signed(TxBody::SetTldOpen { tld_id: tld_id(tld), open }, seed)
}

/// Canonical bytes of header fields.
fn header_bytes(version: u32, height: u64, prev: &[u8; 32], root: &[u8; 32], ts: u64, consensus: &[u8]) -> Encoded {
    if version != PROTOCOL_VERSION || consensus.len() > 256 {
        return Encoded::Failed(ProtocolError { code: 2 });
    }
    Encoded::Bytes(
        [&version.to_le_bytes()[..], &height.to_le_bytes(), prev, root, &ts.to_le_bytes(), consensus].concat(),
    )
}

/// Recomputes the encodings of a header from its fields.
fn encode_header(h: &mut BlockHeader) {
    h.encoding = header_bytes(h.version, h.height, &h.prev_hash, &h.tx_root, h.timestamp, &h.consensus);
    h.signing_encoding = header_bytes(h.version, h.height, &h.prev_hash, &h.tx_root, h.timestamp, &[]);
}

fn bytes_of(e: Encoded) -> Vec<u8> {
    match e {
        Encoded::Bytes(b) => b,
        Encoded::Failed(_) => panic!("not encodable"),
    }
}

fn network(network_id: NetworkId) -> NetworkParams {
    let name = network_id.as_bytes();
    let root = merkle_root(&[]);
    NetworkParams {
        network_id,
        tld_pow_difficulty: 8,
        domain_pow_difficulty: 4,
        consensus: ConsensusParams { committee_size: 4, recovery_max_epochs: 3, epoch_secs: 3600, epoch_min_blocks: 4 },
        protocol: ProtocolParams {
            version: PROTOCOL_VERSION,
            max_txs_per_block: 64,
            max_consensus_len: 256,
            min_finality_committee: 4,
        },
        genesis_encoding: bytes_of(header_bytes(PROTOCOL_VERSION, 0, &[0; 32], &root, 0, &name)),
        genesis_signing_encoding: bytes_of(header_bytes(PROTOCOL_VERSION, 0, &[0; 32], &root, 0, &[])),
    }
}

fn testnet() -> NetworkParams {
    network(NetworkId::Testnet)
}

/// The keys that a draw elects: the `size` lowest of the pool by the hash
/// of seed and key.
fn elect(d: &Draw) -> Vec<[u8; 32]> {
    let seed = match d.seed {
        SeedSource::Genesis(h) => digest(&[b"next:", &h]),
        SeedSource::Base(s) => s,
        SeedSource::Recovery { seed, counter } => digest(&[b"recovery:", &seed, &counter.to_le_bytes()]),
    };
    let mut ranked: Vec<([u8; 32], [u8; 32])> = d.pool.iter().map(|pk| (digest(&[&seed, pk]), *pk)).collect();
    ranked.sort();
    ranked.into_iter().take(d.size).map(|(_, pk)| pk).collect()
}

/// Union of what some draws elect.
fn elect_all(draws: &[Draw]) -> Vec<[u8; 32]> {
    everyone_in(&draws.iter().map(elect).collect())
}

fn producers<C: Consensus>(chain: &Blockchain<C>, ts: u64) -> Vec<[u8; 32]> {
    elect_all(&chain.allowed_producers(ts))
}

fn push<C: Consensus>(chain: &mut Blockchain<C>, block: &Block) -> Result<[u8; 32], BlockchainError> {
    let allowed = producers(chain, block.header.timestamp);
    chain.push_block(block, &allowed)
}

/// Producer of the test blocks: the owner of `uip`.
fn producer_key() -> SigningKey {
    key(1)
}

/// Signs a block again after its header was changed.
fn resign(block: &mut Block) {
    resign_as(block, &producer_key());
}

fn resign_as(block: &mut Block, sk: &SigningKey) {
    block.header.consensus = Vec::new();
    encode_header(&mut block.header);
    if let Some(sh) = producer_signing_hash(&block.header) {
        let sig = sign_block_hash(sk, &sh);
        block.header.consensus = encode_producer_payload(&sk.public_key(), &sig);
    }
    encode_header(&mut block.header);
}

fn make_block(prev: [u8; 32], height: u64, txs: Vec<Transaction>) -> Block {
    let mut block = Block {
        header: BlockHeader {
            version: PROTOCOL_VERSION,
            height,
            prev_hash: prev,
            tx_root: tx_root(&txs).unwrap(),
            timestamp: height,
            consensus: Vec::new(),
            encoding: Encoded::Bytes(Vec::new()),
            signing_encoding: Encoded::Bytes(Vec::new()),
        },
        transactions: txs,
    };
    resign(&mut block);
    block
}

fn child<C: Consensus>(chain: &Blockchain<C>, txs: Vec<Transaction>) -> Block {
    make_block(chain.tip_hash(), chain.height() + 1, txs)
}

fn new_chain() -> Blockchain<PermissiveConsensus> {
    Blockchain::for_network(testnet())
}

fn owner(seed: u8) -> [u8; 32] {
    owner_of(&key(seed).public_key())
}

/// Rows and names of a store that holds one block registering the names
/// under one key.
fn build_store(seed: u8, names: &[&str]) -> (Vec<StoreRow>, IdMap<String>) {
    let mut chain = new_chain();
    let mut txs = vec![register_tld_tx("uip", seed), set_open_tx("uip", seed, true)];
    for name in names {
        txs.push(register_domain_tx(name, seed));
    }
    let mut block = child(&chain, txs);
    resign_as(&mut block, &key(seed));
    push(&mut chain, &block).unwrap();
    let mut found = IdMap::new();
    domain_names(&mut found, &block.transactions);
    let rows = names
        .iter()
        .map(|n| {
            let id = domain_id(n);
            StoreRow { key: id.to_vec(), state: Ok(chain.state().domain(&id).unwrap()) }
        })
        .collect();
    (rows, found)
}

/// The domains of an owner given in hex.
fn explore(store: &(Vec<StoreRow>, IdMap<String>), owner_hex: &str) -> Result<OwnerPortfolio, GuiError> {
    let owner = decode_hex64(owner_hex)?;
    explore_store(&owner, &store.0, &store.1)
}

#[test]
fn owner_explorer_finds_only_owned_domains() {
    let store = build_store(7, &["a.uip", "b.uip"]);
    let owner_hex = hex64(&owner(7));
    let portfolio = explore(&store, &owner_hex).unwrap();
    let mut names: Vec<_> = portfolio.domains.iter().map(|d| d.name.clone()).collect();
    names.sort();
    assert_eq!(names, vec!["a.uip", "b.uip"]);
    for card in &portfolio.domains {
        assert!(card.registered);
        assert_eq!(card.owner, owner_hex);
        assert_eq!(card.sequence, 0);
        assert_eq!(card.record_hash, "(none)");
        assert_eq!(card.domain_id.len(), 64);
    }
}

#[test]
fn owner_explorer_finds_nothing_for_a_foreign_owner() {
    let store = build_store(7, &["a.uip"]);
    let portfolio = explore(&store, &hex64(&owner(99))).unwrap();
    assert!(portfolio.domains.is_empty());
}

#[test]
fn malformed_owner_hex_is_rejected() {
    let store = build_store(7, &["a.uip"]);
    assert_eq!(
        explore(&store, "xyz"),
        Err(GuiError::InvalidAddr("OwnerId must be 64 hex chars, got 3".to_string()))
    );
    assert_eq!(
        explore(&store, &"ab".repeat(31)),
        Err(GuiError::InvalidAddr("OwnerId must be 64 hex chars, got 62".to_string()))
    );
    assert!(explore(&store, &"zz".repeat(32)).is_err());
}

/// The decoder takes 64 lower-case digits, with white space around them, and
/// nothing else.
#[test]
fn owner_hex_is_strict() {
    assert_eq!(decode_hex64(&"ab".repeat(32)), Ok([0xab; 32]));
    assert_eq!(decode_hex64(&format!(" \t{}\u{2003}\n", "ab".repeat(32))), Ok([0xab; 32]));
    let refusal = Err(GuiError::InvalidAddr("OwnerId must be 64 hex chars, got 64".to_string()));
    assert_eq!(decode_hex64(&"AB".repeat(32)), refusal);
    assert_eq!(decode_hex64(&"aB".repeat(32)), refusal);
    assert_eq!(decode_hex64(&"\u{e9}".repeat(32)), refusal);
    assert!(decode_hex64("").is_err());
}

/// Cards come in the order of their names, and a domain without a known
/// name shows its id.
#[test]
fn portfolio_is_ordered_by_name() {
    let (mut rows, names) = build_store(7, &["c.uip", "a.uip", "b.uip"]);
    let st = rows[0].state.clone().unwrap();
    rows.push(StoreRow { key: vec![5; 32], state: Ok(st) });
    let portfolio = explore_store(&owner(7), &rows, &names).unwrap();
    let shown: Vec<&str> = portfolio.domains.iter().map(|d| d.name.as_str()).collect();
    let unnamed = format!("({})", "05".repeat(32));
    assert_eq!(shown, vec![unnamed.as_str(), "a.uip", "b.uip", "c.uip"]);
}

/// A malformed row is an error, and a malformed key of a foreign row is not.
#[test]
fn corrupted_rows_are_reported() {
    let (mut rows, names) = build_store(7, &["a.uip"]);
    rows.push(StoreRow { key: vec![1, 2], state: rows[0].state.clone() });
    assert_eq!(
        explore_store(&owner(7), &rows, &names),
        Err(GuiError::Corrupted("domain key".to_string()))
    );
    assert!(explore_store(&owner(8), &rows, &names).is_ok());
    rows.push(StoreRow { key: vec![0; 32], state: Err("short entry".to_string()) });
    assert_eq!(
        explore_store(&owner(8), &rows, &names),
        Err(GuiError::Corrupted("short entry".to_string()))
    );
    assert_eq!(
        block_body(&vec![0; 39]),
        Err(GuiError::Corrupted("blocks_by_height: short header".to_string()))
    );
    assert_eq!(block_body(&(0..43).collect()), Ok(vec![40, 41, 42]));
}

#[test]
fn hex_reads_back() {
    let bytes: [u8; 32] = std::array::from_fn(|i| (i * 37) as u8);
    assert_eq!(decode_hex64(&hex64(&bytes)), Ok(bytes));
    assert_eq!(decode_hex64(&format!("  {}\n", hex64(&bytes))), Ok(bytes));
    assert_eq!(parse_hex64(&hex64(&bytes)), Ok(bytes));
    assert!(parse_hex64(&format!(" {}", hex64(&bytes))).is_err());
    assert_eq!(&hex64(&[0xa5; 32])[..4], "a5a5");
}

#[test]
fn relay_address_defaults() {
    assert_eq!(relay_address(""), DEFAULT_RPC_ADDR);
    assert_eq!(relay_address("  \t"), "127.0.0.1:7474");
    assert_eq!(relay_address(" 10.0.0.1:1 "), "10.0.0.1:1");
    assert_eq!(relay_address("\u{3000}\u{85}"), "127.0.0.1:7474");
    assert_eq!(relay_address("\u{a0}a b\u{2028}"), "a b");
    assert_eq!(relay_address("\u{200b}"), "\u{200b}");
}

#[test]
fn error_texts() {
    assert_eq!(GuiError::InvalidAddr("x".to_string()).message(), "invalid relay address 'x'");
    assert_eq!(
        GuiError::RelayUnreachable("a:1".to_string()).message(),
        "cannot reach the relay at a:1 \u{2014} is 'scone relay' running?"
    );
    assert_eq!(GuiError::Relay("e".to_string()).message(), "relay error: e");
    assert_eq!(GuiError::Store("e".to_string()).message(), "store error: e");
    assert_eq!(GuiError::Keystore("e".to_string()).message(), "keystore error: e");
    assert_eq!(GuiError::Corrupted("e".to_string()).message(), "corrupted store entry: e");
}

fn json(text: &str) -> serde_json::Value {
    serde_json::from_str(text).unwrap()
}

#[test]
fn status_reply_is_read_member_by_member() {
    let v = json(r#"{"peer_id":"p","tip":"t","height":5,"peers":2,"domain_count":3,"mempool":4}"#);
    let full = RelayStatus {
        peer_id: "p".to_string(),
        tip: "t".to_string(),
        height: 5,
        peers: 2,
        domain_count: 3,
        mempool: 4,
    };
    assert_eq!(relay_status(&v), full);
    // Missing and malformed members.
    let v = json(r#"{"tip":1,"height":"5","peers":-2,"domain_count":1.5}"#);
    let poor = RelayStatus { peer_id: "-".to_string(), tip: "-".to_string(), ..RelayStatus::default() };
    assert_eq!(relay_status(&v), poor);
    assert_eq!(relay_status(&json("[1]")), poor);
    assert_eq!(str_field(&json(r#"{"a":"b"}"#), "a"), "b");
    assert_eq!(str_field(&json(r#"{"a":"b"}"#), "b"), "-");
    assert_eq!(u64_field(&json(r#"{"a":18446744073709551615}"#), "a"), u64::MAX);
    assert_eq!(u64_field(&json(r#"{"a":18446744073709551616}"#), "a"), 0);
}

#[test]
fn domain_reply_becomes_a_card() {
    let v = json(
        r#"{"name":"a.uip","domain_id":"id","registered":true,"owner":"o","sequence":3,
            "record_hash":"h","dns":[{"type":"A","value":"1.2.3.4"},{"type":"TXT"},7]}"#,
    );
    let card = domain_card(&v);
    assert_eq!(card.name, "a.uip");
    assert_eq!(card.domain_id, "id");
    assert!(card.registered);
    assert_eq!(card.owner, "o");
    assert_eq!(card.sequence, 3);
    assert_eq!(card.record_hash, "h");
    let dns: Vec<(&str, &str)> = card.dns.iter().map(|d| (d.kind.as_str(), d.value.as_str())).collect();
    assert_eq!(dns, vec![("A", "1.2.3.4"), ("TXT", "-"), ("-", "-")]);
    assert!(!wants_resolution(&v));

    let empty = domain_card(&json(r#"{"dns":null,"registered":"yes"}"#));
    assert_eq!(empty.name, "-");
    assert!(!empty.registered);
    assert_eq!(empty.record_hash, "(none)");
    assert!(empty.dns.is_empty());
    assert!(wants_resolution(&json(r#"{"dns":[]}"#)));
    assert!(wants_resolution(&json("{}")));
    assert!(worth_refetching(&json(r#"{"verified":true}"#)));
    assert!(!worth_refetching(&json(r#"{"verified":false}"#)));
    assert!(!worth_refetching(&json(r#"{"verified":1}"#)));
}

#[test]
fn lookup_resolves_once() {
    let bare = json(r#"{"dns":[]}"#);
    let full = json(r#"{"dns":[{"type":"A","value":"1.2.3.4"}]}"#);
    let verified = json(r#"{"verified":true}"#);
    // A reply with records is shown at once.
    assert_eq!(Lookup::Info.next(Some(&full)), Lookup::Done);
    // Without records the relay resolves, and is asked again if it could.
    assert_eq!(Lookup::Info.next(Some(&bare)), Lookup::Record);
    assert_eq!(Lookup::Record.next(Some(&verified)), Lookup::Again);
    assert_eq!(Lookup::Again.next(Some(&bare)), Lookup::Done);
    // A failed or unverified resolution leaves the first reply.
    assert_eq!(Lookup::Record.next(None), Lookup::Done);
    assert_eq!(Lookup::Record.next(Some(&json(r#"{"verified":false}"#))), Lookup::Done);
    assert!(Lookup::Info.asks_for_card() && Lookup::Again.asks_for_card());
    assert!(!Lookup::Record.asks_for_card() && !Lookup::Done.asks_for_card());
}

#[test]
fn page_connects_and_explores() {
    let mut page = PageState::default();
    assert_eq!(page.relay_addr, DEFAULT_RPC_ADDR);
    assert!(!page.identities_loaded());
    page.scanned(Ok(list_identities(vec!["alice".to_string(), "bob".to_string()])));
    assert!(page.identities_loaded());
    assert!(page.active_identity().is_none());
    page.active = Some(1);
    assert_eq!(page.active_identity().unwrap().name, "bob");
    assert_eq!(owner_display(page.active_identity().unwrap()), "(d\u{e9}verrouillage requis \u{2014} v2)");
    page.active = Some(2);
    assert!(page.active_identity().is_none());

    assert_eq!(page.begin_connect(), DEFAULT_RPC_ADDR);
    page.finish_connect(Err("down".to_string()));
    assert_eq!(page.connect_error, "down");
    assert!(page.connected.is_none());
    page.begin_connect();
    page.finish_connect(Ok(RelayStatus::default()));
    assert_eq!(page.connect_error, "");
    assert!(page.connected.is_some());

    assert!(matches!(page.result_area(), ResultArea::NoSearch));
    page.query = "   ".to_string();
    assert!(page.begin_explore().is_none());
    page.query = "  a.uip ".to_string();
    let e = page.begin_explore().unwrap();
    assert_eq!(e.query, "a.uip");
    assert!(e.mode == ExploreMode::Name);
    assert_eq!(e.relay, DEFAULT_RPC_ADDR);
    assert!(matches!(page.result_area(), ResultArea::Searching));
    page.finish_explore(Ok(vec![]));
    assert!(matches!(page.result_area(), ResultArea::Empty));
    page.finish_explore(Err("no".to_string()));
    assert!(matches!(page.result_area(), ResultArea::Failed(t) if t == "no"));
    page.finish_explore(Ok(vec![domain_card(&json("{}"))]));
    assert!(matches!(page.result_area(), ResultArea::Cards(c) if c.len() == 1));
}

#[test]
fn a_failed_scan_counts_as_loaded() {
    let mut page = PageState::default();
    page.scanned(Err("no keystore".to_string()));
    assert!(page.identities_loaded());
    assert_eq!(page.identities_error, "no keystore");
}
