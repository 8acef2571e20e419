use ed25519_dalek::{Signer, SigningKey, Verifier, VerifyingKey};

use myrhiza::backend::{BackendError, ComponentInstance, InteractionInstance, ProposeInstance, Verdict};
use myrhiza::dag::{DagError, EventDag, Inserted};
use myrhiza::digest::DigestEmitter;
use myrhiza::distribution::backfill::{DistributionBackfillRequest, DistributionEnvelope, DistributionLogKind};
use myrhiza::distribution::heads::RevocationHeads;
use myrhiza::distribution::publication::PublicationEvent;
use myrhiza::distribution::revocation::RevocationEvent;
use myrhiza::drift::{anchor_covered, should_emit, DriftRateLimit, RateLimitKind};
use myrhiza::event::{AuthorHead, AuthorSeq, DriftAnchor, Event, EventRequest, GenesisV1, Hlc};
use myrhiza::event_builder::{canonical_envelope, counter_increment_payload, EventBuilder};
use myrhiza::identity::{decode_author_pubkey, encode_author_pubkey, AuthorKeypair, IdentityError, PeerKeypair};
use myrhiza::ids::{AuthorPubkey, BlobHash, BundleHash, EventHash, IdMap, IdSet, PeerPubkey, Topic};
use myrhiza::gossip::{
    on_subscription_event, route_app_message, route_distribution_message, AppRoute, DistributionRoute, GossipMessage,
    SubscriptionAction, SubscriptionEvent,
};
use myrhiza::heads_summary::{build_heads_summary, screen_heads_summary, HeadsSummarySignedPayload};
use myrhiza::ingest::{
    missing_recovery, next_slot, plan_chain_gap, EventIngest, GapPlan, IngestAction, Recovery,
};
use myrhiza::install::{check_kernel_major, decode_author_pubkey_hex, InstallError};
use myrhiza::interaction::{InteractionError, InteractionHandle};
use myrhiza::keystore::{check_mode, parse_author_file_name, seed_from_file, sorted_authors, FilesystemIdentityStore};
use myrhiza::pending::{PendingBuffer, PendingCfg};
use myrhiza::runtime::{
    check_fuel_table_version, classify_author_diff, paginate_into, stale_authors, AuthorDiff,
    DistributionState, EquivocationFlag, PeerAuthorityIndex, PeerWarning, PublicationAnnounced, RevocationApplied, RuntimeCfg,
    RuntimeError,
};
use myrhiza::state_apply::{ApplyOutcome, StateApplyHandle};
use myrhiza::state_propose::{ProposeError, StateProposeHandle};
use myrhiza::replay::{anchor_digest, anchor_subset, replay_after_intake, replay_fold, replay_full, try_tip_incremental, ReplayState};
use myrhiza::drift_inbox::resolve_drift;
use myrhiza::state_apply::{ApplyError, ApplyResult};
use myrhiza::install::{disk_location, manifest_gates, BundleAddress};
use myrhiza::runtime::admit_backfill;
use myrhiza::topic_state::{author_event, intake_event, TopicState};
use myrhiza::gossip::note_distribution_sync;

const SECOND: u64 = 1_000_000_000;
const MINUTE: u64 = 60 * SECOND;
const HOUR: u64 = 60 * MINUTE;

// ---- drift ----

#[test]
fn should_emit_at_multiples_of_interval() {
    assert!(!should_emit(0, 4));
    assert!(should_emit(4, 4));
    assert!(should_emit(8, 4));
    assert!(!should_emit(1, 4));
    assert!(!should_emit(3, 4));
}

#[test]
fn should_emit_zero_interval_never_fires() {
    assert!(!should_emit(0, 0));
    assert!(!should_emit(100, 0));
}

#[test]
fn rate_limit_blocks_on_min_interval() {
    let mut rl = DriftRateLimit::new(MINUTE, 1024);
    let t0 = 1_000 * HOUR;
    rl.try_emit(t0).expect("first ok");
    let r = rl.try_emit(t0 + 30 * SECOND);
    assert!(matches!(r, Err(RateLimitKind::MinInterval)));
}

#[test]
fn rate_limit_blocks_on_daily_cap() {
    let mut rl = DriftRateLimit::new(0, 2);
    let t0 = 1_000 * HOUR;
    rl.try_emit(t0).expect("1");
    rl.try_emit(t0).expect("2");
    let r = rl.try_emit(t0);
    assert!(matches!(r, Err(RateLimitKind::DailyCap)));
}

#[test]
fn daily_cap_does_not_admit_double_burst_across_rollover() {
    let mut rl = DriftRateLimit::new(MINUTE, 4);
    let t0 = 1_000 * HOUR;
    let near_rollover = t0 + 24 * HOUR - SECOND;
    let mut t = near_rollover;
    for _ in 0..4 {
        rl.try_emit(t).expect("within daily cap");
        t += MINUTE;
    }
    let after_rollover = t0 + 24 * HOUR + SECOND;
    let r = rl.try_emit(after_rollover);
    assert!(matches!(r, Err(RateLimitKind::DailyCap)), "sliding window must still reject across rollover, got {r:?}");
}

#[test]
fn rate_limit_admits_again_after_window_passes() {
    let mut rl = DriftRateLimit::new(0, 1);
    let t0 = 1_000 * HOUR;
    rl.try_emit(t0).expect("first");
    assert_eq!(rl.try_emit(t0 + HOUR), Err(RateLimitKind::DailyCap));
    rl.try_emit(t0 + 24 * HOUR).expect("a day later the slot is free");
}

#[test]
fn anchor_covered_returns_true_when_all_authors_satisfied() {
    let anchor = DriftAnchor {
        event_hash: EventHash::zero(),
        author_seq_vec: vec![
            AuthorSeq { author: AuthorPubkey::from_bytes([1; 32]), max_seq: 3 },
            AuthorSeq { author: AuthorPubkey::from_bytes([2; 32]), max_seq: 5 },
        ],
    };
    let mut map = IdMap::new();
    map.insert(AuthorPubkey::from_bytes([1; 32]), 4);
    map.insert(AuthorPubkey::from_bytes([2; 32]), 5);
    assert!(anchor_covered(&anchor, &map));
}

#[test]
fn anchor_covered_returns_false_when_author_missing() {
    let anchor = DriftAnchor {
        event_hash: EventHash::zero(),
        author_seq_vec: vec![AuthorSeq { author: AuthorPubkey::from_bytes([1; 32]), max_seq: 3 }],
    };
    let map = IdMap::new();
    assert!(!anchor_covered(&anchor, &map));
}

// ---- identity ----

#[test]
fn identity_deterministic_peer_keypair_is_reproducible() {
    let p1 = PeerKeypair::deterministic(42);
    let p2 = PeerKeypair::deterministic(42);
    assert_eq!(p1.public, p2.public);
}

#[test]
fn identity_deterministic_author_keypair_is_reproducible() {
    let a1 = AuthorKeypair::deterministic(7);
    let a2 = AuthorKeypair::deterministic(7);
    assert_eq!(a1.author, a2.author);
}

#[test]
fn mod_deterministic_peer_keypair_is_reproducible() {
    let p1 = PeerKeypair::deterministic(42);
    let p2 = PeerKeypair::deterministic(42);
    assert_eq!(p1.public, p2.public);
}

#[test]
fn mod_deterministic_author_keypair_is_reproducible() {
    let a1 = AuthorKeypair::deterministic(7);
    let a2 = AuthorKeypair::deterministic(7);
    assert_eq!(a1.author, a2.author);
}

#[test]
fn deterministic_keypair_uses_big_endian_seed() {
    let mut seed = [0u8; 32];
    seed[..8].copy_from_slice(&7u64.to_be_bytes());
    let expected = SigningKey::from_bytes(&seed).verifying_key().to_bytes();
    assert_eq!(AuthorKeypair::deterministic(7).author.bytes, expected);
    assert_eq!(AuthorKeypair::from_secret_bytes(seed).author.bytes, expected);
}

#[test]
fn peer_keypair_generate_with_csprng_produces_distinct_keys() {
    let a = PeerKeypair::generate();
    let b = PeerKeypair::generate();
    assert_ne!(a.public, b.public, "two CSPRNG draws must differ");
}

#[test]
fn identity_author_sign_body_hash_verifies_via_manifest_path() {
    let kp = AuthorKeypair::deterministic(99);
    let body_hash = EventHash::blake3(b"some-event-body");
    let sig = kp.sign_body_hash(body_hash);
    let vk = VerifyingKey::from_bytes(kp.author.as_bytes()).unwrap();
    vk.verify_strict(body_hash.as_bytes(), &ed25519_dalek::Signature::from_bytes(&sig))
        .expect("author-signed body_hash must verify");
}

#[test]
fn mod_author_sign_body_hash_verifies_via_manifest_path() {
    let kp = AuthorKeypair::deterministic(99);
    let body_hash = EventHash::blake3(b"some-event-body");
    let sig = kp.sign_body_hash(body_hash);
    let vk = VerifyingKey::from_bytes(kp.author.as_bytes()).unwrap();
    vk.verify(body_hash.as_bytes(), &ed25519_dalek::Signature::from_bytes(&sig))
        .expect("author-signed body_hash must verify");
}

#[test]
fn encode_then_decode_roundtrips() {
    let pk = AuthorPubkey::from_bytes([0xAB; 32]);
    let s = encode_author_pubkey(pk);
    assert!(s.starts_with("wuser1"), "must start with wuser1, got {s}");
    let pk2 = decode_author_pubkey(&s).expect("decode roundtrip");
    assert_eq!(pk, pk2);
}

#[test]
fn decode_rejects_wrong_hrp() {
    let hrp = bech32::Hrp::parse_unchecked("wpub-author");
    let s = bech32::encode::<bech32::Bech32m>(hrp, &[0u8; 32]).unwrap();
    match decode_author_pubkey(&s) {
        Err(IdentityError::HrpMismatch { actual, .. }) => assert_eq!(actual, "wpub-author"),
        other => panic!("expected HrpMismatch, got {other:?}"),
    }
}

#[test]
fn decode_rejects_garbage() {
    assert!(matches!(decode_author_pubkey("not-bech32"), Err(IdentityError::Bech32Decode { .. })));
}

#[test]
fn decode_rejects_short_payload() {
    let hrp = bech32::Hrp::parse_unchecked("wuser");
    let s = bech32::encode::<bech32::Bech32m>(hrp, &[0u8; 16]).unwrap();
    assert!(matches!(decode_author_pubkey(&s), Err(IdentityError::SeedLengthMismatch { actual: 16, .. })));
}

// ---- keystore ----

#[test]
fn store_paths_follow_layout() {
    let store = FilesystemIdentityStore::at("/var/lib/id".to_string());
    assert_eq!(store.authors_dir(), "/var/lib/id/authors");
    assert_eq!(store.peer_key_path(), "/var/lib/id/peer.key");
    let pk = AuthorPubkey::from_bytes([0xAB; 32]);
    assert_eq!(store.author_key_path(pk), format!("/var/lib/id/authors/{}.key", encode_author_pubkey(pk)));
    let slash = FilesystemIdentityStore::at("/tmp/".to_string());
    assert_eq!(slash.peer_key_path(), "/tmp/peer.key");
}

#[test]
fn secret_mode_checks() {
    assert!(check_mode("k", 0o100600, 0o600).is_ok());
    assert_eq!(
        check_mode("k", 0o644, 0o600),
        Err(IdentityError::InsecurePermissions { path: "k".into(), mode: 0o644, expected: 0o600 })
    );
    assert!(check_mode("d", 0o700, 0o700).is_ok());
}

#[test]
fn secret_file_must_hold_32_bytes() {
    assert_eq!(seed_from_file("p", &[5u8; 32]).unwrap(), [5u8; 32]);
    assert_eq!(
        seed_from_file("p", &[5u8; 31]),
        Err(IdentityError::SeedLengthMismatch { path: "p".into(), actual: 31 })
    );
}

#[test]
fn author_file_names_parse_back() {
    let pk = AuthorPubkey::from_bytes([0x3C; 32]);
    let name = format!("{}.key", encode_author_pubkey(pk));
    assert_eq!(parse_author_file_name(&name).unwrap(), pk);
    assert!(matches!(parse_author_file_name("readme.txt"), Err(IdentityError::InvalidAuthorFilename(_))));
    let sorted = sorted_authors(&[AuthorPubkey::from_bytes([9; 32]), AuthorPubkey::from_bytes([1; 32])]);
    assert_eq!(sorted, vec![AuthorPubkey::from_bytes([1; 32]), AuthorPubkey::from_bytes([9; 32])]);
}

// ---- install ----

#[test]
fn install_checks_kernel_major_and_author_key() {
    assert!(check_kernel_major(1).is_ok());
    assert_eq!(check_kernel_major(2), Err(InstallError::IncompatibleKernelMajor(2)));
    let key = [0x5Au8; 32];
    let field = format!("0x{}", hex::encode(key));
    assert_eq!(decode_author_pubkey_hex(&field).unwrap(), key);
    assert_eq!(decode_author_pubkey_hex(&hex::encode(key)), Err(InstallError::AuthorPubkeyDecode));
    assert_eq!(decode_author_pubkey_hex("0x00ff"), Err(InstallError::AuthorPubkeyDecode));
    assert_eq!(decode_author_pubkey_hex("0xzz"), Err(InstallError::AuthorPubkeyDecode));
}

// ---- dag ----

fn genesis_for(kp: &AuthorKeypair, bundle: BundleHash, seed: [u8; 32], app: Vec<u8>) -> Event {
    EventBuilder::new(kp).genesis(&bundle, seed, "main", app)
}

fn fresh_dag(seed: [u8; 32]) -> (EventDag, BundleHash) {
    let bundle_hash = BundleHash::from_bytes([0xAA; 32]);
    let topic = Topic::derive(&bundle_hash, &seed, "main");
    (EventDag::new(topic, bundle_hash, "main".into()), bundle_hash)
}

fn fresh_dag_with_genesis() -> (EventDag, AuthorKeypair, Event) {
    let seed = [0x11; 32];
    let (mut dag, bundle) = fresh_dag(seed);
    let kp = AuthorKeypair::deterministic(1);
    let g = genesis_for(&kp, bundle, seed, vec![]);
    dag.insert(g.clone()).expect("genesis");
    (dag, kp, g)
}

#[test]
fn genesis_inserts_into_empty_dag() {
    let seed = [0x11; 32];
    let (mut dag, bundle) = fresh_dag(seed);
    let kp = AuthorKeypair::deterministic(1);
    let ev = genesis_for(&kp, bundle, seed, vec![0x00; 8]);
    let r = dag.insert(ev).expect("insert");
    assert!(matches!(r, Inserted::NewlyApplied { topo_index: 0, .. }));
}

#[test]
fn genesis_rejected_on_topic_mismatch() {
    let (mut dag, bundle) = fresh_dag([0x11; 32]);
    let kp = AuthorKeypair::deterministic(1);
    let ev = genesis_for(&kp, bundle, [0x22; 32], vec![]);
    let r = dag.insert(ev).expect_err("must reject");
    assert!(matches!(r, DagError::InvalidTopic { .. }));
}

#[test]
fn genesis_rejected_on_bad_signature() {
    let seed = [0x11; 32];
    let (mut dag, bundle) = fresh_dag(seed);
    let kp = AuthorKeypair::deterministic(1);
    let mut ev = genesis_for(&kp, bundle, seed, vec![]);
    ev.signature[0] ^= 0xFF;
    let r = dag.insert(ev).expect_err("must reject");
    assert!(matches!(r, DagError::InvalidSignature));
}

#[test]
fn duplicate_genesis_returns_already_known() {
    let seed = [0x11; 32];
    let (mut dag, bundle) = fresh_dag(seed);
    let kp = AuthorKeypair::deterministic(1);
    let ev = genesis_for(&kp, bundle, seed, vec![]);
    dag.insert(ev.clone()).expect("first insert");
    let r = dag.insert(ev).expect("second insert");
    assert!(matches!(r, Inserted::AlreadyKnown));
}

#[test]
fn genesis_with_foreign_founder_is_rejected() {
    let seed = [0x11; 32];
    let (mut dag, _) = fresh_dag(seed);
    let kp = AuthorKeypair::deterministic(1);
    let other = AuthorKeypair::deterministic(2);
    let payload = GenesisV1 { seed, founder_pubkey: other.author, app_payload: vec![] }.encode();
    let mut body = Event {
        author: kp.author,
        seq: 1,
        prev: EventHash::zero(),
        deps: IdSet::new(),
        hlc: Hlc { wall_ms: 0, logical: 0 },
        payload,
        signature: [0; 64],
    };
    body.signature = kp.sign_body_hash(body.hash_signed_body());
    assert_eq!(dag.insert(body).unwrap_err(), DagError::InvalidGenesis("author != founder_pubkey"));
}

#[test]
fn next_event_inserts_after_genesis() {
    let (mut dag, kp, g) = fresh_dag_with_genesis();
    let e2 = EventBuilder::new(&kp).next(&g, IdSet::new(), vec![0xCA]);
    let r = dag.insert(e2).expect("insert");
    assert!(matches!(r, Inserted::NewlyApplied { topo_index: 1, .. }));
    assert_eq!(dag.len(), 2);
}

#[test]
fn out_of_order_seq_rejected_as_invalid_chain() {
    let (mut dag, kp, g) = fresh_dag_with_genesis();
    let b = EventBuilder::new(&kp);
    let e2 = b.next(&g, IdSet::new(), vec![]);
    let e3 = b.next(&e2, IdSet::new(), vec![]);
    let r = dag.insert(e3).expect_err("must reject");
    assert!(matches!(r, DagError::InvalidChain { expected_seq: 2, got_seq: 3, .. }));
}

#[test]
fn equivocation_at_genesis_seq_one_returns_equivocation_error() {
    let seed = [0x11; 32];
    let (mut dag, bundle) = fresh_dag(seed);
    let kp = AuthorKeypair::deterministic(1);
    let g1 = genesis_for(&kp, bundle, seed, vec![0xAA]);
    let g2 = genesis_for(&kp, bundle, seed, vec![0xBB]);
    assert_ne!(g1.wire_hash(), g2.wire_hash());
    dag.insert(g1.clone()).expect("first genesis");
    match dag.insert(g2.clone()).expect_err("must reject") {
        DagError::Equivocation { author, seq, local_hash, remote_hash } => {
            assert_eq!(author, kp.author);
            assert_eq!(seq, 1);
            assert_eq!(local_hash, g1.wire_hash());
            assert_eq!(remote_hash, g2.wire_hash());
        }
        other => panic!("expected Equivocation, got {other:?}"),
    }
}

#[test]
fn equivocation_at_non_genesis_seq_returns_equivocation_error() {
    let (mut dag, kp, g) = fresh_dag_with_genesis();
    let b = EventBuilder::new(&kp);
    let e2a = b.next(&g, IdSet::new(), vec![0xCA]);
    let e2b = b.next(&g, IdSet::new(), vec![0xFE]);
    assert_ne!(e2a.wire_hash(), e2b.wire_hash());
    dag.insert(e2a.clone()).expect("first");
    let r = dag.insert(e2b.clone()).expect_err("equivocation");
    assert!(matches!(r, DagError::Equivocation { seq: 2, .. }));
}

#[test]
fn missing_dependency_leaves_event_pending() {
    let (mut dag, kp, g) = fresh_dag_with_genesis();
    let mut deps = IdSet::new();
    let unknown = EventHash::blake3(b"elsewhere");
    deps.insert(unknown);
    let e2 = EventBuilder::new(&kp).next(&g, deps, vec![1]);
    match dag.insert(e2).expect("pending is not an error") {
        Inserted::Pending(missing) => assert_eq!(missing.as_slice(), &[unknown]),
        other => panic!("expected Pending, got {other:?}"),
    }
    assert_eq!(dag.len(), 1);
    let chain = dag.author_chain(&kp.author).unwrap();
    assert_eq!(chain.head_seq, 1);
    assert_eq!(chain.head_hash, g.wire_hash());
}

#[test]
fn event_hashes_cover_the_canonical_encoding() {
    let kp = AuthorKeypair::deterministic(3);
    let g = genesis_for(&kp, BundleHash::from_bytes([1; 32]), [2; 32], vec![9, 9]);
    let env = canonical_envelope(&g);
    assert_eq!(g.wire_hash(), EventHash::blake3(&env));
    assert_eq!(g.hash_signed_body(), EventHash::blake3(&env[..env.len() - 64]));
    assert_eq!(&env[env.len() - 64..], &g.signature[..]);
    let decoded = GenesisV1::decode(&g.payload).expect("genesis payload decodes");
    assert_eq!(decoded.seed, [2; 32]);
    assert_eq!(decoded.founder_pubkey, kp.author);
    assert_eq!(decoded.app_payload, vec![9, 9]);
    let mut trailing = g.payload.clone();
    trailing.push(0);
    assert!(GenesisV1::decode(&trailing).is_none());
}

#[test]
fn counter_payload_is_big_endian() {
    assert_eq!(counter_increment_payload(1), vec![0, 0, 0, 0, 0, 0, 0, 1]);
    assert_eq!(counter_increment_payload(-1), vec![0xFF; 8]);
    assert_eq!(counter_increment_payload(0x0102), (0x0102i64).to_be_bytes().to_vec());
}

// ---- digest ----

#[test]
fn emitter_records_per_event_digest() {
    let mut emitter = DigestEmitter::new(1024);
    emitter.observe(0, b"state_v0");
    emitter.observe(1, b"state_v1");
    emitter.observe(1024, b"state_v1024");
    let log = emitter.drain();
    assert_eq!(log.len(), 3);
    assert_eq!(log[0].event_index, 0);
    assert_eq!(log[0].digest_hash, EventHash::blake3(b"state_v0"));
    assert_eq!(log[2].event_index, 1024);
}

#[test]
fn emitter_uses_blake3_canonical() {
    let mut emitter = DigestEmitter::new(1);
    emitter.observe(0, b"abc");
    let log = emitter.drain();
    assert_eq!(log[0].digest_hash.bytes, *blake3::hash(b"abc").as_bytes());
}

#[test]
fn drain_clears_log() {
    let mut emitter = DigestEmitter::new(1);
    emitter.observe(0, b"x");
    emitter.drain();
    let log = emitter.drain();
    assert!(log.is_empty());
    assert_eq!(emitter.interval_events(), 1);
}

// ---- pending ----

fn evt(author: u8, seq: u64) -> Event {
    Event {
        author: AuthorPubkey::from_bytes([author; 32]),
        seq,
        prev: EventHash::zero(),
        deps: IdSet::new(),
        hlc: Hlc { wall_ms: 0, logical: 0 },
        payload: vec![seq as u8],
        signature: [0; 64],
    }
}

#[test]
fn newly_satisfied_returns_events_whose_deps_become_known() {
    let mut pb = PendingBuffer::new(PendingCfg::default());
    let parent_hash = EventHash::blake3(b"parent");
    let mut deps = IdSet::new();
    deps.insert(parent_hash);
    pb.insert(evt(1, 1), deps);
    assert_eq!(pb.len(), 1);

    let known = IdSet::new();
    assert!(pb.newly_satisfied(&known).is_empty());

    let mut known = IdSet::new();
    known.insert(parent_hash);
    let ready = pb.newly_satisfied(&known);
    assert_eq!(ready.len(), 1);
    assert_eq!(pb.len(), 0);
}

#[test]
fn capacity_eviction_drops_oldest() {
    let cfg = PendingCfg { max_total: 2, max_per_author: 10, ttl_nanos: HOUR };
    let mut pb = PendingBuffer::new(cfg);
    pb.insert_at(evt(1, 1), IdSet::new(), 10);
    pb.insert_at(evt(2, 1), IdSet::new(), 11);
    pb.insert_at(evt(3, 1), IdSet::new(), 12);
    assert_eq!(pb.len(), 2);
    let mut ready = pb.newly_satisfied(&IdSet::new());
    ready.sort_by_key(|e| e.author);
    let authors: Vec<AuthorPubkey> = ready.iter().map(|e| e.author).collect();
    assert_eq!(authors, vec![AuthorPubkey::from_bytes([2; 32]), AuthorPubkey::from_bytes([3; 32])]);
}

#[test]
fn per_author_cap_evicts_that_authors_oldest() {
    let cfg = PendingCfg { max_total: 100, max_per_author: 2, ttl_nanos: HOUR };
    let mut pb = PendingBuffer::new(cfg);
    pb.insert_at(evt(1, 1), IdSet::new(), 10);
    pb.insert_at(evt(2, 1), IdSet::new(), 11);
    pb.insert_at(evt(1, 2), IdSet::new(), 12);
    pb.insert_at(evt(1, 3), IdSet::new(), 13);
    assert_eq!(pb.len(), 3);
    let ready = pb.newly_satisfied(&IdSet::new());
    let mut seqs: Vec<(u8, u64)> = ready.iter().map(|e| (e.author.bytes[0], e.seq)).collect();
    seqs.sort();
    assert_eq!(seqs, vec![(1, 2), (1, 3), (2, 1)]);
}

#[test]
fn expired_entries_are_dropped_on_insert() {
    let cfg = PendingCfg { max_total: 100, max_per_author: 100, ttl_nanos: HOUR };
    let mut pb = PendingBuffer::new(cfg);
    pb.insert_at(evt(1, 1), IdSet::new(), 10);
    pb.insert_at(evt(2, 1), IdSet::new(), 10 + HOUR + 1);
    assert_eq!(pb.len(), 1);
    let ready = pb.newly_satisfied(&IdSet::new());
    assert_eq!(ready[0].author, AuthorPubkey::from_bytes([2; 32]));
}

#[test]
fn newly_satisfied_returns_in_hash_order() {
    let mut pb = PendingBuffer::new(PendingCfg::default());
    for a in 1..6u8 {
        pb.insert_at(evt(a, 1), IdSet::new(), a as u64);
    }
    let ready = pb.newly_satisfied(&IdSet::new());
    let hashes: Vec<EventHash> = ready.iter().map(|e| e.wire_hash()).collect();
    let mut sorted = hashes.clone();
    sorted.sort();
    assert_eq!(hashes, sorted);
    assert!(pb.is_empty());
}

// ---- state-apply / propose / interaction ----

struct Echo;

impl ComponentInstance for Echo {
    fn call_apply(&mut self, prior: &[u8], event: &[u8]) -> Result<(Verdict, Vec<u8>), BackendError> {
        let mut out = Vec::with_capacity(prior.len() + event.len());
        out.extend_from_slice(prior);
        out.extend_from_slice(event);
        Ok((Verdict::Accept, out))
    }

    fn call_state_digest(&mut self, state: &[u8]) -> Result<Vec<u8>, BackendError> {
        Ok(state.to_vec())
    }
}

struct AlwaysReject;

impl ComponentInstance for AlwaysReject {
    fn call_apply(&mut self, _: &[u8], _: &[u8]) -> Result<(Verdict, Vec<u8>), BackendError> {
        Ok((Verdict::Reject("nope".into()), vec![]))
    }

    fn call_state_digest(&mut self, _: &[u8]) -> Result<Vec<u8>, BackendError> {
        Ok(vec![])
    }
}

#[test]
fn pre_check_does_not_commit_state() {
    let mut handle = StateApplyHandle::new(Box::new(Echo));
    let prior = vec![1, 2, 3];
    let event = vec![4, 5];
    let r = handle.pre_check(&prior, &event).unwrap();
    assert!(matches!(r.outcome, ApplyOutcome::Accepted));
    assert_eq!(r.candidate_state, vec![1, 2, 3, 4, 5]);
}

#[test]
fn apply_returns_accept_with_new_state() {
    let mut handle = StateApplyHandle::new(Box::new(Echo));
    let r = handle.apply(&[10], &[20]).unwrap();
    assert!(matches!(r.outcome, ApplyOutcome::Accepted));
    assert_eq!(r.new_state, vec![10, 20]);
    assert_eq!(handle.state_digest(&[7, 7]).unwrap(), vec![7, 7]);
}

#[test]
fn pre_check_fail_closed_on_reject() {
    let mut handle = StateApplyHandle::new(Box::new(AlwaysReject));
    let r = handle.pre_check(&[], &[]).unwrap();
    match r.outcome {
        ApplyOutcome::Rejected(reason) => assert_eq!(reason, "nope"),
        ApplyOutcome::Accepted => panic!("must not accept"),
    }
}

struct OkPropose(Vec<u8>);

impl ProposeInstance for OkPropose {
    fn call_propose(&mut self, _prior: &[u8], _intent: &[u8]) -> Result<Result<Vec<u8>, String>, BackendError> {
        Ok(Ok(self.0.clone()))
    }
}

struct ErrPropose(String);

impl ProposeInstance for ErrPropose {
    fn call_propose(&mut self, _prior: &[u8], _intent: &[u8]) -> Result<Result<Vec<u8>, String>, BackendError> {
        Ok(Err(self.0.clone()))
    }
}

#[test]
fn propose_ok_returns_bytes() {
    let mut handle = StateProposeHandle::new(Box::new(OkPropose(vec![1, 2, 3])));
    assert_eq!(handle.propose(&[], b"intent").unwrap(), vec![1, 2, 3]);
}

#[test]
fn propose_err_surfaces_as_rejected() {
    let mut handle = StateProposeHandle::new(Box::new(ErrPropose("bad intent".into())));
    match handle.propose(&[], b"intent") {
        Err(ProposeError::Rejected(msg)) => assert_eq!(msg, "bad intent"),
        other => panic!("expected Rejected, got {other:?}"),
    }
}

struct StubInteraction;

impl InteractionInstance for StubInteraction {
    fn call_view(&mut self, state: &[u8], _peer_state: &[u8]) -> Result<Vec<u8>, BackendError> {
        Ok(state.to_vec())
    }

    fn call_dispatch(&mut self, action: &str) -> Result<Result<Vec<u8>, String>, BackendError> {
        if action == "ok" {
            Ok(Ok(vec![0x01]))
        } else {
            Ok(Err(format!("unknown: {action}")))
        }
    }

    fn call_on_broadcast_completion(&mut self, _token: &[u8], _ok: bool, _err: &str) -> Result<(), BackendError> {
        Ok(())
    }

    fn call_on_blob_fetch_completion(
        &mut self,
        _token: &[u8],
        _ok: bool,
        _payload: &[u8],
        _err: &str,
    ) -> Result<(), BackendError> {
        Ok(())
    }
}

#[test]
fn view_returns_state_bytes() {
    let mut handle = InteractionHandle::new(Box::new(StubInteraction));
    let v = handle.view(b"hello", &[]).unwrap();
    assert_eq!(v, b"hello");
}

#[test]
fn dispatch_ok_returns_intent() {
    let mut handle = InteractionHandle::new(Box::new(StubInteraction));
    assert_eq!(handle.dispatch("ok").unwrap(), vec![0x01]);
}

#[test]
fn dispatch_unknown_surfaces_as_rejected() {
    let mut handle = InteractionHandle::new(Box::new(StubInteraction));
    match handle.dispatch("nope") {
        Err(InteractionError::DispatchRejected(msg)) => assert_eq!(msg, "unknown: nope"),
        other => panic!("expected DispatchRejected, got {other:?}"),
    }
}

// ---- runtime ----

fn signed_revocation(sk: &SigningKey, revoked: BlobHash, seq: u64) -> RevocationEvent {
    let mut ev = RevocationEvent {
        revoked_bundle_hash: revoked,
        reason: "compromised".to_string(),
        revoked_at: 0,
        revocation_seq: seq,
        signature: [0u8; 64],
    };
    ev.signature = sk.sign(&ev.signing_target()).to_bytes();
    ev
}

fn signed_publication(sk: &SigningKey, manifest: BlobHash, version: &str, seq: u64) -> PublicationEvent {
    let mut ev = PublicationEvent {
        manifest_hash: manifest,
        version: version.to_string(),
        publication_seq: seq,
        signature: [0u8; 64],
    };
    ev.signature = sk.sign(&ev.signing_target()).to_bytes();
    ev
}

#[test]
fn revocation_archived_on_valid_apply() {
    let sk = SigningKey::from_bytes(&[7u8; 32]);
    let author = AuthorPubkey::from_bytes(sk.verifying_key().to_bytes());
    let ev = signed_revocation(&sk, BlobHash::from_bytes([0xAA; 32]), 1);
    let mut rt = DistributionState::new();
    rt.handle_revocation(author, &ev);
    assert_eq!(rt.revocation_log(&author).unwrap().last_observed_seq, 1);
    let archived = rt.archived_revocations(&author);
    assert_eq!(archived.len(), 1);
    assert_eq!(archived[0], ev, "the exact signed envelope is retained");
    assert_eq!(
        rt.revocation_events(),
        &[RevocationApplied { author, revoked_bundle_hash: ev.revoked_bundle_hash, revocation_seq: 1 }]
    );
}

#[test]
fn forged_and_stale_revocations_are_reported() {
    let sk = SigningKey::from_bytes(&[7u8; 32]);
    let author = AuthorPubkey::from_bytes(sk.verifying_key().to_bytes());
    let mut rt = DistributionState::new();
    let forged = signed_revocation(&SigningKey::from_bytes(&[8u8; 32]), BlobHash::from_bytes([1; 32]), 1);
    rt.handle_revocation(author, &forged);
    assert_eq!(rt.peer_warnings(), &[PeerWarning::SignatureInvalid { peer: None }]);
    assert!(rt.revocation_log(&author).is_none());
    let ev = signed_revocation(&sk, BlobHash::from_bytes([1; 32]), 1);
    rt.handle_revocation(author, &ev);
    rt.handle_revocation(author, &ev);
    assert_eq!(
        rt.peer_warnings(),
        &[PeerWarning::SignatureInvalid { peer: None }, PeerWarning::DecodeFailed { peer: None }]
    );
    assert_eq!(rt.archived_revocations(&author).len(), 1);
}

#[test]
fn publication_latest_holds_newer_of_two() {
    let sk = SigningKey::from_bytes(&[7u8; 32]);
    let author = AuthorPubkey::from_bytes(sk.verifying_key().to_bytes());
    let ev1 = signed_publication(&sk, BlobHash::from_bytes([0x11; 32]), "1.0.0", 1);
    let ev2 = signed_publication(&sk, BlobHash::from_bytes([0x22; 32]), "2.0.0", 2);
    let mut rt = DistributionState::new();
    rt.handle_publication(author, ev1);
    rt.handle_publication(author, ev2.clone());
    let latest = rt.latest_publication(&author).expect("author publication archived");
    assert_eq!(*latest, ev2, "publication_latest must hold the newer (seq-2) envelope");
    assert_eq!(latest.version, "2.0.0", "version retained for backfill");
    assert_eq!(latest.publication_seq, 2);
    assert_eq!(rt.publication_events().len(), 2);
    assert_eq!(rt.publication_log(&author).unwrap().last_observed_seq, 2);
}

#[test]
fn revocation_applied_fields_accessible() {
    let author = AuthorPubkey::from_bytes([7u8; 32]);
    let revoked_bundle_hash = BlobHash::from_bytes([9u8; 32]);
    let applied = RevocationApplied { author, revoked_bundle_hash, revocation_seq: 3 };
    assert_eq!(applied.author, author);
    assert_eq!(applied.revoked_bundle_hash, revoked_bundle_hash);
    assert_eq!(applied.revocation_seq, 3);
    assert_eq!(applied.clone(), applied);
    let _ = format!("{applied:?}");
}

#[test]
fn publication_announced_fields_accessible() {
    let author = AuthorPubkey::from_bytes([7u8; 32]);
    let manifest_hash = BlobHash::from_bytes([11u8; 32]);
    let version = "1.2.3".to_string();
    let announced = PublicationAnnounced { author, manifest_hash, version: version.clone(), publication_seq: 5 };
    assert_eq!(announced.author, author);
    assert_eq!(announced.manifest_hash, manifest_hash);
    assert_eq!(announced.version, version);
    assert_eq!(announced.publication_seq, 5);
    assert_eq!(announced.clone(), announced);
    let _ = format!("{announced:?}");
}

#[test]
fn serve_distribution_request_streams_revocation_range() {
    let sk = SigningKey::from_bytes(&[7u8; 32]);
    let author = AuthorPubkey::from_bytes(sk.verifying_key().to_bytes());
    let mut rt = DistributionState::new();
    let revs: Vec<RevocationEvent> =
        [1u64, 2, 3].into_iter().map(|seq| signed_revocation(&sk, BlobHash::from_bytes([seq as u8; 32]), seq)).collect();
    for ev in &revs {
        rt.handle_revocation(author, ev);
    }
    let got = rt.serve_distribution_request(&DistributionBackfillRequest {
        author,
        kind: DistributionLogKind::Revocation,
        from_seq: 1,
    });
    assert_eq!(got.len(), 2, "from_seq=1 over a 1..=3 archive yields seqs 2,3");
    assert_eq!(
        got,
        vec![DistributionEnvelope::Revocation(revs[1].clone()), DistributionEnvelope::Revocation(revs[2].clone())],
        "exact signed envelopes, in ascending seq order",
    );
}

#[test]
fn serve_distribution_request_publication_latest_wins() {
    let sk = SigningKey::from_bytes(&[7u8; 32]);
    let author = AuthorPubkey::from_bytes(sk.verifying_key().to_bytes());
    let mut rt = DistributionState::new();
    let pub1 = signed_publication(&sk, BlobHash::from_bytes([0x11; 32]), "1.0.0", 1);
    let pub2 = signed_publication(&sk, BlobHash::from_bytes([0x22; 32]), "2.0.0", 2);
    rt.handle_publication(author, pub1);
    rt.handle_publication(author, pub2.clone());
    let req = |from_seq| DistributionBackfillRequest { author, kind: DistributionLogKind::Publication, from_seq };
    assert_eq!(rt.serve_distribution_request(&req(0)), vec![DistributionEnvelope::Publication(pub2.clone())]);
    assert!(rt.serve_distribution_request(&req(2)).is_empty());
}

#[test]
fn heads_summaries_trigger_pulls_only_when_behind() {
    let sk = SigningKey::from_bytes(&[7u8; 32]);
    let author = AuthorPubkey::from_bytes(sk.verifying_key().to_bytes());
    let advertiser = PeerPubkey::from_bytes([0xB0; 32]);
    let mut rt = DistributionState::new();
    rt.handle_revocation(author, &signed_revocation(&sk, BlobHash::from_bytes([1; 32]), 1));
    let heads = |seq| RevocationHeads { author, advertiser, last_observed_seq: seq };
    assert_eq!(rt.revocation_heads_pull(author, &heads(1)), None);
    assert_eq!(
        rt.revocation_heads_pull(author, &heads(5)),
        Some((advertiser, DistributionBackfillRequest { author, kind: DistributionLogKind::Revocation, from_seq: 1 }))
    );
    let other = AuthorPubkey::from_bytes([9; 32]);
    assert_eq!(rt.revocation_heads_pull(other, &heads(5)), None);
    assert_eq!(rt.peer_warnings(), &[PeerWarning::DecodeFailed { peer: None }]);
}

#[test]
fn backfill_dials_are_deduplicated_and_rate_limited() {
    let author = AuthorPubkey::from_bytes([1; 32]);
    let advertiser = PeerPubkey::from_bytes([2; 32]);
    let mut rt = DistributionState::new();
    let t0 = 1_000 * HOUR;
    let first = rt.begin_distribution_backfill(advertiser, author, DistributionLogKind::Revocation, 4, t0);
    assert_eq!(first, Some(DistributionBackfillRequest { author, kind: DistributionLogKind::Revocation, from_seq: 4 }));
    assert_eq!(rt.begin_distribution_backfill(advertiser, author, DistributionLogKind::Revocation, 4, t0), None);
    rt.clear_distribution_in_flight(author, DistributionLogKind::Revocation);
    let mut admitted = 1;
    for i in 0..40u64 {
        if rt.begin_distribution_backfill(advertiser, author, DistributionLogKind::Revocation, 4, t0 + i).is_some() {
            admitted += 1;
            rt.clear_distribution_in_flight(author, DistributionLogKind::Revocation);
        }
    }
    assert_eq!(admitted, 32, "one advertiser gets at most the daily dial cap");
}

#[test]
fn classify_author_diff_covers_all_cases() {
    let a = AuthorPubkey::from_bytes([1; 32]);
    let h = EventHash::from_bytes([2; 32]);
    let g = EventHash::from_bytes([3; 32]);
    let head = AuthorHead { author: a, seq: 5, hash: h };
    assert_eq!(classify_author_diff(3, g, &head), AuthorDiff::Behind { author: a, local_seq: 3, remote_seq: 5 });
    assert_eq!(classify_author_diff(5, h, &head), AuthorDiff::Equal);
    assert_eq!(
        classify_author_diff(5, g, &head),
        AuthorDiff::EqualDivergent { author: a, seq: 5, local_hash: g, remote_hash: h }
    );
    assert_eq!(
        classify_author_diff(9, g, &head),
        AuthorDiff::Ahead { author: a, local_seq: 9, remote_seq: 5, remote_hash: h }
    );
}

#[test]
fn paginate_splits_into_pages_of_256() {
    let a = AuthorPubkey::from_bytes([1; 32]);
    let mut out = Vec::new();
    paginate_into(a, 1, 600, &mut out);
    assert_eq!(
        out,
        vec![
            EventRequest { author: a, from_seq: 1, to_seq: 256 },
            EventRequest { author: a, from_seq: 257, to_seq: 512 },
            EventRequest { author: a, from_seq: 513, to_seq: 600 },
        ]
    );
    let mut none = Vec::new();
    paginate_into(a, 5, 4, &mut none);
    assert!(none.is_empty());
    let mut top = Vec::new();
    paginate_into(a, u64::MAX - 1, u64::MAX, &mut top);
    assert_eq!(top, vec![EventRequest { author: a, from_seq: u64::MAX - 1, to_seq: u64::MAX }]);
}

#[test]
fn peer_authority_is_most_recent_first_and_bounded() {
    let a = AuthorPubkey::from_bytes([1; 32]);
    let mut idx = PeerAuthorityIndex::new();
    assert_eq!(idx.lookup(&a), None);
    for p in 0..10u8 {
        idx.record(PeerPubkey::from_bytes([p; 32]), a);
    }
    assert_eq!(idx.lookup(&a), Some(PeerPubkey::from_bytes([9; 32])));
    idx.record(PeerPubkey::from_bytes([5; 32]), a);
    assert_eq!(idx.lookup(&a), Some(PeerPubkey::from_bytes([5; 32])));
}

#[test]
fn stale_authors_and_fuel_table_checks() {
    let a = AuthorPubkey::from_bytes([1; 32]);
    let b = AuthorPubkey::from_bytes([2; 32]);
    let c = AuthorPubkey::from_bytes([3; 32]);
    let now = 100 * HOUR;
    let mut sync = IdMap::new();
    sync.insert(a, now - 2 * HOUR);
    sync.insert(b, now - 30 * HOUR);
    assert_eq!(stale_authors(&[a, b, c], &sync, now, 24 * HOUR), vec![b, c]);
    assert_eq!(check_fuel_table_version(1, 1), None);
    assert_eq!(
        check_fuel_table_version(1, 2),
        Some(PeerWarning::KernelFuelTableMismatch { peer: None, remote_version: 2, local_version: 1 })
    );
    let cfg = RuntimeCfg::default();
    assert_eq!(cfg.drift_interval, 1024);
    assert_eq!(cfg.pending_cfg.max_per_author, 200);
}

// ---- drift messages ----

use myrhiza::drift_message::{compare_drift, drift_emit_gate, screen_drift_message, DriftGate, DriftMessage, DriftSignedPayload};

fn drift_payload() -> DriftSignedPayload {
    DriftSignedPayload {
        anchor: DriftAnchor {
            event_hash: EventHash::blake3(b"event"),
            author_seq_vec: vec![AuthorSeq { author: AuthorPubkey::from_bytes([0x11; 32]), max_seq: 5 }],
        },
        digest: [0xDD; 32],
        digest_format: "bincode-1.3".into(),
    }
}

#[test]
fn drift_signed_payload_round_trip_signs_and_verifies_over_raw_bytes() {
    let kp = PeerKeypair::deterministic(0xCAFE);
    let payload = drift_payload();
    let bytes = payload.signing_bytes();
    let sig = kp.sign(&bytes);
    let vk = VerifyingKey::from_bytes(kp.public.as_bytes()).unwrap();
    vk.verify_strict(&bytes, &ed25519_dalek::Signature::from_bytes(&sig))
        .expect("drift payload round-trip MUST verify");
    assert_eq!(bytes.len(), 32 + 8 + 40 + 32 + 8 + 11);
}

#[test]
fn drift_messages_are_screened_and_compared() {
    let kp = PeerKeypair::deterministic(0xCAFE);
    let payload = drift_payload();
    let msg = DriftMessage {
        anchor: payload.anchor.clone(),
        digest: payload.digest,
        digest_format: payload.digest_format.clone(),
        signed_by_peer: kp.public,
        signature: myrhiza::drift_message::sign_drift_payload(&kp, &payload),
    };
    assert_eq!(screen_drift_message(kp.public, &msg), Err(None));
    assert_eq!(screen_drift_message(PeerPubkey::from_bytes([1; 32]), &msg), Ok(()));
    let mut forged = msg.clone();
    forged.digest = [0xEE; 32];
    assert_eq!(
        screen_drift_message(PeerPubkey::from_bytes([1; 32]), &forged),
        Err(Some(PeerWarning::SignatureInvalid { peer: Some(kp.public) }))
    );
    assert!(compare_drift([0xDD; 32], msg.clone()).is_none());
    let detected = compare_drift([0x01; 32], msg).expect("digests differ");
    assert_eq!(detected.local_digest, [0x01; 32]);
    assert_eq!(detected.remote_digest, [0xDD; 32]);
}

#[test]
fn drift_emit_gate_follows_interval_and_limits() {
    let mut rl = DriftRateLimit::new(MINUTE, 1024);
    let t0 = 1_000 * HOUR;
    assert_eq!(drift_emit_gate(&mut rl, 3, 4, t0), DriftGate::NotDue);
    assert_eq!(drift_emit_gate(&mut rl, 4, 4, t0), DriftGate::Emit);
    assert_eq!(drift_emit_gate(&mut rl, 8, 4, t0 + SECOND), DriftGate::Limited(RateLimitKind::MinInterval));
}

// ---- ingest ----

fn fresh_ingest(seed: [u8; 32]) -> (EventIngest, BundleHash) {
    let bundle_hash = BundleHash::from_bytes([0xAA; 32]);
    let topic = Topic::derive(&bundle_hash, &seed, "main");
    (EventIngest::new(topic, bundle_hash, "main".into(), PendingCfg::default()), bundle_hash)
}

#[test]
fn ingest_buffers_then_drains_on_dependency_arrival() {
    let seed = [0x11; 32];
    let (mut ing, bundle) = fresh_ingest(seed);
    let a = AuthorKeypair::deterministic(1);
    let b = AuthorKeypair::deterministic(2);
    let ga = genesis_for(&a, bundle, seed, vec![]);
    let gb = genesis_for(&b, bundle, seed, vec![]);
    let r = ing.handle_event(ga.clone());
    assert_eq!(r, IngestAction::Applied { topo_index: 0, hash: ga.wire_hash(), drained: 0 });
    let mut deps = IdSet::new();
    deps.insert(gb.wire_hash());
    let a2 = EventBuilder::new(&a).next(&ga, deps, vec![7]);
    assert_eq!(ing.handle_event(a2.clone()), IngestAction::Buffered(Recovery::HeadsSummary));
    assert_eq!(ing.pending().len(), 1);
    assert_eq!(ing.dag().len(), 1);
    let r = ing.handle_event(gb.clone());
    assert_eq!(r, IngestAction::Applied { topo_index: 2, hash: a2.wire_hash(), drained: 1 });
    assert!(ing.pending().is_empty());
    assert_eq!(ing.dag().len(), 3);
    assert!(ing.dag().contains(&a2.wire_hash()));
    assert!(ing.equivocations().is_empty());
    assert!(ing.peer_warnings().is_empty());
}

#[test]
fn ingest_records_equivocation_and_ignores_duplicates() {
    let seed = [0x11; 32];
    let (mut ing, bundle) = fresh_ingest(seed);
    let a = AuthorKeypair::deterministic(1);
    let ga = genesis_for(&a, bundle, seed, vec![]);
    ing.handle_event(ga.clone());
    let e2a = EventBuilder::new(&a).next(&ga, IdSet::new(), vec![0xCA]);
    let e2b = EventBuilder::new(&a).next(&ga, IdSet::new(), vec![0xFE]);
    assert!(matches!(ing.handle_event(e2a.clone()), IngestAction::Applied { topo_index: 1, drained: 0, .. }));
    assert_eq!(ing.handle_event(e2a.clone()), IngestAction::Ignored);
    assert_eq!(ing.handle_event(e2b.clone()), IngestAction::Ignored);
    assert_eq!(
        ing.equivocations(),
        &[EquivocationFlag {
            author: a.author,
            seq: 2,
            local_hash: e2a.wire_hash(),
            remote_hash: e2b.wire_hash(),
            peer: None,
        }]
    );
    assert_eq!(ing.dag().len(), 2);
}

#[test]
fn ingest_asks_for_the_gap_of_a_skipping_event() {
    let seed = [0x11; 32];
    let (mut ing, bundle) = fresh_ingest(seed);
    let a = AuthorKeypair::deterministic(1);
    let ga = genesis_for(&a, bundle, seed, vec![]);
    ing.handle_event(ga.clone());
    let e2 = EventBuilder::new(&a).next(&ga, IdSet::new(), vec![1]);
    let e3 = EventBuilder::new(&a).next(&e2, IdSet::new(), vec![2]);
    let e4 = EventBuilder::new(&a).next(&e3, IdSet::new(), vec![3]);
    assert_eq!(
        ing.handle_event(e4),
        IngestAction::ChainSkip { author: a.author, from_seq: 2, to_seq: 3 }
    );
    assert_eq!(ing.dag().len(), 1);
    assert!(ing.pending().is_empty());
}

#[test]
fn missing_recovery_prefers_the_author_gap() {
    let (dag, kp, g) = fresh_dag_with_genesis();
    let e2 = EventBuilder::new(&kp).next(&g, IdSet::new(), vec![1]);
    let e3 = EventBuilder::new(&kp).next(&e2, IdSet::new(), vec![2]);
    assert_eq!(missing_recovery(&dag, &e2), Recovery::HeadsSummary);
    assert_eq!(
        missing_recovery(&dag, &e3),
        Recovery::ChainGap { author: kp.author, from_seq: 2, to_seq: 2 }
    );
}

#[test]
fn chain_gap_plan_pages_the_range_for_the_latest_peer() {
    let author = AuthorPubkey::from_bytes([4; 32]);
    let mut index = PeerAuthorityIndex::new();
    assert_eq!(plan_chain_gap(&index, author, 5, 4), GapPlan::Nothing);
    assert_eq!(plan_chain_gap(&index, author, 0, 0), GapPlan::Nothing);
    assert_eq!(plan_chain_gap(&index, author, 1, 10), GapPlan::PublishHeads);
    let p1 = PeerPubkey::from_bytes([1; 32]);
    let p2 = PeerPubkey::from_bytes([2; 32]);
    index.record(p1, author);
    index.record(p2, author);
    match plan_chain_gap(&index, author, 1, 300) {
        GapPlan::Backfill { peer, requests } => {
            assert_eq!(peer, p2);
            assert_eq!(
                requests,
                vec![
                    EventRequest { author, from_seq: 1, to_seq: 256 },
                    EventRequest { author, from_seq: 257, to_seq: 300 },
                ]
            );
        }
        other => panic!("expected Backfill, got {other:?}"),
    }
}

#[test]
fn heads_summary_requests_pushes_and_flags() {
    let seed = [0x11; 32];
    let (mut ing, bundle) = fresh_ingest(seed);
    let a = AuthorKeypair::deterministic(1);
    let b = AuthorKeypair::deterministic(2);
    let ga = genesis_for(&a, bundle, seed, vec![]);
    let gb = genesis_for(&b, bundle, seed, vec![]);
    let a2 = EventBuilder::new(&a).next(&ga, IdSet::new(), vec![2]);
    let a3 = EventBuilder::new(&a).next(&a2, IdSet::new(), vec![3]);
    for e in [ga.clone(), gb.clone(), a2.clone(), a3.clone()] {
        assert!(matches!(ing.handle_event(e), IngestAction::Applied { .. }));
    }
    let c = AuthorPubkey::from_bytes([0xCC; 32]);
    let signer = PeerPubkey::from_bytes([0x51; 32]);
    let own = PeerPubkey::from_bytes([0x0E; 32]);
    let remote = vec![
        AuthorHead { author: a.author, seq: 1, hash: ga.wire_hash() },
        AuthorHead { author: c, seq: 2, hash: EventHash::blake3(b"c2") },
    ];
    let mut index = PeerAuthorityIndex::new();
    let plan = ing.handle_heads_summary(&mut index, &remote, signer, own, 7, 7);
    assert_eq!(plan.requests, vec![EventRequest { author: c, from_seq: 1, to_seq: 2 }]);
    assert_eq!(plan.backfill_from, Some(signer));
    assert_eq!(plan.push, vec![a2.wire_hash(), a3.wire_hash(), gb.wire_hash()]);
    assert!(ing.equivocations().is_empty());
    assert!(ing.peer_warnings().is_empty());
    assert_eq!(index.lookup(&a.author), Some(signer));
    assert_eq!(index.lookup(&c), Some(signer));
    assert_eq!(index.lookup(&b.author), None);

    // A divergent head at our head seq is an equivocation; another fuel
    // table is reported; our own summary asks nobody.
    let forged = EventHash::blake3(b"forged");
    let remote = vec![
        AuthorHead { author: a.author, seq: 3, hash: forged },
        AuthorHead { author: b.author, seq: 1, hash: gb.wire_hash() },
        AuthorHead { author: c, seq: 1, hash: EventHash::blake3(b"c1") },
    ];
    let plan = ing.handle_heads_summary(&mut index, &remote, own, own, 8, 7);
    assert_eq!(plan.requests, vec![EventRequest { author: c, from_seq: 1, to_seq: 1 }]);
    assert_eq!(plan.backfill_from, None);
    assert!(plan.push.is_empty());
    assert_eq!(
        ing.equivocations(),
        &[EquivocationFlag { author: a.author, seq: 3, local_hash: a3.wire_hash(), remote_hash: forged, peer: None }]
    );
    assert_eq!(
        ing.peer_warnings(),
        &[PeerWarning::KernelFuelTableMismatch { peer: None, remote_version: 8, local_version: 7 }]
    );
}

#[test]
fn heads_summary_ahead_with_other_history_is_equivocation() {
    let seed = [0x11; 32];
    let (mut ing, bundle) = fresh_ingest(seed);
    let a = AuthorKeypair::deterministic(1);
    let ga = genesis_for(&a, bundle, seed, vec![]);
    let a2 = EventBuilder::new(&a).next(&ga, IdSet::new(), vec![2]);
    ing.handle_event(ga.clone());
    ing.handle_event(a2.clone());
    let other = EventHash::blake3(b"other genesis");
    let remote = vec![AuthorHead { author: a.author, seq: 1, hash: other }];
    let mut index = PeerAuthorityIndex::new();
    let signer = PeerPubkey::from_bytes([0x51; 32]);
    let plan = ing.handle_heads_summary(&mut index, &remote, signer, PeerPubkey::from_bytes([0; 32]), 1, 1);
    assert!(plan.requests.is_empty());
    assert_eq!(plan.backfill_from, None);
    assert!(plan.push.is_empty());
    assert_eq!(
        ing.equivocations(),
        &[EquivocationFlag { author: a.author, seq: 1, local_hash: ga.wire_hash(), remote_hash: other, peer: None }]
    );
    // A remote head at seq 0 below ours names no hash of ours.
    let remote = vec![AuthorHead { author: a.author, seq: 0, hash: EventHash::blake3(b"none") }];
    ing.handle_heads_summary(&mut index, &remote, signer, PeerPubkey::from_bytes([0; 32]), 1, 1);
    assert_eq!(ing.peer_warnings(), &[PeerWarning::ChainHashLookupMissing { author: a.author, seq: 0 }]);
}

#[test]
fn author_without_key_is_read_only() {
    let seed = [0x11; 32];
    let (mut ing, _) = fresh_ingest(seed);
    let mut handle = StateApplyHandle::new(Box::new(Echo));
    let mut counter: u32 = 4;
    let r = ing.author(None, &mut handle, &[], vec![1], IdSet::new(), 1_000, &mut counter);
    assert!(matches!(r, Err(RuntimeError::ReadOnly)));
    assert_eq!(counter, 4);
}

#[test]
fn author_appends_at_the_next_slot_of_its_chain() {
    let seed = [0x11; 32];
    let (mut ing, bundle) = fresh_ingest(seed);
    let a = AuthorKeypair::deterministic(1);
    let ga = genesis_for(&a, bundle, seed, vec![]);
    ing.handle_event(ga.clone());
    let mut handle = StateApplyHandle::new(Box::new(Echo));
    let mut counter: u32 = 0;
    let (e, ins) = ing
        .author(Some(&a), &mut handle, &[], vec![5], IdSet::new(), 1_000, &mut counter)
        .expect("accepted");
    assert_eq!(counter, 1);
    assert_eq!(e.author, a.author);
    assert_eq!(e.seq, 2);
    assert_eq!(e.prev, ga.wire_hash());
    assert_eq!(e.hlc, Hlc { wall_ms: 1_000, logical: 1 });
    assert_eq!(e.payload, vec![5]);
    assert!(matches!(ins, Inserted::NewlyApplied { topo_index: 1, hash } if hash == e.wire_hash()));
    assert_eq!(ing.dag().len(), 2);
    let mut u32_max = u32::MAX;
    let (e3, _) = ing
        .author(Some(&a), &mut handle, &[], vec![6], IdSet::new(), 2_000, &mut u32_max)
        .expect("accepted");
    assert_eq!(e3.seq, 3);
    assert_eq!(e3.prev, e.wire_hash());
    assert_eq!(e3.hlc.logical, u32::MAX);
}

#[test]
fn author_stops_at_a_rejecting_pre_check() {
    let seed = [0x11; 32];
    let (mut ing, bundle) = fresh_ingest(seed);
    let a = AuthorKeypair::deterministic(1);
    ing.handle_event(genesis_for(&a, bundle, seed, vec![]));
    let mut handle = StateApplyHandle::new(Box::new(AlwaysReject));
    let mut counter: u32 = 0;
    let r = ing.author(Some(&a), &mut handle, &[], vec![5], IdSet::new(), 1_000, &mut counter);
    assert_eq!(r.err(), Some(RuntimeError::PreCheckRejected("nope".into())));
    assert_eq!(counter, 1);
    assert_eq!(ing.dag().len(), 1);
}

#[test]
fn next_slot_follows_the_chain_head() {
    let (dag, kp, g) = fresh_dag_with_genesis();
    assert_eq!(next_slot(&dag, &kp.author), (2, g.wire_hash()));
    let other = AuthorPubkey::from_bytes([9; 32]);
    assert_eq!(next_slot(&dag, &other), (1, EventHash::zero()));
}

#[test]
fn heads_summary_is_signed_and_screened() {
    let seed = [0x11; 32];
    let (mut ing, bundle) = fresh_ingest(seed);
    let a = AuthorKeypair::deterministic(1);
    let ga = genesis_for(&a, bundle, seed, vec![]);
    ing.handle_event(ga.clone());
    let topic = Topic::derive(&bundle, &seed, "main");
    let me = PeerKeypair::deterministic(7);
    let them = PeerKeypair::deterministic(8);
    let summary = build_heads_summary(&me, ing.dag(), 1, topic);
    assert_eq!(summary.authors, vec![AuthorHead { author: a.author, seq: 1, hash: ga.wire_hash() }]);
    assert_eq!(summary.signed_by_peer, me.public);
    assert_eq!(summary.kernel_fuel_table_version, 1);
    assert_eq!(screen_heads_summary(them.public, &topic, &summary), Ok(()));
    assert_eq!(screen_heads_summary(me.public, &topic, &summary), Err(None));
    let other_topic = Topic::derive(&bundle, &[0x22; 32], "main");
    assert_eq!(
        screen_heads_summary(them.public, &other_topic, &summary),
        Err(Some(PeerWarning::SignatureInvalid { peer: Some(me.public) }))
    );
    let mut tampered = summary.clone();
    tampered.kernel_fuel_table_version = 2;
    assert_eq!(
        screen_heads_summary(them.public, &topic, &tampered),
        Err(Some(PeerWarning::SignatureInvalid { peer: Some(me.public) }))
    );
    let payload = HeadsSummarySignedPayload { authors: summary.authors.clone(), kernel_fuel_table_version: 1, topic };
    assert_eq!(payload.signing_bytes(), summary.signing_bytes(&topic));
    assert_eq!(payload.signing_bytes().len(), 8 + 72 + 4 + 32);
}

// ---- drift inbox ----

use myrhiza::drift_inbox::{key_eq, key_less, maybe_emit_drift, DriftEmission, DriftInbox, DriftStep, DRIFT_DIGEST_FORMAT};

fn pos(a: u8, s: u64) -> AuthorSeq {
    AuthorSeq { author: AuthorPubkey::from_bytes([a; 32]), max_seq: s }
}

fn signed_drift(kp: &PeerKeypair, key: Vec<AuthorSeq>, digest: [u8; 32]) -> DriftMessage {
    let payload = DriftSignedPayload {
        anchor: DriftAnchor { event_hash: EventHash::blake3(b"anchor"), author_seq_vec: key.clone() },
        digest,
        digest_format: DRIFT_DIGEST_FORMAT.to_string(),
    };
    DriftMessage {
        anchor: payload.anchor.clone(),
        digest,
        digest_format: payload.digest_format.clone(),
        signed_by_peer: kp.public,
        signature: myrhiza::drift_message::sign_drift_payload(kp, &payload),
    }
}

#[test]
fn anchor_keys_order_lexicographically() {
    assert!(key_less(&[pos(1, 5)], &[pos(2, 0)]));
    assert!(key_less(&[pos(1, 5)], &[pos(1, 6)]));
    assert!(key_less(&[pos(1, 5)], &[pos(1, 5), pos(0, 0)]));
    assert!(key_less(&[], &[pos(0, 0)]));
    assert!(!key_less(&[pos(1, 5)], &[pos(1, 5)]));
    assert!(!key_less(&[pos(2, 0)], &[pos(1, 9)]));
    assert!(key_eq(&[pos(1, 5)], &[pos(1, 5)]));
    assert!(!key_eq(&[pos(1, 5)], &[pos(1, 5), pos(1, 5)]));
}

#[test]
fn drift_stash_evicts_the_least_anchor_and_releases_covered_ones() {
    let kp = PeerKeypair::deterministic(3);
    let mut inbox = DriftInbox::new(2);
    let high = signed_drift(&kp, vec![pos(2, 1)], [1; 32]);
    let low = signed_drift(&kp, vec![pos(1, 1)], [2; 32]);
    let low_again = signed_drift(&kp, vec![pos(1, 1)], [3; 32]);
    let mid = signed_drift(&kp, vec![pos(1, 4)], [4; 32]);
    inbox.stash(high.clone());
    inbox.stash(low.clone());
    inbox.stash(low_again.clone());
    assert_eq!(inbox.stash_len(), 2);
    // Full: the least anchor (author 1 at seq 1) goes, with both its messages.
    inbox.stash(mid.clone());
    assert_eq!(inbox.stash_len(), 2);
    let mut current: IdMap<AuthorPubkey, u64> = IdMap::new();
    current.insert(AuthorPubkey::from_bytes([1; 32]), 4);
    let released = inbox.take_covered(&current);
    assert_eq!(released, vec![mid]);
    assert_eq!(inbox.stash_len(), 1);
    current.insert(AuthorPubkey::from_bytes([2; 32]), 1);
    assert_eq!(inbox.take_covered(&current), vec![high]);
    assert_eq!(inbox.stash_len(), 0);
}

#[test]
fn received_drift_is_screened_stashed_or_compared() {
    let them = PeerKeypair::deterministic(3);
    let me = PeerKeypair::deterministic(4);
    let mut inbox = DriftInbox::new(8);
    let mut current: IdMap<AuthorPubkey, u64> = IdMap::new();
    current.insert(AuthorPubkey::from_bytes([1; 32]), 2);
    let msg = signed_drift(&them, vec![pos(1, 2)], [7; 32]);
    assert!(matches!(inbox.receive(them.public, &current, msg.clone()), DriftStep::Ignored));
    let mut forged = msg.clone();
    forged.digest = [8; 32];
    assert!(matches!(
        inbox.receive(me.public, &current, forged),
        DriftStep::Rejected(PeerWarning::SignatureInvalid { peer: Some(p) }) if p == them.public
    ));
    assert!(matches!(inbox.receive(me.public, &current, msg.clone()), DriftStep::NeedsDigest(_)));
    inbox.remember_digest(vec![pos(1, 2)], [7; 32]);
    assert!(matches!(inbox.receive(me.public, &current, msg.clone()), DriftStep::Compared(None)));
    inbox.remember_digest(vec![pos(1, 2)], [9; 32]);
    match inbox.receive(me.public, &current, msg.clone()) {
        DriftStep::Compared(Some(d)) => {
            assert_eq!(d.local_digest, [9; 32]);
            assert_eq!(d.remote_digest, [7; 32]);
            assert_eq!(d.peer, them.public);
        }
        other => panic!("expected a drift, got {other:?}"),
    }
    let ahead = signed_drift(&them, vec![pos(1, 3)], [7; 32]);
    assert!(matches!(inbox.receive(me.public, &current, ahead), DriftStep::Stashed));
    assert_eq!(inbox.stash_len(), 1);
    assert_eq!(inbox.cached_digest(&[pos(1, 2)]), Some([9; 32]));
    assert_eq!(inbox.cached_digest(&[pos(1, 3)]), None);
}

#[test]
fn drift_is_emitted_at_the_interval_and_verifies() {
    let seed = [0x11; 32];
    let (mut ing, bundle) = fresh_ingest(seed);
    let a = AuthorKeypair::deterministic(1);
    let ga = genesis_for(&a, bundle, seed, vec![]);
    ing.handle_event(ga.clone());
    let me = PeerKeypair::deterministic(4);
    let them = PeerKeypair::deterministic(5);
    let mut inbox = DriftInbox::new(8);
    let mut limiter = DriftRateLimit::new(0, 10);
    let mut handle = StateApplyHandle::new(Box::new(Echo));
    let state = vec![1, 2, 3];
    let r = maybe_emit_drift(&mut inbox, &mut limiter, &mut handle, &state, &me, ing.dag(), 3, ga.wire_hash(), 2, 100);
    assert!(matches!(r, DriftEmission::NotDue));
    let r = maybe_emit_drift(&mut inbox, &mut limiter, &mut handle, &state, &me, ing.dag(), 4, ga.wire_hash(), 2, 100);
    let msg = match r {
        DriftEmission::Emitted(m) => m,
        other => panic!("expected an emission, got {other:?}"),
    };
    assert_eq!(msg.digest, *blake3::hash(&state).as_bytes());
    assert_eq!(msg.anchor.event_hash, ga.wire_hash());
    assert_eq!(msg.anchor.author_seq_vec, vec![AuthorSeq { author: a.author, max_seq: 1 }]);
    assert_eq!(msg.digest_format, "bincode-1.3");
    assert_eq!(screen_drift_message(them.public, &msg), Ok(()));
    assert_eq!(inbox.cached_digest(&msg.anchor.author_seq_vec), Some(msg.digest));
    let mut strict = DriftRateLimit::new(1_000, 10);
    maybe_emit_drift(&mut inbox, &mut strict, &mut handle, &state, &me, ing.dag(), 4, ga.wire_hash(), 2, 100);
    let r = maybe_emit_drift(&mut inbox, &mut strict, &mut handle, &state, &me, ing.dag(), 6, ga.wire_hash(), 2, 200);
    assert!(matches!(
        r,
        DriftEmission::RateLimited(PeerWarning::DriftRateLimited { kind: RateLimitKind::MinInterval })
    ));
}

#[test]
fn direct_heads_requests_are_served_from_the_chain() {
    let seed = [0x11; 32];
    let (mut ing, bundle) = fresh_ingest(seed);
    let a = AuthorKeypair::deterministic(1);
    let ga = genesis_for(&a, bundle, seed, vec![]);
    let a2 = EventBuilder::new(&a).next(&ga, IdSet::new(), vec![2]);
    let a3 = EventBuilder::new(&a).next(&a2, IdSet::new(), vec![3]);
    for e in [ga.clone(), a2.clone(), a3.clone()] {
        ing.handle_event(e);
    }
    let stranger = AuthorPubkey::from_bytes([0xEE; 32]);
    let requests = vec![
        EventRequest { author: a.author, from_seq: 2, to_seq: 9 },
        EventRequest { author: a.author, from_seq: 3, to_seq: 2 },
        EventRequest { author: a.author, from_seq: 0, to_seq: 300 },
        EventRequest { author: stranger, from_seq: 1, to_seq: 1 },
        EventRequest { author: a.author, from_seq: 0, to_seq: 1 },
    ];
    let served: Vec<EventHash> = ing.serve_heads_request(&requests).iter().map(|e| e.wire_hash()).collect();
    assert_eq!(served, vec![a2.wire_hash(), a3.wire_hash(), ga.wire_hash()]);
}

#[test]
fn subset_digest_replays_accepted_events_from_empty_state() {
    let seed = [0x11; 32];
    let bundle = BundleHash::from_bytes([0xAA; 32]);
    let a = AuthorKeypair::deterministic(1);
    let ga = genesis_for(&a, bundle, seed, vec![]);
    let a2 = EventBuilder::new(&a).next(&ga, IdSet::new(), vec![2]);
    let mut handle = StateApplyHandle::new(Box::new(Echo));
    let mut expected = canonical_envelope(&ga);
    expected.extend_from_slice(&canonical_envelope(&a2));
    assert_eq!(
        myrhiza::replay::compute_subset_digest(&mut handle, &[ga.clone(), a2.clone()]),
        Some(*blake3::hash(&expected).as_bytes())
    );
    assert_eq!(myrhiza::replay::compute_subset_digest(&mut handle, &[]), Some(*blake3::hash(&[]).as_bytes()));
    let mut rejecting = StateApplyHandle::new(Box::new(AlwaysReject));
    assert_eq!(
        myrhiza::replay::compute_subset_digest(&mut rejecting, &[ga]),
        Some(*blake3::hash(&[]).as_bytes())
    );
}

#[test]
fn gossip_messages_are_routed_by_topic() {
    let own = PeerPubkey::from_bytes([1; 32]);
    let other = PeerPubkey::from_bytes([2; 32]);
    let author = AuthorPubkey::from_bytes([3; 32]);
    let heads = RevocationHeads { author, advertiser: own, last_observed_seq: 4 };
    assert!(matches!(
        route_app_message(GossipMessage::RevocationHeads(heads)),
        AppRoute::Misrouted(PeerWarning::DecodeFailed { peer: None })
    ));
    let (_, kp, g) = fresh_dag_with_genesis();
    let _ = kp;
    assert!(matches!(route_app_message(GossipMessage::Event(g.clone())), AppRoute::Event(e) if e.wire_hash() == g.wire_hash()));
    assert!(matches!(route_distribution_message(own, GossipMessage::RevocationHeads(heads)), DistributionRoute::Loopback));
    let theirs = RevocationHeads { advertiser: other, ..heads };
    assert!(matches!(
        route_distribution_message(own, GossipMessage::RevocationHeads(theirs)),
        DistributionRoute::RevocationHeads(h) if h == theirs
    ));
    assert!(matches!(
        route_distribution_message(own, GossipMessage::Event(g)),
        DistributionRoute::Misrouted(PeerWarning::DecodeFailed { peer: None })
    ));
}

#[test]
fn transport_errors_halt_at_the_threshold() {
    let mut count: usize = 0;
    let r = on_subscription_event(&mut count, 2, SubscriptionEvent::TransportError("reset".into()));
    assert!(matches!(r, SubscriptionAction::Warn(PeerWarning::TransportError { consecutive: 1, .. })));
    let (_, _, g) = fresh_dag_with_genesis();
    let r = on_subscription_event(&mut count, 2, SubscriptionEvent::Message(GossipMessage::Event(g)));
    assert!(matches!(r, SubscriptionAction::Handle(GossipMessage::Event(_))));
    assert_eq!(count, 0);
    on_subscription_event(&mut count, 2, SubscriptionEvent::TransportError("a".into()));
    let r = on_subscription_event(&mut count, 2, SubscriptionEvent::TransportError("b".into()));
    assert!(matches!(r, SubscriptionAction::Halt { consecutive: 2, ref latest } if latest == "b"));
    let r = on_subscription_event(&mut count, 2, SubscriptionEvent::Lagged(7));
    assert!(matches!(r, SubscriptionAction::WarnAndPublishHeads(PeerWarning::BroadcastLagged { dropped: 7 })));
    let r = on_subscription_event(&mut count, 2, SubscriptionEvent::DecodeFailed(None));
    assert!(matches!(r, SubscriptionAction::Warn(PeerWarning::DecodeFailed { peer: None })));
    assert!(matches!(on_subscription_event(&mut count, 2, SubscriptionEvent::Closed), SubscriptionAction::Stop));
}

#[test]
fn ingest_drains_buffered_events_in_cascade() {
    let seed = [0x11; 32];
    let (mut ing, bundle) = fresh_ingest(seed);
    let a = AuthorKeypair::deterministic(1);
    let b = AuthorKeypair::deterministic(2);
    let c = AuthorKeypair::deterministic(3);
    let ga = genesis_for(&a, bundle, seed, vec![]);
    let gb = genesis_for(&b, bundle, seed, vec![]);
    let gc = genesis_for(&c, bundle, seed, vec![]);
    ing.handle_event(ga.clone());
    ing.handle_event(gb.clone());
    let mut on_gc = IdSet::new();
    on_gc.insert(gc.wire_hash());
    let b2 = EventBuilder::new(&b).next(&gb, on_gc, vec![2]);
    let mut on_b2 = IdSet::new();
    on_b2.insert(b2.wire_hash());
    let a2 = EventBuilder::new(&a).next(&ga, on_b2, vec![2]);
    assert_eq!(ing.handle_event(b2.clone()), IngestAction::Buffered(Recovery::HeadsSummary));
    assert_eq!(ing.handle_event(a2.clone()), IngestAction::Buffered(Recovery::HeadsSummary));
    assert_eq!(ing.pending().len(), 2);
    let r = ing.handle_event(gc.clone());
    assert_eq!(r, IngestAction::Applied { topo_index: 4, hash: a2.wire_hash(), drained: 2 });
    assert!(ing.pending().is_empty());
    assert_eq!(ing.dag().len(), 5);
}

#[test]
fn ingest_flags_an_equivocation_found_while_draining() {
    let seed = [0x11; 32];
    let (mut ing, bundle) = fresh_ingest(seed);
    let a = AuthorKeypair::deterministic(1);
    let b = AuthorKeypair::deterministic(2);
    let ga = genesis_for(&a, bundle, seed, vec![]);
    let gb = genesis_for(&b, bundle, seed, vec![]);
    ing.handle_event(ga.clone());
    let mut on_gb = IdSet::new();
    on_gb.insert(gb.wire_hash());
    let a2x = EventBuilder::new(&a).next(&ga, on_gb, vec![1]);
    let a2y = EventBuilder::new(&a).next(&ga, IdSet::new(), vec![2]);
    assert_eq!(ing.handle_event(a2x.clone()), IngestAction::Buffered(Recovery::HeadsSummary));
    assert!(matches!(ing.handle_event(a2y.clone()), IngestAction::Applied { drained: 0, .. }));
    let r = ing.handle_event(gb.clone());
    assert_eq!(r, IngestAction::Applied { topo_index: 2, hash: gb.wire_hash(), drained: 0 });
    assert!(ing.pending().is_empty());
    assert_eq!(
        ing.equivocations(),
        &[EquivocationFlag { author: a.author, seq: 2, local_hash: a2y.wire_hash(), remote_hash: a2x.wire_hash(), peer: None }]
    );
}

// ---- replay ----

#[test]
fn sorted_authors_keeps_duplicates() {
    let a = AuthorPubkey::from_bytes([1; 32]);
    let b = AuthorPubkey::from_bytes([2; 32]);
    assert_eq!(sorted_authors(&[b, a, b]), vec![a, b, b]);
    assert_eq!(sorted_authors(&[]), Vec::<AuthorPubkey>::new());
}

#[test]
fn replay_fold_advances_on_accept_and_records_rejects() {
    let h1 = EventHash::from_bytes([1; 32]);
    let h2 = EventHash::from_bytes([2; 32]);
    let h3 = EventHash::from_bytes([3; 32]);
    let results = vec![
        Ok(ApplyResult { outcome: ApplyOutcome::Accepted, new_state: vec![1] }),
        Ok(ApplyResult { outcome: ApplyOutcome::Rejected("no".into()), new_state: vec![9] }),
        Ok(ApplyResult { outcome: ApplyOutcome::Accepted, new_state: vec![1, 2] }),
    ];
    assert_eq!(replay_fold(&[h1, h2, h3], results), Ok((vec![1, 2], vec![(h2, "no".to_string())])));
    let failing = vec![
        Ok(ApplyResult { outcome: ApplyOutcome::Accepted, new_state: vec![1] }),
        Err(ApplyError::Backend(BackendError::FuelExhausted)),
        Ok(ApplyResult { outcome: ApplyOutcome::Accepted, new_state: vec![5] }),
    ];
    assert_eq!(replay_fold(&[h1, h2, h3], failing), Err(ApplyError::Backend(BackendError::FuelExhausted)));
    assert_eq!(replay_fold(&[], vec![]), Ok((vec![], vec![])));
}

#[test]
fn full_replay_folds_the_dag_in_topological_order() {
    let (mut dag, kp, g) = fresh_dag_with_genesis();
    let e2 = EventBuilder::new(&kp).next(&g, IdSet::new(), vec![2]);
    dag.insert(e2.clone()).expect("second");
    let mut handle = StateApplyHandle::new(Box::new(Echo));
    let s = replay_full(&dag, &mut handle).expect("replay");
    let mut expected = canonical_envelope(&g);
    expected.extend_from_slice(&canonical_envelope(&e2));
    assert_eq!(s.state, expected);
    assert_eq!(s.order, vec![g.wire_hash(), e2.wire_hash()]);
    assert!(s.drops.is_empty());
    let mut rejecting = StateApplyHandle::new(Box::new(AlwaysReject));
    let r = replay_full(&dag, &mut rejecting).expect("replay");
    assert!(r.state.is_empty());
    assert_eq!(r.drops, vec![(g.wire_hash(), "nope".to_string()), (e2.wire_hash(), "nope".to_string())]);
}

#[test]
fn tip_fast_path_matches_full_replay() {
    let (mut dag, kp, g) = fresh_dag_with_genesis();
    let mut handle = StateApplyHandle::new(Box::new(Echo));
    let last = replay_full(&dag, &mut handle).expect("replay");
    let e2 = EventBuilder::new(&kp).next(&g, IdSet::new(), vec![2]);
    dag.insert(e2.clone()).expect("second");
    let fast = try_tip_incremental(&last, e2.wire_hash(), &dag, &mut handle).expect("apply").expect("eligible");
    let full = replay_full(&dag, &mut handle).expect("replay");
    assert_eq!(fast.state, full.state);
    assert_eq!(fast.order, full.order);
    assert!(try_tip_incremental(&last, g.wire_hash(), &dag, &mut handle).expect("apply").is_none());
    assert!(try_tip_incremental(&full, e2.wire_hash(), &dag, &mut handle).expect("apply").is_none());
    let empty = ReplayState { order: vec![], state: vec![], drops: vec![] };
    assert!(replay_after_intake(&empty, &IngestAction::Ignored, &dag, &mut handle).expect("nothing").is_none());
    let after = replay_after_intake(
        &empty,
        &IngestAction::Applied { topo_index: 1, hash: e2.wire_hash(), drained: 1 },
        &dag,
        &mut handle,
    )
    .expect("replay")
    .expect("state");
    assert_eq!(after.state, full.state);
}

#[test]
fn chain_lists_the_author_events_by_seq() {
    let (mut dag, kp, g) = fresh_dag_with_genesis();
    let e2 = EventBuilder::new(&kp).next(&g, IdSet::new(), vec![2]);
    dag.insert(e2.clone()).expect("second");
    let chain = dag.author_chain(&kp.author).expect("chain");
    assert_eq!(chain.head_seq, 2);
    assert_eq!(chain.seq_to_hash.get(&1), Some(&g.wire_hash()));
    assert_eq!(chain.seq_to_hash.get(&2), Some(&e2.wire_hash()));
    let at2 = dag.get(&e2.wire_hash()).expect("event");
    assert_eq!(at2.author, kp.author);
    assert_eq!(at2.seq, 2);
}

#[test]
fn manifest_gates_run_in_order() {
    assert_eq!(manifest_gates(2, false, false), Err(InstallError::IncompatibleKernelMajor(2)));
    assert_eq!(manifest_gates(1, false, false), Err(InstallError::MissingSignature));
    assert_eq!(manifest_gates(1, true, false), Err(InstallError::ComponentMissing));
    assert_eq!(manifest_gates(1, true, true), Ok(()));
    let disk = BundleAddress::Disk { bundle_dir: "b".to_string(), manifest_path: "manifest.bincode".to_string() };
    assert_eq!(disk_location(&disk), Ok(("b".to_string(), "manifest.bincode".to_string())));
    let blob = BundleAddress::IrohBlob { hash: BlobHash::from_bytes([3; 32]) };
    assert_eq!(disk_location(&blob), Err(InstallError::IrohBlobNotMaterialized));
}

#[test]
fn distribution_sync_is_refreshed_except_on_loopback() {
    let author = AuthorPubkey::from_bytes([3; 32]);
    let mut last_sync: IdMap<AuthorPubkey, u64> = IdMap::new();
    note_distribution_sync(&mut last_sync, author, 10, &DistributionRoute::Loopback);
    assert_eq!(last_sync.get(&author), None);
    let route = DistributionRoute::Misrouted(PeerWarning::DecodeFailed { peer: None });
    note_distribution_sync(&mut last_sync, author, 20, &route);
    assert_eq!(last_sync.get(&author), Some(&20));
}

#[test]
fn failed_distribution_request_is_reported_and_released() {
    let author = AuthorPubkey::from_bytes([1; 32]);
    let advertiser = PeerPubkey::from_bytes([2; 32]);
    let mut rt = DistributionState::new();
    let t0 = 1_000 * HOUR;
    assert!(rt.begin_distribution_backfill(advertiser, author, DistributionLogKind::Publication, 1, t0).is_some());
    rt.distribution_request_failed(advertiser, author, DistributionLogKind::Publication, "refused".to_string());
    assert_eq!(
        rt.peer_warnings(),
        &[PeerWarning::DirectRequestFailed { peer: advertiser, reason: "refused".to_string() }]
    );
    assert!(rt.begin_distribution_backfill(advertiser, author, DistributionLogKind::Publication, 1, t0 + HOUR).is_some());
}

#[test]
fn replays_of_the_same_log_converge() {
    let (mut dag, kp, g) = fresh_dag_with_genesis();
    let e2 = EventBuilder::new(&kp).next(&g, IdSet::new(), vec![2]);
    dag.insert(e2).expect("second");
    let mut first = StateApplyHandle::new(Box::new(Echo));
    let mut second = StateApplyHandle::new(Box::new(Echo));
    let a = replay_full(&dag, &mut first).expect("replay");
    let b = replay_full(&dag, &mut second).expect("replay");
    assert_eq!(a.state, b.state);
    assert_eq!(a.order, b.order);
}

#[test]
fn peers_with_the_same_events_replay_the_same_state() {
    let seed = [0x11; 32];
    let (mut d1, bundle) = fresh_dag(seed);
    let (mut d2, _) = fresh_dag(seed);
    let a = AuthorKeypair::deterministic(1);
    let b = AuthorKeypair::deterministic(2);
    let ga = genesis_for(&a, bundle, seed, vec![]);
    let gb = genesis_for(&b, bundle, seed, vec![]);
    let a2 = EventBuilder::new(&a).next(&ga, IdSet::new(), vec![2]);
    for e in [ga.clone(), gb.clone(), a2.clone()] {
        d1.insert(e).expect("insert");
    }
    for e in [gb.clone(), ga.clone(), a2.clone()] {
        d2.insert(e).expect("insert");
    }
    let order = d1.topo_sort();
    assert_eq!(order, d2.topo_sort());
    assert_eq!(order[2], a2.wire_hash());
    let (first, second) = if ga.wire_hash().bytes < gb.wire_hash().bytes { (&ga, &gb) } else { (&gb, &ga) };
    assert_eq!(order[0], first.wire_hash());
    assert_eq!(order[1], second.wire_hash());
    let mut h1 = StateApplyHandle::new(Box::new(Echo));
    let mut h2 = StateApplyHandle::new(Box::new(Echo));
    let r1 = replay_full(&d1, &mut h1).expect("replay");
    let r2 = replay_full(&d2, &mut h2).expect("replay");
    assert_eq!(r1.state, r2.state);
    assert_eq!(r1.order, order);
}

#[test]
fn uncached_anchor_digest_is_computed_cached_and_compared() {
    let seed = [0x11; 32];
    let (mut ing, bundle) = fresh_ingest(seed);
    let a = AuthorKeypair::deterministic(1);
    let b = AuthorKeypair::deterministic(2);
    let ga = genesis_for(&a, bundle, seed, vec![]);
    let gb = genesis_for(&b, bundle, seed, vec![]);
    let a2 = EventBuilder::new(&a).next(&ga, IdSet::new(), vec![2]);
    for e in [ga.clone(), gb.clone(), a2.clone()] {
        ing.handle_event(e);
    }
    let key = vec![AuthorSeq { author: a.author, max_seq: 1 }];
    let anchor = DriftAnchor { event_hash: ga.wire_hash(), author_seq_vec: key.clone() };
    let subset: Vec<EventHash> = anchor_subset(ing.dag(), &anchor).iter().map(|e| e.wire_hash()).collect();
    assert_eq!(subset, vec![ga.wire_hash()]);
    let mut handle = StateApplyHandle::new(Box::new(Echo));
    let expected = *blake3::hash(&canonical_envelope(&ga)).as_bytes();
    assert_eq!(anchor_digest(ing.dag(), &mut handle, &anchor), Some(expected));
    let them = PeerKeypair::deterministic(5);
    let mut inbox = DriftInbox::new(8);
    let msg = signed_drift(&them, key.clone(), [7; 32]);
    let detected = inbox.settle_with_digest(msg.clone(), ing.dag(), &mut handle).expect("drift");
    assert_eq!(detected.local_digest, expected);
    assert_eq!(detected.remote_digest, [7; 32]);
    assert_eq!(detected.peer, them.public);
    assert_eq!(inbox.cached_digest(&key), Some(expected));
    let agreeing = signed_drift(&them, key.clone(), expected);
    assert!(inbox.settle_with_digest(agreeing, ing.dag(), &mut handle).is_none());
    assert!(resolve_drift(msg.clone(), None).is_none());
    assert!(resolve_drift(msg.clone(), Some(expected)).is_some());
    let me = PeerKeypair::deterministic(4);
    let mut current: IdMap<AuthorPubkey, u64> = IdMap::new();
    current.insert(a.author, 2);
    current.insert(b.author, 1);
    let mut fresh = DriftInbox::new(8);
    match fresh.process(me.public, &current, msg, ing.dag(), &mut handle) {
        DriftStep::Compared(Some(d)) => assert_eq!(d.local_digest, expected),
        other => panic!("expected a detected drift, got {other:?}"),
    }
    assert_eq!(fresh.cached_digest(&key), Some(expected));
}

#[test]
fn backfill_is_served_only_for_installed_authors() {
    let installed = [AuthorPubkey::from_bytes([1; 32]), AuthorPubkey::from_bytes([2; 32])];
    let req = |a: u8| DistributionBackfillRequest {
        author: AuthorPubkey::from_bytes([a; 32]),
        kind: DistributionLogKind::Revocation,
        from_seq: 1,
    };
    assert!(admit_backfill(&installed, &req(2)));
    assert!(!admit_backfill(&installed, &req(3)));
    assert!(!admit_backfill(&[], &req(1)));
}

#[test]
fn counter_payload_decodes_back_to_its_delta() {
    for delta in [0i64, 1, -1, 42, i64::MIN, i64::MAX] {
        let bytes = counter_increment_payload(delta);
        assert_eq!(bytes.len(), 8);
        assert_eq!(i64::from_be_bytes(bytes.as_slice().try_into().unwrap()), delta);
    }
}

#[test]
fn author_heads_come_in_ascending_key_order() {
    let seed = [0x11; 32];
    let (mut dag, bundle) = fresh_dag(seed);
    let a = AuthorKeypair::deterministic(1);
    let b = AuthorKeypair::deterministic(2);
    let (low, high) = if a.author.bytes < b.author.bytes { (&a, &b) } else { (&b, &a) };
    dag.insert(genesis_for(high, bundle, seed, vec![])).expect("first");
    dag.insert(genesis_for(low, bundle, seed, vec![])).expect("second");
    let heads: Vec<AuthorPubkey> = dag.author_heads().iter().map(|h| h.author).collect();
    assert_eq!(heads, vec![low.author, high.author]);
    let seqs: Vec<AuthorPubkey> = dag.author_seq_vec().iter().map(|s| s.author).collect();
    assert_eq!(seqs, vec![low.author, high.author]);
}

#[test]
fn intake_replays_and_considers_drift() {
    let seed = [0x11; 32];
    let (ingest, bundle) = fresh_ingest(seed);
    let a = AuthorKeypair::deterministic(1);
    let b = AuthorKeypair::deterministic(2);
    let ga = genesis_for(&a, bundle, seed, vec![]);
    let gb = genesis_for(&b, bundle, seed, vec![]);
    let mut deps = IdSet::new();
    deps.insert(ga.wire_hash());
    let b2 = EventBuilder::new(&b).next(&gb, deps, vec![2]);
    let mut topic = TopicState {
        ingest,
        replayed: ReplayState { order: vec![], state: vec![], drops: vec![] },
        handle: StateApplyHandle::new(Box::new(Echo)),
        inbox: DriftInbox::new(8),
        limiter: DriftRateLimit::new(0, 10),
        drift_interval: 1,
    };
    let me = PeerKeypair::deterministic(4);
    let (action, emission, steps) = intake_event(&mut topic, &me, gb.clone(), 100);
    assert!(matches!(action, IngestAction::Applied { drained: 0, .. }));
    assert!(matches!(emission, Ok(Some(DriftEmission::NotDue))));
    assert!(steps.is_empty());
    assert_eq!(topic.replayed.state, canonical_envelope(&gb));
    let (action, emission, _) = intake_event(&mut topic, &me, b2.clone(), 200);
    assert!(matches!(action, IngestAction::Buffered(_)));
    assert!(matches!(emission, Ok(None)));
    let them = PeerKeypair::deterministic(5);
    let waiting = signed_drift(&them, vec![AuthorSeq { author: a.author, max_seq: 1 }], [7; 32]);
    let current = myrhiza::drift::anchor_bound_map(&topic.ingest.dag().author_seq_vec());
    assert!(matches!(topic.inbox.receive(me.public, &current, waiting), DriftStep::Stashed));
    let (action, emission, steps) = intake_event(&mut topic, &me, ga.clone(), 300);
    assert_eq!(steps.len(), 1);
    match &steps[0] {
        DriftStep::Compared(Some(d)) => assert_eq!(d.local_digest, *blake3::hash(&canonical_envelope(&ga)).as_bytes()),
        other => panic!("expected a detected drift, got {other:?}"),
    }
    assert!(matches!(action, IngestAction::Applied { drained: 1, .. }));
    let order = topic.ingest.dag().topo_sort();
    assert_eq!(order[2], b2.wire_hash());
    let mut expected = Vec::new();
    for h in &order {
        expected.extend_from_slice(&canonical_envelope(topic.ingest.dag().get(h).expect("event")));
    }
    assert_eq!(topic.replayed.state, expected);
    assert_eq!(topic.replayed.order, order);
    match emission {
        Ok(Some(DriftEmission::Emitted(m))) => {
            assert_eq!(m.digest, *blake3::hash(&expected).as_bytes());
            assert_eq!(m.anchor.event_hash, b2.wire_hash());
        },
        other => panic!("expected an emission, got {other:?}"),
    }
}

#[test]
fn author_event_replays_and_considers_drift() {
    let seed = [0x11; 32];
    let (ingest, bundle) = fresh_ingest(seed);
    let a = AuthorKeypair::deterministic(1);
    let ga = genesis_for(&a, bundle, seed, vec![]);
    let mut topic = TopicState {
        ingest,
        replayed: ReplayState { order: vec![], state: vec![], drops: vec![] },
        handle: StateApplyHandle::new(Box::new(Echo)),
        inbox: DriftInbox::new(8),
        limiter: DriftRateLimit::new(0, 10),
        drift_interval: 1,
    };
    let me = PeerKeypair::deterministic(4);
    let mut counter: u32 = 0;
    let (r, emission, steps) = author_event(&mut topic, None, &me, vec![1], IdSet::new(), 1_000, &mut counter, 50);
    assert!(matches!(r, Err(RuntimeError::ReadOnly)));
    assert!(matches!(emission, Ok(None)));
    assert!(steps.is_empty());
    assert_eq!(counter, 0);
    intake_event(&mut topic, &me, ga.clone(), 100);
    let them = PeerKeypair::deterministic(5);
    let waiting = signed_drift(&them, vec![AuthorSeq { author: a.author, max_seq: 2 }], [7; 32]);
    let current = myrhiza::drift::anchor_bound_map(&topic.ingest.dag().author_seq_vec());
    assert!(matches!(topic.inbox.receive(me.public, &current, waiting), DriftStep::Stashed));
    let (r, emission, steps) = author_event(&mut topic, Some(&a), &me, vec![5], IdSet::new(), 1_000, &mut counter, 200);
    let (e, ins) = r.expect("accepted");
    assert_eq!(e.seq, 2);
    assert_eq!(e.prev, ga.wire_hash());
    assert!(matches!(ins, Inserted::NewlyApplied { topo_index: 1, hash } if hash == e.wire_hash()));
    assert_eq!(steps.len(), 1);
    assert!(matches!(&steps[0], DriftStep::Compared(Some(_))));
    let order = topic.ingest.dag().topo_sort();
    assert_eq!(order, vec![ga.wire_hash(), e.wire_hash()]);
    let mut expected = canonical_envelope(&ga);
    expected.extend_from_slice(&canonical_envelope(&e));
    assert_eq!(topic.replayed.state, expected);
    assert_eq!(topic.replayed.order, order);
    match emission {
        Ok(Some(DriftEmission::Emitted(m))) => {
            assert_eq!(m.digest, *blake3::hash(&expected).as_bytes());
            assert_eq!(m.anchor.event_hash, e.wire_hash());
        },
        other => panic!("expected an emission, got {other:?}"),
    }
}
