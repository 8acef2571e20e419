use ed25519_dalek::{Signer, SigningKey, VerifyingKey};

use myrhiza::distribution::blobs::{check_hash, check_publish, ManifestComponents, PublishError};
use myrhiza::distribution::dispatch::{verify_publication, verify_revocation, DispatchReject};
use myrhiza::distribution::publication::{
    PublicationError, PublicationEvent, PublicationLog, MAX_PUBLICATION_JUMP, MAX_VERSION_LEN,
};
use myrhiza::distribution::revocation::{
    RevocationError, RevocationEvent, RevocationLog, MAX_REASON_LEN, MAX_REVOCATION_JUMP,
};
use myrhiza::distribution::topic::{derive_publication_topic, derive_revocation_topic};
use myrhiza::ids::{AuthorPubkey, BlobHash};

fn fixture() -> (SigningKey, AuthorPubkey) {
    let sk = SigningKey::from_bytes(&[7u8; 32]);
    let pk = AuthorPubkey::from_bytes(sk.verifying_key().to_bytes());
    (sk, pk)
}

fn sign_revocation(sk: &SigningKey, revoked: BlobHash, reason: &str, seq: u64) -> RevocationEvent {
    let mut ev = RevocationEvent {
        revoked_bundle_hash: revoked,
        reason: reason.into(),
        revoked_at: 0,
        revocation_seq: seq,
        signature: [0u8; 64],
    };
    let target = ev.signing_target();
    ev.signature = sk.sign(&target).to_bytes();
    ev
}

fn sign_publication(sk: &SigningKey, manifest: BlobHash, version: &str, seq: u64) -> PublicationEvent {
    let mut ev = PublicationEvent {
        manifest_hash: manifest,
        version: version.into(),
        publication_seq: seq,
        signature: [0u8; 64],
    };
    let target = ev.signing_target();
    ev.signature = sk.sign(&target).to_bytes();
    ev
}

/// 32 bytes that do not decompress to a curve point.
fn malformed_pk_bytes() -> [u8; 32] {
    let mut b = [0x01u8; 32];
    b[31] = 0x03;
    b
}

// ---- topics ----

#[test]
fn revocation_and_publication_topics_differ_for_same_author() {
    let a = AuthorPubkey::from_bytes([0x42; 32]);
    assert_ne!(derive_revocation_topic(a), derive_publication_topic(a));
}

#[test]
fn revocation_topic_deterministic() {
    let a = AuthorPubkey::from_bytes([0x42; 32]);
    assert_eq!(derive_revocation_topic(a), derive_revocation_topic(a));
}

#[test]
fn revocation_topic_differs_per_author() {
    let a1 = AuthorPubkey::from_bytes([0x42; 32]);
    let a2 = AuthorPubkey::from_bytes([0x43; 32]);
    assert_ne!(derive_revocation_topic(a1), derive_revocation_topic(a2));
}

#[test]
fn revocation_topic_matches_blake3_directly() {
    let a = AuthorPubkey::from_bytes([0x42; 32]);
    let mut h = blake3::Hasher::new();
    h.update(b"myrhiza/revocations/v1");
    h.update(a.as_bytes());
    assert_eq!(derive_revocation_topic(a), *h.finalize().as_bytes());
}

#[test]
fn publication_topic_matches_blake3_directly() {
    let a = AuthorPubkey::from_bytes([0x42; 32]);
    let mut h = blake3::Hasher::new();
    h.update(b"myrhiza/publications/v1");
    h.update(a.as_bytes());
    assert_eq!(derive_publication_topic(a), *h.finalize().as_bytes());
}

// ---- dispatch ----

#[test]
fn verify_revocation_accepts_genuine_signature() {
    let (sk, pk) = fixture();
    let ev = sign_revocation(&sk, BlobHash::from_bytes([0xAA; 32]), "compromised", 1);
    verify_revocation(&ev, &pk).expect("genuine signature must verify");
}

#[test]
fn verify_revocation_rejects_bad_signature() {
    let (_, pk) = fixture();
    let wrong_sk = SigningKey::from_bytes(&[42u8; 32]);
    let ev = sign_revocation(&wrong_sk, BlobHash::from_bytes([0xAA; 32]), "x", 1);
    let err = verify_revocation(&ev, &pk).expect_err("must reject bad sig");
    assert_eq!(err, DispatchReject::SignatureInvalid);
}

#[test]
fn malformed_pk_constant_is_actually_malformed() {
    assert!(VerifyingKey::from_bytes(&malformed_pk_bytes()).is_err());
}

#[test]
fn verify_revocation_rejects_malformed_author_pubkey() {
    let (sk, _) = fixture();
    let ev = sign_revocation(&sk, BlobHash::from_bytes([0xAA; 32]), "x", 1);
    let bad_pk = AuthorPubkey::from_bytes(malformed_pk_bytes());
    let err = verify_revocation(&ev, &bad_pk).expect_err("must reject malformed pk");
    assert_eq!(err, DispatchReject::AuthorPubkeyMalformed);
}

#[test]
fn verify_revocation_rejects_reason_too_long() {
    let (sk, pk) = fixture();
    let too_long = "x".repeat(MAX_REASON_LEN + 1);
    let ev = sign_revocation(&sk, BlobHash::from_bytes([0xAA; 32]), &too_long, 1);
    let err = verify_revocation(&ev, &pk).expect_err("must reject oversize reason");
    assert_eq!(err, DispatchReject::FieldTooLong);
}

#[test]
fn verify_publication_accepts_genuine_signature() {
    let (sk, pk) = fixture();
    let ev = sign_publication(&sk, BlobHash::from_bytes([0xAA; 32]), "1.0.0", 1);
    verify_publication(&ev, &pk).expect("genuine signature must verify");
}

#[test]
fn verify_publication_rejects_bad_signature() {
    let (_, pk) = fixture();
    let wrong_sk = SigningKey::from_bytes(&[42u8; 32]);
    let ev = sign_publication(&wrong_sk, BlobHash::from_bytes([0xAA; 32]), "1.0.0", 1);
    let err = verify_publication(&ev, &pk).expect_err("must reject bad sig");
    assert_eq!(err, DispatchReject::SignatureInvalid);
}

#[test]
fn verify_publication_rejects_malformed_author_pubkey() {
    let (sk, _) = fixture();
    let ev = sign_publication(&sk, BlobHash::from_bytes([0xAA; 32]), "1.0.0", 1);
    let bad_pk = AuthorPubkey::from_bytes(malformed_pk_bytes());
    let err = verify_publication(&ev, &bad_pk).expect_err("must reject malformed pk");
    assert_eq!(err, DispatchReject::AuthorPubkeyMalformed);
}

#[test]
fn verify_publication_rejects_version_too_long() {
    let (sk, pk) = fixture();
    let too_long = "x".repeat(MAX_VERSION_LEN + 1);
    let ev = sign_publication(&sk, BlobHash::from_bytes([0xAA; 32]), &too_long, 1);
    let err = verify_publication(&ev, &pk).expect_err("must reject oversize version");
    assert_eq!(err, DispatchReject::FieldTooLong);
}

#[test]
fn signing_target_starts_with_domain_separator() {
    let (sk, _) = fixture();
    let rev = sign_revocation(&sk, BlobHash::from_bytes([0xAA; 32]), "r", 1);
    assert!(rev.signing_target().starts_with(b"myrhiza/revocation/v1"));
    let publ = sign_publication(&sk, BlobHash::from_bytes([0xAA; 32]), "1.0.0", 1);
    assert!(publ.signing_target().starts_with(b"myrhiza/publication/v1"));
    // domain, hash, reason length and bytes, time, seq
    assert_eq!(rev.signing_target().len(), 21 + 32 + 8 + 1 + 8 + 8);
}

// ---- revocation log ----

#[test]
fn applies_first_revocation() {
    let (sk, pk) = fixture();
    let ev = sign_revocation(&sk, BlobHash::from_bytes([0xAA; 32]), "compromised", 1);
    let log = RevocationLog::new().apply(&ev, &pk).expect("apply ok");
    assert_eq!(log.last_observed_seq, 1);
    assert!(log.is_revoked(&BlobHash::from_bytes([0xAA; 32])));
}

#[test]
fn revocation_rejects_signature_mismatch() {
    let (_, pk) = fixture();
    let wrong_sk = SigningKey::from_bytes(&[42u8; 32]);
    let ev = sign_revocation(&wrong_sk, BlobHash::from_bytes([0xAA; 32]), "x", 1);
    let err = RevocationLog::new().apply(&ev, &pk).expect_err("must reject");
    assert!(matches!(err, RevocationError::SignatureInvalid));
}

#[test]
fn revocation_rejects_out_of_order_seq() {
    let (sk, pk) = fixture();
    let ev1 = sign_revocation(&sk, BlobHash::from_bytes([0xAA; 32]), "x", 3);
    let ev2 = sign_revocation(&sk, BlobHash::from_bytes([0xBB; 32]), "y", 2);
    let log = RevocationLog::new().apply(&ev1, &pk).expect("apply 1");
    let err = log.apply(&ev2, &pk).expect_err("seq 2 < 3 must reject");
    assert!(matches!(err, RevocationError::SeqNotMonotonic { .. }));
}

#[test]
fn revocation_rejects_duplicate_seq() {
    let (sk, pk) = fixture();
    let ev1 = sign_revocation(&sk, BlobHash::from_bytes([0xAA; 32]), "x", 2);
    let ev2 = sign_revocation(&sk, BlobHash::from_bytes([0xBB; 32]), "y", 2);
    let log = RevocationLog::new().apply(&ev1, &pk).expect("apply 1");
    let err = log.apply(&ev2, &pk).expect_err("duplicate seq must reject");
    assert!(matches!(err, RevocationError::SeqNotMonotonic { .. }));
}

#[test]
fn revocation_rejects_jump_exceeds_max() {
    let (sk, pk) = fixture();
    let ev1 = sign_revocation(&sk, BlobHash::from_bytes([0xAA; 32]), "x", 1);
    let ev2 = sign_revocation(&sk, BlobHash::from_bytes([0xBB; 32]), "y", 1 + MAX_REVOCATION_JUMP + 1);
    let log = RevocationLog::new().apply(&ev1, &pk).expect("apply 1");
    let err = log.apply(&ev2, &pk).expect_err("jump+1 must reject");
    assert!(matches!(err, RevocationError::SeqJumpTooLarge { .. }));
}

#[test]
fn revocation_accepts_jump_at_max() {
    let (sk, pk) = fixture();
    let ev1 = sign_revocation(&sk, BlobHash::from_bytes([0xAA; 32]), "x", 1);
    let ev2 = sign_revocation(&sk, BlobHash::from_bytes([0xBB; 32]), "y", 1 + MAX_REVOCATION_JUMP);
    let log = RevocationLog::new().apply(&ev1, &pk).expect("apply 1");
    let log = log.apply(&ev2, &pk).expect("max-jump must accept");
    assert_eq!(log.last_observed_seq, 1 + MAX_REVOCATION_JUMP);
}

#[test]
fn idempotent_double_revoke_same_bundle() {
    let (sk, pk) = fixture();
    let hash = BlobHash::from_bytes([0xAA; 32]);
    let ev1 = sign_revocation(&sk, hash, "first", 1);
    let ev2 = sign_revocation(&sk, hash, "second", 2);
    let log = RevocationLog::new().apply(&ev1, &pk).expect("apply 1");
    let log = log.apply(&ev2, &pk).expect("apply 2");
    assert!(log.is_revoked(&hash));
    assert_eq!(log.last_observed_seq, 2);
}

#[test]
fn rejects_reason_too_long() {
    let (sk, pk) = fixture();
    let too_long = "x".repeat(MAX_REASON_LEN + 1);
    let ev = sign_revocation(&sk, BlobHash::from_bytes([0xAA; 32]), &too_long, 1);
    let err = RevocationLog::new().apply(&ev, &pk).expect_err("must reject");
    assert!(matches!(err, RevocationError::ReasonTooLong { .. }));
}

#[test]
fn revocation_errors_carry_exact_values() {
    let (sk, pk) = fixture();
    let too_long = "x".repeat(MAX_REASON_LEN + 5);
    let ev = sign_revocation(&sk, BlobHash::from_bytes([0xAA; 32]), &too_long, 1);
    assert_eq!(
        RevocationLog::new().apply(&ev, &pk).unwrap_err(),
        RevocationError::ReasonTooLong { got: MAX_REASON_LEN + 5 }
    );
    let ev3 = sign_revocation(&sk, BlobHash::from_bytes([0xAA; 32]), "x", 3);
    let log = RevocationLog::new().apply(&ev3, &pk).unwrap();
    let ev2 = sign_revocation(&sk, BlobHash::from_bytes([0xAA; 32]), "x", 2);
    assert_eq!(
        log.clone().apply(&ev2, &pk).unwrap_err(),
        RevocationError::SeqNotMonotonic { got: 2, last_observed: 3 }
    );
    let far = sign_revocation(&sk, BlobHash::from_bytes([0xAA; 32]), "x", 3 + 2000);
    assert_eq!(log.apply(&far, &pk).unwrap_err(), RevocationError::SeqJumpTooLarge { jump: 2000 });
    let ev1 = sign_revocation(&sk, BlobHash::from_bytes([0xAA; 32]), "x", 1);
    assert_eq!(
        RevocationLog::new().apply(&ev1, &AuthorPubkey::from_bytes(malformed_pk_bytes())).unwrap_err(),
        RevocationError::AuthorPubkeyMalformed
    );
}

#[test]
fn revocation_log_keeps_every_revoked_bundle() {
    let (sk, pk) = fixture();
    let a = BlobHash::from_bytes([0xAA; 32]);
    let b = BlobHash::from_bytes([0xBB; 32]);
    let log = RevocationLog::new().apply(&sign_revocation(&sk, a, "x", 1), &pk).unwrap();
    let log = log.apply(&sign_revocation(&sk, b, "y", 2), &pk).unwrap();
    assert!(log.is_revoked(&a));
    assert!(log.is_revoked(&b));
    assert!(!log.is_revoked(&BlobHash::from_bytes([0xCC; 32])));
}

// ---- publication log ----

#[test]
fn applies_first_publication() {
    let (sk, pk) = fixture();
    let ev = sign_publication(&sk, BlobHash::from_bytes([0xAA; 32]), "1.0.0", 1);
    let log = PublicationLog::new().apply(&ev, &pk).expect("apply ok");
    assert_eq!(log.last_observed_seq, 1);
    assert_eq!(log.latest_announcement, Some((BlobHash::from_bytes([0xAA; 32]), "1.0.0".into())));
}

#[test]
fn publication_rejects_signature_mismatch() {
    let (_, pk) = fixture();
    let wrong_sk = SigningKey::from_bytes(&[42u8; 32]);
    let ev = sign_publication(&wrong_sk, BlobHash::from_bytes([0xAA; 32]), "1.0.0", 1);
    let err = PublicationLog::new().apply(&ev, &pk).expect_err("must reject");
    assert!(matches!(err, PublicationError::SignatureInvalid));
}

#[test]
fn publication_rejects_out_of_order_seq() {
    let (sk, pk) = fixture();
    let ev1 = sign_publication(&sk, BlobHash::from_bytes([0xAA; 32]), "1.0.0", 3);
    let ev2 = sign_publication(&sk, BlobHash::from_bytes([0xBB; 32]), "1.0.1", 2);
    let log = PublicationLog::new().apply(&ev1, &pk).expect("apply 1");
    let err = log.apply(&ev2, &pk).expect_err("seq 2 < 3 must reject");
    assert!(matches!(err, PublicationError::SeqNotMonotonic { .. }));
}

#[test]
fn publication_rejects_duplicate_seq() {
    let (sk, pk) = fixture();
    let ev1 = sign_publication(&sk, BlobHash::from_bytes([0xAA; 32]), "1.0.0", 2);
    let ev2 = sign_publication(&sk, BlobHash::from_bytes([0xBB; 32]), "1.0.1", 2);
    let log = PublicationLog::new().apply(&ev1, &pk).expect("apply 1");
    let err = log.apply(&ev2, &pk).expect_err("duplicate seq must reject");
    assert!(matches!(err, PublicationError::SeqNotMonotonic { .. }));
}

#[test]
fn publication_rejects_jump_exceeds_max() {
    let (sk, pk) = fixture();
    let ev1 = sign_publication(&sk, BlobHash::from_bytes([0xAA; 32]), "1.0.0", 1);
    let ev2 = sign_publication(&sk, BlobHash::from_bytes([0xBB; 32]), "1.0.1", 1 + MAX_PUBLICATION_JUMP + 1);
    let log = PublicationLog::new().apply(&ev1, &pk).expect("apply 1");
    let err = log.apply(&ev2, &pk).expect_err("jump+1 must reject");
    assert!(matches!(err, PublicationError::SeqJumpTooLarge { .. }));
}

#[test]
fn publication_accepts_jump_at_max() {
    let (sk, pk) = fixture();
    let ev1 = sign_publication(&sk, BlobHash::from_bytes([0xAA; 32]), "1.0.0", 1);
    let ev2 = sign_publication(&sk, BlobHash::from_bytes([0xBB; 32]), "1.0.1", 1 + MAX_PUBLICATION_JUMP);
    let log = PublicationLog::new().apply(&ev1, &pk).expect("apply 1");
    let log = log.apply(&ev2, &pk).expect("max-jump must accept");
    assert_eq!(log.last_observed_seq, 1 + MAX_PUBLICATION_JUMP);
}

#[test]
fn rejects_version_too_long() {
    let (sk, pk) = fixture();
    let too_long = "x".repeat(MAX_VERSION_LEN + 1);
    let ev = sign_publication(&sk, BlobHash::from_bytes([0xAA; 32]), &too_long, 1);
    let err = PublicationLog::new().apply(&ev, &pk).expect_err("must reject");
    assert!(matches!(err, PublicationError::VersionTooLong { .. }));
}

#[test]
fn latest_announcement_updates_on_accept() {
    let (sk, pk) = fixture();
    let ev1 = sign_publication(&sk, BlobHash::from_bytes([0xAA; 32]), "1.0.0", 1);
    let ev2 = sign_publication(&sk, BlobHash::from_bytes([0xBB; 32]), "1.0.1", 2);
    let log = PublicationLog::new().apply(&ev1, &pk).expect("apply 1");
    assert_eq!(log.latest_announcement, Some((BlobHash::from_bytes([0xAA; 32]), "1.0.0".into())));
    let log = log.apply(&ev2, &pk).expect("apply 2");
    assert_eq!(log.latest_announcement, Some((BlobHash::from_bytes([0xBB; 32]), "1.0.1".into())));
    assert_eq!(log.last_observed_seq, 2);
}

#[test]
fn publication_malformed_author_is_reported() {
    let (sk, _) = fixture();
    let ev = sign_publication(&sk, BlobHash::from_bytes([0xAA; 32]), "1.0.0", 1);
    assert_eq!(
        PublicationLog::new().apply(&ev, &AuthorPubkey::from_bytes(malformed_pk_bytes())).unwrap_err(),
        PublicationError::AuthorPubkeyMalformed
    );
}

// ---- publish checks ----

fn components(state_apply: Option<&str>, hash: Option<BlobHash>) -> ManifestComponents {
    ManifestComponents {
        state_apply: state_apply.map(|s| s.to_string()),
        state_apply_hash: hash,
        state_propose: None,
        state_propose_hash: None,
        interaction: None,
        interaction_hash: None,
        behavior: None,
        behavior_hash: None,
    }
}

#[test]
fn check_hash_accepts_none_declared() {
    check_hash(b"anything", None).expect("no declaration, no check");
}

#[test]
fn check_hash_accepts_matching_declared() {
    let bytes = b"component bytes";
    let declared = BlobHash::from_bytes(*blake3::hash(bytes).as_bytes());
    check_hash(bytes, Some(declared)).expect("matching hash accepted");
}

#[test]
fn check_hash_rejects_mismatched_declared() {
    let declared = BlobHash::from_bytes([0x00; 32]);
    match check_hash(b"component bytes", Some(declared)) {
        Err(PublishError::ComponentHashMismatch { expected, actual }) => {
            assert_eq!(expected, declared);
            assert_eq!(actual, BlobHash::from_bytes(*blake3::hash(b"component bytes").as_bytes()));
        }
        other => panic!("expected ComponentHashMismatch, got {other:?}"),
    }
}

#[test]
fn publish_rejects_missing_state_apply() {
    let c = components(None, None);
    assert_eq!(check_publish(&c, b"wasm", None, None, None), Err(PublishError::MissingStateApply));
}

#[test]
fn publish_rejects_hash_mismatch() {
    let c = components(Some("components/state-apply.wasm"), Some(BlobHash::from_bytes([0x00; 32])));
    assert!(matches!(
        check_publish(&c, b"wasm", None, None, None),
        Err(PublishError::ComponentHashMismatch { .. })
    ));
}

#[test]
fn publish_checks_optional_components() {
    let good = BlobHash::from_bytes(*blake3::hash(b"apply").as_bytes());
    let mut c = components(None, Some(good));
    c.interaction_hash = Some(BlobHash::from_bytes([0x01; 32]));
    assert!(check_publish(&c, b"apply", None, None, None).is_ok());
    assert!(matches!(
        check_publish(&c, b"apply", None, Some(b"ui"), None),
        Err(PublishError::ComponentHashMismatch { .. })
    ));
}

// ---- wire encoding ----

use myrhiza::distribution::backfill::{DistributionBackfillRequest, DistributionEnvelope, DistributionLogKind};
use myrhiza::distribution::wire::{
    decode_backfill_request, decode_envelope, decode_log_kind, encode_backfill_request, encode_envelope,
    encode_log_kind,
};

fn backfill_key() -> SigningKey {
    SigningKey::from_bytes(&[9u8; 32])
}

#[test]
fn log_kind_round_trips_via_canonical_bincode() {
    for kind in [DistributionLogKind::Revocation, DistributionLogKind::Publication] {
        let bytes = encode_log_kind(kind);
        let decoded = decode_log_kind(&bytes).expect("decode");
        assert_eq!(kind, decoded);
    }
    assert_eq!(encode_log_kind(DistributionLogKind::Publication), vec![1, 0, 0, 0]);
    assert_eq!(decode_log_kind(&[2, 0, 0, 0]), None);
}

#[test]
fn backfill_request_round_trips_via_canonical_bincode() {
    let author = AuthorPubkey::from_bytes([0x11; 32]);
    let req = DistributionBackfillRequest { author, kind: DistributionLogKind::Revocation, from_seq: 42 };
    let bytes = encode_backfill_request(&req);
    assert_eq!(bytes.len(), 44);
    let decoded = decode_backfill_request(&bytes).expect("decode");
    assert_eq!(req, decoded);
    assert_eq!(decode_backfill_request(&bytes[..43]), None);
}

#[test]
fn revocation_envelope_round_trips_via_canonical_bincode() {
    let env = DistributionEnvelope::Revocation(sign_revocation(
        &backfill_key(),
        BlobHash::from_bytes([0xAB; 32]),
        "compromised",
        3,
    ));
    let bytes = encode_envelope(&env);
    let decoded = decode_envelope(&bytes).expect("decode");
    assert_eq!(env, decoded);
    let mut trailing = bytes.clone();
    trailing.push(0);
    assert_eq!(decode_envelope(&trailing), None);
}

#[test]
fn publication_envelope_round_trips_via_canonical_bincode() {
    let env =
        DistributionEnvelope::Publication(sign_publication(&backfill_key(), BlobHash::from_bytes([0xCD; 32]), "1.2.3", 7));
    let bytes = encode_envelope(&env);
    let decoded = decode_envelope(&bytes).expect("decode");
    assert_eq!(env, decoded);
}

#[test]
fn envelope_with_invalid_text_is_refused() {
    let env = DistributionEnvelope::Publication(sign_publication(&backfill_key(), BlobHash::from_bytes([1; 32]), "v", 1));
    let mut bytes = encode_envelope(&env);
    // the version's single byte sits after the tag, hash and length
    bytes[4 + 32 + 8] = 0xFF;
    assert_eq!(decode_envelope(&bytes), None);
}
