//! The canonical wire encoding of backfill messages.
//!
//! Fixed-width little-endian framing, fields in declaration order: a
//! 32-byte identifier is its bytes, a `u64` eight bytes, an enum variant
//! a `u32` index (in declaration order) followed by its fields, a string
//! a `u64` byte length followed by its UTF-8 bytes, a signature its 64
//! bytes. Every decoder accepts exactly the encodings of some value, so
//! decoding inverts encoding.
use vstd::prelude::*;

use crate::bytes::{
    extend_bytes, lemma_u32_le_of_bytes, lemma_u32_le_roundtrip, lemma_u64_le_of_bytes,
    lemma_u64_le_roundtrip, push_u32_le, push_u64_le, read_array32, read_u32_le, read_u64_le, u32_from_le,
    u32_le, u64_from_le, u64_le,
};
use crate::distribution::backfill::{DistributionBackfillRequest, DistributionEnvelope, DistributionLogKind};
use crate::distribution::publication::{version_bytes, PublicationEvent};
use crate::distribution::revocation::{reason_bytes, RevocationEvent};
use crate::event::{byte_string, push_byte_string};
use crate::ids::{AuthorPubkey, BlobHash};
use vstd::slice::slice_subrange;
use vstd::utf8::{encode_utf8, valid_utf8};

verus! {

broadcast use vstd::utf8::encode_utf8_valid_utf8;

/// `std::str::from_utf8`: the text whose UTF-8 encoding is `bytes`, or
/// `None` when `bytes` is not valid UTF-8.
#[verifier::external_body]
fn utf8_text(bytes: &[u8]) -> (r: Option<String>)
    ensures
        match r {
            Some(s) => encode_utf8(s@) == bytes@,
            None => !valid_utf8(bytes@),
        },
{
    match std::str::from_utf8(bytes) {
        Ok(s) => Some(s.to_owned()),
        Err(_) => None,
    }
}

/// The variant index of a log kind.
pub open spec fn kind_code(k: DistributionLogKind) -> u32 {
    match k {
        DistributionLogKind::Revocation => 0,
        DistributionLogKind::Publication => 1,
    }
}

/// The encoding of a log kind.
pub open spec fn kind_bytes(k: DistributionLogKind) -> Seq<u8> {
    u32_le(kind_code(k))
}

/// The encoding of a backfill request.
pub open spec fn request_bytes(q: DistributionBackfillRequest) -> Seq<u8> {
    q.author.bytes@ + kind_bytes(q.kind) + u64_le(q.from_seq)
}

/// The encoding of a revocation envelope.
pub open spec fn revocation_bytes(e: RevocationEvent) -> Seq<u8> {
    e.revoked_bundle_hash.bytes@ + byte_string(reason_bytes(e)) + u64_le(e.revoked_at) + u64_le(
        e.revocation_seq,
    ) + e.signature@
}

/// The encoding of a publication envelope.
pub open spec fn publication_bytes(e: PublicationEvent) -> Seq<u8> {
    e.manifest_hash.bytes@ + byte_string(version_bytes(e)) + u64_le(e.publication_seq) + e.signature@
}

/// The encoding of a backfill envelope.
pub open spec fn envelope_bytes(env: DistributionEnvelope) -> Seq<u8> {
    match env {
        DistributionEnvelope::Revocation(e) => u32_le(0) + revocation_bytes(e),
        DistributionEnvelope::Publication(e) => u32_le(1) + publication_bytes(e),
    }
}

/// The framing of 0 and 1 as `u32`.
proof fn lemma_small_codes()
    ensures
        u32_le(0) == seq![0u8, 0, 0, 0],
        u32_le(1) == seq![1u8, 0, 0, 0],
{
    assert(((0u32 >> 8u32) & 0xff) as u8 == 0 && ((0u32 >> 16u32) & 0xff) as u8 == 0 && ((0u32 >> 24u32)
        & 0xff) as u8 == 0 && (0u32 & 0xff) as u8 == 0) by (bit_vector);
    assert(((1u32 >> 8u32) & 0xff) as u8 == 0 && ((1u32 >> 16u32) & 0xff) as u8 == 0 && ((1u32 >> 24u32)
        & 0xff) as u8 == 0 && (1u32 & 0xff) as u8 == 1) by (bit_vector);
    assert(u32_le(0) =~= seq![0u8, 0, 0, 0]);
    assert(u32_le(1) =~= seq![1u8, 0, 0, 0]);
}

fn push_kind(out: &mut Vec<u8>, k: DistributionLogKind)
    ensures
        final(out)@ == old(out)@ + kind_bytes(k),
{
    match k {
        DistributionLogKind::Revocation => push_u32_le(out, 0),
        DistributionLogKind::Publication => push_u32_le(out, 1),
    }
}

/// Encode a log kind.
pub fn encode_log_kind(k: DistributionLogKind) -> (r: Vec<u8>)
    ensures
        r@ == kind_bytes(k),
{
    let mut out: Vec<u8> = Vec::new();
    push_kind(&mut out, k);
    assert(out@ =~= kind_bytes(k));
    out
}

/// The log kind whose encoding is the four bytes at `b[at..]`.
fn read_kind(b: &[u8], at: usize) -> (r: Option<DistributionLogKind>)
    requires
        at + 4 <= b@.len(),
    ensures
        match r {
            Some(k) => kind_bytes(k) == b@.subrange(at as int, at + 4),
            None => forall|k: DistributionLogKind| kind_bytes(k) != b@.subrange(at as int, at + 4),
        },
{
    let code = read_u32_le(b, at);
    proof {
        lemma_u32_le_of_bytes(b@, at as int);
        assert forall|k: DistributionLogKind| kind_bytes(k) == b@.subrange(at as int, at + 4) implies kind_code(k)
            == code by {
            lemma_u32_le_roundtrip(kind_code(k), Seq::empty(), Seq::empty());
            lemma_u32_le_roundtrip(code, Seq::empty(), Seq::empty());
            assert(Seq::<u8>::empty() + u32_le(kind_code(k)) + Seq::<u8>::empty() =~= u32_le(kind_code(k)));
            assert(Seq::<u8>::empty() + u32_le(code) + Seq::<u8>::empty() =~= u32_le(code));
        }
    }
    if code == 0 {
        Some(DistributionLogKind::Revocation)
    } else if code == 1 {
        Some(DistributionLogKind::Publication)
    } else {
        None
    }
}

/// Decode a log kind: exactly the encoding of one.
pub fn decode_log_kind(b: &[u8]) -> (r: Option<DistributionLogKind>)
    ensures
        match r {
            Some(k) => b@ == kind_bytes(k),
            None => forall|k: DistributionLogKind| kind_bytes(k) != b@,
        },
{
    if b.len() != 4 {
        return None;
    }
    assert(b@.subrange(0, 4) =~= b@);
    read_kind(b, 0)
}

/// Encode a backfill request.
pub fn encode_backfill_request(q: &DistributionBackfillRequest) -> (r: Vec<u8>)
    ensures
        r@ == request_bytes(*q),
{
    let mut out: Vec<u8> = Vec::new();
    extend_bytes(&mut out, &q.author.bytes);
    push_kind(&mut out, q.kind);
    push_u64_le(&mut out, q.from_seq);
    assert(out@ =~= request_bytes(*q));
    out
}

/// Decode a backfill request: exactly the encoding of one.
pub fn decode_backfill_request(b: &[u8]) -> (r: Option<DistributionBackfillRequest>)
    ensures
        match r {
            Some(q) => b@ == request_bytes(q),
            None => forall|q: DistributionBackfillRequest| request_bytes(q) != b@,
        },
{
    proof {
        lemma_small_codes();
    }
    if b.len() != 44 {
        return None;
    }
    let author = AuthorPubkey::from_bytes(read_array32(b, 0));
    let kind = match read_kind(b, 32) {
        Some(k) => k,
        None => {
            proof {
                assert forall|q: DistributionBackfillRequest| request_bytes(q) != b@ by {
                    if request_bytes(q) == b@ {
                        assert(kind_bytes(q.kind) =~= b@.subrange(32, 36));
                    }
                }
            }
            return None;
        },
    };
    let from_seq = read_u64_le(b, 36);
    let q = DistributionBackfillRequest { author, kind, from_seq };
    proof {
        lemma_u64_le_of_bytes(b@, 36);
        assert(b@ =~= request_bytes(q));
    }
    Some(q)
}

/// Append the encoding of a revocation envelope.
fn push_revocation(out: &mut Vec<u8>, e: &RevocationEvent)
    ensures
        final(out)@ == old(out)@ + revocation_bytes(*e),
{
    extend_bytes(out, &e.revoked_bundle_hash.bytes);
    push_byte_string(out, e.reason.as_str().as_bytes());
    push_u64_le(out, e.revoked_at);
    push_u64_le(out, e.revocation_seq);
    extend_bytes(out, &e.signature);
    assert(out@ =~= old(out)@ + revocation_bytes(*e));
}

/// Append the encoding of a publication envelope.
fn push_publication(out: &mut Vec<u8>, e: &PublicationEvent)
    ensures
        final(out)@ == old(out)@ + publication_bytes(*e),
{
    extend_bytes(out, &e.manifest_hash.bytes);
    push_byte_string(out, e.version.as_str().as_bytes());
    push_u64_le(out, e.publication_seq);
    extend_bytes(out, &e.signature);
    assert(out@ =~= old(out)@ + publication_bytes(*e));
}

/// Encode a backfill envelope.
pub fn encode_envelope(env: &DistributionEnvelope) -> (r: Vec<u8>)
    ensures
        r@ == envelope_bytes(*env),
{
    let mut out: Vec<u8> = Vec::new();
    match env {
        DistributionEnvelope::Revocation(e) => {
            push_u32_le(&mut out, 0);
            push_revocation(&mut out, e);
        },
        DistributionEnvelope::Publication(e) => {
            push_u32_le(&mut out, 1);
            push_publication(&mut out, e);
        },
    }
    assert(out@ =~= envelope_bytes(*env));
    out
}

/// Copy the 64 bytes at `b[at..]` into a signature.
fn read_array64(b: &[u8], at: usize) -> (r: [u8; 64])
    requires
        at + 64 <= b@.len(),
    ensures
        r@ == b@.subrange(at as int, at + 64),
{
    let mut r = [0u8; 64];
    let n = b.len();
    let mut i: usize = 0;
    while i < 64
        invariant
            i <= 64,
            n == b@.len(),
            at + 64 <= b@.len(),
            r@.len() == 64,
            forall|j: int| 0 <= j < i ==> r@[j] == b@[at + j],
        decreases 64 - i,
    {
        r[i] = b[at + i];
        i = i + 1;
    }
    assert(r@ =~= b@.subrange(at as int, at + 64));
    r
}

/// Where each field of a revocation envelope sits in its encoding.
#[verifier::rlimit(40)]
proof fn lemma_revocation_layout(e: RevocationEvent)
    requires
        reason_bytes(e).len() <= u64::MAX,
    ensures
        ({
            let s = revocation_bytes(e);
            let l = reason_bytes(e).len() as int;
            &&& s.len() == 120 + l
            &&& s.subrange(0, 32) == e.revoked_bundle_hash.bytes@
            &&& u64_from_le(s, 32) == l
            &&& s.subrange(40, 40 + l) == reason_bytes(e)
            &&& u64_from_le(s, 40 + l) == e.revoked_at
            &&& u64_from_le(s, 48 + l) == e.revocation_seq
            &&& s.subrange(56 + l, 120 + l) == e.signature@
        }),
{
    let s = revocation_bytes(e);
    let r = reason_bytes(e);
    let l = r.len() as int;
    let h = e.revoked_bundle_hash.bytes@;
    assert(s =~= h + u64_le(l as u64) + (r + u64_le(e.revoked_at) + u64_le(e.revocation_seq) + e.signature@));
    lemma_u64_le_roundtrip(l as u64, h, r + u64_le(e.revoked_at) + u64_le(e.revocation_seq) + e.signature@);
    let p1 = h + u64_le(l as u64) + r;
    assert(s =~= p1 + u64_le(e.revoked_at) + (u64_le(e.revocation_seq) + e.signature@));
    lemma_u64_le_roundtrip(e.revoked_at, p1, u64_le(e.revocation_seq) + e.signature@);
    let p2 = p1 + u64_le(e.revoked_at);
    assert(s =~= p2 + u64_le(e.revocation_seq) + e.signature@);
    lemma_u64_le_roundtrip(e.revocation_seq, p2, e.signature@);
    assert(s.subrange(0, 32) =~= h);
    assert(s.subrange(40, 40 + l) =~= r);
    assert(s.subrange(56 + l, 120 + l) =~= e.signature@);
}

/// Where each field of a publication envelope sits in its encoding.
proof fn lemma_publication_layout(e: PublicationEvent)
    requires
        version_bytes(e).len() <= u64::MAX,
    ensures
        ({
            let s = publication_bytes(e);
            let l = version_bytes(e).len() as int;
            &&& s.len() == 112 + l
            &&& s.subrange(0, 32) == e.manifest_hash.bytes@
            &&& u64_from_le(s, 32) == l
            &&& s.subrange(40, 40 + l) == version_bytes(e)
            &&& u64_from_le(s, 40 + l) == e.publication_seq
            &&& s.subrange(48 + l, 112 + l) == e.signature@
        }),
{
    let s = publication_bytes(e);
    let r = version_bytes(e);
    let l = r.len() as int;
    let h = e.manifest_hash.bytes@;
    assert(s =~= h + u64_le(l as u64) + (r + u64_le(e.publication_seq) + e.signature@));
    lemma_u64_le_roundtrip(l as u64, h, r + u64_le(e.publication_seq) + e.signature@);
    let p1 = h + u64_le(l as u64) + r;
    assert(s =~= p1 + u64_le(e.publication_seq) + e.signature@);
    lemma_u64_le_roundtrip(e.publication_seq, p1, e.signature@);
    assert(s.subrange(0, 32) =~= h);
    assert(s.subrange(40, 40 + l) =~= r);
    assert(s.subrange(48 + l, 112 + l) =~= e.signature@);
}

/// The revocation envelope whose encoding is exactly `b`.
fn decode_revocation(b: &[u8]) -> (r: Option<RevocationEvent>)
    ensures
        match r {
            Some(e) => b@ == revocation_bytes(e),
            None => forall|e: RevocationEvent| revocation_bytes(e) != b@,
        },
{
    let n = b.len();
    if n < 120 {
        proof {
            assert forall|e: RevocationEvent| revocation_bytes(e) != b@ by {
                if revocation_bytes(e) == b@ {
                    assert(revocation_bytes(e).len() <= usize::MAX);
                    lemma_revocation_layout(e);
                }
            }
        }
        return None;
    }
    let len = read_u64_le(b, 32);
    if len != (n - 120) as u64 {
        proof {
            assert forall|e: RevocationEvent| revocation_bytes(e) != b@ by {
                if revocation_bytes(e) == b@ {
                    assert(revocation_bytes(e).len() <= usize::MAX);
                    lemma_revocation_layout(e);
                }
            }
        }
        return None;
    }
    let l = len as usize;
    let text = slice_subrange(b, 40, 40 + l);
    let reason = match utf8_text(text) {
        Some(s) => s,
        None => {
            proof {
                assert forall|e: RevocationEvent| revocation_bytes(e) != b@ by {
                    if revocation_bytes(e) == b@ {
                        assert(revocation_bytes(e).len() <= usize::MAX);
                        lemma_revocation_layout(e);
                    }
                }
            }
            return None;
        },
    };
    let hash = BlobHash::from_bytes(read_array32(b, 0));
    let revoked_at = read_u64_le(b, 40 + l);
    let revocation_seq = read_u64_le(b, 48 + l);
    let signature = read_array64(b, 56 + l);
    let e = RevocationEvent { revoked_bundle_hash: hash, reason, revoked_at, revocation_seq, signature };
    proof {
        lemma_u64_le_of_bytes(b@, 32);
        lemma_u64_le_of_bytes(b@, 40 + l);
        lemma_u64_le_of_bytes(b@, 48 + l);
        assert(b@ =~= b@.subrange(0, 32) + b@.subrange(32, 40) + b@.subrange(40, 40 + l) + b@.subrange(
            40 + l,
            48 + l,
        ) + b@.subrange(48 + l, 56 + l) + b@.subrange(56 + l, 120 + l));
        assert(b@ =~= revocation_bytes(e));
    }
    Some(e)
}

/// The publication envelope whose encoding is exactly `b`.
fn decode_publication(b: &[u8]) -> (r: Option<PublicationEvent>)
    ensures
        match r {
            Some(e) => b@ == publication_bytes(e),
            None => forall|e: PublicationEvent| publication_bytes(e) != b@,
        },
{
    let n = b.len();
    if n < 112 {
        proof {
            assert forall|e: PublicationEvent| publication_bytes(e) != b@ by {
                if publication_bytes(e) == b@ {
                    assert(publication_bytes(e).len() <= usize::MAX);
                    lemma_publication_layout(e);
                }
            }
        }
        return None;
    }
    let len = read_u64_le(b, 32);
    if len != (n - 112) as u64 {
        proof {
            assert forall|e: PublicationEvent| publication_bytes(e) != b@ by {
                if publication_bytes(e) == b@ {
                    assert(publication_bytes(e).len() <= usize::MAX);
                    lemma_publication_layout(e);
                }
            }
        }
        return None;
    }
    let l = len as usize;
    let text = slice_subrange(b, 40, 40 + l);
    let version = match utf8_text(text) {
        Some(s) => s,
        None => {
            proof {
                assert forall|e: PublicationEvent| publication_bytes(e) != b@ by {
                    if publication_bytes(e) == b@ {
                        assert(publication_bytes(e).len() <= usize::MAX);
                        lemma_publication_layout(e);
                    }
                }
            }
            return None;
        },
    };
    let hash = BlobHash::from_bytes(read_array32(b, 0));
    let publication_seq = read_u64_le(b, 40 + l);
    let signature = read_array64(b, 48 + l);
    let e = PublicationEvent { manifest_hash: hash, version, publication_seq, signature };
    proof {
        lemma_u64_le_of_bytes(b@, 32);
        lemma_u64_le_of_bytes(b@, 40 + l);
        assert(b@ =~= b@.subrange(0, 32) + b@.subrange(32, 40) + b@.subrange(40, 40 + l) + b@.subrange(
            40 + l,
            48 + l,
        ) + b@.subrange(48 + l, 112 + l));
        assert(b@ =~= publication_bytes(e));
    }
    Some(e)
}

/// Decode a backfill envelope: exactly the encoding of one.
pub fn decode_envelope(b: &[u8]) -> (r: Option<DistributionEnvelope>)
    ensures
        match r {
            Some(env) => b@ == envelope_bytes(env),
            None => forall|env: DistributionEnvelope| envelope_bytes(env) != b@,
        },
{
    proof {
        lemma_small_codes();
    }
    let n = b.len();
    if n < 4 {
        proof {
            assert forall|env: DistributionEnvelope| envelope_bytes(env) != b@ by {
                assert(envelope_bytes(env).len() >= 4);
            }
        }
        return None;
    }
    let code = read_u32_le(b, 0);
    let body = slice_subrange(b, 4, n);
    proof {
        lemma_u32_le_of_bytes(b@, 0);
        assert(b@ =~= u32_le(code) + body@);
        assert forall|env: DistributionEnvelope| envelope_bytes(env) == b@ implies {
            &&& (env is Revocation ==> code == 0 && revocation_bytes(env->Revocation_0) == body@)
            &&& (env is Publication ==> code == 1 && publication_bytes(env->Publication_0) == body@)
        } by {
            let c: u32 = if env is Revocation { 0 } else { 1 };
            let rest = if env is Revocation {
                revocation_bytes(env->Revocation_0)
            } else {
                publication_bytes(env->Publication_0)
            };
            assert(b@ == u32_le(c) + rest);
            assert(u32_le(c) =~= b@.subrange(0, 4));
            assert(u32_le(code) =~= b@.subrange(0, 4));
            lemma_u32_le_roundtrip(c, Seq::empty(), Seq::empty());
            lemma_u32_le_roundtrip(code, Seq::empty(), Seq::empty());
            assert(Seq::<u8>::empty() + u32_le(c) + Seq::<u8>::empty() =~= u32_le(c));
            assert(Seq::<u8>::empty() + u32_le(code) + Seq::<u8>::empty() =~= u32_le(code));
            assert(rest =~= b@.subrange(4, n as int));
        }
    }
    if code == 0 {
        match decode_revocation(body) {
            Some(e) => Some(DistributionEnvelope::Revocation(e)),
            None => None,
        }
    } else if code == 1 {
        match decode_publication(body) {
            Some(e) => Some(DistributionEnvelope::Publication(e)),
            None => None,
        }
    } else {
        None
    }
}

/// Decoding inverts encoding for revocation envelopes: the encoding
/// determines every field (the reason up to its text).
pub proof fn lemma_revocation_bytes_injective(a: RevocationEvent, b: RevocationEvent)
    requires
        revocation_bytes(a) == revocation_bytes(b),
        revocation_bytes(a).len() <= u64::MAX,
    ensures
        a.revoked_bundle_hash == b.revoked_bundle_hash,
        a.reason@ == b.reason@,
        a.revoked_at == b.revoked_at,
        a.revocation_seq == b.revocation_seq,
        a.signature == b.signature,
{
    lemma_revocation_layout(a);
    lemma_revocation_layout(b);
    assert(a.revoked_bundle_hash.bytes == b.revoked_bundle_hash.bytes);
    vstd::utf8::encode_utf8_decode_utf8(a.reason@);
    vstd::utf8::encode_utf8_decode_utf8(b.reason@);
    assert(a.signature == b.signature);
}

/// Decoding inverts encoding for publication envelopes.
pub proof fn lemma_publication_bytes_injective(a: PublicationEvent, b: PublicationEvent)
    requires
        publication_bytes(a) == publication_bytes(b),
        publication_bytes(a).len() <= u64::MAX,
    ensures
        a.manifest_hash == b.manifest_hash,
        a.version@ == b.version@,
        a.publication_seq == b.publication_seq,
        a.signature == b.signature,
{
    lemma_publication_layout(a);
    lemma_publication_layout(b);
    assert(a.manifest_hash.bytes == b.manifest_hash.bytes);
    vstd::utf8::encode_utf8_decode_utf8(a.version@);
    vstd::utf8::encode_utf8_decode_utf8(b.version@);
    assert(a.signature == b.signature);
}

/// Decoding inverts encoding for backfill requests.
pub proof fn lemma_request_bytes_injective(a: DistributionBackfillRequest, b: DistributionBackfillRequest)
    requires
        request_bytes(a) == request_bytes(b),
    ensures
        a == b,
{
    lemma_small_codes();
    let s = request_bytes(a);
    assert(a.author.bytes@ =~= s.subrange(0, 32));
    assert(b.author.bytes@ =~= s.subrange(0, 32));
    assert(a.author.bytes == b.author.bytes);
    assert(kind_bytes(a.kind) =~= s.subrange(32, 36));
    assert(kind_bytes(b.kind) =~= s.subrange(32, 36));
    lemma_u64_le_roundtrip(a.from_seq, a.author.bytes@ + kind_bytes(a.kind), Seq::empty());
    lemma_u64_le_roundtrip(b.from_seq, b.author.bytes@ + kind_bytes(b.kind), Seq::empty());
    assert(s =~= a.author.bytes@ + kind_bytes(a.kind) + u64_le(a.from_seq) + Seq::<u8>::empty());
    assert(request_bytes(b) =~= b.author.bytes@ + kind_bytes(b.kind) + u64_le(b.from_seq) + Seq::<u8>::empty());
}

} // verus!
