//! Per-author topics of the revocation and publication logs:
//! `BLAKE3(domain || author key)`. Any peer that knows an author's key
//! can derive them.
use vstd::prelude::*;

use crate::bytes::extend_bytes;
use crate::crypto::{blake3_digest, blake3_hash};
use crate::ids::AuthorPubkey;

verus! {

/// The ASCII bytes of `myrhiza/revocations/v1`.
pub open spec fn revocation_domain() -> Seq<u8> {
    seq![
        109u8, 121, 114, 104, 105, 122, 97, 47, 114, 101, 118, 111, 99, 97, 116, 105, 111, 110,
        115, 47, 118, 49,
    ]
}

/// The ASCII bytes of `myrhiza/publications/v1`.
pub open spec fn publication_domain() -> Seq<u8> {
    seq![
        109u8, 121, 114, 104, 105, 122, 97, 47, 112, 117, 98, 108, 105, 99, 97, 116, 105, 111,
        110, 115, 47, 118, 49,
    ]
}

/// The revocation topic of `author`.
pub fn derive_revocation_topic(author: AuthorPubkey) -> (r: [u8; 32])
    ensures
        r@ == blake3_digest(revocation_domain() + author.bytes@),
{
    let d: [u8; 22] = [
        109u8, 121, 114, 104, 105, 122, 97, 47, 114, 101, 118, 111, 99, 97, 116, 105, 111, 110,
        115, 47, 118, 49,
    ];
    assert(d@ =~= revocation_domain());
    derive_topic(&d, author)
}

/// The publication topic of `author`.
pub fn derive_publication_topic(author: AuthorPubkey) -> (r: [u8; 32])
    ensures
        r@ == blake3_digest(publication_domain() + author.bytes@),
{
    let d: [u8; 23] = [
        109u8, 121, 114, 104, 105, 122, 97, 47, 112, 117, 98, 108, 105, 99, 97, 116, 105, 111,
        110, 115, 47, 118, 49,
    ];
    assert(d@ =~= publication_domain());
    derive_topic(&d, author)
}

fn derive_topic(domain: &[u8], author: AuthorPubkey) -> (r: [u8; 32])
    ensures
        r@ == blake3_digest(domain@ + author.bytes@),
{
    let mut pre: Vec<u8> = Vec::new();
    extend_bytes(&mut pre, domain);
    extend_bytes(&mut pre, &author.bytes);
    assert(pre@ =~= domain@ + author.bytes@);
    blake3_hash(pre.as_slice())
}

} // verus!
