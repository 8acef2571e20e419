//! Peer and author signing identities, and the bech32m names under
//! which author keys are stored.
use vstd::prelude::*;

use crate::crypto::{
    bech32_decode, bech32_decoding, bech32m_encode, bech32m_encoding, ed25519_public,
    ed25519_public_key, ed25519_sign, ed25519_signature, random_seed,
};
use crate::ids::{AuthorPubkey, EventHash, PeerPubkey};

verus! {

broadcast use vstd::array::group_array_axioms;

/// The 32-byte seed whose first eight bytes are `seed` in big-endian
/// order and whose remaining bytes are zero.
pub open spec fn deterministic_seed(seed: u64) -> Seq<u8> {
    seq![
        ((seed >> 56u64) & 0xff) as u8,
        ((seed >> 48u64) & 0xff) as u8,
        ((seed >> 40u64) & 0xff) as u8,
        ((seed >> 32u64) & 0xff) as u8,
        ((seed >> 24u64) & 0xff) as u8,
        ((seed >> 16u64) & 0xff) as u8,
        ((seed >> 8u64) & 0xff) as u8,
        (seed & 0xff) as u8,
    ] + Seq::new(24, |i: int| 0u8)
}

fn deterministic_bytes(seed: u64) -> (r: [u8; 32])
    ensures
        r@ == deterministic_seed(seed),
{
    let mut b = [0u8; 32];
    b[0] = ((seed >> 56) & 0xff) as u8;
    b[1] = ((seed >> 48) & 0xff) as u8;
    b[2] = ((seed >> 40) & 0xff) as u8;
    b[3] = ((seed >> 32) & 0xff) as u8;
    b[4] = ((seed >> 24) & 0xff) as u8;
    b[5] = ((seed >> 16) & 0xff) as u8;
    b[6] = ((seed >> 8) & 0xff) as u8;
    b[7] = (seed & 0xff) as u8;
    assert(b@ =~= deterministic_seed(seed));
    b
}

/// Peer-scoped signing key (signs drift messages and heads summaries).
pub struct PeerKeypair {
    secret: [u8; 32],
    /// The peer's Ed25519 verifying key.
    pub public: PeerPubkey,
}

impl PeerKeypair {
    /// The 32-byte secret seed.
    pub closed spec fn seed(&self) -> Seq<u8> {
        self.secret@
    }

    /// The public key matches the secret seed.
    pub closed spec fn wf(&self) -> bool {
        self.public.bytes@ == ed25519_public_key(self.seed())
    }

    /// The public key.
    pub closed spec fn peer_key(&self) -> PeerPubkey {
        self.public
    }

    /// The public key.
    pub fn public_key(&self) -> (r: PeerPubkey)
        ensures
            r == self.peer_key(),
    {
        self.public
    }

    /// A well-formed keypair's public key is the one derived from its seed.
    pub proof fn lemma_wf(&self)
        requires
            self.wf(),
        ensures
            self.peer_key().bytes@ == ed25519_public_key(self.seed()),
    {
    }

    /// Construct from a 32-byte Ed25519 secret seed.
    pub fn from_secret_bytes(b: [u8; 32]) -> (r: Self)
        ensures
            r.seed() == b@,
            r.peer_key().bytes@ == ed25519_public_key(b@),
            r.wf(),
    {
        let public = PeerPubkey::from_bytes(ed25519_public(&b));
        PeerKeypair { secret: b, public }
    }

    /// A fresh keypair from the operating system's secure generator.
    pub fn generate() -> (r: Self)
        ensures
            r.wf(),
    {
        Self::from_secret_bytes(random_seed())
    }

    /// Deterministic keypair for tests: the seed's first eight bytes
    /// are `seed` big-endian, the rest zero.
    pub fn deterministic(seed: u64) -> (r: Self)
        ensures
            r.seed() == deterministic_seed(seed),
            r.wf(),
    {
        Self::from_secret_bytes(deterministic_bytes(seed))
    }

    /// Sign an arbitrary message under the peer key.
    pub fn sign(&self, message: &[u8]) -> (r: [u8; 64])
        ensures
            r@ == ed25519_signature(self.seed(), message@),
    {
        ed25519_sign(&self.secret, message)
    }
}

/// Long-term author signing key (signs events and distribution logs).
pub struct AuthorKeypair {
    secret: [u8; 32],
    /// The author's Ed25519 verifying key.
    pub author: AuthorPubkey,
}

impl AuthorKeypair {
    /// The 32-byte secret seed.
    pub closed spec fn seed(&self) -> Seq<u8> {
        self.secret@
    }

    /// The public key matches the secret seed.
    pub closed spec fn wf(&self) -> bool {
        self.author.bytes@ == ed25519_public_key(self.seed())
    }

    /// The public key.
    pub closed spec fn author_key(&self) -> AuthorPubkey {
        self.author
    }

    /// The public key.
    pub fn public_key(&self) -> (r: AuthorPubkey)
        ensures
            r == self.author_key(),
    {
        self.author
    }

    /// A well-formed keypair's public key is the one derived from its seed.
    pub proof fn lemma_wf(&self)
        requires
            self.wf(),
        ensures
            self.author_key().bytes@ == ed25519_public_key(self.seed()),
    {
    }

    /// Construct from a 32-byte Ed25519 secret seed.
    pub fn from_secret_bytes(b: [u8; 32]) -> (r: Self)
        ensures
            r.seed() == b@,
            r.author_key().bytes@ == ed25519_public_key(b@),
            r.wf(),
    {
        let author = AuthorPubkey::from_bytes(ed25519_public(&b));
        AuthorKeypair { secret: b, author }
    }

    /// A fresh keypair from the operating system's secure generator.
    pub fn generate() -> (r: Self)
        ensures
            r.wf(),
    {
        Self::from_secret_bytes(random_seed())
    }

    /// Deterministic keypair for tests: the seed's first eight bytes
    /// are `seed` big-endian, the rest zero.
    pub fn deterministic(seed: u64) -> (r: Self)
        ensures
            r.seed() == deterministic_seed(seed),
            r.wf(),
    {
        Self::from_secret_bytes(deterministic_bytes(seed))
    }

    /// Sign an event's body hash: the signature covers the 32 raw bytes
    /// of the hash, not the body itself.
    pub fn sign_body_hash(&self, body_hash: EventHash) -> (r: [u8; 64])
        ensures
            r@ == ed25519_signature(self.seed(), body_hash.bytes@),
    {
        ed25519_sign(&self.secret, &body_hash.bytes)
    }

    /// Sign an arbitrary message under the author key.
    pub fn sign(&self, message: &[u8]) -> (r: [u8; 64])
        ensures
            r@ == ed25519_signature(self.seed(), message@),
    {
        ed25519_sign(&self.secret, message)
    }
}

/// Human-readable part of a bech32m-encoded author key name.
pub const HRP_AUTHOR_PK: &'static str = "wuser";

/// Failures of the identity store and of author key names.
#[derive(Debug, Clone, PartialEq, Eq)]
pub enum IdentityError {
    /// A filesystem read or write failed.
    Io {
        /// Path the operation targeted.
        path: String,
        /// Description of the underlying error.
        reason: String,
    },
    /// A bech32m-encoded name failed to decode.
    Bech32Decode {
        /// The string that failed to decode.
        input: String,
    },
    /// A bech32m name decoded but carried the wrong human-readable part.
    HrpMismatch {
        /// The string that decoded.
        input: String,
        /// The human-readable part this context requires.
        expected: &'static str,
        /// The human-readable part present in `input`.
        actual: String,
    },
    /// A secret (or a decoded key) was not exactly 32 bytes.
    SeedLengthMismatch {
        /// Where the bytes came from.
        path: String,
        /// Their actual length.
        actual: usize,
    },
    /// The key named by a file does not match the key derived from its
    /// secret.
    AuthorPubkeyMismatch {
        /// Path of the offending file.
        path: String,
        /// Key embedded in the filename.
        requested: String,
        /// Key derived from the file's secret.
        actual: String,
    },
    /// A secret file or directory has looser permissions than allowed.
    InsecurePermissions {
        /// Path of the offending file.
        path: String,
        /// Permission bits observed.
        mode: u32,
        /// Maximum permission bits accepted.
        expected: u32,
    },
    /// A file in the authors directory is not named `<key>.key`.
    InvalidAuthorFilename(String),
    /// The identity directory did not exist and could not be created.
    DirCreate {
        /// Directory that could not be created.
        path: String,
        /// Description of the underlying error.
        reason: String,
    },
}

/// The bech32m name of an author key.
pub fn encode_author_pubkey(pk: AuthorPubkey) -> (r: String)
    ensures
        r@ == bech32m_encoding(HRP_AUTHOR_PK@, pk.bytes@),
        r@.subrange(0, 6) == "wuser1"@,
        bech32_decoding(r@) == Some((HRP_AUTHOR_PK@, pk.bytes@)),
{
    proof {
        reveal_strlit("wuser");
        reveal_strlit("wuser1");
        assert(crate::crypto::lowercase_hrp(HRP_AUTHOR_PK@));
        assert(HRP_AUTHOR_PK@.push('1') =~= "wuser1"@);
    }
    bech32m_encode(HRP_AUTHOR_PK, &pk.bytes)
}

/// Decode a `wuser1...` bech32m name back into an author key.
pub fn decode_author_pubkey(s: &str) -> (r: Result<AuthorPubkey, IdentityError>)
    ensures
        match bech32_decoding(s@) {
            None => r matches Err(IdentityError::Bech32Decode { input }) && input@ == s@,
            Some((hrp, data)) => if hrp != HRP_AUTHOR_PK@ {
                r matches Err(IdentityError::HrpMismatch { input, expected, actual })
                    && input@ == s@ && expected@ == HRP_AUTHOR_PK@ && actual@ == hrp
            } else if data.len() != 32 {
                r matches Err(IdentityError::SeedLengthMismatch { path, actual }) && path@ == s@
                    && actual == data.len()
            } else {
                r matches Ok(pk) && pk.bytes@ == data
            },
        },
{
    match bech32_decode(s) {
        None => Err(IdentityError::Bech32Decode { input: s.to_owned() }),
        Some((hrp, data)) => {
            let expected = HRP_AUTHOR_PK.to_owned();
            if hrp != expected {
                return Err(
                    IdentityError::HrpMismatch {
                        input: s.to_owned(),
                        expected: HRP_AUTHOR_PK,
                        actual: hrp,
                    },
                );
            }
            if data.len() != 32 {
                return Err(
                    IdentityError::SeedLengthMismatch { path: s.to_owned(), actual: data.len() },
                );
            }
            let bytes = crate::bytes::read_array32(data.as_slice(), 0);
            proof {
                assert(data@.subrange(0, 32) =~= data@);
            }
            Ok(AuthorPubkey::from_bytes(bytes))
        },
    }
}

} // verus!
