//! The on-disk layout of the identity store and the checks made on what
//! is read back: where each key lives, the permission bits a secret may
//! have, the shape of a secret file and of an author key filename.
//!
//! Paths are strings; joining follows the platform rule for a relative
//! component: appended after a `/` unless the base is empty or already
//! ends in one.
use vstd::prelude::*;
use vstd::string::{StringExecFns, StrSliceExecFns};

use crate::identity::{
    decode_author_pubkey, encode_author_pubkey, AuthorKeypair, IdentityError, HRP_AUTHOR_PK,
};
use crate::crypto::{bech32_decoding, bech32m_encoding};
use crate::bytes::{bytes32_lt, lemma_lex_lt_irreflexive, lemma_lex_lt_total, lemma_lex_lt_transitive, lex_lt};
use crate::ids::{id_eq, AuthorPubkey};

verus! {

/// `base` joined with the relative component `name`.
pub open spec fn join(base: Seq<char>, name: Seq<char>) -> Seq<char> {
    if base.len() == 0 {
        name
    } else if base.last() == '/' {
        base + name
    } else {
        base + seq!['/'] + name
    }
}

fn join_path(base: &str, name: &str) -> (r: String)
    ensures
        r@ == join(base@, name@),
{
    let n = base.unicode_len();
    if n == 0 {
        return name.to_owned();
    }
    let mut out = base.to_owned();
    if base.get_char(n - 1) != '/' {
        out.append("/");
        proof {
            reveal_strlit("/");
        }
    }
    out.append(name);
    assert(out@ =~= join(base@, name@));
    out
}

/// The directory of author keys under `dir`.
pub open spec fn authors_dir_of(dir: Seq<char>) -> Seq<char> {
    join(dir, "authors"@)
}

/// The file name of an author key: its bech32m name and `.key`.
pub open spec fn author_file_name(pk: AuthorPubkey) -> Seq<char> {
    bech32m_encoding(HRP_AUTHOR_PK@, pk.bytes@) + ".key"@
}

/// An identity directory: one peer key and a directory of author keys.
#[derive(Clone, Debug, PartialEq, Eq)]
pub struct FilesystemIdentityStore {
    dir: String,
}

impl FilesystemIdentityStore {
    /// The identity directory.
    pub closed spec fn root(&self) -> Seq<char> {
        self.dir@
    }

    /// A store rooted at `dir` (the directory is not touched).
    pub fn at(dir: String) -> (r: Self)
        ensures
            r.root() == dir@,
    {
        FilesystemIdentityStore { dir }
    }

    /// The identity directory.
    pub fn dir(&self) -> (r: &str)
        ensures
            r@ == self.root(),
    {
        self.dir.as_str()
    }

    /// `<dir>/authors`.
    pub fn authors_dir(&self) -> (r: String)
        ensures
            r@ == authors_dir_of(self.root()),
    {
        proof {
            reveal_strlit("authors");
        }
        join_path(self.dir.as_str(), "authors")
    }

    /// `<dir>/peer.key`.
    pub fn peer_key_path(&self) -> (r: String)
        ensures
            r@ == join(self.root(), "peer.key"@),
    {
        join_path(self.dir.as_str(), "peer.key")
    }

    /// `<dir>/authors/<bech32m key>.key`.
    pub fn author_key_path(&self, pk: AuthorPubkey) -> (r: String)
        ensures
            r@ == join(authors_dir_of(self.root()), author_file_name(pk)),
    {
        let dir = self.authors_dir();
        let name = author_key_file_name(pk);
        join_path(dir.as_str(), name.as_str())
    }
}

/// The file name under which `pk`'s secret is stored.
pub fn author_key_file_name(pk: AuthorPubkey) -> (r: String)
    ensures
        r@ == author_file_name(pk),
{
    let name = encode_author_pubkey(pk);
    name.concat(".key")
}

/// Permission bits a secret directory may have.
pub const SECRET_DIR_MODE: u32 = 0o700;

/// Permission bits a secret file may have.
pub const SECRET_FILE_MODE: u32 = 0o600;

/// Refuse permission bits `mode` (of the file or directory at `path`)
/// that grant anything beyond `expected_max`. Only the permission bits
/// (`0o777`) are considered.
pub fn check_mode(path: &str, mode: u32, expected_max: u32) -> (r: Result<(), IdentityError>)
    ensures
        (mode & 0o777u32) & !expected_max == 0 ==> r is Ok,
        (mode & 0o777u32) & !expected_max != 0 ==> (r matches Err(
            IdentityError::InsecurePermissions { path: p, mode: m, expected },
        ) && p@ == path@ && m == mode & 0o777u32 && expected == expected_max),
{
    let bits = mode & 0o777;
    if bits & !expected_max != 0 {
        return Err(IdentityError::InsecurePermissions { path: path.to_owned(), mode: bits, expected: expected_max });
    }
    Ok(())
}

/// The 32-byte secret held by a secret file's contents `bytes`; any
/// other length is refused.
pub fn seed_from_file(path: &str, bytes: &[u8]) -> (r: Result<[u8; 32], IdentityError>)
    ensures
        bytes@.len() == 32 ==> (r matches Ok(s) && s@ == bytes@),
        bytes@.len() != 32 ==> (r matches Err(IdentityError::SeedLengthMismatch { path: p, actual })
            && p@ == path@ && actual == bytes@.len()),
{
    if bytes.len() != 32 {
        return Err(IdentityError::SeedLengthMismatch { path: path.to_owned(), actual: bytes.len() });
    }
    let s = crate::bytes::read_array32(bytes, 0);
    assert(bytes@.subrange(0, 32) =~= bytes@);
    Ok(s)
}

/// Accept the keypair loaded from `path` for `requested` only if its
/// key is the requested one.
pub fn check_loaded_author(path: &str, requested: AuthorPubkey, kp: AuthorKeypair) -> (r: Result<
    AuthorKeypair,
    IdentityError,
>)
    ensures
        kp.author_key() == requested ==> r == Ok::<AuthorKeypair, IdentityError>(kp),
        kp.author_key() != requested ==> (r matches Err(
            IdentityError::AuthorPubkeyMismatch { path: p, requested: q, actual: a },
        ) && p@ == path@ && q@ == bech32m_encoding(HRP_AUTHOR_PK@, requested.bytes@) && a@
            == bech32m_encoding(HRP_AUTHOR_PK@, kp.author_key().bytes@)),
{
    let actual = kp.public_key();
    if !id_eq(&actual, &requested) {
        return Err(
            IdentityError::AuthorPubkeyMismatch {
                path: path.to_owned(),
                requested: encode_author_pubkey(requested),
                actual: encode_author_pubkey(actual),
            },
        );
    }
    Ok(kp)
}

/// The author key named by a file in the authors directory: the name
/// must end in `.key`, and what precedes must be an author key name.
pub fn parse_author_file_name(name: &str) -> (r: Result<AuthorPubkey, IdentityError>)
    ensures
        !(name@.len() >= 4 && name@.subrange(name@.len() - 4, name@.len() as int) == ".key"@) ==> (r matches Err(
            IdentityError::InvalidAuthorFilename(n),
        ) && n@ == name@),
        name@.len() >= 4 && name@.subrange(name@.len() - 4, name@.len() as int) == ".key"@ ==> {
            let stem = name@.subrange(0, name@.len() - 4);
            match bech32_decoding(stem) {
                None => r matches Err(IdentityError::Bech32Decode { input }) && input@ == stem,
                Some((hrp, data)) => if hrp != HRP_AUTHOR_PK@ {
                    r matches Err(IdentityError::HrpMismatch { input, expected, actual }) && input@ == stem
                        && expected@ == HRP_AUTHOR_PK@ && actual@ == hrp
                } else if data.len() != 32 {
                    r matches Err(IdentityError::SeedLengthMismatch { path, actual }) && path@ == stem
                        && actual == data.len()
                } else {
                    r matches Ok(pk) && pk.bytes@ == data
                },
            }
        },
{
    proof {
        reveal_strlit(".key");
    }
    let n = name.unicode_len();
    if n < 4 || name.get_char(n - 4) != '.' || name.get_char(n - 3) != 'k' || name.get_char(n - 2) != 'e'
        || name.get_char(n - 1) != 'y' {
        proof {
            if n >= 4 && name@.subrange(n - 4, n as int) == ".key"@ {
                assert(name@.subrange(n - 4, n as int)[0] == name@[n - 4]);
                assert(name@.subrange(n - 4, n as int)[1] == name@[n - 3]);
                assert(name@.subrange(n - 4, n as int)[2] == name@[n - 2]);
                assert(name@.subrange(n - 4, n as int)[3] == name@[n - 1]);
            }
        }
        return Err(IdentityError::InvalidAuthorFilename(name.to_owned()));
    }
    assert(name@.subrange(n - 4, n as int) =~= ".key"@);
    let stem = name.substring_char(0, n - 4);
    decode_author_pubkey(stem)
}

/// Whether `s` is in ascending key order (equal keys side by side).
pub open spec fn ascending(s: Seq<AuthorPubkey>) -> bool {
    forall|i: int, j: int| 0 <= i < j < s.len() ==> !lex_lt(#[trigger] s[j].bytes@, #[trigger] s[i].bytes@)
}

/// `keys` in ascending order; a key given twice is listed twice.
pub fn sorted_authors(keys: &[AuthorPubkey]) -> (r: Vec<AuthorPubkey>)
    ensures
        ascending(r@),
        r@.to_multiset() == keys@.to_multiset(),
{
    broadcast use vstd::seq_lib::group_to_multiset_ensures;

    let mut out: Vec<AuthorPubkey> = Vec::new();
    let mut i: usize = 0;
    while i < keys.len()
        invariant
            i <= keys@.len(),
            ascending(out@),
            out@.to_multiset() == keys@.subrange(0, i as int).to_multiset(),
        decreases keys@.len() - i,
    {
        let x = keys[i];
        let mut p: usize = 0;
        while p < out.len() && !bytes32_lt(&x.bytes, &out[p].bytes)
            invariant
                p <= out@.len(),
                forall|q: int| 0 <= q < p ==> !lex_lt(x.bytes@, #[trigger] out@[q].bytes@),
            decreases out@.len() - p,
        {
            p = p + 1;
        }
        let ghost before = out@;
        out.insert(p, x);
        proof {
            assert(out@ == before.insert(p as int, x));
            vstd::seq_lib::to_multiset_insert(before, p as int, x);
            assert(keys@.subrange(0, i + 1) =~= keys@.subrange(0, i as int).push(x));
            keys@.subrange(0, i as int).to_multiset_ensures();
            assert(keys@.subrange(0, i as int).push(x).to_multiset() =~= keys@.subrange(0, i as int).to_multiset().insert(
                x,
            ));
            assert(out@.to_multiset() == keys@.subrange(0, i + 1).to_multiset());
            assert forall|a: int, b: int| 0 <= a < b < out@.len() implies !lex_lt(
                #[trigger] out@[b].bytes@,
                #[trigger] out@[a].bytes@,
            ) by {
                lemma_ascending_insert(before, p as int, x, a, b);
            }
        }
        i = i + 1;
    }
    assert(keys@.subrange(0, keys@.len() as int) =~= keys@);
    out
}

/// Inserting `x` after every key it does not precede, and before one
/// it precedes, keeps an ascending sequence ascending.
proof fn lemma_ascending_insert(s: Seq<AuthorPubkey>, p: int, x: AuthorPubkey, a: int, b: int)
    requires
        ascending(s),
        0 <= p <= s.len(),
        forall|q: int| 0 <= q < p ==> !lex_lt(x.bytes@, #[trigger] s[q].bytes@),
        p < s.len() ==> lex_lt(x.bytes@, s[p].bytes@),
        0 <= a < b < s.len() + 1,
    ensures
        !lex_lt(s.insert(p, x)[b].bytes@, s.insert(p, x)[a].bytes@),
{
    let t = s.insert(p, x);
    if a == p {
        // t[a] == x, t[b] == s[b - 1] with b - 1 >= p
        let y = s[b - 1];
        if b - 1 == p {
            lemma_lex_lt_total(x.bytes@, y.bytes@);
        } else {
            assert(!lex_lt(s[b - 1].bytes@, s[p].bytes@));
            lemma_lex_lt_total(s[p].bytes@, y.bytes@);
            if lex_lt(y.bytes@, x.bytes@) {
                if s[p].bytes@ == y.bytes@ {
                    lemma_lex_lt_transitive(x.bytes@, y.bytes@, x.bytes@);
                    lemma_lex_lt_irreflexive(x.bytes@);
                } else {
                    lemma_lex_lt_transitive(x.bytes@, s[p].bytes@, y.bytes@);
                    lemma_lex_lt_transitive(x.bytes@, y.bytes@, x.bytes@);
                    lemma_lex_lt_irreflexive(x.bytes@);
                }
            }
        }
    } else if b == p {
        assert(t[a] == s[a]);
        assert(t[b] == x);
    } else {
        let ia = if a < p { a } else { a - 1 };
        let ib = if b < p { b } else { b - 1 };
        assert(t[a] == s[ia]);
        assert(t[b] == s[ib]);
        if a < p && b > p {
            assert(ia < ib);
        }
    }
}

} // verus!
