//! Bundle installation checks that do not need the manifest schema:
//! the kernel ABI major and the hex-encoded author key.
use vstd::prelude::*;

use vstd::string::StrSliceExecFns;

use crate::crypto::{hex_decode, hex_decoding};
use crate::ids::BlobHash;

verus! {

/// The kernel ABI major this runtime implements.
pub const KERNEL_MAJOR_V1: u32 = 1;

/// Why a bundle failed to install.
#[derive(Debug, Clone, PartialEq, Eq)]
pub enum InstallError {
    /// Reading the bundle failed.
    Io(String),
    /// The manifest bytes did not decode.
    Decode(String),
    /// The manifest did not parse.
    Parse(String),
    /// The manifest has no signature section.
    MissingSignature,
    /// The manifest targets another kernel ABI major.
    IncompatibleKernelMajor(u32),
    /// The manifest signature does not verify.
    Signature(String),
    /// The author key is not `0x` followed by 64 hex digits.
    AuthorPubkeyDecode,
    /// The state-apply component is not declared.
    ComponentMissing,
    /// A blob-addressed bundle must be fetched before it is loaded.
    IrohBlobNotMaterialized,
}

/// Accept only manifests built for this kernel's ABI major.
pub fn check_kernel_major(kernel_major: u32) -> (r: Result<(), InstallError>)
    ensures
        kernel_major == KERNEL_MAJOR_V1 ==> r is Ok,
        kernel_major != KERNEL_MAJOR_V1 ==> r == Err::<(), InstallError>(
            InstallError::IncompatibleKernelMajor(kernel_major),
        ),
{
    if kernel_major != KERNEL_MAJOR_V1 {
        Err(InstallError::IncompatibleKernelMajor(kernel_major))
    } else {
        Ok(())
    }
}

/// The key an author-key field denotes: the field must be `0x`
/// followed by hex digits that decode to exactly 32 bytes.
pub open spec fn author_key_of(s: Seq<char>) -> Option<Seq<u8>> {
    if s.len() >= 2 && s[0] == '0' && s[1] == 'x' {
        match hex_decoding(s.subrange(2, s.len() as int)) {
            Some(b) => if b.len() == 32 {
                Some(b)
            } else {
                None
            },
            None => None,
        }
    } else {
        None
    }
}

/// Decode an author-key field of a manifest.
pub fn decode_author_pubkey_hex(s: &str) -> (r: Result<[u8; 32], InstallError>)
    ensures
        match author_key_of(s@) {
            Some(b) => r matches Ok(k) && k@ == b,
            None => r == Err::<[u8; 32], InstallError>(InstallError::AuthorPubkeyDecode),
        },
{
    let n = s.unicode_len();
    if n < 2 {
        return Err(InstallError::AuthorPubkeyDecode);
    }
    if s.get_char(0) != '0' || s.get_char(1) != 'x' {
        return Err(InstallError::AuthorPubkeyDecode);
    }
    let stripped = s.substring_char(2, n);
    match hex_decode(stripped) {
        None => Err(InstallError::AuthorPubkeyDecode),
        Some(bytes) => {
            if bytes.len() != 32 {
                return Err(InstallError::AuthorPubkeyDecode);
            }
            let k = crate::bytes::read_array32(bytes.as_slice(), 0);
            assert(bytes@.subrange(0, 32) =~= bytes@);
            Ok(k)
        },
    }
}

/// Where a bundle is: a manifest in a directory on disk, or a blob not
/// yet fetched.
#[derive(Debug, Clone, PartialEq, Eq)]
pub enum BundleAddress {
    /// A bundle directory and the manifest's path within it.
    Disk {
        /// The bundle directory.
        bundle_dir: String,
        /// The manifest's path relative to the directory.
        manifest_path: String,
    },
    /// A content-addressed blob, to be fetched before it is installed.
    IrohBlob {
        /// The blob's hash.
        hash: BlobHash,
    },
}

/// The directory and manifest path of a bundle on disk; a blob must be
/// materialized first.
pub fn disk_location(addr: &BundleAddress) -> (r: Result<(String, String), InstallError>)
    ensures
        match addr {
            BundleAddress::Disk { bundle_dir, manifest_path } => r matches Ok((d, m)) && d@ == bundle_dir@ && m@
                == manifest_path@,
            BundleAddress::IrohBlob { .. } => r == Err::<(String, String), InstallError>(
                InstallError::IrohBlobNotMaterialized,
            ),
        },
{
    match addr {
        BundleAddress::Disk { bundle_dir, manifest_path } => Ok((bundle_dir.clone(), manifest_path.clone())),
        BundleAddress::IrohBlob { .. } => Err(InstallError::IrohBlobNotMaterialized),
    }
}

/// The checks made on a decoded manifest before its component files are
/// read, in the order they are made: the kernel ABI major first (so that
/// a manifest for another major never reaches the signature check), then
/// the presence of a signature, then of the state-apply component. The
/// author-key field is decoded after the components are read (see
/// [`decode_author_pubkey_hex`]).
pub fn manifest_gates(kernel_major: u32, has_signature: bool, has_state_apply: bool) -> (r: Result<(), InstallError>)
    ensures
        kernel_major != KERNEL_MAJOR_V1 ==> r == Err::<(), InstallError>(
            InstallError::IncompatibleKernelMajor(kernel_major),
        ),
        kernel_major == KERNEL_MAJOR_V1 && !has_signature ==> r == Err::<(), InstallError>(
            InstallError::MissingSignature,
        ),
        kernel_major == KERNEL_MAJOR_V1 && has_signature && !has_state_apply ==> r == Err::<(), InstallError>(
            InstallError::ComponentMissing,
        ),
        kernel_major == KERNEL_MAJOR_V1 && has_signature && has_state_apply ==> r is Ok,
{
    check_kernel_major(kernel_major)?;
    if !has_signature {
        return Err(InstallError::MissingSignature);
    }
    if !has_state_apply {
        return Err(InstallError::ComponentMissing);
    }
    Ok(())
}

} // verus!
