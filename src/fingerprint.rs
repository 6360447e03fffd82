use vstd::prelude::*;

verus! {

/// How many leading bytes of a file the fingerprint covers at most.
pub const SAMPLE_LENGTH: usize = 1024;

/// The lowercase hexadecimal SHA-256 digest of a byte string.
pub uninterp spec fn sha256_hex(bytes: Seq<u8>) -> Seq<char>;

/// Relies on `sha256::digest` over a byte slice, which hex-encodes the 32-byte
/// SHA-256 digest of exactly those bytes.
#[verifier::external_body]
fn digest_bytes(bytes: &[u8]) -> (r: String)
    ensures
        r@ == sha256_hex(bytes@),
        r@.len() == 64,
{
    sha256::digest(bytes)
}

/// Why a fingerprint could not be taken.
#[derive(Clone, Copy, Debug, PartialEq, Eq, Structural)]
pub enum FingerprintError {
    /// Fewer bytes were read from the head of the file than its size calls for.
    ShortRead,
}

/// How many bytes of a file of `file_size` bytes the fingerprint covers.
pub open spec fn sample_len_of(file_size: u64) -> int {
    if file_size < 1024 {
        file_size as int
    } else {
        1024
    }
}

/// `min(file_size, SAMPLE_LENGTH)`.
pub fn sample_length(file_size: u64) -> (r: usize)
    ensures
        r as int == sample_len_of(file_size),
{
    if file_size < SAMPLE_LENGTH as u64 {
        file_size as usize
    } else {
        SAMPLE_LENGTH
    }
}

/// What `fingerprint` gives for the bytes read from the head of a file of
/// `file_size` bytes.
pub open spec fn fingerprint_of(head: Seq<u8>, file_size: u64) -> Result<Seq<char>, FingerprintError> {
    if head.len() < sample_len_of(file_size) {
        Err(FingerprintError::ShortRead)
    } else {
        Ok(sha256_hex(head.take(sample_len_of(file_size))))
    }
}

/// The content fingerprint of a file: the digest of its first
/// `min(file_size, SAMPLE_LENGTH)` bytes. `head` holds the bytes read from the
/// start of the file; bytes past the sample are ignored, and too few of them is
/// an error.
pub fn fingerprint(head: &[u8], file_size: u64) -> (r: Result<String, FingerprintError>)
    ensures
        match (r, fingerprint_of(head@, file_size)) {
            (Ok(s), Ok(t)) => s@ == t,
            (Err(e), Err(f)) => e == f,
            _ => false,
        },
        r is Ok ==> r->Ok_0@.len() == 64,
{
    let n = sample_length(file_size);
    if head.len() < n {
        Err(FingerprintError::ShortRead)
    } else {
        let sample = slice_prefix(head, n);
        Ok(digest_bytes(sample))
    }
}

/// The first `n` bytes of `b`.
fn slice_prefix(b: &[u8], n: usize) -> (r: &[u8])
    requires
        n <= b@.len(),
    ensures
        r@ == b@.take(n as int),
{
    b.split_at(n).0
}

} // verus!
