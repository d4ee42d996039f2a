//! Derivation of the torrent's identifying hashes: the SHA-1 info hash
//! over the raw byte span of the `info` dictionary, and the per-piece
//! hashes split out of the piece table.

use sha1::Digest;
use vstd::prelude::*;

verus! {

broadcast use vstd::std_specs::vec::group_vec_axioms, vstd::seq::group_seq_axioms;

/// The SHA-1 digest of a byte sequence. Its twenty bytes depend on the
/// input alone; nothing further is assumed of them.
pub uninterp spec fn sha1_of(data: Seq<u8>) -> Seq<u8>;

/// Relies on sha1::Sha1::digest: the 20-byte SHA-1 digest of the input,
/// a function of the input bytes alone.
#[verifier::external_body]
fn sha1_digest(data: &[u8]) -> (r: [u8; 20])
    ensures
        r@ == sha1_of(data@),
        r@.len() == 20,
{
    let h = sha1::Sha1::digest(data);
    let mut out = [0u8; 20];
    out.copy_from_slice(&h);
    out
}

/// Why hash derivation failed.
#[derive(Clone, Copy, Debug, PartialEq, Eq, Structural)]
pub enum CryptoError {
    /// The piece table's length is not a multiple of twenty.
    MalformedPieceTable,
}

/// Computes the SHA-1 info hash over the exact original bytes of the
/// `info` dictionary — never over a re-encoded copy, so the digest
/// matches what any peer or tracker derives from the same file.
pub fn compute_info_hash(raw_info: &[u8]) -> (r: [u8; 20])
    ensures
        r@ == sha1_of(raw_info@),
        r@.len() == 20,
{
    sha1_digest(raw_info)
}

/// Splits the piece table into its 20-byte per-piece hashes, in order;
/// fails if and only if the table's length is not a multiple of twenty.
pub fn extract_piecce_hashes(pieces: &[u8]) -> (r: Result<Vec<Vec<u8>>, CryptoError>)
    ensures
        match r {
            Ok(hs) => pieces@.len() % 20 == 0 && hs@.len() == pieces@.len() / 20 && forall|k: int|
                0 <= k < hs@.len() ==> (#[trigger] hs@[k])@ == pieces@.subrange(
                    20 * k,
                    20 * k + 20,
                ),
            Err(e) => e == CryptoError::MalformedPieceTable && pieces@.len() % 20 != 0,
        },
{
    let n = pieces.len();
    if n % 20 != 0 {
        return Err(CryptoError::MalformedPieceTable);
    }
    let count = n / 20;
    let mut hs: Vec<Vec<u8>> = Vec::new();
    let mut k: usize = 0;
    while k < count
        invariant
            n == pieces@.len(),
            n % 20 == 0,
            count == n / 20,
            k <= count,
            hs@.len() == k,
            forall|m: int|
                0 <= m < k ==> (#[trigger] hs@[m])@ == pieces@.subrange(20 * m, 20 * m + 20),
        decreases count - k,
    {
        let chunk = vstd::slice::slice_subrange(pieces, 20 * k, 20 * k + 20);
        let piece = vstd::slice::slice_to_vec(chunk);
        hs.push(piece);
        k = k + 1;
    }
    Ok(hs)
}

} // verus!
