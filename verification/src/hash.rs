//! The hash backend.
//!
//! Merkle nodes and leaves are digests of byte strings.  The digest itself is
//! opaque: [`digest_of`] names the 32-byte output of blake3 on a given input,
//! and every contract above it speaks of that name.

use vstd::prelude::*;

verus! {

/// The digest of `bytes` under blake3: a pure function of the input bytes,
/// 32 bytes long.
pub uninterp spec fn digest_of(bytes: Seq<u8>) -> Seq<u8>;

/// Relies on `blake3::hash`: a pure function of the input bytes whose output
/// is `blake3::OUT_LEN == 32` bytes, named by [`digest_of`].
#[verifier::external_body]
pub fn hash_bytes(data: &Vec<u8>) -> (r: Vec<u8>)
    ensures
        r@ == digest_of(data@),
        r@.len() == 32,
{
    blake3::hash(data.as_slice()).as_bytes().to_vec()
}

/// Byte-string equality.
pub fn bytes_eq(a: &Vec<u8>, b: &Vec<u8>) -> (r: bool)
    ensures
        r == (a@ == b@),
{
    if a.len() != b.len() {
        proof {
            assert(a@.len() != b@.len());
        }
        return false;
    }
    let n = a.len();
    let mut i: usize = 0;
    while i < n
        invariant
            i <= n,
            a@.len() == n,
            b@.len() == n,
            forall|j: int| 0 <= j < i ==> a@[j] == b@[j],
        decreases n - i,
    {
        if a[i] != b[i] {
            return false;
        }
        i = i + 1;
    }
    proof {
        assert(a@ =~= b@);
    }
    true
}

} // verus!
