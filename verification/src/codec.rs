//! The byte encoding of the values that go into an identifier (fixed-width
//! little-endian integers, hashes as their 32 bytes), and the BLAKE2b-256
//! hash that turns such an encoding into an `H256`.

use vstd::prelude::*;
use crate::H256;

verus! {

/// The `n` low bytes of `x`, least significant first.
pub open spec fn le_bytes(x: nat, n: nat) -> Seq<u8>
    decreases n,
{
    if n == 0 {
        Seq::empty()
    } else {
        seq![(x % 256) as u8] + le_bytes(x / 256, (n - 1) as nat)
    }
}

/// The `n` low bytes of `x`, most significant first.
pub open spec fn be_bytes(x: nat, n: nat) -> Seq<u8> {
    le_bytes(x, n).reverse()
}

/// The 32 bytes of a hash, as `H256` holds them.
pub open spec fn hash_bytes(h: H256) -> Seq<u8> {
    be_bytes(h.0 as nat, 16) + be_bytes(h.1 as nat, 16)
}

/// What BLAKE2b with a 32-byte digest gives for `data`, read as an `H256`.
pub uninterp spec fn blake2_256(data: Seq<u8>) -> H256;

/// `blake2b_simd` with a 32-byte digest: the BLAKE2b-256 hash of `data`,
/// its first sixteen bytes (big-endian) as `.0` and the last sixteen as `.1`.
#[verifier::external_body]
pub(crate) fn blake2_256_hash(data: &Vec<u8>) -> (h: H256)
    ensures
        h == blake2_256(data@),
{
    let digest = blake2b_simd::Params::new().hash_length(32).hash(data.as_slice());
    let bytes = digest.as_bytes();
    let hi: [u8; 16] = bytes[0..16].try_into().unwrap();
    let lo: [u8; 16] = bytes[16..32].try_into().unwrap();
    (u128::from_be_bytes(hi), u128::from_be_bytes(lo))
}

/// Appends the `n` low bytes of `x`, least significant first.
pub fn push_le(out: &mut Vec<u8>, x: u128, n: usize)
    requires
        n <= 16,
    ensures
        final(out)@ == old(out)@ + le_bytes(x as nat, n as nat),
{
    let mut rest: u128 = x;
    let mut i: usize = 0;
    while i < n
        invariant
            i <= n,
            old(out)@ + le_bytes(x as nat, n as nat) == out@ + le_bytes(rest as nat, (n - i) as nat),
        decreases n - i,
    {
        let ghost before = out@;
        out.push((rest % 256) as u8);
        proof {
            let k = (n - i) as nat;
            assert(le_bytes(rest as nat, k) == seq![(rest % 256) as u8] + le_bytes(
                (rest / 256) as nat,
                (k - 1) as nat,
            ));
            assert(before + (seq![(rest % 256) as u8] + le_bytes((rest / 256) as nat, (k - 1) as nat))
                =~= out@ + le_bytes((rest / 256) as nat, (k - 1) as nat));
        }
        rest = rest / 256;
        i = i + 1;
    }
    assert(le_bytes(rest as nat, 0) =~= Seq::<u8>::empty());
    assert(out@ + Seq::<u8>::empty() =~= out@);
}

/// Appends the `n` low bytes of `x`, most significant first.
pub fn push_be(out: &mut Vec<u8>, x: u128, n: usize)
    requires
        n <= 16,
    ensures
        final(out)@ == old(out)@ + be_bytes(x as nat, n as nat),
{
    let mut le: Vec<u8> = Vec::new();
    push_le(&mut le, x, n);
    assert(le@ =~= le_bytes(x as nat, n as nat));
    let len = le.len();
    let mut j: usize = len;
    while j > 0
        invariant
            j <= len,
            len == le@.len(),
            out@ == old(out)@ + le@.subrange(j as int, len as int).reverse(),
        decreases j,
    {
        j = j - 1;
        out.push(le[j]);
        assert(le@.subrange(j as int, len as int).reverse() =~= le@.subrange(
            (j + 1) as int,
            len as int,
        ).reverse().push(le@[j as int]));
    }
    assert(le@.subrange(0, len as int) =~= le@);
}

/// Appends the 32 bytes of a hash.
pub fn push_hash(out: &mut Vec<u8>, h: H256)
    ensures
        final(out)@ == old(out)@ + hash_bytes(h),
{
    push_be(out, h.0, 16);
    push_be(out, h.1, 16);
    assert(old(out)@ + be_bytes(h.0 as nat, 16) + be_bytes(h.1 as nat, 16) =~= old(out)@
        + hash_bytes(h));
}

} // verus!
