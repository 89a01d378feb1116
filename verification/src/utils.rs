use vstd::prelude::*;

verus! {

/// Golomb-Rice remainder width, as in BIP-158.
pub const P: u8 = 19;

/// Hash-space scale factor: the false-positive rate of a filter is 1 / M.
pub const M: u64 = 784931;

/// The little-endian value of eight bytes starting at `i`.
pub open spec fn spec_u64_le_at(s: Seq<u8>, i: int) -> u64
    recommends
        0 <= i,
        i + 8 <= s.len(),
{
    vstd::bytes::spec_u64_from_le_bytes(s.subrange(i, i + 8))
}

/// Interpret an 8-byte slice as a little-endian 64-bit integer.
pub fn slice_to_u64_le(slice: &[u8]) -> (r: u64)
    requires
        slice@.len() == 8,
    ensures
        r == spec_u64_le_at(slice@, 0),
{
    proof {
        assert(slice@.subrange(0, 8) =~= slice@);
    }
    vstd::bytes::u64_from_le_bytes(slice)
}

/// The first filter key carried by a block identifier: its first eight bytes,
/// little endian.
pub open spec fn spec_key0(id: Seq<u8>) -> u64
    recommends
        id.len() >= 16,
{
    spec_u64_le_at(id, 0)
}

/// The second filter key carried by a block identifier: its last eight
/// bytes, little endian.
pub open spec fn spec_key1(id: Seq<u8>) -> u64
    recommends
        id.len() >= 16,
{
    spec_u64_le_at(id, id.len() - 8)
}

/// Derive the `(k0, k1)` sip-hash keys of a block filter from the block's
/// identifying hash: its first and its last eight bytes.
pub fn keys_from_block_id(id: &[u8]) -> (r: (u64, u64))
    requires
        id@.len() >= 16,
    ensures
        r.0 == spec_key0(id@),
        r.1 == spec_key1(id@),
{
    let k0 = u64_le_at(id, 0);
    let n = id.len();
    let k1 = u64_le_at(id, n - 8);
    (k0, k1)
}

/// The little-endian 64-bit integer held at byte offset `i` of `s`.
fn u64_le_at(s: &[u8], i: usize) -> (r: u64)
    requires
        i + 8 <= s@.len(),
    ensures
        r == spec_u64_le_at(s@, i as int),
{
    let n = s.len();
    proof {
        assert(i + 8 <= n);
    }
    let sub = vstd::slice::slice_subrange(s, i, i + 8);
    vstd::bytes::u64_from_le_bytes(sub)
}

} // verus!
