use vstd::prelude::*;

verus! {

/// The keyed 64-bit hash of a byte string under keys `(k0, k1)`: the value
/// that the sip-hash call below returns, a function of its arguments alone.
pub uninterp spec fn siphash_of(k0: u64, k1: u64, data: Seq<u8>) -> u64;

/// Relies on `bitcoin::hashes::siphash24::Hash::hash_to_u64_with_keys`: the
/// SipHash-2-4 of the bytes under the two keys, deterministic in the keys and
/// the bytes alone.
#[verifier::external_body]
pub(crate) fn siphash(k0: u64, k1: u64, data: &[u8]) -> (r: u64)
    ensures
        r == siphash_of(k0, k1, data@),
{
    bitcoin::hashes::siphash24::Hash::hash_to_u64_with_keys(k0, k1, data)
}

/// Multiply-shift range reduction: the high 64 bits of the 128-bit product
/// `h * nm`, an unbiased map of a 64-bit hash into `[0, nm)`.
pub open spec fn spec_reduce(h: u64, nm: u64) -> u64 {
    (((h as int) * (nm as int)) / 0x10000000000000000) as u64
}

/// The reduced value lands inside the hash domain `[0, nm)`.
pub proof fn lemma_reduce_bound(h: u64, nm: u64)
    requires
        nm > 0,
    ensures
        spec_reduce(h, nm) < nm,
{
    let prod = (h as int) * (nm as int);
    assert(prod >= 0) by {
        vstd::arithmetic::mul::lemma_mul_nonnegative(h as int, nm as int);
    };
    assert(prod < 0x10000000000000000 * (nm as int)) by (nonlinear_arith)
        requires
            h < 0x10000000000000000,
            nm > 0,
            prod == (h as int) * (nm as int),
    ;
    vstd::arithmetic::div_mod::lemma_multiply_divide_lt(prod, 0x10000000000000000, nm as int);
    vstd::arithmetic::div_mod::lemma_div_pos_is_pos(prod, 0x10000000000000000);
}

/// Reduce a hash into `[0, nm)` by taking the high half of the widening
/// product.
pub fn reduce(h: u64, nm: u64) -> (r: u64)
    ensures
        r == spec_reduce(h, nm),
        nm > 0 ==> r < nm,
{
    proof {
        assert((h as int) * (nm as int) <= u128::MAX) by (nonlinear_arith)
            requires
                h <= u64::MAX,
                nm <= u64::MAX,
        ;
        if nm > 0 {
            lemma_reduce_bound(h, nm);
        } else {
            assert((h as int) * 0 == 0) by (nonlinear_arith);
        }
    }
    let wide = (h as u128) * (nm as u128);
    let r = (wide >> 64u128) as u64;
    proof {
        vstd::bits::lemma_u128_shr_is_div(wide, 64);
        assert(vstd::arithmetic::power2::pow2(64) == 0x10000000000000000) by {
            vstd::arithmetic::power2::lemma2_to64();
        };
    }
    r
}

/// The hashed form of an element in a filter whose domain is `[0, nm)`.
pub open spec fn spec_hashed(e: Seq<u8>, k0: u64, k1: u64, nm: u64) -> u64 {
    spec_reduce(siphash_of(k0, k1, e), nm)
}

/// Hash an element with the filter keys and reduce it into the filter's
/// domain.
pub fn hash_element(e: &[u8], k0: u64, k1: u64, nm: u64) -> (r: u64)
    ensures
        r == spec_hashed(e@, k0, k1, nm),
        nm > 0 ==> r < nm,
{
    let h = siphash(k0, k1, e);
    reduce(h, nm)
}

} // verus!
