use vstd::prelude::*;
use vstd::relations::sorted_by;
use crate::bits::{byte_bit, pad_len, stream_bits, zero_bits, BitCursor, BitWriter};
use crate::golomb::{
    fixed_val, golomb_bits, golomb_len, golomb_parse, golomb_rice_decode, golomb_rice_encode,
};
use crate::hashing::{hash_element, spec_hashed};
use crate::sorting::{sort_values, sort_values_spec, value_order};
use crate::utils::{M, P};
use crate::varint::{varint_bytes, varint_decode, varint_encode, varint_parse};

verus! {

/// The hashed form of every element, in element order, for a filter whose
/// domain is `[0, nm)`.
pub open spec fn hashed_values(elems: Seq<Seq<u8>>, k0: u64, k1: u64, nm: u64) -> Seq<u64> {
    elems.map_values(|e: Seq<u8>| spec_hashed(e, k0, k1, nm))
}

/// The bit stream of the Golomb-Rice coded deltas of `values` from index `i`
/// on, `prev` being the value coded before.
pub open spec fn body_bits(values: Seq<u64>, i: int, prev: u64) -> Seq<bool>
    decreases values.len() - i,
{
    if i < 0 || i >= values.len() {
        Seq::empty()
    } else {
        golomb_bits(values[i] - prev, P as int) + body_bits(values, i + 1, values[i])
    }
}

/// The byte spelled by eight bits, most significant first.
pub open spec fn byte_of_bits(b8: Seq<bool>) -> u8 {
    fixed_val(b8, 0, 8) as u8
}

/// Pack a whole number of bytes' worth of bits into bytes.
pub open spec fn bytes_of_bits(bits: Seq<bool>) -> Seq<u8>
    recommends
        bits.len() % 8 == 0,
{
    Seq::new(bits.len() / 8, |i: int| byte_of_bits(bits.subrange(8 * i, 8 * i + 8)))
}

/// The encoded filter: the element count as a variable-length integer, then
/// the sorted hashed values as Golomb-Rice coded deltas, zero-padded to a
/// whole byte.
pub open spec fn build_spec(elems: Seq<Seq<u8>>, k0: u64, k1: u64) -> Seq<u8>
    recommends
        elems.len() * M <= u64::MAX,
{
    let n = elems.len();
    let nm = (n * M) as u64;
    let sorted = sort_values_spec(hashed_values(elems, k0, k1, nm));
    let body = body_bits(sorted, 0, 0);
    varint_bytes(n as u64) + bytes_of_bits(body + zero_bits(pad_len(body.len() as int)))
}

/// Decode `count` delta-coded values starting at bit `pos`, the previous
/// value being `prev`: the absolute values.  `None` when the stream ends
/// early or a value leaves the 64-bit domain.
pub open spec fn parse_values(bits: Seq<bool>, pos: int, count: int, prev: u64) -> Option<Seq<u64>>
    decreases count,
{
    if count <= 0 {
        Some(Seq::empty())
    } else {
        match golomb_parse(bits, pos, P as int) {
            None => None,
            Some(de) => {
                let v = prev + de.0;
                if v > u64::MAX {
                    None
                } else {
                    match parse_values(bits, de.1, count - 1, v as u64) {
                        None => None,
                        Some(t) => Some(seq![v as u64] + t),
                    }
                }
            },
        }
    }
}

/// Parse a whole filter: the element count and the decoded sorted values.
/// `None` when the buffer is corrupt.
pub open spec fn filter_parse(content: Seq<u8>) -> Option<(u64, Seq<u64>)> {
    match varint_parse(content) {
        None => None,
        Some(nk) => if nk.0 * M > u64::MAX {
            None
        } else {
            match parse_values(stream_bits(content), nk.1 * 8, nk.0 as int, 0) {
                None => None,
                Some(vs) => Some((nk.0, vs)),
            }
        },
    }
}

/// A byte's bits, as the stream reads them, spell the byte back.
proof fn lemma_byte_bit_as_div(b: u8, i: int)
    requires
        0 <= i < 8,
    ensures
        byte_bit(b, i) == ((b as int / vstd::arithmetic::power2::pow2((7 - i) as nat) as int) % 2
            == 1),
{
    vstd::bits::lemma_u8_shr_is_div(b, (7 - i) as u8);
    vstd::bits::lemma_u8_low_bits_mask_is_mod(b >> ((7 - i) as u8), 1);
    assert(vstd::bits::low_bits_mask(1) == 1) by {
        vstd::arithmetic::power2::lemma2_to64();
    };
    assert(vstd::arithmetic::power2::pow2(1) == 2) by {
        vstd::arithmetic::power2::lemma2_to64();
    };
}

/// A value below `2^w` is spelled by exactly the bits that `fixed_val` reads
/// back.
proof fn lemma_fixed_bits_of_val(bits: Seq<bool>, i: int, w: int)
    requires
        0 <= w,
        0 <= i,
        i + w <= bits.len(),
    ensures
        0 <= fixed_val(bits, i, w) < vstd::arithmetic::power2::pow2(w as nat),
        forall|k: int|
            0 <= k < w ==> crate::golomb::fixed_bits(fixed_val(bits, i, w), w)[k] == bits[i + k],
    decreases w,
{
    vstd::arithmetic::power2::lemma_pow2_pos(w as nat);
    crate::golomb::lemma_fixed_bits_len(fixed_val(bits, i, w), w);
    if w == 0 {
        assert(vstd::arithmetic::power2::pow2(0) == 1) by {
            vstd::arithmetic::power2::lemma2_to64();
        };
    } else {
        lemma_fixed_bits_of_val(bits, i, w - 1);
        let v = fixed_val(bits, i, w);
        let v1 = fixed_val(bits, i, w - 1);
        assert(v == 2 * v1 + (if bits[i + w - 1] {
            1int
        } else {
            0int
        }));
        assert(vstd::arithmetic::power2::pow2(w as nat) == 2 * vstd::arithmetic::power2::pow2(
            (w - 1) as nat,
        )) by {
            vstd::arithmetic::power2::lemma_pow2_unfold(w as nat);
        };
        assert(v / 2 == v1 && v % 2 == (if bits[i + w - 1] {
            1int
        } else {
            0int
        })) by {
            vstd::arithmetic::div_mod::lemma_fundamental_div_mod_converse(
                v,
                2,
                v1,
                if bits[i + w - 1] {
                    1int
                } else {
                    0int
                },
            );
        };
        crate::golomb::lemma_fixed_bits_len(v1, w - 1);
        assert forall|k: int| 0 <= k < w implies crate::golomb::fixed_bits(v, w)[k] == bits[i + k]
            by {
            assert(crate::golomb::fixed_bits(v, w) == crate::golomb::fixed_bits(v / 2, w - 1).push(
                v % 2 == 1,
            ));
            if k < w - 1 {
                assert(crate::golomb::fixed_bits(v1, w - 1)[k] == bits[i + k]);
            }
        }
    }
}

/// Packing bits into bytes and streaming them out again gives the bits back.
proof fn lemma_bytes_of_bits_roundtrip(bits: Seq<bool>)
    requires
        bits.len() % 8 == 0,
    ensures
        bytes_of_bits(bits).len() * 8 == bits.len(),
        stream_bits(bytes_of_bits(bits)) =~= bits,
{
    let bytes = bytes_of_bits(bits);
    assert(bytes.len() * 8 == bits.len()) by {
        vstd::arithmetic::div_mod::lemma_fundamental_div_mod(bits.len() as int, 8);
    };
    assert forall|i: int| 0 <= i < bits.len() implies stream_bits(bytes)[i] == bits[i] by {
        vstd::arithmetic::div_mod::lemma_fundamental_div_mod(i, 8);
        vstd::arithmetic::div_mod::lemma_mod_bound(i, 8);
        let bi = i / 8;
        let off = i % 8;
        assert(0 <= bi < bytes.len()) by {
            vstd::arithmetic::div_mod::lemma_div_pos_is_pos(i, 8);
            vstd::arithmetic::div_mod::lemma_multiply_divide_lt(i, 8, bytes.len() as int);
        };
        let sub = bits.subrange(8 * bi, 8 * bi + 8);
        assert(bytes[bi] == byte_of_bits(sub));
        lemma_fixed_bits_of_val(sub, 0, 8);
        let v = fixed_val(sub, 0, 8);
        assert(vstd::arithmetic::power2::pow2(8) == 256) by {
            vstd::arithmetic::power2::lemma2_to64();
        };
        assert((v as u8) as int == v);
        assert(byte_bit(v as u8, off) == ((v / vstd::arithmetic::power2::pow2((7 - off) as nat)
            as int) % 2 == 1)) by {
            lemma_byte_bit_as_div(v as u8, off);
        };
        assert(crate::golomb::fixed_bits(v, 8)[off] == ((v / vstd::arithmetic::power2::pow2(
            (7 - off) as nat,
        ) as int) % 2 == 1)) by {
            crate::golomb::lemma_fixed_bits_index(v, 8, off);
        };
        assert(crate::golomb::fixed_bits(v, 8)[off] == sub[off]);
        assert(sub[off] == bits[i]);
    }
}

/// Two byte buffers carrying the same bit stream are the same bytes.
proof fn lemma_stream_bits_injective(a: Seq<u8>, b: Seq<u8>)
    requires
        a.len() == b.len(),
        stream_bits(a) =~= stream_bits(b),
    ensures
        a =~= b,
{
    assert forall|i: int| 0 <= i < a.len() implies a[i] == b[i] by {
        assert forall|k: int| 0 <= k < 8 implies byte_bit(a[i], k) == byte_bit(b[i], k) by {
            assert(stream_bits(a)[8 * i + k] == stream_bits(b)[8 * i + k]);
            crate::bits::lemma_div_mod_8(i, k);
        }
        crate::bits::lemma_byte_bits_determine(a[i], b[i]);
    }
}

/// Padding brings a bit count up to a whole number of bytes.
proof fn lemma_padded_multiple(n: int)
    requires
        0 <= n,
    ensures
        (n + pad_len(n)) % 8 == 0,
        0 <= pad_len(n) < 8,
{
    vstd::arithmetic::div_mod::lemma_fundamental_div_mod(n, 8);
    vstd::arithmetic::div_mod::lemma_mod_bound(n, 8);
    if n % 8 != 0 {
        crate::bits::lemma_div_mod_8(n / 8 + 1, 0);
        vstd::arithmetic::div_mod::lemma_div_pos_is_pos(n, 8);
    }
}

/// The body of a filter, embedded in a larger stream, parses back to the
/// values it was coded from.
pub proof fn lemma_body_parse(bits: Seq<bool>, pos: int, values: Seq<u64>, i: int, prev: u64)
    requires
        0 <= i <= values.len(),
        0 <= pos,
        sorted_by(values, value_order()),
        i < values.len() ==> prev <= values[i],
        forall|k: int|
            0 <= k < body_bits(values, i, prev).len() ==> bits[pos + k] == body_bits(
                values,
                i,
                prev,
            )[k],
        pos + body_bits(values, i, prev).len() <= bits.len(),
    ensures
        parse_values(bits, pos, values.len() - i, prev) == Some(values.skip(i)),
    decreases values.len() - i,
{
    if i == values.len() {
        assert(values.skip(i) =~= Seq::<u64>::empty());
    } else {
        let d = values[i] - prev;
        let code = golomb_bits(d, P as int);
        let ln = golomb_len(d, P as int);
        let body = body_bits(values, i, prev);
        let rest = body_bits(values, i + 1, values[i]);
        assert(body == code + rest);
        assert(d >= 0);
        assert(d / vstd::arithmetic::power2::pow2(P as nat) as int >= 0) by {
            vstd::arithmetic::power2::lemma_pow2_pos(P as nat);
            vstd::arithmetic::div_mod::lemma_div_pos_is_pos(
                d,
                vstd::arithmetic::power2::pow2(P as nat) as int,
            );
        };
        assert(code.len() == ln) by {
            crate::golomb::lemma_fixed_bits_len(
                d % vstd::arithmetic::power2::pow2(P as nat) as int,
                P as int,
            );
        };
        assert(ln >= 1 + P);
        assert forall|k: int| 0 <= k < ln implies bits[pos + k] == code[k] by {
            assert(body[k] == (code + rest)[k]);
        }
        crate::golomb::lemma_golomb_parse_of_code(bits, pos, d, P as int);
        assert(golomb_parse(bits, pos, P as int) == Some((d, pos + ln)));
        assert(prev + d == values[i]);
        assert forall|k: int| 0 <= k < rest.len() implies bits[pos + ln + k] == rest[k] by {
            assert(body[ln + k] == (code + rest)[ln + k]);
        }
        assert(i + 1 < values.len() ==> values[i] <= values[i + 1]) by {
            if i + 1 < values.len() {
                assert(value_order()(values[i], values[i + 1]));
            }
        };
        lemma_body_parse(bits, pos + ln, values, i + 1, values[i]);
        assert(values.skip(i) =~= seq![values[i]] + values.skip(i + 1));
    }
}

/// What a freshly built filter parses back to: its element count and the
/// sorted hashed values it was built from.
pub proof fn lemma_build_parse(elems: Seq<Seq<u8>>, k0: u64, k1: u64)
    requires
        elems.len() * M <= u64::MAX,
    ensures
        filter_parse(build_spec(elems, k0, k1)) == Some(
            (
                elems.len() as u64,
                sort_values_spec(hashed_values(elems, k0, k1, (elems.len() * M) as u64)),
            ),
        ),
{
    broadcast use vstd::seq_lib::group_to_multiset_ensures;

    let n = elems.len();
    let nm = (n * M) as u64;
    let hv = hashed_values(elems, k0, k1, nm);
    let sorted = sort_values_spec(hv);
    crate::sorting::lemma_value_order_total();
    hv.lemma_sort_by_ensures(value_order());
    assert(sorted.len() == n) by {
        assert(hv.to_multiset().len() == hv.len());
        assert(sorted.to_multiset().len() == sorted.len());
    };
    let body = body_bits(sorted, 0, 0);
    lemma_body_len_nonneg(sorted, 0, 0);
    lemma_padded_multiple(body.len() as int);
    let padded = body + zero_bits(pad_len(body.len() as int));
    assert(padded.len() % 8 == 0);
    let bbytes = bytes_of_bits(padded);
    lemma_bytes_of_bits_roundtrip(padded);
    let vb = varint_bytes(n as u64);
    let content = vb + bbytes;
    assert(content == build_spec(elems, k0, k1));
    crate::varint::lemma_varint_roundtrip(n as u64, bbytes);
    assert(varint_parse(content) matches Some(nk) && nk.0 == n as u64 && nk.1 == vb.len());
    crate::bits::lemma_stream_bits_concat(vb, bbytes);
    let bits = stream_bits(content);
    assert forall|k: int| 0 <= k < body.len() implies bits[vb.len() as int * 8 + k] == body[k] by {
        assert(bits[vb.len() as int * 8 + k] == (stream_bits(vb) + stream_bits(bbytes))[vb.len() as int * 8
            + k]);
        assert(stream_bits(bbytes)[k] == padded[k]);
    }
    lemma_body_parse(bits, vb.len() as int * 8, sorted, 0, 0);
    assert(sorted.skip(0) =~= sorted);
    assert(parse_values(bits, vb.len() as int * 8, n as int, 0) == Some(sorted));
}

/// A coded body is never a negative number of bits.
proof fn lemma_body_len_nonneg(values: Seq<u64>, i: int, prev: u64)
    ensures
        body_bits(values, i, prev).len() >= 0,
{
}

/// Accumulates the byte elements of one filter and encodes them.
pub struct GcsFilterWriter {
    k0: u64,
    k1: u64,
    elements: Vec<Vec<u8>>,
}

impl GcsFilterWriter {
    /// The elements added so far, in order, duplicates kept.
    pub closed spec fn elements(&self) -> Seq<Seq<u8>> {
        self.elements.deep_view()
    }

    pub closed spec fn key0(&self) -> u64 {
        self.k0
    }

    pub closed spec fn key1(&self) -> u64 {
        self.k1
    }

    pub fn new(k0: u64, k1: u64) -> (r: GcsFilterWriter)
        ensures
            r.elements() =~= Seq::<Seq<u8>>::empty(),
            r.key0() == k0,
            r.key1() == k1,
    {
        GcsFilterWriter { k0, k1, elements: Vec::new() }
    }

    /// How many elements have been added.
    pub fn element_count(&self) -> (r: usize)
        ensures
            r == self.elements().len(),
    {
        self.elements.len()
    }

    /// Add one element; duplicates simply appear twice in the coded set.
    pub fn add_element(&mut self, data: &[u8])
        ensures
            final(self).elements() =~= old(self).elements().push(data@),
            final(self).key0() == old(self).key0(),
            final(self).key1() == old(self).key1(),
    {
        let owned = vstd::slice::slice_to_vec(data);
        self.elements.push(owned);
        proof {
            assert forall|i: int| 0 <= i < self.elements@.len() implies self.elements.deep_view()[i]
                =~= old(self).elements().push(data@)[i] by {
                if i < self.elements@.len() - 1 {
                    assert(self.elements@[i] == old(self).elements@[i]);
                }
            }
        }
    }

    /// Encode the filter: the element count, then the sorted hashed values as
    /// Golomb-Rice coded deltas.
    pub fn finish(&self) -> (r: Vec<u8>)
        requires
            self.elements().len() * M <= u64::MAX,
        ensures
            r@ =~= build_spec(self.elements(), self.key0(), self.key1()),
    {
        let ghost elems = self.elements();
        let n = self.elements.len();
        let nm = (n as u64) * M;
        let mut hashed: Vec<u64> = Vec::new();
        let mut i: usize = 0;
        while i < n
            invariant
                i <= n,
                n == self.elements@.len(),
                nm == (self.elements().len() * M) as u64,
                hashed@.len() == i,
                forall|j: int|
                    0 <= j < i ==> hashed@[j] == spec_hashed(
                        self.elements()[j],
                        self.k0,
                        self.k1,
                        nm,
                    ),
            decreases n - i,
        {
            let h = hash_element(self.elements[i].as_slice(), self.k0, self.k1, nm);
            hashed.push(h);
            proof {
                assert(self.elements()[i as int] =~= self.elements@[i as int]@);
            }
            i = i + 1;
        }
        proof {
            assert(hashed@ =~= hashed_values(elems, self.k0, self.k1, nm));
        }
        let sorted = sort_values(hashed);
        proof {
            crate::sorting::lemma_value_order_total();
            hashed_values(elems, self.k0, self.k1, nm).lemma_sort_by_ensures(value_order());
        }
        let mut out = varint_encode(n as u64);
        let mut bw = BitWriter::new();
        let mut last: u64 = 0;
        let mut i2: usize = 0;
        while i2 < sorted.len()
            invariant
                i2 <= sorted@.len(),
                bw.wf(),
                sorted_by(sorted@, value_order()),
                last == if i2 == 0 {
                    0u64
                } else {
                    sorted@[i2 - 1]
                },
                bw@ + body_bits(sorted@, i2 as int, last) =~= body_bits(sorted@, 0, 0),
            decreases sorted@.len() - i2,
        {
            proof {
                if i2 > 0 {
                    assert(value_order()(sorted@[i2 - 1], sorted@[i2 as int]));
                }
            }
            let v = sorted[i2];
            let delta = v - last;
            let ghost before = bw@;
            golomb_rice_encode(&mut bw, delta, P);
            proof {
                assert(body_bits(sorted@, i2 as int, last) == golomb_bits(
                    sorted@[i2 as int] - last,
                    P as int,
                ) + body_bits(sorted@, i2 as int + 1, sorted@[i2 as int]));
                assert(bw@ + body_bits(sorted@, i2 as int + 1, v) =~= body_bits(sorted@, 0, 0));
            }
            last = v;
            i2 = i2 + 1;
        }
        proof {
            assert(body_bits(sorted@, sorted@.len() as int, last) =~= Seq::<bool>::empty());
            assert(bw@ =~= body_bits(sorted@, 0, 0));
        }
        let ghost body = bw@;
        let mut tail = bw.finish();
        proof {
            lemma_body_len_nonneg(sorted@, 0, 0);
            lemma_padded_multiple(body.len() as int);
            let padded = body + zero_bits(pad_len(body.len() as int));
            lemma_bytes_of_bits_roundtrip(padded);
            lemma_stream_bits_injective(tail@, bytes_of_bits(padded));
        }
        out.append(&mut tail);
        out
    }
}

/// Compose an already-decoded prefix with the parse of the remaining values.
pub open spec fn compose_parse(prefix: Seq<u64>, rest: Option<Seq<u64>>) -> Option<Seq<u64>> {
    match rest {
        None => None,
        Some(t) => Some(prefix + t),
    }
}

/// Some value stands in the filter and in the query alike.
pub open spec fn match_any_found(vs: Seq<u64>, qs: Seq<u64>) -> bool {
    exists|x: u64| #[trigger] vs.contains(x) && qs.contains(x)
}

/// Every query value stands in the filter.
pub open spec fn match_all_found(vs: Seq<u64>, qs: Seq<u64>) -> bool {
    forall|j: int| 0 <= j < qs.len() ==> vs.contains(qs[j])
}

/// What matching any of `query` against an encoded filter returns: `None` on
/// a corrupt buffer, otherwise whether some query element hashes onto a
/// filter value.  An empty query never matches.
pub open spec fn spec_match_any(content: Seq<u8>, k0: u64, k1: u64, query: Seq<Seq<u8>>) -> Option<
    bool,
> {
    match filter_parse(content) {
        None => None,
        Some(nv) => Some(
            query.len() > 0 && match_any_found(
                nv.1,
                hashed_values(query, k0, k1, (nv.0 * M) as u64),
            ),
        ),
    }
}

/// What matching all of `query` against an encoded filter returns: `None` on
/// a corrupt buffer, otherwise whether every query element hashes onto a
/// filter value.  An empty query never matches.
pub open spec fn spec_match_all(content: Seq<u8>, k0: u64, k1: u64, query: Seq<Seq<u8>>) -> Option<
    bool,
> {
    match filter_parse(content) {
        None => None,
        Some(nv) => Some(
            query.len() > 0 && match_all_found(
                nv.1,
                hashed_values(query, k0, k1, (nv.0 * M) as u64),
            ),
        ),
    }
}

/// The element count fits the 64-bit hash domain exactly when it is at most
/// `u64::MAX / M`.
pub proof fn lemma_nm_fits(n: u64)
    ensures
        (n <= u64::MAX / M) == (n * M <= u64::MAX),
{
    vstd::arithmetic::div_mod::lemma_fundamental_div_mod(u64::MAX as int, M as int);
    vstd::arithmetic::div_mod::lemma_mod_bound(u64::MAX as int, M as int);
    let q = u64::MAX as int / M as int;
    if n <= q {
        vstd::arithmetic::mul::lemma_mul_inequality(n as int, q, M as int);
        vstd::arithmetic::mul::lemma_mul_is_commutative(q, M as int);
    } else {
        vstd::arithmetic::mul::lemma_mul_inequality(q + 1, n as int, M as int);
        vstd::arithmetic::mul::lemma_mul_is_distributive_add_other_way(M as int, q, 1);
        vstd::arithmetic::mul::lemma_mul_is_commutative(q, M as int);
    }
}

/// Sequences holding one multiset hold the same values.
proof fn lemma_same_multiset_same_contains(a: Seq<u64>, b: Seq<u64>)
    requires
        a.to_multiset() == b.to_multiset(),
    ensures
        forall|x: u64| a.contains(x) == b.contains(x),
{
    broadcast use vstd::seq_lib::group_to_multiset_ensures;

    assert forall|x: u64| a.contains(x) == b.contains(x) by {
        assert(a.contains(x) == (a.to_multiset().count(x) > 0));
        assert(b.contains(x) == (b.to_multiset().count(x) > 0));
    }
}

/// Hash and sort the query elements for a filter domain of `[0, nm)`.
fn hash_query(query: &Vec<Vec<u8>>, k0: u64, k1: u64, nm: u64) -> (r: Vec<u64>)
    ensures
        r@ =~= sort_values_spec(hashed_values(query.deep_view(), k0, k1, nm)),
{
    let mut qh: Vec<u64> = Vec::new();
    let mut qi: usize = 0;
    while qi < query.len()
        invariant
            qi <= query@.len(),
            qh@.len() == qi,
            forall|j: int|
                0 <= j < qi ==> qh@[j] == spec_hashed(query.deep_view()[j], k0, k1, nm),
        decreases query@.len() - qi,
    {
        let h = hash_element(query[qi].as_slice(), k0, k1, nm);
        qh.push(h);
        proof {
            assert(query.deep_view()[qi as int] =~= query@[qi as int]@);
        }
        qi = qi + 1;
    }
    proof {
        assert(qh@ =~= hashed_values(query.deep_view(), k0, k1, nm));
    }
    sort_values(qh)
}

/// Does any query element stand in the filter?  `None` when the buffer is
/// corrupt; an empty query never matches.
pub fn gcs_match_any(content: &[u8], k0: u64, k1: u64, query: &Vec<Vec<u8>>) -> (r: Option<bool>)
    ensures
        r == spec_match_any(content@, k0, k1, query.deep_view()),
{
    broadcast use vstd::seq_lib::group_to_multiset_ensures;

    let nk = match varint_decode(content) {
        None => {
            return None;
        },
        Some(t) => t,
    };
    let (n, k) = nk;
    proof {
        lemma_nm_fits(n);
    }
    if n > u64::MAX / M {
        return None;
    }
    let nm = n * M;
    let ghost qview = query.deep_view();
    let qs = hash_query(query, k0, k1, nm);
    proof {
        crate::sorting::lemma_value_order_total();
        hashed_values(qview, k0, k1, nm).lemma_sort_by_ensures(value_order());
        lemma_same_multiset_same_contains(qs@, hashed_values(qview, k0, k1, nm));
    }
    proof {
        assert(k <= content@.len());
    }
    let mut cur = BitCursor::at_byte(k, content);
    let ghost bits = stream_bits(content@);
    let ghost startpos: int = k as int * 8;
    let mut last: u64 = 0;
    let ghost mut prefix: Seq<u64> = Seq::empty();
    let mut i: u64 = 0;
    let mut j: usize = 0;
    let mut hit = false;
    proof {
        assert(compose_parse(prefix, parse_values(bits, startpos, n as int, 0)) == parse_values(
            bits,
            startpos,
            n as int,
            0,
        )) by {
            if parse_values(bits, startpos, n as int, 0) is Some {
                assert(prefix + parse_values(bits, startpos, n as int, 0)->Some_0 =~= parse_values(
                    bits,
                    startpos,
                    n as int,
                    0,
                )->Some_0);
            }
        };
    }
    while i < n
        invariant
            cur.wf(content@),
            i <= n,
            bits == stream_bits(content@),
            startpos >= 0,
            varint_parse(content@) matches Some(nk2) && nk2.0 == n && nk2.1 == k as int,
            n * M <= u64::MAX,
            nm == n * M,
            startpos == k as int * 8,
            prefix.len() == i,
            last == if i == 0 {
                0u64
            } else {
                prefix.last()
            },
            forall|t: int| 0 <= t < prefix.len() ==> prefix[t] <= last,
            parse_values(bits, startpos, n as int, 0) == compose_parse(
                prefix,
                parse_values(bits, cur.pos(), (n - i) as int, last),
            ),
            sorted_by(qs@, value_order()),
            j <= qs@.len(),
            forall|jj: int| 0 <= jj < j ==> qs@[jj] < last,
            hit == match_any_found(prefix, qs@),
        decreases n - i,
    {
        let ghost centry = cur;
        let d = match golomb_rice_decode(&mut cur, content, P) {
            None => {
                proof {
                    assert(parse_values(bits, centry.pos(), (n - i) as int, last) is None) by {
                        if golomb_parse(bits, centry.pos(), P as int) is Some {
                            let ve = golomb_parse(bits, centry.pos(), P as int)->Some_0;
                            assert(ve.0 > u64::MAX);
                        }
                    };
                    assert(filter_parse(content@) is None);
                }
                return None;
            },
            Some(d) => d,
        };
        proof {
            crate::golomb::lemma_golomb_parse_nonneg(bits, centry.pos(), P as int);
            assert(golomb_parse(bits, centry.pos(), P as int) matches Some(ve) && ve.0 == d
                && ve.1 == cur.pos());
        }
        if d > u64::MAX - last {
            proof {
                assert(parse_values(bits, centry.pos(), (n - i) as int, last) is None);
                assert(filter_parse(content@) is None);
            }
            return None;
        }
        let v = last + d;
        proof {
            assert(parse_values(bits, centry.pos(), (n - i) as int, last) == (
            match parse_values(bits, cur.pos(), (n - i - 1) as int, v) {
                None => None::<Seq<u64>>,
                Some(t) => Some(seq![v] + t),
            }));
        }
        proof {
            let tail = parse_values(bits, cur.pos(), (n - i - 1) as int, v);
            assert(parse_values(bits, startpos, n as int, 0) == compose_parse(
                prefix.push(v),
                tail,
            )) by {
                if tail is Some {
                    assert(prefix + (seq![v] + tail->Some_0) =~= prefix.push(v) + tail->Some_0);
                }
            };
        }
        while j < qs.len() && qs[j] < v
            invariant
                j <= qs@.len(),
                sorted_by(qs@, value_order()),
                forall|jj: int| 0 <= jj < j ==> qs@[jj] < v,
            decreases qs@.len() - j,
        {
            j = j + 1;
        }
        let mut found = false;
        if j < qs.len() {
            if qs[j] == v {
                found = true;
            }
        }
        proof {
            assert(found == qs@.contains(v)) by {
                if found {
                    assert(qs@[j as int] == v);
                }
                if qs@.contains(v) {
                    let jj = choose|t: int| 0 <= t < qs@.len() && qs@[t] == v;
                    assert(jj >= j);
                    if jj > j {
                        assert(value_order()(qs@[j as int], qs@[jj]));
                    }
                    assert(j < qs@.len() && qs@[j as int] == v);
                }
            };
            let np = prefix.push(v);
            assert forall|x: u64| np.contains(x) implies prefix.contains(x) || x == v by {
                let t = choose|t: int| 0 <= t < np.len() && np[t] == x;
                if t < prefix.len() {
                    assert(prefix[t] == x);
                }
            }
            assert(match_any_found(np, qs@) == (match_any_found(prefix, qs@) || qs@.contains(v)))
                by {
                assert(np.contains(v)) by {
                    assert(np[prefix.len() as int] == v);
                };
                assert forall|x: u64| prefix.contains(x) implies np.contains(x) by {
                    let t = choose|t: int| 0 <= t < prefix.len() && prefix[t] == x;
                    assert(np[t] == x);
                }
            };
            prefix = np;
        }
        if found {
            hit = true;
        }
        last = v;
        i = i + 1;
    }
    proof {
        assert(parse_values(bits, cur.pos(), 0, last) == Some(Seq::<u64>::empty()));
        assert(parse_values(bits, startpos, n as int, 0) == Some(prefix)) by {
            assert(prefix + Seq::<u64>::empty() =~= prefix);
        };
        assert(filter_parse(content@) == Some((n, prefix)));
        assert(match_any_found(prefix, qs@) == match_any_found(
            prefix,
            hashed_values(qview, k0, k1, nm),
        ));
    }
    Some(query.len() > 0 && hit)
}

/// Do all query elements stand in the filter?  `None` when the buffer is
/// corrupt; an empty query never matches.
pub fn gcs_match_all(content: &[u8], k0: u64, k1: u64, query: &Vec<Vec<u8>>) -> (r: Option<bool>)
    ensures
        r == spec_match_all(content@, k0, k1, query.deep_view()),
{
    broadcast use vstd::seq_lib::group_to_multiset_ensures;

    let nk = match varint_decode(content) {
        None => {
            return None;
        },
        Some(t) => t,
    };
    let (n, k) = nk;
    proof {
        lemma_nm_fits(n);
    }
    if n > u64::MAX / M {
        return None;
    }
    let nm = n * M;
    let ghost qview = query.deep_view();
    let qs = hash_query(query, k0, k1, nm);
    proof {
        crate::sorting::lemma_value_order_total();
        hashed_values(qview, k0, k1, nm).lemma_sort_by_ensures(value_order());
        lemma_same_multiset_same_contains(qs@, hashed_values(qview, k0, k1, nm));
    }
    proof {
        assert(k <= content@.len());
    }
    let mut cur = BitCursor::at_byte(k, content);
    let ghost bits = stream_bits(content@);
    let ghost startpos: int = k as int * 8;
    let mut last: u64 = 0;
    let ghost mut prefix: Seq<u64> = Seq::empty();
    let mut i: u64 = 0;
    let mut j: usize = 0;
    let mut all = true;
    proof {
        assert(compose_parse(prefix, parse_values(bits, startpos, n as int, 0)) == parse_values(
            bits,
            startpos,
            n as int,
            0,
        )) by {
            if parse_values(bits, startpos, n as int, 0) is Some {
                assert(prefix + parse_values(bits, startpos, n as int, 0)->Some_0 =~= parse_values(
                    bits,
                    startpos,
                    n as int,
                    0,
                )->Some_0);
            }
        };
    }
    while i < n
        invariant
            cur.wf(content@),
            i <= n,
            bits == stream_bits(content@),
            startpos >= 0,
            varint_parse(content@) matches Some(nk2) && nk2.0 == n && nk2.1 == k as int,
            n * M <= u64::MAX,
            nm == n * M,
            startpos == k as int * 8,
            prefix.len() == i,
            last == if i == 0 {
                0u64
            } else {
                prefix.last()
            },
            forall|t: int| 0 <= t < prefix.len() ==> prefix[t] <= last,
            parse_values(bits, startpos, n as int, 0) == compose_parse(
                prefix,
                parse_values(bits, cur.pos(), (n - i) as int, last),
            ),
            sorted_by(qs@, value_order()),
            j <= qs@.len(),
            i == 0 ==> j == 0,
            i > 0 ==> forall|jj: int| j <= jj < qs@.len() ==> qs@[jj] > last,
            forall|jj: int| 0 <= jj < j ==> qs@[jj] <= last,
            all == (forall|jj: int| 0 <= jj < j ==> prefix.contains(qs@[jj])),
        decreases n - i,
    {
        let ghost centry = cur;
        let d = match golomb_rice_decode(&mut cur, content, P) {
            None => {
                proof {
                    assert(parse_values(bits, centry.pos(), (n - i) as int, last) is None) by {
                        if golomb_parse(bits, centry.pos(), P as int) is Some {
                            let ve = golomb_parse(bits, centry.pos(), P as int)->Some_0;
                            assert(ve.0 > u64::MAX);
                        }
                    };
                    assert(filter_parse(content@) is None);
                }
                return None;
            },
            Some(d) => d,
        };
        proof {
            crate::golomb::lemma_golomb_parse_nonneg(bits, centry.pos(), P as int);
            assert(golomb_parse(bits, centry.pos(), P as int) matches Some(ve) && ve.0 == d
                && ve.1 == cur.pos());
        }
        if d > u64::MAX - last {
            proof {
                assert(parse_values(bits, centry.pos(), (n - i) as int, last) is None);
                assert(filter_parse(content@) is None);
            }
            return None;
        }
        let v = last + d;
        proof {
            assert(parse_values(bits, centry.pos(), (n - i) as int, last) == (
            match parse_values(bits, cur.pos(), (n - i - 1) as int, v) {
                None => None::<Seq<u64>>,
                Some(t) => Some(seq![v] + t),
            }));
            let tail = parse_values(bits, cur.pos(), (n - i - 1) as int, v);
            assert(parse_values(bits, startpos, n as int, 0) == compose_parse(
                prefix.push(v),
                tail,
            )) by {
                if tail is Some {
                    assert(prefix + (seq![v] + tail->Some_0) =~= prefix.push(v) + tail->Some_0);
                }
            };
        }
        let ghost np = prefix.push(v);
        proof {
            assert(np.contains(v)) by {
                assert(np[prefix.len() as int] == v);
            };
            assert forall|x: u64| prefix.contains(x) implies np.contains(x) by {
                let t = choose|t: int| 0 <= t < prefix.len() && prefix[t] == x;
                assert(np[t] == x);
            }
            assert forall|x: u64| np.contains(x) implies prefix.contains(x) || x == v by {
                let t = choose|t: int| 0 <= t < np.len() && np[t] == x;
                if t < prefix.len() {
                    assert(prefix[t] == x);
                }
            }
            assert forall|jj: int| j <= jj < qs@.len() && qs@[jj] != v implies !np.contains(
                qs@[jj],
            ) by {
                if i > 0 {
                    assert(qs@[jj] > last);
                } else {
                    assert(prefix.len() == 0);
                }
            }
            assert forall|jj: int| 0 <= jj < j implies (np.contains(qs@[jj]) == prefix.contains(
                qs@[jj],
            )) by {
                assert(qs@[jj] <= last);
                assert(last <= v);
                if i == 0 {
                    assert(j == 0);
                }
            }
        }
        while j < qs.len() && qs[j] < v
            invariant
                j <= qs@.len(),
                sorted_by(qs@, value_order()),
                np == prefix.push(v),
                forall|jj: int| 0 <= jj < j ==> qs@[jj] <= v,
                forall|jj: int| j <= jj < qs@.len() && qs@[jj] != v ==> !np.contains(qs@[jj]),
                all == (forall|jj: int| 0 <= jj < j ==> np.contains(qs@[jj])),
            decreases qs@.len() - j,
        {
            proof {
                assert(!np.contains(qs@[j as int]));
            }
            all = false;
            j = j + 1;
        }
        proof {
            assert forall|jj: int| j <= jj < qs@.len() implies qs@[jj] >= v by {
                if jj > j {
                    assert(value_order()(qs@[j as int], qs@[jj]));
                }
            }
        }
        while j < qs.len() && qs[j] == v
            invariant
                j <= qs@.len(),
                sorted_by(qs@, value_order()),
                np == prefix.push(v),
                np.contains(v),
                forall|jj: int| 0 <= jj < j ==> qs@[jj] <= v,
                forall|jj: int| j <= jj < qs@.len() ==> qs@[jj] >= v,
                forall|jj: int| j <= jj < qs@.len() && qs@[jj] != v ==> !np.contains(qs@[jj]),
                all == (forall|jj: int| 0 <= jj < j ==> np.contains(qs@[jj])),
            decreases qs@.len() - j,
        {
            j = j + 1;
        }
        proof {
            assert forall|jj: int| j <= jj < qs@.len() implies qs@[jj] > v by {
                if jj > j {
                    assert(value_order()(qs@[j as int], qs@[jj]));
                    assert(qs@[j as int] != v);
                    assert(qs@[j as int] > v);
                }
                assert(qs@[jj] >= v);
                assert(qs@[jj] != v);
            }
            assert forall|t: int| 0 <= t < np.len() implies np[t] <= v by {
                if t < prefix.len() {
                    assert(prefix[t] <= last);
                }
            }
            prefix = np;
        }
        last = v;
        i = i + 1;
    }
    proof {
        assert(parse_values(bits, cur.pos(), 0, last) == Some(Seq::<u64>::empty()));
        assert(parse_values(bits, startpos, n as int, 0) == Some(prefix)) by {
            assert(prefix + Seq::<u64>::empty() =~= prefix);
        };
        assert(filter_parse(content@) == Some((n, prefix)));
        if j < qs@.len() {
            assert(!prefix.contains(qs@[j as int])) by {
                if i > 0 {
                    assert(qs@[j as int] > last);
                } else {
                    assert(prefix.len() == 0);
                }
            };
        }
        assert(match_all_found(prefix, qs@) == (all && j == qs@.len())) by {
            if all && j == qs@.len() {
            } else {
                if match_all_found(prefix, qs@) {
                    assert(forall|jj: int| 0 <= jj < j ==> prefix.contains(qs@[jj]));
                    assert(all);
                    assert(j == qs@.len()) by {
                        if j < qs@.len() {
                            assert(prefix.contains(qs@[j as int]));
                        }
                    };
                }
            }
        };
        let qh0 = hashed_values(qview, k0, k1, nm);
        assert(match_all_found(prefix, qs@) == match_all_found(prefix, qh0)) by {
            if match_all_found(prefix, qs@) {
                assert forall|t: int| 0 <= t < qh0.len() implies prefix.contains(qh0[t]) by {
                    assert(qh0.contains(qh0[t]));
                    assert(qs@.contains(qh0[t]));
                    let u = choose|u: int| 0 <= u < qs@.len() && qs@[u] == qh0[t];
                    assert(prefix.contains(qs@[u]));
                }
            }
            if match_all_found(prefix, qh0) {
                assert forall|t: int| 0 <= t < qs@.len() implies prefix.contains(qs@[t]) by {
                    assert(qs@.contains(qs@[t]));
                    assert(qh0.contains(qs@[t]));
                    let u = choose|u: int| 0 <= u < qh0.len() && qh0[u] == qs@[t];
                    assert(prefix.contains(qh0[u]));
                }
            }
        };
    }
    Some(query.len() > 0 && all && j == qs.len())
}

/// Determinism: two builds from element sequences carrying the same multiset
/// of elements, with the same keys, give byte-identical filters.
pub proof fn lemma_build_deterministic(a: Seq<Seq<u8>>, b: Seq<Seq<u8>>, k0: u64, k1: u64)
    requires
        a.to_multiset() == b.to_multiset(),
    ensures
        build_spec(a, k0, k1) == build_spec(b, k0, k1),
{
    broadcast use vstd::seq_lib::group_to_multiset_ensures;

    assert(a.len() == b.len()) by {
        assert(a.to_multiset().len() == a.len());
        assert(b.to_multiset().len() == b.len());
    };
    let nm = (a.len() * M) as u64;
    let f = |e: Seq<u8>| spec_hashed(e, k0, k1, nm);
    crate::sorting::lemma_map_values_multiset(a, b, f);
    let ha = hashed_values(a, k0, k1, nm);
    let hb = hashed_values(b, k0, k1, nm);
    crate::sorting::lemma_value_order_total();
    ha.lemma_sort_by_ensures(value_order());
    hb.lemma_sort_by_ensures(value_order());
    assert(ha.to_multiset() == hb.to_multiset());
    crate::sorting::lemma_sorted_unique(sort_values_spec(ha), sort_values_spec(hb));
    assert(sort_values_spec(ha) == sort_values_spec(hb));
}

/// Order independence: building from the reversed element sequence gives the
/// same filter bytes.
pub proof fn lemma_build_order_independent(elems: Seq<Seq<u8>>, k0: u64, k1: u64)
    ensures
        build_spec(elems.reverse(), k0, k1) == build_spec(elems, k0, k1),
{
    elems.lemma_reverse_to_multiset();
    lemma_build_deterministic(elems.reverse(), elems, k0, k1);
}

/// Self-match: a filter always matches any element it was built from.
pub proof fn lemma_self_match(elems: Seq<Seq<u8>>, k0: u64, k1: u64, e: Seq<u8>)
    requires
        elems.contains(e),
        elems.len() * M <= u64::MAX,
    ensures
        spec_match_any(build_spec(elems, k0, k1), k0, k1, seq![e]) == Some(true),
{
    broadcast use vstd::seq_lib::group_to_multiset_ensures;

    let nm = (elems.len() * M) as u64;
    lemma_build_parse(elems, k0, k1);
    let hv = hashed_values(elems, k0, k1, nm);
    let sorted = sort_values_spec(hv);
    crate::sorting::lemma_value_order_total();
    hv.lemma_sort_by_ensures(value_order());
    lemma_same_multiset_same_contains(sorted, hv);
    let h = spec_hashed(e, k0, k1, nm);
    assert(hv.contains(h)) by {
        let t = choose|t: int| 0 <= t < elems.len() && elems[t] == e;
        assert(hv[t] == h);
    };
    assert(sorted.contains(h));
    assert(hashed_values(seq![e], k0, k1, nm) =~= seq![h]);
    assert(seq![h].contains(h)) by {
        assert(seq![h][0] == h);
    };
    assert(match_any_found(sorted, seq![h]));
}

/// No false negatives: a filter matches every query drawn from the elements
/// it was built from.
pub proof fn lemma_subset_match_all(elems: Seq<Seq<u8>>, k0: u64, k1: u64, query: Seq<Seq<u8>>)
    requires
        query.len() > 0,
        forall|t: int| 0 <= t < query.len() ==> elems.contains(#[trigger] query[t]),
        elems.len() * M <= u64::MAX,
    ensures
        spec_match_all(build_spec(elems, k0, k1), k0, k1, query) == Some(true),
{
    broadcast use vstd::seq_lib::group_to_multiset_ensures;

    let nm = (elems.len() * M) as u64;
    lemma_build_parse(elems, k0, k1);
    let hv = hashed_values(elems, k0, k1, nm);
    let sorted = sort_values_spec(hv);
    crate::sorting::lemma_value_order_total();
    hv.lemma_sort_by_ensures(value_order());
    lemma_same_multiset_same_contains(sorted, hv);
    let qh = hashed_values(query, k0, k1, nm);
    assert forall|t: int| 0 <= t < qh.len() implies sorted.contains(qh[t]) by {
        assert(elems.contains(query[t]));
        let u = choose|u: int| 0 <= u < elems.len() && elems[u] == query[t];
        assert(hv[u] == qh[t]);
        assert(hv.contains(qh[t]));
    }
    assert(match_all_found(sorted, qh));
}

/// An empty query never matches a readable filter, neither for any-of nor
/// for all-of matching.
pub proof fn lemma_empty_query_never_matches(content: Seq<u8>, k0: u64, k1: u64)
    requires
        filter_parse(content) is Some,
    ensures
        spec_match_any(content, k0, k1, Seq::<Seq<u8>>::empty()) == Some(false),
        spec_match_all(content, k0, k1, Seq::<Seq<u8>>::empty()) == Some(false),
{
}

} // verus!
