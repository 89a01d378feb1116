use vstd::prelude::*;
use vstd::arithmetic::power2::pow2;
use crate::bits::{stream_bits, BitCursor, BitWriter};

verus! {

/// A run of `q` one bits.
pub open spec fn unary_bits(q: int) -> Seq<bool> {
    Seq::new(q as nat, |i: int| true)
}

/// The value `r` as `w` bits, most significant first.
pub open spec fn fixed_bits(r: int, w: int) -> Seq<bool>
    decreases w,
{
    if w <= 0 {
        Seq::empty()
    } else {
        fixed_bits(r / 2, w - 1).push(r % 2 == 1)
    }
}

/// The value carried by the `w` bits of `bits` starting at `i`, most
/// significant first.
pub open spec fn fixed_val(bits: Seq<bool>, i: int, w: int) -> int
    decreases w,
{
    if w <= 0 {
        0
    } else {
        2 * fixed_val(bits, i, w - 1) + (if bits[i + w - 1] {
            1int
        } else {
            0int
        })
    }
}

/// The Golomb-Rice code of `v` with remainder width `p`: the quotient
/// `v / 2^p` in unary (one bits), a zero bit, then the remainder as a
/// fixed-width `p`-bit field.
pub open spec fn golomb_bits(v: int, p: int) -> Seq<bool>
    recommends
        0 <= v,
        0 < p < 64,
{
    unary_bits(v / pow2(p as nat) as int) + seq![false] + fixed_bits(
        v % pow2(p as nat) as int,
        p,
    )
}

/// The number of bits in the Golomb-Rice code of `v`.
pub open spec fn golomb_len(v: int, p: int) -> int {
    v / pow2(p as nat) as int + 1 + p
}

/// The length of a one-bit run starting at `i`: the code's unary quotient.
/// `None` when the run is not terminated by a zero bit before the stream
/// ends.
pub open spec fn unary_parse(bits: Seq<bool>, i: int) -> Option<int>
    decreases bits.len() - i,
{
    if i < 0 || i >= bits.len() {
        None
    } else if !bits[i] {
        Some(0)
    } else {
        match unary_parse(bits, i + 1) {
            None => None,
            Some(q) => Some(q + 1),
        }
    }
}

/// Parse one Golomb-Rice code at bit position `i`: the decoded value and the
/// position just past the code.  `None` when the stream ends first.
pub open spec fn golomb_parse(bits: Seq<bool>, i: int, p: int) -> Option<(int, int)> {
    match unary_parse(bits, i) {
        None => None,
        Some(q) => {
            let j = i + q + 1;
            if j + p <= bits.len() {
                Some((q * pow2(p as nat) as int + fixed_val(bits, j, p), j + p))
            } else {
                None
            }
        },
    }
}

/// A fixed-width field holds the value its bits spell.
proof fn lemma_fixed_val_of_bits(bits: Seq<bool>, i: int, r: int, w: int)
    requires
        0 <= w,
        0 <= r < pow2(w as nat),
        0 <= i,
        i + w <= bits.len(),
        forall|k: int| 0 <= k < w ==> bits[i + k] == fixed_bits(r, w)[k],
    ensures
        fixed_val(bits, i, w) == r,
    decreases w,
{
    if w == 0 {
        assert(pow2(0) == 1) by {
            vstd::arithmetic::power2::lemma2_to64();
        };
    } else {
        lemma_fixed_bits_len(r, w);
        lemma_fixed_bits_len(r / 2, w - 1);
        assert(pow2((w - 1) as nat) * 2 == pow2(w as nat)) by {
            vstd::arithmetic::power2::lemma_pow2_unfold(w as nat);
        };
        assert(0 <= r / 2 < pow2((w - 1) as nat));
        assert(fixed_bits(r, w) == fixed_bits(r / 2, w - 1).push(r % 2 == 1));
        assert forall|k: int| 0 <= k < w - 1 implies bits[i + k] == #[trigger] fixed_bits(r / 2, w - 1)[k] by {
            assert(bits[i + k] == fixed_bits(r, w)[k]);
            assert(fixed_bits(r, w)[k] == fixed_bits(r / 2, w - 1).push(r % 2 == 1)[k]);
        }
        lemma_fixed_val_of_bits(bits, i, r / 2, w - 1);
        assert(bits[i + w - 1] == fixed_bits(r, w)[w - 1]);
        assert(fixed_bits(r, w)[w - 1] == (r % 2 == 1));
    }
}

/// Each bit of a fixed-width field, read directly from the value.
pub proof fn lemma_fixed_bits_index(r: int, w: int, k: int)
    requires
        0 <= r,
        0 <= k < w,
    ensures
        fixed_bits(r, w)[k] == ((r / (pow2((w - 1 - k) as nat) as int)) % 2 == 1),
    decreases w,
{
    lemma_fixed_bits_len(r, w);
    lemma_fixed_bits_len(r / 2, w - 1);
    if k == w - 1 {
        assert(pow2(0) == 1) by {
            vstd::arithmetic::power2::lemma2_to64();
        };
        assert(fixed_bits(r, w)[k] == (r % 2 == 1));
        assert(r / (pow2(0) as int) == r);
    } else {
        lemma_fixed_bits_index(r / 2, w - 1, k);
        assert(fixed_bits(r / 2, w - 1)[k] == (((r / 2) / (pow2(((w - 1) - 1 - k) as nat)
            as int)) % 2 == 1));
        assert(fixed_bits(r, w) == fixed_bits(r / 2, w - 1).push(r % 2 == 1));
        assert(fixed_bits(r, w)[k] == fixed_bits(r / 2, w - 1)[k]);
        assert(((w - 1) - 1 - k) as nat == (w - 2 - k) as nat);
        assert(pow2((w - 2 - k) as nat) * 2 == pow2((w - 1 - k) as nat)) by {
            vstd::arithmetic::power2::lemma_pow2_unfold((w - 1 - k) as nat);
        };
        assert((r / 2) / (pow2((w - 2 - k) as nat) as int) == r / (pow2((w - 1 - k) as nat) as int))
            by {
            vstd::arithmetic::power2::lemma_pow2_pos((w - 2 - k) as nat);
            vstd::arithmetic::div_mod::lemma_div_denominator(
                r,
                2,
                pow2((w - 2 - k) as nat) as int,
            );
            assert(2 * pow2((w - 2 - k) as nat) == pow2((w - 1 - k) as nat));
        };
        assert(fixed_bits(r, w)[k] == ((r / (pow2((w - 1 - k) as nat) as int)) % 2 == 1));
    }
}

/// A one-bit run of length `q` followed by a zero bit parses to `q`.
proof fn lemma_unary_parse_of_run(bits: Seq<bool>, i: int, q: int)
    requires
        0 <= q,
        0 <= i,
        i + q < bits.len(),
        forall|k: int| i <= k < i + q ==> bits[k],
        !bits[i + q],
    ensures
        unary_parse(bits, i) == Some(q),
    decreases q,
{
    if q > 0 {
        lemma_unary_parse_of_run(bits, i + 1, q - 1);
    }
}

/// A parsed run length is never negative.
proof fn lemma_unary_parse_nonneg(bits: Seq<bool>, i: int)
    ensures
        unary_parse(bits, i) matches Some(n) ==> n >= 0,
    decreases bits.len() - i,
{
    if 0 <= i < bits.len() && bits[i] {
        lemma_unary_parse_nonneg(bits, i + 1);
    }
}

/// While inside a one-bit run, the parsed run length, if any, is at least the
/// run seen so far; and a run reaching the end of the stream does not parse.
proof fn lemma_unary_parse_in_run(bits: Seq<bool>, i: int, q: int)
    requires
        0 <= q,
        0 <= i,
        i + q <= bits.len(),
        forall|k: int| i <= k < i + q ==> bits[k],
    ensures
        i + q == bits.len() ==> unary_parse(bits, i) is None,
        unary_parse(bits, i) matches Some(n) ==> n >= q,
    decreases q,
{
    lemma_unary_parse_nonneg(bits, i);
    if q > 0 {
        lemma_unary_parse_in_run(bits, i + 1, q - 1);
    }
}

/// A Golomb-Rice code embedded in a stream parses back to the value it was
/// written from.
pub proof fn lemma_golomb_parse_of_code(bits: Seq<bool>, i: int, v: int, p: int)
    requires
        0 <= v,
        0 < p < 64,
        0 <= i,
        i + golomb_len(v, p) <= bits.len(),
        forall|k: int| 0 <= k < golomb_len(v, p) ==> bits[i + k] == golomb_bits(v, p)[k],
    ensures
        golomb_parse(bits, i, p) == Some((v, i + golomb_len(v, p))),
{
    let pw = pow2(p as nat) as int;
    assert(pw > 0) by {
        vstd::arithmetic::power2::lemma_pow2_pos(p as nat);
    };
    let q = v / pw;
    let r = v % pw;
    assert(q >= 0) by {
        vstd::arithmetic::div_mod::lemma_div_pos_is_pos(v, pw);
    };
    assert(0 <= r < pw) by {
        vstd::arithmetic::div_mod::lemma_mod_bound(v, pw);
    };
    let code = golomb_bits(v, p);
    lemma_fixed_bits_len(r, p);
    assert(code.len() == golomb_len(v, p));
    assert forall|k: int| i <= k < i + q implies bits[k] by {
        assert(code[k - i] == (unary_bits(q) + seq![false] + fixed_bits(r, p))[k - i]);
    }
    assert(!code[q]);
    assert(!bits[i + q]);
    lemma_unary_parse_of_run(bits, i, q);
    let j = i + q + 1;
    assert forall|k: int| 0 <= k < p implies bits[j + k] == fixed_bits(r, p)[k] by {
        assert(code[q + 1 + k] == (unary_bits(q) + seq![false] + fixed_bits(r, p))[q + 1 + k]);
    }
    lemma_fixed_val_of_bits(bits, j, r, p);
    assert(q * pw + r == v) by {
        vstd::arithmetic::div_mod::lemma_fundamental_div_mod(v, pw);
    };
}

/// Write the Golomb-Rice code of `v` with remainder width `p`.
pub fn golomb_rice_encode(w: &mut BitWriter, v: u64, p: u8)
    requires
        old(w).wf(),
        0 < p < 64,
    ensures
        final(w).wf(),
        final(w)@ =~= old(w)@ + golomb_bits(v as int, p as int),
{
    let ghost start = old(w)@;
    let q = v >> p;
    proof {
        vstd::bits::lemma_u64_shr_is_div(v, p as u64);
        vstd::bits::lemma_u64_pow2_no_overflow(p as nat);
        vstd::bits::lemma_u64_shl_is_mul(1u64, p as u64);
        vstd::arithmetic::power2::lemma_pow2_pos(p as nat);
    }
    let mask = (1u64 << p) - 1;
    let r = v & mask;
    proof {
        assert(mask == vstd::bits::low_bits_mask(p as nat));
        vstd::bits::lemma_u64_low_bits_mask_is_mod(v, p as nat);
    }
    let mut k: u64 = 0;
    while k < q
        invariant
            k <= q,
            w.wf(),
            w@ =~= start + unary_bits(k as int),
        decreases q - k,
    {
        w.write_bit(true);
        k = k + 1;
        proof {
            assert(unary_bits(k as int) =~= unary_bits(k as int - 1).push(true));
        }
    }
    w.write_bit(false);
    let ghost mid = start + unary_bits(q as int) + seq![false];
    proof {
        assert(w@ =~= mid);
    }
    let mut j: u8 = 0;
    while j < p
        invariant
            j <= p,
            0 < p < 64,
            w.wf(),
            r == v as int % (pow2(p as nat) as int),
            w@ =~= mid + fixed_bits(r as int, p as int).take(j as int),
        decreases p - j,
    {
        let b = ((r >> (p - 1 - j)) & 1) == 1;
        proof {
            lemma_fixed_bits_len(r as int, p as int);
            vstd::bits::lemma_u64_shr_is_div(r, (p - 1 - j) as u64);
            vstd::bits::lemma_u64_low_bits_mask_is_mod(r >> ((p - 1 - j) as u64), 1);
            assert(vstd::bits::low_bits_mask(1) == 1) by {
                vstd::arithmetic::power2::lemma2_to64();
            };
            lemma_fixed_bits_index(r as int, p as int, j as int);
            assert(pow2(1) == 2) by {
                vstd::arithmetic::power2::lemma2_to64();
            };
            assert(b == fixed_bits(r as int, p as int)[j as int]);
        }
        w.write_bit(b);
        j = j + 1;
        proof {
            assert(fixed_bits(r as int, p as int).take(j as int) =~= fixed_bits(
                r as int,
                p as int,
            ).take(j as int - 1).push(fixed_bits(r as int, p as int)[j as int - 1]));
        }
    }
    proof {
        assert(fixed_bits(r as int, p as int).take(p as int) =~= fixed_bits(r as int, p as int))
            by {
            lemma_fixed_bits_len(r as int, p as int);
        };
        assert(w@ =~= start + golomb_bits(v as int, p as int));
    }
}

/// A fixed-width field has as many bits as its width.
pub proof fn lemma_fixed_bits_len(r: int, w: int)
    requires
        0 <= w,
    ensures
        fixed_bits(r, w).len() == w,
    decreases w,
{
    if w > 0 {
        lemma_fixed_bits_len(r / 2, w - 1);
    }
}

/// Decode one Golomb-Rice code at the cursor.  `None` when the stream ends
/// inside the code or the value does not fit in 64 bits; the buffer is then
/// corrupt.
pub fn golomb_rice_decode(cur: &mut BitCursor, data: &[u8], p: u8) -> (r: Option<u64>)
    requires
        old(cur).wf(data@),
        0 < p < 64,
    ensures
        final(cur).wf(data@),
        golomb_parse(stream_bits(data@), old(cur).pos(), p as int) matches Some(ve) ==> (
        if ve.0 <= u64::MAX {
            r == Some(ve.0 as u64) && final(cur).pos() == ve.1
        } else {
            r is None
        }),
        golomb_parse(stream_bits(data@), old(cur).pos(), p as int) is None ==> r is None,
{
    let ghost bits = stream_bits(data@);
    let ghost start = old(cur).pos();
    let max_q = 1u64 << ((64 - p) as u8);
    proof {
        vstd::bits::lemma_u64_pow2_no_overflow((64 - p) as nat);
        vstd::bits::lemma_u64_shl_is_mul(1u64, (64 - p) as u64);
    }
    let mut q: u64 = 0;
    loop
        invariant_except_break
            cur.wf(data@),
            0 < p < 64,
            max_q == pow2((64 - p) as nat),
            q < max_q,
            cur.pos() == start + q,
            0 <= start,
            start == old(cur).pos(),
            bits == stream_bits(data@),
            forall|k: int| start <= k < start + q ==> bits[k],
        ensures
            cur.wf(data@),
            q < max_q,
            start == old(cur).pos(),
            unary_parse(bits, start) == Some(q as int),
            cur.pos() == start + q + 1,
        decreases bits.len() - cur.pos(),
    {
        match cur.read_bit(data) {
            None => {
                proof {
                    lemma_unary_parse_in_run(bits, start, q as int);
                }
                return None;
            },
            Some(false) => {
                proof {
                    lemma_unary_parse_of_run(bits, start, q as int);
                }
                break;
            },
            Some(true) => {
                q = q + 1;
                if q == max_q {
                    proof {
                        lemma_unary_parse_in_run(bits, start, q as int);
                        if unary_parse(bits, start) is Some {
                            let n = unary_parse(bits, start)->Some_0;
                            let pw = pow2(p as nat) as int;
                            assert(pw > 0) by {
                                vstd::arithmetic::power2::lemma_pow2_pos(p as nat);
                            };
                            assert(n * pw >= max_q * pw) by {
                                vstd::arithmetic::mul::lemma_mul_inequality(
                                    max_q as int,
                                    n,
                                    pw,
                                );
                            };
                            assert(max_q * pw == pow2(64)) by {
                                vstd::arithmetic::power2::lemma_pow2_adds(
                                    (64 - p) as nat,
                                    p as nat,
                                );
                            };
                            assert(pow2(64) > u64::MAX) by {
                                vstd::arithmetic::power2::lemma2_to64();
                            };
                            let j = start + n + 1;
                            if j + p <= bits.len() {
                                lemma_fixed_val_nonneg(bits, j, p as int);
                            }
                        }
                    }
                    return None;
                }
            },
        }
    }
    // the zero bit is consumed; read the fixed-width remainder
    let ghost base = cur.pos();
    proof {
        assert(pow2(0) == 1) by {
            vstd::arithmetic::power2::lemma2_to64();
        };
    }
    let mut r_val: u64 = 0;
    let mut j: u8 = 0;
    while j < p
        invariant
            cur.wf(data@),
            0 < p < 64,
            j <= p,
            cur.pos() == base + j,
            0 <= base,
            start == old(cur).pos(),
            bits == stream_bits(data@),
            r_val < pow2(j as nat),
            r_val == fixed_val(bits, base, j as int),
            base + j <= bits.len(),
            unary_parse(bits, start) == Some(q as int),
            base == start + q + 1,
            q < pow2((64 - p) as nat),
        decreases p - j,
    {
        match cur.read_bit(data) {
            None => {
                proof {
                    assert(base + p > bits.len());
                }
                return None;
            },
            Some(b) => {
                proof {
                    assert(pow2((j + 1) as nat) == 2 * pow2(j as nat)) by {
                        vstd::arithmetic::power2::lemma_pow2_unfold((j + 1) as nat);
                    };
                    assert(pow2(j as nat) <= pow2(63)) by {
                        if (j as nat) < 63 {
                            vstd::arithmetic::power2::lemma_pow2_strictly_increases(j as nat, 63);
                        }
                    };
                    assert(pow2(63) < pow2(64)) by {
                        vstd::arithmetic::power2::lemma_pow2_strictly_increases(63, 64);
                    };
                    assert(pow2(64) == 0x10000000000000000) by {
                        vstd::arithmetic::power2::lemma2_to64();
                    };
                    assert(2 * pow2(63) == pow2(64)) by {
                        vstd::arithmetic::power2::lemma_pow2_unfold(64);
                    };
                }
                r_val = r_val * 2 + (if b {
                    1
                } else {
                    0
                });
                j = j + 1;
            },
        }
    }
    let pw = 1u64 << p;
    proof {
        vstd::bits::lemma_u64_pow2_no_overflow(p as nat);
        vstd::bits::lemma_u64_shl_is_mul(1u64, p as u64);
        let ghost maxq = pow2((64 - p) as nat) as int;
        assert(maxq * (pw as int) == pow2(64)) by {
            vstd::arithmetic::power2::lemma_pow2_adds((64 - p) as nat, p as nat);
        };
        assert(pow2(64) == 0x10000000000000000) by {
            vstd::arithmetic::power2::lemma2_to64();
        };
        assert(q as int * (pw as int) + r_val as int <= u64::MAX) by (nonlinear_arith)
            requires
                q as int <= maxq - 1,
                (r_val as int) < pw as int,
                maxq * (pw as int) == 0x10000000000000000,
                pw as int >= 1,
        ;
    }
    let v = q * pw + r_val;
    Some(v)
}

/// Round-trip of the integer codec: the Golomb-Rice code of any 64-bit
/// value, decoded with the same remainder width, gives the value back.
pub proof fn lemma_golomb_roundtrip(v: u64, p: u8)
    requires
        0 < p < 64,
    ensures
        golomb_parse(golomb_bits(v as int, p as int), 0, p as int) == Some(
            (v as int, golomb_len(v as int, p as int)),
        ),
{
    let bits = golomb_bits(v as int, p as int);
    let pw = pow2(p as nat) as int;
    assert(pw > 0) by {
        vstd::arithmetic::power2::lemma_pow2_pos(p as nat);
    };
    assert(v as int / pw >= 0) by {
        vstd::arithmetic::div_mod::lemma_div_pos_is_pos(v as int, pw);
    };
    lemma_fixed_bits_len(v as int % pw, p as int);
    lemma_golomb_parse_of_code(bits, 0, v as int, p as int);
}

/// A parsed Golomb-Rice value is never negative.
pub proof fn lemma_golomb_parse_nonneg(bits: Seq<bool>, i: int, p: int)
    requires
        0 <= p,
    ensures
        golomb_parse(bits, i, p) matches Some(ve) ==> ve.0 >= 0,
{
    if golomb_parse(bits, i, p) is Some {
        lemma_unary_parse_nonneg(bits, i);
        let q = unary_parse(bits, i)->Some_0;
        lemma_fixed_val_nonneg(bits, i + q + 1, p);
        vstd::arithmetic::power2::lemma_pow2_pos(p as nat);
        vstd::arithmetic::mul::lemma_mul_nonnegative(q, pow2(p as nat) as int);
    }
}

/// A fixed-width field is never negative.
proof fn lemma_fixed_val_nonneg(bits: Seq<bool>, i: int, w: int)
    ensures
        fixed_val(bits, i, w) >= 0,
    decreases w,
{
    if w > 0 {
        lemma_fixed_val_nonneg(bits, i, w - 1);
    }
}

} // verus!
