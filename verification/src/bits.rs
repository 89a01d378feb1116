use vstd::prelude::*;

verus! {

/// Bit `i` of byte `b`, counting from the most significant end: offset 0 is
/// the top bit.  This is the order in which the codec reads and writes bits.
pub open spec fn byte_bit(b: u8, i: int) -> bool
    recommends
        0 <= i < 8,
{
    (b >> ((7 - i) as u8)) & 1u8 == 1u8
}

/// The bit stream carried by a byte sequence: each byte contributes its eight
/// bits, most significant first.
pub open spec fn stream_bits(bytes: Seq<u8>) -> Seq<bool> {
    Seq::new(bytes.len() * 8, |i: int| byte_bit(bytes[i / 8], i % 8))
}

/// A sequence of `n` zero bits.
pub open spec fn zero_bits(n: int) -> Seq<bool> {
    Seq::new(n as nat, |i: int| false)
}

/// How many zero bits pad a stream of `n` bits up to a whole byte.
pub open spec fn pad_len(n: int) -> int {
    if n % 8 == 0 {
        0
    } else {
        8 - n % 8
    }
}

pub proof fn lemma_div_mod_8(q: int, r: int)
    requires
        0 <= r < 8,
        0 <= q,
    ensures
        (q * 8 + r) / 8 == q,
        (q * 8 + r) % 8 == r,
{
    vstd::arithmetic::div_mod::lemma_fundamental_div_mod_converse(q * 8 + r, 8, q, r);
}

/// A byte is determined by its eight bits.
pub proof fn lemma_byte_bits_determine(x: u8, y: u8)
    requires
        forall|k: int| 0 <= k < 8 ==> #[trigger] byte_bit(x, k) == byte_bit(y, k),
    ensures
        x == y,
{
    assert(byte_bit(x, 0) == byte_bit(y, 0));
    assert(byte_bit(x, 1) == byte_bit(y, 1));
    assert(byte_bit(x, 2) == byte_bit(y, 2));
    assert(byte_bit(x, 3) == byte_bit(y, 3));
    assert(byte_bit(x, 4) == byte_bit(y, 4));
    assert(byte_bit(x, 5) == byte_bit(y, 5));
    assert(byte_bit(x, 6) == byte_bit(y, 6));
    assert(byte_bit(x, 7) == byte_bit(y, 7));
    assert(x == y) by (bit_vector)
        requires
            ((x >> 7u8) & 1u8 == 1u8) == ((y >> 7u8) & 1u8 == 1u8),
            ((x >> 6u8) & 1u8 == 1u8) == ((y >> 6u8) & 1u8 == 1u8),
            ((x >> 5u8) & 1u8 == 1u8) == ((y >> 5u8) & 1u8 == 1u8),
            ((x >> 4u8) & 1u8 == 1u8) == ((y >> 4u8) & 1u8 == 1u8),
            ((x >> 3u8) & 1u8 == 1u8) == ((y >> 3u8) & 1u8 == 1u8),
            ((x >> 2u8) & 1u8 == 1u8) == ((y >> 2u8) & 1u8 == 1u8),
            ((x >> 1u8) & 1u8 == 1u8) == ((y >> 1u8) & 1u8 == 1u8),
            ((x >> 0u8) & 1u8 == 1u8) == ((y >> 0u8) & 1u8 == 1u8),
    ;
}

/// A zero byte carries only zero bits.
proof fn lemma_zero_byte_bits()
    ensures
        forall|i: int| 0 <= i < 8 ==> !byte_bit(0u8, i),
{
    assert forall|i: int| 0 <= i < 8 implies !byte_bit(0u8, i) by {
        let j = (7 - i) as u8;
        assert(0u8 >> j & 1u8 == 0u8) by (bit_vector);
    }
}

/// Appending a byte to a stream appends its eight bits.
proof fn lemma_stream_bits_push(bytes: Seq<u8>, b: u8)
    ensures
        stream_bits(bytes.push(b)) =~= stream_bits(bytes) + Seq::new(8, |i: int| byte_bit(b, i)),
{
    let lhs = stream_bits(bytes.push(b));
    let rhs = stream_bits(bytes) + Seq::new(8, |i: int| byte_bit(b, i));
    assert(lhs.len() == rhs.len());
    assert forall|i: int| 0 <= i < lhs.len() implies lhs[i] == rhs[i] by {
        let n = bytes.len() as int;
        if i < n * 8 {
            vstd::arithmetic::div_mod::lemma_fundamental_div_mod(i, 8);
            vstd::arithmetic::div_mod::lemma_mod_bound(i, 8);
        } else {
            lemma_div_mod_8(n, i - n * 8);
        }
    }
}

/// Concatenating byte buffers concatenates their bit streams.
pub proof fn lemma_stream_bits_concat(a: Seq<u8>, b: Seq<u8>)
    ensures
        stream_bits(a + b) =~= stream_bits(a) + stream_bits(b),
{
    let lhs = stream_bits(a + b);
    let rhs = stream_bits(a) + stream_bits(b);
    assert(lhs.len() == rhs.len()) by {
        vstd::arithmetic::mul::lemma_mul_is_distributive_add_other_way(
            8,
            a.len() as int,
            b.len() as int,
        );
    };
    assert forall|i: int| 0 <= i < lhs.len() implies lhs[i] == rhs[i] by {
        let n = a.len() as int;
        if i < n * 8 {
            vstd::arithmetic::div_mod::lemma_fundamental_div_mod(i, 8);
            vstd::arithmetic::div_mod::lemma_mod_bound(i, 8);
            assert(0 <= i / 8 < n) by {
                vstd::arithmetic::div_mod::lemma_div_pos_is_pos(i, 8);
                vstd::arithmetic::div_mod::lemma_multiply_divide_lt(i, 8, n);
            };
        } else {
            let t = i - n * 8;
            vstd::arithmetic::div_mod::lemma_fundamental_div_mod(t, 8);
            vstd::arithmetic::div_mod::lemma_mod_bound(t, 8);
            vstd::arithmetic::div_mod::lemma_div_pos_is_pos(t, 8);
            lemma_div_mod_8(n + t / 8, t % 8);
            assert(i == (n + t / 8) * 8 + t % 8) by {
                vstd::arithmetic::mul::lemma_mul_is_distributive_add_other_way(8, n, t / 8);
            };
        }
    }
}

/// Accumulates a bit stream into a byte buffer, most significant bit of each
/// byte first; a final partial byte is zero padded by `finish`.
pub struct BitWriter {
    out: Vec<u8>,
    cur: u8,
    used: u8,
}

impl BitWriter {
    /// The bits written so far.
    pub closed spec fn view(&self) -> Seq<bool> {
        stream_bits(self.out@) + Seq::new(self.used as nat, |i: int| byte_bit(self.cur, i))
    }

    /// The partial byte holds fewer than eight bits, and its not-yet-written
    /// low bits are zero.
    pub closed spec fn wf(&self) -> bool {
        &&& self.used < 8
        &&& forall|i: int| self.used <= i < 8 ==> !byte_bit(self.cur, i)
    }

    pub fn new() -> (r: BitWriter)
        ensures
            r.wf(),
            r@ =~= Seq::<bool>::empty(),
    {
        proof {
            lemma_zero_byte_bits();
        }
        BitWriter { out: Vec::new(), cur: 0, used: 0 }
    }

    pub fn write_bit(&mut self, bit: bool)
        requires
            old(self).wf(),
        ensures
            final(self).wf(),
            final(self)@ =~= old(self)@.push(bit),
    {
        let ghost prev = *self;
        if bit {
            let mask: u8 = 1u8 << ((7 - self.used) as u8);
            self.cur = self.cur | mask;
        }
        proof {
            let c = prev.cur;
            let u = prev.used;
            assert forall|i: int| 0 <= i < 8 implies byte_bit(self.cur, i) == (if i == u {
                bit
            } else {
                byte_bit(c, i)
            }) by {
                let j = i as u8;
                if bit {
                    assert((c | (1u8 << ((7 - u) as u8))) >> ((7 - j) as u8) & 1u8 == (if j == u {
                        1u8
                    } else {
                        c >> ((7 - j) as u8) & 1u8
                    })) by (bit_vector)
                        requires
                            u < 8,
                            j < 8,
                    ;
                }
            }
        }
        self.used = self.used + 1;
        proof {
            assert forall|i: int| 0 <= i < self@.len() implies self@[i] == prev@.push(bit)[i] by {
                let ns = stream_bits(prev.out@).len() as int;
                if i >= ns {
                    assert(self@[i] == byte_bit(self.cur, i - ns));
                }
            }
            assert(self@ =~= prev@.push(bit));
        }
        if self.used == 8 {
            let ghost full = *self;
            self.out.push(self.cur);
            self.cur = 0;
            self.used = 0;
            proof {
                lemma_zero_byte_bits();
                lemma_stream_bits_push(full.out@, full.cur);
                assert(self@ =~= full@);
            }
        }
    }

    /// Pad the last byte with zero bits and hand the buffer out.
    pub fn finish(self) -> (r: Vec<u8>)
        requires
            self.wf(),
        ensures
            stream_bits(r@) =~= self@ + zero_bits(pad_len(self@.len() as int)),
            r@.len() * 8 == self@.len() + pad_len(self@.len() as int),
    {
        let ghost bw = self;
        let BitWriter { mut out, cur, used } = self;
        proof {
            assert(stream_bits(out@).len() == out@.len() * 8);
        }
        if used > 0 {
            out.push(cur);
            proof {
                lemma_stream_bits_push(bw.out@, bw.cur);
                assert((bw.out@.len() * 8 + bw.used) % 8 == bw.used as int) by {
                    lemma_div_mod_8(bw.out@.len() as int, bw.used as int);
                };
                assert(stream_bits(out@) =~= bw@ + zero_bits(pad_len(bw@.len() as int)));
            }
        } else {
            proof {
                assert((bw.out@.len() * 8) % 8 == 0) by {
                    lemma_div_mod_8(bw.out@.len() as int, 0);
                };
                assert(stream_bits(out@) =~= bw@ + zero_bits(pad_len(bw@.len() as int)));
            }
        }
        out
    }
}

/// A bit position inside a byte buffer: byte index plus bit offset within
/// that byte.
pub struct BitCursor {
    pub byte: usize,
    pub bit: u8,
}

impl BitCursor {
    /// The absolute bit position.
    pub open spec fn pos(self) -> int {
        self.byte * 8 + self.bit
    }

    /// The cursor points into `data`, or just past its end.
    pub open spec fn wf(self, data: Seq<u8>) -> bool {
        &&& self.bit < 8
        &&& self.byte <= data.len()
        &&& self.byte == data.len() ==> self.bit == 0
    }

    pub fn new() -> (r: BitCursor)
        ensures
            r.pos() == 0,
            forall|data: Seq<u8>| r.wf(data),
    {
        BitCursor { byte: 0, bit: 0 }
    }

    /// Start reading at byte offset `at`.
    pub fn at_byte(at: usize, data: &[u8]) -> (r: BitCursor)
        requires
            at <= data@.len(),
        ensures
            r.wf(data@),
            r.pos() == at * 8,
    {
        BitCursor { byte: at, bit: 0 }
    }

    /// Read one bit, advancing the cursor; `None` past the end of `data`.
    pub fn read_bit(&mut self, data: &[u8]) -> (r: Option<bool>)
        requires
            old(self).wf(data@),
        ensures
            final(self).wf(data@),
            old(self).pos() < data@.len() * 8 ==> r == Some(stream_bits(data@)[old(self).pos()])
                && final(self).pos() == old(self).pos() + 1,
            old(self).pos() >= data@.len() * 8 ==> r is None && *final(self) == *old(self),
    {
        if self.byte < data.len() {
            let b = *vstd::slice::slice_index_get(data, self.byte);
            let r = ((b >> (7 - self.bit)) & 1) == 1;
            proof {
                lemma_div_mod_8(self.byte as int, self.bit as int);
                assert(self.pos() < data@.len() * 8) by {
                    vstd::arithmetic::mul::lemma_mul_inequality(
                        self.byte as int + 1,
                        data@.len() as int,
                        8,
                    );
                };
                assert(r == stream_bits(data@)[self.pos()]);
            }
            self.bit = self.bit + 1;
            if self.bit == 8 {
                self.bit = 0;
                self.byte = self.byte + 1;
            }
            Some(r)
        } else {
            proof {
                assert(self.pos() >= data@.len() * 8);
            }
            None
        }
    }
}

} // verus!
