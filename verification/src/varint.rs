use vstd::prelude::*;
use vstd::bytes::{
    spec_u16_from_le_bytes, spec_u16_to_le_bytes, spec_u32_from_le_bytes, spec_u32_to_le_bytes,
    spec_u64_from_le_bytes, spec_u64_to_le_bytes,
};

verus! {

/// The minimal variable-length encoding of `n`, as it prefixes a filter: one
/// byte below 0xFD, else a marker byte and a little-endian 16-, 32- or 64-bit
/// field.
pub open spec fn varint_bytes(n: u64) -> Seq<u8> {
    if n < 0xFD {
        seq![n as u8]
    } else if n <= 0xFFFF {
        seq![0xFDu8] + spec_u16_to_le_bytes(n as u16)
    } else if n <= 0xFFFFFFFF {
        seq![0xFEu8] + spec_u32_to_le_bytes(n as u32)
    } else {
        seq![0xFFu8] + spec_u64_to_le_bytes(n)
    }
}

/// Parse a variable-length integer from the head of `s`: the value and how
/// many bytes it took.  An encoding that is not minimal, or a truncated one,
/// does not parse.
pub open spec fn varint_parse(s: Seq<u8>) -> Option<(u64, int)> {
    if s.len() < 1 {
        None
    } else {
        let b = s[0];
        if b < 0xFD {
            Some((b as u64, 1))
        } else if b == 0xFD {
            if s.len() >= 3 {
                let v = spec_u16_from_le_bytes(s.subrange(1, 3));
                if v >= 0xFD {
                    Some((v as u64, 3))
                } else {
                    None
                }
            } else {
                None
            }
        } else if b == 0xFE {
            if s.len() >= 5 {
                let v = spec_u32_from_le_bytes(s.subrange(1, 5));
                if v > 0xFFFF {
                    Some((v as u64, 5))
                } else {
                    None
                }
            } else {
                None
            }
        } else {
            if s.len() >= 9 {
                let v = spec_u64_from_le_bytes(s.subrange(1, 9));
                if v > 0xFFFFFFFF {
                    Some((v, 9))
                } else {
                    None
                }
            } else {
                None
            }
        }
    }
}

/// A value's encoding, wherever it stands, parses back to the value.
pub proof fn lemma_varint_roundtrip(n: u64, rest: Seq<u8>)
    ensures
        varint_parse(varint_bytes(n) + rest) matches Some(vl) && vl.0 == n && vl.1
            == varint_bytes(n).len(),
{
    let s = varint_bytes(n) + rest;
    vstd::bytes::lemma_auto_spec_u16_to_from_le_bytes();
    vstd::bytes::lemma_auto_spec_u32_to_from_le_bytes();
    vstd::bytes::lemma_auto_spec_u64_to_from_le_bytes();
    if n < 0xFD {
    } else if n <= 0xFFFF {
        assert(s.subrange(1, 3) =~= spec_u16_to_le_bytes(n as u16));
    } else if n <= 0xFFFFFFFF {
        assert(s.subrange(1, 5) =~= spec_u32_to_le_bytes(n as u32));
    } else {
        assert(s.subrange(1, 9) =~= spec_u64_to_le_bytes(n));
    }
}

/// Encode `n` as a minimal variable-length integer.
pub fn varint_encode(n: u64) -> (r: Vec<u8>)
    ensures
        r@ =~= varint_bytes(n),
{
    let mut out: Vec<u8> = Vec::new();
    if n < 0xFD {
        out.push(n as u8);
    } else if n <= 0xFFFF {
        out.push(0xFD);
        let mut le = vstd::bytes::u16_to_le_bytes(n as u16);
        out.append(&mut le);
    } else if n <= 0xFFFFFFFF {
        out.push(0xFE);
        let mut le = vstd::bytes::u32_to_le_bytes(n as u32);
        out.append(&mut le);
    } else {
        out.push(0xFF);
        let mut le = vstd::bytes::u64_to_le_bytes(n);
        out.append(&mut le);
    }
    out
}

/// Decode the variable-length integer prefix of `data`: the value and how
/// many bytes it took.  `None` when the prefix is truncated or not minimal.
pub fn varint_decode(data: &[u8]) -> (r: Option<(u64, usize)>)
    ensures
        varint_parse(data@) matches Some(vl) ==> r == Some((vl.0, vl.1 as usize)),
        varint_parse(data@) is None ==> r is None,
{
    let len = data.len();
    if len < 1 {
        return None;
    }
    let b = *vstd::slice::slice_index_get(data, 0);
    if b < 0xFD {
        Some((b as u64, 1))
    } else if b == 0xFD {
        if len >= 3 {
            let sub = vstd::slice::slice_subrange(data, 1, 3);
            let v = vstd::bytes::u16_from_le_bytes(sub);
            if v >= 0xFD {
                Some((v as u64, 3))
            } else {
                None
            }
        } else {
            None
        }
    } else if b == 0xFE {
        if len >= 5 {
            let sub = vstd::slice::slice_subrange(data, 1, 5);
            let v = vstd::bytes::u32_from_le_bytes(sub);
            if v > 0xFFFF {
                Some((v as u64, 5))
            } else {
                None
            }
        } else {
            None
        }
    } else {
        if len >= 9 {
            let sub = vstd::slice::slice_subrange(data, 1, 9);
            let v = vstd::bytes::u64_from_le_bytes(sub);
            if v > 0xFFFFFFFF {
                Some((v, 9))
            } else {
                None
            }
        } else {
            None
        }
    }
}

} // verus!
