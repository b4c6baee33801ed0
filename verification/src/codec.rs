//! Byte-level helpers shared by the container and package formats:
//! little-endian integer fields and ASCII-only case folding.

use vstd::bytes::*;
use vstd::prelude::*;
use vstd::slice::slice_subrange;

verus! {

/// A 32-bit signed field is stored as its two's-complement little-endian
/// image.
pub open spec fn spec_i32_to_le_bytes(x: i32) -> Seq<u8> {
    spec_u32_to_le_bytes(x as u32)
}

/// Reads a 32-bit signed field back from its little-endian image.
pub open spec fn spec_i32_from_le_bytes(s: Seq<u8>) -> i32
    recommends
        s.len() == 4,
{
    spec_u32_from_le_bytes(s) as i32
}

/// The signed 32-bit field round-trips through its byte image.
pub proof fn lemma_i32_le_bytes()
    ensures
        forall|x: i32|
            {
                &&& (#[trigger] spec_i32_to_le_bytes(x)).len() == 4
                &&& spec_i32_from_le_bytes(spec_i32_to_le_bytes(x)) == x
            },
        forall|s: Seq<u8>|
            s.len() == 4 ==> #[trigger] spec_i32_to_le_bytes(spec_i32_from_le_bytes(s)) == s,
{
    lemma_auto_spec_u32_to_from_le_bytes();
    assert forall|x: i32|
        {
            &&& (#[trigger] spec_i32_to_le_bytes(x)).len() == 4
            &&& spec_i32_from_le_bytes(spec_i32_to_le_bytes(x)) == x
        } by {
        let u = x as u32;
        assert(spec_u32_to_le_bytes(u).len() == 4);
        assert(spec_u32_from_le_bytes(spec_u32_to_le_bytes(u)) == u);
        assert((x as u32) as i32 == x) by (bit_vector);
    }
    assert forall|s: Seq<u8>| s.len() == 4 implies #[trigger] spec_i32_to_le_bytes(
        spec_i32_from_le_bytes(s),
    ) == s by {
        let u = spec_u32_from_le_bytes(s);
        assert(spec_u32_to_le_bytes(spec_u32_from_le_bytes(s)) == s);
        assert(((u as i32) as u32) == u) by (bit_vector);
    }
}

/// Reads the little-endian `u16` stored at `off`.
pub fn read_u16_at(data: &[u8], off: usize) -> (x: u16)
    requires
        off + 2 <= data@.len(),
    ensures
        x == spec_u16_from_le_bytes(data@.subrange(off as int, off + 2)),
{
    let n = data.len();
    u16_from_le_bytes(slice_subrange(data, off, off + 2))
}

/// Reads the little-endian `u32` stored at `off`.
pub fn read_u32_at(data: &[u8], off: usize) -> (x: u32)
    requires
        off + 4 <= data@.len(),
    ensures
        x == spec_u32_from_le_bytes(data@.subrange(off as int, off + 4)),
{
    let n = data.len();
    u32_from_le_bytes(slice_subrange(data, off, off + 4))
}

/// Reads the little-endian `u64` stored at `off`.
pub fn read_u64_at(data: &[u8], off: usize) -> (x: u64)
    requires
        off + 8 <= data@.len(),
    ensures
        x == spec_u64_from_le_bytes(data@.subrange(off as int, off + 8)),
{
    let n = data.len();
    u64_from_le_bytes(slice_subrange(data, off, off + 8))
}

/// Reads the little-endian two's-complement `i32` stored at `off`.
pub fn read_i32_at(data: &[u8], off: usize) -> (x: i32)
    requires
        off + 4 <= data@.len(),
    ensures
        x == spec_i32_from_le_bytes(data@.subrange(off as int, off + 4)),
{
    let u = read_u32_at(data, off);
    #[verifier::truncate] (u as i32)
}

/// Appends the little-endian image of a `u32`.
pub fn push_u32_le(out: &mut Vec<u8>, x: u32)
    ensures
        final(out)@ == old(out)@ + spec_u32_to_le_bytes(x),
{
    let bytes = u32_to_le_bytes(x);
    let ghost pre = out@;
    let mut i: usize = 0;
    while i < bytes.len()
        invariant
            i <= bytes@.len(),
            bytes@ == spec_u32_to_le_bytes(x),
            out@ == pre + bytes@.take(i as int),
        decreases bytes@.len() - i,
    {
        out.push(bytes[i]);
        proof {
            assert(bytes@.take(i + 1 as int) =~= bytes@.take(i as int).push(bytes@[i as int]));
        }
        i = i + 1;
    }
    proof {
        assert(pre + bytes@.take(bytes@.len() as int) =~= pre + bytes@);
    }
}

/// Appends the little-endian image of a `u64`.
pub fn push_u64_le(out: &mut Vec<u8>, x: u64)
    ensures
        final(out)@ == old(out)@ + spec_u64_to_le_bytes(x),
{
    let bytes = u64_to_le_bytes(x);
    let ghost pre = out@;
    let mut i: usize = 0;
    while i < bytes.len()
        invariant
            i <= bytes@.len(),
            bytes@ == spec_u64_to_le_bytes(x),
            out@ == pre + bytes@.take(i as int),
        decreases bytes@.len() - i,
    {
        out.push(bytes[i]);
        proof {
            assert(bytes@.take(i + 1 as int) =~= bytes@.take(i as int).push(bytes@[i as int]));
        }
        i = i + 1;
    }
    proof {
        assert(pre + bytes@.take(bytes@.len() as int) =~= pre + bytes@);
    }
}

/// Appends the little-endian two's-complement image of an `i32`.
pub fn push_i32_le(out: &mut Vec<u8>, x: i32)
    ensures
        final(out)@ == old(out)@ + spec_i32_to_le_bytes(x),
{
    push_u32_le(out, #[verifier::truncate] (x as u32));
}

/// Appends all of `src`.
pub fn push_bytes(out: &mut Vec<u8>, src: &[u8])
    ensures
        final(out)@ == old(out)@ + src@,
{
    let ghost pre = out@;
    let mut i: usize = 0;
    while i < src.len()
        invariant
            i <= src@.len(),
            out@ == pre + src@.take(i as int),
        decreases src@.len() - i,
    {
        out.push(src[i]);
        proof {
            assert(src@.take(i + 1 as int) =~= src@.take(i as int).push(src@[i as int]));
        }
        i = i + 1;
    }
    proof {
        assert(pre + src@.take(src@.len() as int) =~= pre + src@);
    }
}

/// Byte-string equality.
pub fn bytes_eq(a: &[u8], b: &[u8]) -> (r: bool)
    ensures
        r == (a@ == b@),
{
    if a.len() != b.len() {
        proof {
            assert(a@ != b@);
        }
        return false;
    }
    let mut i: usize = 0;
    while i < a.len()
        invariant
            i <= a@.len(),
            a@.len() == b@.len(),
            forall|j: int| 0 <= j < i ==> a@[j] == b@[j],
        decreases a@.len() - i,
    {
        if a[i] != b[i] {
            return false;
        }
        i = i + 1;
    }
    proof {
        assert(a@ =~= b@);
    }
    true
}

/// Path normalization: every backslash becomes a forward slash.
pub open spec fn spec_normalize(p: Seq<u8>) -> Seq<u8> {
    p.map_values(
        |b: u8|
            if b == 92 {
                47u8
            } else {
                b
            },
    )
}

/// Replaces backslashes with forward slashes.
pub fn normalize_path(p: &[u8]) -> (r: Vec<u8>)
    ensures
        r@ == spec_normalize(p@),
{
    let mut out: Vec<u8> = Vec::new();
    let mut i: usize = 0;
    while i < p.len()
        invariant
            i <= p@.len(),
            out@ == spec_normalize(p@.take(i as int)),
        decreases p@.len() - i,
    {
        if p[i] == 92 {
            out.push(47);
        } else {
            out.push(p[i]);
        }
        proof {
            assert(spec_normalize(p@.take(i + 1 as int)) =~= spec_normalize(
                p@.take(i as int),
            ).push(
                if p@[i as int] == 92 {
                    47u8
                } else {
                    p@[i as int]
                },
            ));
        }
        i = i + 1;
    }
    proof {
        assert(p@.take(p@.len() as int) =~= p@);
    }
    out
}

/// True iff the byte string holds a NUL.
pub fn contains_nul(v: &Vec<u8>) -> (r: bool)
    ensures
        r == v@.contains(0u8),
{
    let mut i: usize = 0;
    while i < v.len()
        invariant
            i <= v@.len(),
            forall|j: int| 0 <= j < i ==> v@[j] != 0,
        decreases v@.len() - i,
    {
        if v[i] == 0 {
            return true;
        }
        i = i + 1;
    }
    proof {
        if v@.contains(0u8) {
            let j = choose|j: int| 0 <= j < v@.len() && v@[j] == 0;
        }
    }
    false
}

/// ASCII-only lower-casing of one byte, the case rule of the archive's
/// case-insensitive entry keys.
pub open spec fn spec_lower_byte(b: u8) -> u8 {
    if 65 <= b <= 90 {
        (b + 32) as u8
    } else {
        b
    }
}

/// ASCII-only lower-casing of a byte string.
pub open spec fn spec_lower(s: Seq<u8>) -> Seq<u8> {
    s.map_values(|b: u8| spec_lower_byte(b))
}

/// Lower-cases one byte with ASCII rules.
pub fn ascii_lower_byte(b: u8) -> (r: u8)
    ensures
        r == spec_lower_byte(b),
{
    if 65 <= b && b <= 90 {
        b + 32
    } else {
        b
    }
}

/// Lower-cases a byte string with ASCII rules.
pub fn ascii_lower(s: &[u8]) -> (r: Vec<u8>)
    ensures
        r@ == spec_lower(s@),
{
    let mut out: Vec<u8> = Vec::new();
    let mut i: usize = 0;
    while i < s.len()
        invariant
            i <= s@.len(),
            out@ == spec_lower(s@.take(i as int)),
        decreases s@.len() - i,
    {
        out.push(ascii_lower_byte(s[i]));
        proof {
            assert(spec_lower(s@.take(i + 1 as int)) =~= spec_lower(s@.take(i as int)).push(
                spec_lower_byte(s@[i as int]),
            ));
        }
        i = i + 1;
    }
    proof {
        assert(s@.take(s@.len() as int) =~= s@);
    }
    out
}

} // verus!
