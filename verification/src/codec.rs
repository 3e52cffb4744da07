//! Little-endian field encoding shared by records, headers, sidecars and manifests.
use vstd::prelude::*;
use vstd::bytes::*;

verus! {

/// Little-endian bytes of a signed 64-bit value (two's complement).
pub open spec fn i64_le(x: i64) -> Seq<u8> {
    spec_u64_to_le_bytes(x as u64)
}

/// The unsigned 64-bit value stored at `off` in `s`.
pub open spec fn u64_at(s: Seq<u8>, off: int) -> u64 {
    spec_u64_from_le_bytes(s.subrange(off, off + 8))
}

/// The signed 64-bit value stored at `off` in `s`.
pub open spec fn i64_at(s: Seq<u8>, off: int) -> i64 {
    u64_at(s, off) as i64
}

/// The unsigned 32-bit value stored at `off` in `s`.
pub open spec fn u32_at(s: Seq<u8>, off: int) -> u32 {
    spec_u32_from_le_bytes(s.subrange(off, off + 4))
}

/// The unsigned 16-bit value stored at `off` in `s`.
pub open spec fn u16_at(s: Seq<u8>, off: int) -> u16 {
    spec_u16_from_le_bytes(s.subrange(off, off + 2))
}

pub proof fn lemma_i64_u64_roundtrip(x: i64)
    ensures
        ((x as u64) as i64) == x,
{
    assert(((x as u64) as i64) == x) by (bit_vector);
}

pub proof fn lemma_i8_u8_roundtrip(x: i8)
    ensures
        ((x as u8) as i8) == x,
{
    assert(((x as u8) as i8) == x) by (bit_vector);
}

pub proof fn lemma_i16_u16_roundtrip(x: i16)
    ensures
        ((x as u16) as i16) == x,
{
    assert(((x as u16) as i16) == x) by (bit_vector);
}

/// Decoding the bytes of an encoded value at a known offset gives the value back.
pub proof fn lemma_u64_at(s: Seq<u8>, off: int, x: u64)
    requires
        0 <= off,
        off + 8 <= s.len(),
        s.subrange(off, off + 8) == spec_u64_to_le_bytes(x),
    ensures
        u64_at(s, off) == x,
{
    lemma_auto_spec_u64_to_from_le_bytes();
}

pub proof fn lemma_i64_at(s: Seq<u8>, off: int, x: i64)
    requires
        0 <= off,
        off + 8 <= s.len(),
        s.subrange(off, off + 8) == i64_le(x),
    ensures
        i64_at(s, off) == x,
{
    lemma_auto_spec_u64_to_from_le_bytes();
    lemma_i64_u64_roundtrip(x);
}

pub proof fn lemma_u32_at(s: Seq<u8>, off: int, x: u32)
    requires
        0 <= off,
        off + 4 <= s.len(),
        s.subrange(off, off + 4) == spec_u32_to_le_bytes(x),
    ensures
        u32_at(s, off) == x,
{
    lemma_auto_spec_u32_to_from_le_bytes();
    assert(spec_u32_to_le_bytes(x).len() == 4);
}

pub proof fn lemma_u16_at(s: Seq<u8>, off: int, x: u16)
    requires
        0 <= off,
        off + 2 <= s.len(),
        s.subrange(off, off + 2) == spec_u16_to_le_bytes(x),
    ensures
        u16_at(s, off) == x,
{
    lemma_auto_spec_u16_to_from_le_bytes();
    assert(spec_u16_to_le_bytes(x).len() == 2);
}

pub proof fn lemma_le_lengths(a: u64, b: i64, c: u32, d: u16)
    ensures
        spec_u64_to_le_bytes(a).len() == 8,
        i64_le(b).len() == 8,
        spec_u32_to_le_bytes(c).len() == 4,
        spec_u16_to_le_bytes(d).len() == 2,
{
    lemma_auto_spec_u64_to_from_le_bytes();
    lemma_auto_spec_u32_to_from_le_bytes();
    lemma_auto_spec_u16_to_from_le_bytes();
}

/// Appends the little-endian bytes of `v`.
pub fn push_u64(out: &mut Vec<u8>, v: u64)
    ensures
        final(out)@ == old(out)@ + spec_u64_to_le_bytes(v),
{
    let mut bytes = u64_to_le_bytes(v);
    out.append(&mut bytes);
}

/// Appends the little-endian two's-complement bytes of `v`.
pub fn push_i64(out: &mut Vec<u8>, v: i64)
    ensures
        final(out)@ == old(out)@ + i64_le(v),
{
    push_u64(out, v as u64);
}

/// Appends the little-endian bytes of `v`.
pub fn push_u32(out: &mut Vec<u8>, v: u32)
    ensures
        final(out)@ == old(out)@ + spec_u32_to_le_bytes(v),
{
    let mut bytes = u32_to_le_bytes(v);
    out.append(&mut bytes);
}

/// Appends the little-endian bytes of `v`.
pub fn push_u16(out: &mut Vec<u8>, v: u16)
    ensures
        final(out)@ == old(out)@ + spec_u16_to_le_bytes(v),
{
    let mut bytes = u16_to_le_bytes(v);
    out.append(&mut bytes);
}

/// Appends every byte of `bytes`.
pub fn push_bytes(out: &mut Vec<u8>, bytes: &[u8])
    ensures
        final(out)@ == old(out)@ + bytes@,
{
    let ghost start = out@;
    let mut i: usize = 0;
    while i < bytes.len()
        invariant
            i <= bytes@.len(),
            out@ == start + bytes@.subrange(0, i as int),
        decreases bytes@.len() - i,
    {
        out.push(bytes[i]);
        i = i + 1;
        assert(out@ =~= start + bytes@.subrange(0, i as int));
    }
    assert(bytes@.subrange(0, i as int) =~= bytes@);
}

/// Reads the unsigned 64-bit value at `off`.
pub fn read_u64_at(bytes: &[u8], off: usize) -> (r: u64)
    requires
        off + 8 <= bytes@.len(),
    ensures
        r == u64_at(bytes@, off as int),
{
    let n = bytes.len();
    let end = off + 8;
    u64_from_le_bytes(&bytes[off..end])
}

/// Reads the signed 64-bit value at `off`.
pub fn read_i64_at(bytes: &[u8], off: usize) -> (r: i64)
    requires
        off + 8 <= bytes@.len(),
    ensures
        r == i64_at(bytes@, off as int),
{
    read_u64_at(bytes, off) as i64
}

/// Reads the unsigned 32-bit value at `off`.
pub fn read_u32_at(bytes: &[u8], off: usize) -> (r: u32)
    requires
        off + 4 <= bytes@.len(),
    ensures
        r == u32_at(bytes@, off as int),
{
    let n = bytes.len();
    let end = off + 4;
    u32_from_le_bytes(&bytes[off..end])
}

/// Reads the unsigned 16-bit value at `off`.
pub fn read_u16_at(bytes: &[u8], off: usize) -> (r: u16)
    requires
        off + 2 <= bytes@.len(),
    ensures
        r == u16_at(bytes@, off as int),
{
    let n = bytes.len();
    let end = off + 2;
    u16_from_le_bytes(&bytes[off..end])
}

} // verus!

verus! {

/// Copies exactly `N` bytes into a fixed-size array.
pub fn to_array<const N: usize>(v: &[u8]) -> (r: [u8; N])
    requires
        v@.len() == N,
    ensures
        r@ == v@,
{
    let mut buf = [0u8; N];
    let mut i: usize = 0;
    while i < N
        invariant
            i <= N,
            v@.len() == N,
            buf@.len() == N,
            forall|j: int| 0 <= j < i ==> buf@[j] == v@[j],
        decreases N - i,
    {
        buf[i] = v[i];
        i = i + 1;
    }
    assert(buf@ =~= v@);
    buf
}

} // verus!

verus! {

/// `x` clamped into the `i64` range.
pub open spec fn sat_i64(x: int) -> int {
    if x > i64::MAX { i64::MAX as int } else if x < i64::MIN { i64::MIN as int } else { x }
}

/// `a + b`, saturating at the `i64` bounds.
pub fn sat_add_i64(a: i64, b: i64) -> (r: i64)
    ensures
        r == sat_i64(a + b),
{
    let s = a as i128 + b as i128;
    if s > i64::MAX as i128 {
        i64::MAX
    } else if s < i64::MIN as i128 {
        i64::MIN
    } else {
        s as i64
    }
}

/// `a - b`, saturating at the `i64` bounds.
pub fn sat_sub_i64(a: i64, b: i64) -> (r: i64)
    ensures
        r == sat_i64(a - b),
{
    let s = a as i128 - b as i128;
    if s > i64::MAX as i128 {
        i64::MAX
    } else if s < i64::MIN as i128 {
        i64::MIN
    } else {
        s as i64
    }
}

} // verus!

verus! {

/// Starting value of the 64-bit FNV-1a checksum.
pub const CHECKSUM_OFFSET: u64 = 0xcbf29ce484222325;

/// Multiplier of the 64-bit FNV-1a checksum.
pub const CHECKSUM_PRIME: u64 = 0x100000001b3;

/// 64-bit FNV-1a over `s`: each byte is xor-ed in, then the digest is multiplied by the
/// prime modulo 2^64.
pub open spec fn fnv64(s: Seq<u8>) -> u64
    decreases s.len(),
{
    if s.len() == 0 {
        CHECKSUM_OFFSET
    } else {
        (fnv64(s.drop_last()) ^ (s.last() as u64)).wrapping_mul(CHECKSUM_PRIME)
    }
}

/// The checksum folds the bytes first to last: the empty input gives the FNV-1a offset
/// `0xcbf29ce484222325`, and appending a byte xors it into the checksum of the bytes before
/// it and multiplies by the FNV prime `0x100000001b3` modulo 2^64. Together the two fix the
/// checksum of every input.
pub proof fn checksum_folds_bytes_in_order(s: Seq<u8>, b: u8)
    ensures
        fnv64(Seq::<u8>::empty()) == 0xcbf29ce484222325u64,
        fnv64(s.push(b)) as int == ((fnv64(s) ^ (b as u64)) as int * 0x100000001b3int) % 0x1_0000_0000_0000_0000int,
{
    assert(s.push(b).drop_last() =~= s);
}

/// Stable 64-bit checksum of manifests and chunk payloads.
pub fn checksum64(bytes: &[u8]) -> (r: u64)
    ensures
        r == fnv64(bytes@),
{
    let mut digest = CHECKSUM_OFFSET;
    let mut i: usize = 0;
    while i < bytes.len()
        invariant
            i <= bytes@.len(),
            digest == fnv64(bytes@.subrange(0, i as int)),
        decreases bytes@.len() - i,
    {
        proof {
            assert(bytes@.subrange(0, i + 1).drop_last() =~= bytes@.subrange(0, i as int));
        }
        digest = digest ^ (bytes[i] as u64);
        digest = digest.wrapping_mul(CHECKSUM_PRIME);
        i = i + 1;
    }
    assert(bytes@.subrange(0, i as int) =~= bytes@);
    digest
}

} // verus!

verus! {

/// `a * b`, saturating at `u64::MAX`.
pub fn sat_mul_u64(a: u64, b: u64) -> (r: u64)
    ensures
        r == (if a * b > u64::MAX { u64::MAX as int } else { a * b }),
{
    match a.checked_mul(b) {
        Some(x) => x,
        None => u64::MAX,
    }
}

} // verus!
