//! Byte-level encodings of integers, and the layouts by which byte strings are carried in
//! field elements and words.
use vstd::prelude::*;

verus! {

/// Two to the 32nd power.
pub open spec fn pow2_32() -> int {
    4294967296
}

/// Two to the 64th power.
pub open spec fn pow2_64() -> int {
    18446744073709551616
}

/// Little-endian bytes of a 16-bit value.
pub open spec fn le_bytes_u16(x: int) -> Seq<u8> {
    seq![(x % 256) as u8, ((x / 256) % 256) as u8]
}

/// The value of two little-endian bytes.
pub open spec fn le_u16(b: Seq<u8>) -> int {
    b[0] + 256 * b[1]
}

/// Little-endian bytes of a 32-bit value.
pub open spec fn le_bytes_u32(x: int) -> Seq<u8> {
    seq![
        (x % 256) as u8,
        ((x / 256) % 256) as u8,
        ((x / 65536) % 256) as u8,
        ((x / 16777216) % 256) as u8,
    ]
}

/// The value of four little-endian bytes.
pub open spec fn le_u32(b: Seq<u8>) -> int {
    b[0] + 256 * b[1] + 65536 * b[2] + 16777216 * b[3]
}

/// Big-endian bytes of a 32-bit value.
pub open spec fn be_bytes_u32(x: int) -> Seq<u8> {
    seq![
        ((x / 16777216) % 256) as u8,
        ((x / 65536) % 256) as u8,
        ((x / 256) % 256) as u8,
        (x % 256) as u8,
    ]
}

/// The value of four big-endian bytes.
pub open spec fn be_u32(b: Seq<u8>) -> int {
    16777216 * b[0] + 65536 * b[1] + 256 * b[2] + b[3]
}

/// Big-endian bytes of a 64-bit value.
pub open spec fn be_bytes_u64(x: int) -> Seq<u8> {
    be_bytes_u32(x / pow2_32()) + be_bytes_u32(x % pow2_32())
}

/// The value of eight big-endian bytes.
pub open spec fn be_u64(b: Seq<u8>) -> int {
    be_u32(b.subrange(0, 4)) * pow2_32() + be_u32(b.subrange(4, 8))
}

/// Big-endian bytes of a 128-bit value.
pub open spec fn be_bytes_u128(x: int) -> Seq<u8> {
    be_bytes_u64(x / pow2_64()) + be_bytes_u64(x % pow2_64())
}

/// The value of sixteen big-endian bytes.
pub open spec fn be_u128(b: Seq<u8>) -> int {
    be_u64(b.subrange(0, 8)) * pow2_64() + be_u64(b.subrange(8, 16))
}

/// A 16-bit value has two little-endian bytes, which read back as the value.
pub proof fn lemma_le_u16_roundtrip(x: int)
    requires
        0 <= x < 65536,
    ensures
        le_bytes_u16(x).len() == 2,
        le_u16(le_bytes_u16(x)) == x,
{
    assert(le_u16(le_bytes_u16(x)) == x) by (nonlinear_arith)
        requires
            0 <= x < 65536,
            le_bytes_u16(x)[0] == x % 256,
            le_bytes_u16(x)[1] == (x / 256) % 256,
    ;
}

/// A 32-bit value has four little-endian bytes, which read back as the value.
pub proof fn lemma_le_u32_roundtrip(x: int)
    requires
        0 <= x < pow2_32(),
    ensures
        le_bytes_u32(x).len() == 4,
        le_u32(le_bytes_u32(x)) == x,
{
    let b = le_bytes_u32(x);
    assert(le_u32(b) == x) by (nonlinear_arith)
        requires
            0 <= x < 4294967296,
            b[0] == x % 256,
            b[1] == (x / 256) % 256,
            b[2] == (x / 65536) % 256,
            b[3] == (x / 16777216) % 256,
    ;
}

/// Four bytes are the little-endian bytes of the 32-bit value they read as.
pub proof fn lemma_le_bytes_u32_of(b: Seq<u8>)
    requires
        b.len() == 4,
    ensures
        0 <= le_u32(b) < pow2_32(),
        le_bytes_u32(le_u32(b)) == b,
{
    let x = le_u32(b);
    let b0 = b[0] as int;
    let b1 = b[1] as int;
    let b2 = b[2] as int;
    let b3 = b[3] as int;
    assert(0 <= x < 4294967296 && x % 256 == b0 && (x / 256) % 256 == b1 && (x / 65536) % 256
        == b2 && (x / 16777216) % 256 == b3) by (nonlinear_arith)
        requires
            x == b0 + 256 * b1 + 65536 * b2 + 16777216 * b3,
            0 <= b0 < 256,
            0 <= b1 < 256,
            0 <= b2 < 256,
            0 <= b3 < 256,
    ;
    assert(le_bytes_u32(x) =~= b);
}

/// A 32-bit value has four big-endian bytes, which read back as the value.
pub proof fn lemma_be_u32_roundtrip(x: int)
    requires
        0 <= x < pow2_32(),
    ensures
        be_bytes_u32(x).len() == 4,
        be_u32(be_bytes_u32(x)) == x,
{
    let b = be_bytes_u32(x);
    assert(be_u32(b) == x) by (nonlinear_arith)
        requires
            0 <= x < 4294967296,
            b[3] == x % 256,
            b[2] == (x / 256) % 256,
            b[1] == (x / 65536) % 256,
            b[0] == (x / 16777216) % 256,
    ;
}

/// Four big-endian bytes read as a 32-bit value.
pub proof fn lemma_be_u32_bound(b: Seq<u8>)
    requires
        b.len() == 4,
    ensures
        0 <= be_u32(b) < pow2_32(),
{
}

/// A 64-bit value has eight big-endian bytes, which read back as the value.
pub proof fn lemma_be_u64_roundtrip(x: int)
    requires
        0 <= x < pow2_64(),
    ensures
        be_bytes_u64(x).len() == 8,
        be_u64(be_bytes_u64(x)) == x,
{
    let hi = x / pow2_32();
    let lo = x % pow2_32();
    assert(0 <= hi < pow2_32() && 0 <= lo < pow2_32() && x == hi * pow2_32() + lo)
        by (nonlinear_arith)
        requires
            0 <= x < 18446744073709551616,
            hi == x / 4294967296,
            lo == x % 4294967296,
    ;
    lemma_be_u32_roundtrip(hi);
    lemma_be_u32_roundtrip(lo);
    let b = be_bytes_u64(x);
    assert(b.subrange(0, 4) =~= be_bytes_u32(hi));
    assert(b.subrange(4, 8) =~= be_bytes_u32(lo));
}

/// Eight big-endian bytes read as a 64-bit value.
pub proof fn lemma_be_u64_bound(b: Seq<u8>)
    requires
        b.len() == 8,
    ensures
        0 <= be_u64(b) < pow2_64(),
{
    let hi = be_u32(b.subrange(0, 4));
    let lo = be_u32(b.subrange(4, 8));
    lemma_be_u32_bound(b.subrange(0, 4));
    lemma_be_u32_bound(b.subrange(4, 8));
    assert(0 <= hi * 4294967296 + lo < 18446744073709551616) by (nonlinear_arith)
        requires
            0 <= hi < 4294967296,
            0 <= lo < 4294967296,
    ;
}

/// A 128-bit value has sixteen big-endian bytes, which read back as the value.
pub proof fn lemma_be_u128_roundtrip(x: int)
    requires
        0 <= x < pow2_64() * pow2_64(),
    ensures
        be_bytes_u128(x).len() == 16,
        be_u128(be_bytes_u128(x)) == x,
{
    let hi = x / pow2_64();
    let lo = x % pow2_64();
    assert(0 <= hi < pow2_64() && 0 <= lo < pow2_64() && x == hi * pow2_64() + lo)
        by (nonlinear_arith)
        requires
            0 <= x < 18446744073709551616 * 18446744073709551616,
            hi == x / 18446744073709551616,
            lo == x % 18446744073709551616,
    ;
    lemma_be_u64_roundtrip(hi);
    lemma_be_u64_roundtrip(lo);
    let b = be_bytes_u128(x);
    assert(b.subrange(0, 8) =~= be_bytes_u64(hi));
    assert(b.subrange(8, 16) =~= be_bytes_u64(lo));
}

/// Little-endian bytes of `x`, as an array.
pub fn le_bytes_of_u16(x: u16) -> (r: [u8; 2])
    ensures
        r@ == le_bytes_u16(x as int),
{
    let r = [(x % 256) as u8, ((x / 256) % 256) as u8];
    assert(r@ =~= le_bytes_u16(x as int));
    r
}

/// The value of two little-endian bytes.
pub fn u16_of_le_bytes(b0: u8, b1: u8) -> (r: u16)
    ensures
        r as int == le_u16(seq![b0, b1]),
{
    (b0 as u16) + 256 * (b1 as u16)
}

/// Little-endian bytes of `x`, as an array.
pub fn le_bytes_of_u32(x: u32) -> (r: [u8; 4])
    ensures
        r@ == le_bytes_u32(x as int),
{
    let r = [
        (x % 256) as u8,
        ((x / 256) % 256) as u8,
        ((x / 65536) % 256) as u8,
        ((x / 16777216) % 256) as u8,
    ];
    assert(r@ =~= le_bytes_u32(x as int));
    r
}

/// The value of four little-endian bytes.
pub fn u32_of_le_bytes(b0: u8, b1: u8, b2: u8, b3: u8) -> (r: u32)
    ensures
        r as int == le_u32(seq![b0, b1, b2, b3]),
{
    (b0 as u32) + 256 * (b1 as u32) + 65536 * (b2 as u32) + 16777216 * (b3 as u32)
}

/// Big-endian bytes of `x`, appended to `out`.
pub fn push_be_bytes_of_u32(out: &mut Vec<u8>, x: u32)
    ensures
        final(out)@ == old(out)@ + be_bytes_u32(x as int),
{
    out.push(((x / 16777216) % 256) as u8);
    out.push(((x / 65536) % 256) as u8);
    out.push(((x / 256) % 256) as u8);
    out.push((x % 256) as u8);
    assert(out@ =~= old(out)@ + be_bytes_u32(x as int));
}

/// The value of the four big-endian bytes of `b` starting at `at`.
pub fn u32_of_be_bytes_at(b: &[u8], at: usize) -> (r: u32)
    requires
        at + 4 <= b@.len(),
    ensures
        r as int == be_u32(b@.subrange(at as int, at + 4)),
{
    16777216 * (b[at] as u32) + 65536 * (b[at + 1] as u32) + 256 * (b[at + 2] as u32) + (b[at
        + 3] as u32)
}

/// Big-endian bytes of `x`.
pub fn be_bytes_of_u64(x: u64) -> (r: Vec<u8>)
    ensures
        r@ == be_bytes_u64(x as int),
{
    let mut r = Vec::new();
    push_be_bytes_of_u32(&mut r, (x / 4294967296) as u32);
    push_be_bytes_of_u32(&mut r, (x % 4294967296) as u32);
    assert(r@ =~= be_bytes_u64(x as int));
    r
}

/// The value of the eight big-endian bytes of `b` starting at `at`.
pub fn u64_of_be_bytes_at(b: &[u8], at: usize) -> (r: u64)
    requires
        at + 8 <= b@.len(),
    ensures
        r as int == be_u64(b@.subrange(at as int, at + 8)),
{
    let _n = b.len();
    let hi = u32_of_be_bytes_at(b, at);
    let lo = u32_of_be_bytes_at(b, at + 4);
    let ghost s = b@.subrange(at as int, at + 8);
    assert(s.subrange(0, 4) =~= b@.subrange(at as int, at + 4));
    assert(s.subrange(4, 8) =~= b@.subrange(at + 4, at + 8));
    (hi as u64) * 4294967296 + (lo as u64)
}

/// Big-endian bytes of `x`.
pub fn be_bytes_of_u128(x: u128) -> (r: Vec<u8>)
    ensures
        r@ == be_bytes_u128(x as int),
{
    let mut r = be_bytes_of_u64((x / 18446744073709551616) as u64);
    let mut lo = be_bytes_of_u64((x % 18446744073709551616) as u64);
    r.append(&mut lo);
    assert(r@ =~= be_bytes_u128(x as int));
    r
}

/// The value of the sixteen big-endian bytes of `b` starting at `at`.
pub fn u128_of_be_bytes_at(b: &[u8], at: usize) -> (r: u128)
    requires
        at + 16 <= b@.len(),
    ensures
        r as int == be_u128(b@.subrange(at as int, at + 16)),
{
    let _n = b.len();
    let hi = u64_of_be_bytes_at(b, at);
    let lo = u64_of_be_bytes_at(b, at + 8);
    let ghost s = b@.subrange(at as int, at + 16);
    assert(s.subrange(0, 8) =~= b@.subrange(at as int, at + 8));
    assert(s.subrange(8, 16) =~= b@.subrange(at + 8, at + 16));
    proof {
        lemma_be_u64_bound(b@.subrange(at as int, at + 8));
        lemma_be_u64_bound(b@.subrange(at + 8, at + 16));
        assert(hi * 18446744073709551616 + lo < 18446744073709551616 * 18446744073709551616)
            by (nonlinear_arith)
            requires
                hi < 18446744073709551616,
                lo < 18446744073709551616,
        ;
    }
    (hi as u128) * 18446744073709551616 + (lo as u128)
}

} // verus!
