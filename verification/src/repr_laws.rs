//! What converting a value into a representation and back gives.
use vstd::prelude::*;
use crate::encoding::{
    be_bytes_u128, be_bytes_u64, be_u128, be_u64, le_bytes_u16, le_bytes_u32, le_u16, le_u32,
    lemma_be_u128_roundtrip, lemma_be_u64_roundtrip, lemma_le_bytes_u32_of, lemma_le_u16_roundtrip,
    lemma_le_u32_roundtrip, pow2_32, pow2_64,
};
use crate::felt::{felt_of_value, felt_values, lemma_felt_ext, lemma_felt_of_value, Felt};
use crate::layout::{
    bytes_of_felt_values, chunk_count, felt_values_of_bytes, felt_values_of_words, padded_chunk,
    words_of_felt_values,
};
use crate::repr::{
    byte_array_of, popped_values, u128_limbs, u128_of_limbs, u64_limbs, u64_of_limbs,
    FromMidenRepr, ToMidenRepr,
};

verus! {

/// Every representation of `v` that exists converts back to `v`, and its field element
/// representation has the size the type declares.
pub open spec fn roundtrips<T: ToMidenRepr + FromMidenRepr>(v: T) -> bool {
    &&& v.has_byte_repr() ==> T::accepts_bytes(v.byte_repr()) && T::from_byte_repr(v.byte_repr())
        == v
    &&& v.felt_repr().len() == T::felt_size()
    &&& T::accepts_felts(v.felt_repr())
    &&& T::from_felt_repr(v.felt_repr()) == v
    &&& T::accepts_words(v.word_repr())
    &&& T::from_word_repr(v.word_repr()) == v
}

/// Grouping field element values into words and reading them back gives the values again,
/// followed by zero padding.
pub proof fn lemma_words_layout_roundtrip(f: Seq<u64>)
    ensures
        felt_values_of_words(words_of_felt_values(f)).len() >= f.len(),
        felt_values_of_words(words_of_felt_values(f)).take(f.len() as int) == f,
{
    let w = words_of_felt_values(f);
    let g = felt_values_of_words(w);
    assert(4 * chunk_count(f.len() as int) >= f.len());
    assert forall|k: int| 0 <= k < f.len() implies #[trigger] g[k] == f[k] by {
        let i = k / 4;
        let j = 3 - k % 4;
        assert(0 <= i < chunk_count(f.len() as int));
        assert(4 * i + 3 - j == k);
        assert(w[i][j] == f[k]);
    }
    assert(g.take(f.len() as int) =~= f);
}

/// Carrying bytes in field elements and reading them back gives the bytes again, followed by
/// zero padding.
pub proof fn lemma_bytes_layout_roundtrip(b: Seq<u8>)
    ensures
        bytes_of_felt_values(felt_values_of_bytes(b)).len() >= b.len(),
        bytes_of_felt_values(felt_values_of_bytes(b)).take(b.len() as int) == b,
{
    let f = felt_values_of_bytes(b);
    let g = bytes_of_felt_values(f);
    assert(4 * chunk_count(b.len() as int) >= b.len());
    assert forall|k: int| 0 <= k < b.len() implies #[trigger] g[k] == b[k] by {
        let i = k / 4;
        let j = k % 4;
        assert(0 <= i < chunk_count(b.len() as int));
        let c = padded_chunk(b, i);
        lemma_le_bytes_u32_of(c);
        assert(f[i] as int == le_u32(c));
        assert((f[i] as int) % pow2_32() == le_u32(c));
        assert(4 * i + j == k);
        assert(c[j] == b[k]);
    }
    assert(g.take(b.len() as int) =~= b);
}

/// What pushing a value on the operand stack and popping a value of the same type gives: the
/// value again, with the stack as it was.
pub proof fn lemma_operand_stack_roundtrip<T: ToMidenRepr + FromMidenRepr>(
    v: T,
    before: Seq<Felt>,
    after: Seq<Felt>,
)
    requires
        roundtrips(v),
        felt_values(after) == felt_values(before) + v.felt_repr().reverse(),
    ensures
        after.len() >= T::felt_size(),
        T::accepts_felts(popped_values(after, T::felt_size())),
        T::from_felt_repr(popped_values(after, T::felt_size())) == v,
        after.take(after.len() - T::felt_size()) == before,
{
    let n = T::felt_size();
    assert(felt_values(after).len() == after.len());
    assert(after.len() == before.len() + n);
    assert(popped_values(after, n) =~= v.felt_repr()) by {
        assert forall|k: int| 0 <= k < n implies #[trigger] popped_values(after, n)[k]
            == v.felt_repr()[k] by {
            assert(popped_values(after, n)[k] == after[after.len() - 1 - k]@);
            assert(felt_values(after)[after.len() - 1 - k] == after[after.len() - 1 - k]@);
        }
    }
    assert forall|k: int| 0 <= k < before.len() implies #[trigger] after.take(
        after.len() - n,
    )[k] == before[k] by {
        assert(felt_values(after)[k] == felt_values(before)[k]);
        lemma_felt_ext(after[k], before[k]);
    }
    assert(after.take(after.len() - n) =~= before);
}

/// A `bool` converts back from every representation it has.
pub proof fn lemma_bool_roundtrip(v: bool)
    ensures
        roundtrips(v),
{
    lemma_words_layout_roundtrip(v.felt_repr());
}

/// A `u8` converts back from every representation it has.
pub proof fn lemma_u8_roundtrip(v: u8)
    ensures
        roundtrips(v),
{
    lemma_words_layout_roundtrip(v.felt_repr());
}

/// An `i8` converts back from every representation it has.
pub proof fn lemma_i8_roundtrip(v: i8)
    ensures
        roundtrips(v),
{
    lemma_words_layout_roundtrip(v.felt_repr());
    assert(((v as u8) as i8) == v) by (bit_vector);
}

/// A `u16` converts back from every representation it has.
pub proof fn lemma_u16_roundtrip(v: u16)
    ensures
        roundtrips(v),
{
    lemma_words_layout_roundtrip(v.felt_repr());
    lemma_le_u16_roundtrip(v as int);
    assert(le_bytes_u16(v as int).take(2) =~= le_bytes_u16(v as int));
}

/// An `i16` converts back from every representation it has.
pub proof fn lemma_i16_roundtrip(v: i16)
    ensures
        roundtrips(v),
{
    let u = v as u16;
    lemma_words_layout_roundtrip(v.felt_repr());
    lemma_le_u16_roundtrip(u as int);
    assert(le_bytes_u16(u as int).take(2) =~= le_bytes_u16(u as int));
    assert(((v as u16) as i16) == v) by (bit_vector);
}

/// A `u32` converts back from every representation it has.
pub proof fn lemma_u32_roundtrip(v: u32)
    ensures
        roundtrips(v),
{
    lemma_words_layout_roundtrip(v.felt_repr());
    lemma_le_u32_roundtrip(v as int);
    assert(le_bytes_u32(v as int).take(4) =~= le_bytes_u32(v as int));
}

/// An `i32` converts back from every representation it has.
pub proof fn lemma_i32_roundtrip(v: i32)
    ensures
        roundtrips(v),
{
    let u = v as u32;
    lemma_words_layout_roundtrip(v.felt_repr());
    lemma_le_u32_roundtrip(u as int);
    assert(le_bytes_u32(u as int).take(4) =~= le_bytes_u32(u as int));
    assert(((v as u32) as i32) == v) by (bit_vector);
}

proof fn lemma_u64_limbs_roundtrip(x: int)
    requires
        0 <= x < pow2_64(),
    ensures
        u64_of_limbs(u64_limbs(x)[0], u64_limbs(x)[1]) == x,
{
    let hi = x / pow2_32();
    let lo = x % pow2_32();
    assert(0 <= hi < 4294967296 && 0 <= lo < 4294967296 && x == hi * 4294967296 + lo)
        by (nonlinear_arith)
        requires
            0 <= x < 18446744073709551616,
            hi == x / 4294967296,
            lo == x % 4294967296,
    ;
}

/// A `u64` converts back from every representation it has.
pub proof fn lemma_u64_roundtrip(v: u64)
    ensures
        roundtrips(v),
{
    lemma_words_layout_roundtrip(v.felt_repr());
    lemma_be_u64_roundtrip(v as int);
    assert(be_bytes_u64(v as int).take(8) =~= be_bytes_u64(v as int));
    lemma_u64_limbs_roundtrip(v as int);
    let g = felt_values_of_words(v.word_repr());
    assert(g[0] == v.felt_repr()[0] && g[1] == v.felt_repr()[1]) by {
        assert(g.take(2)[0] == g[0]);
        assert(g.take(2)[1] == g[1]);
    }
}

/// An `i64` converts back from every representation it has.
pub proof fn lemma_i64_roundtrip(v: i64)
    ensures
        roundtrips(v),
{
    let u = v as u64;
    lemma_words_layout_roundtrip(v.felt_repr());
    lemma_be_u64_roundtrip(u as int);
    assert(be_bytes_u64(u as int).take(8) =~= be_bytes_u64(u as int));
    lemma_u64_limbs_roundtrip(u as int);
    let g = felt_values_of_words(v.word_repr());
    assert(g[0] == v.felt_repr()[0] && g[1] == v.felt_repr()[1]) by {
        assert(g.take(2)[0] == g[0]);
        assert(g.take(2)[1] == g[1]);
    }
    assert(((v as u64) as i64) == v) by (bit_vector);
}

/// Reading back the field element representation of a 128-bit value swaps its 64-bit halves:
/// the representation lists the limbs of the low half first, and reading takes the first
/// limbs for the high half.
pub proof fn lemma_u128_felts_swap_halves(v: u128)
    ensures
        <u128 as FromMidenRepr>::from_felt_repr(v.felt_repr()) as int == (v as int % pow2_64())
            * pow2_64() + v as int / pow2_64(),
{
    let hi = v as int / pow2_64();
    let lo = v as int % pow2_64();
    assert(0 <= hi < pow2_64() && 0 <= lo < pow2_64()) by (nonlinear_arith)
        requires
            0 <= v < 18446744073709551616 * 18446744073709551616,
            hi == v / 18446744073709551616,
            lo == v % 18446744073709551616,
    ;
    lemma_u64_limbs_roundtrip(hi);
    lemma_u64_limbs_roundtrip(lo);
    let f = v.felt_repr();
    assert(f[0] == u64_limbs(lo)[0] && f[1] == u64_limbs(lo)[1]);
    assert(f[2] == u64_limbs(hi)[0] && f[3] == u64_limbs(hi)[1]);
    assert(u128_of_limbs(f) == lo * pow2_64() + hi);
    assert(0 <= lo * 18446744073709551616 + hi < 18446744073709551616 * 18446744073709551616)
        by (nonlinear_arith)
        requires
            0 <= hi < 18446744073709551616,
            0 <= lo < 18446744073709551616,
    ;
}

/// The byte representation of a 128-bit value reads back as the value.
pub proof fn lemma_u128_bytes_roundtrip(v: u128)
    ensures
        <u128 as FromMidenRepr>::accepts_bytes(v.byte_repr()),
        <u128 as FromMidenRepr>::from_byte_repr(v.byte_repr()) == v,
{
    lemma_be_u128_roundtrip(v as int);
    assert(be_bytes_u128(v as int).take(16) =~= be_bytes_u128(v as int));
}

/// A 128-bit value whose two 64-bit halves are equal converts back from every representation.
pub proof fn lemma_u128_roundtrip(v: u128)
    requires
        v as int / pow2_64() == v as int % pow2_64(),
    ensures
        roundtrips(v),
{
    lemma_u128_bytes_roundtrip(v);
    lemma_u128_felts_swap_halves(v);
    let hi = v as int / pow2_64();
    let lo = v as int % pow2_64();
    assert(v == hi * pow2_64() + lo) by (nonlinear_arith)
        requires
            0 <= v,
            hi == v / 18446744073709551616,
            lo == v % 18446744073709551616,
    ;
    lemma_words_layout_roundtrip(v.felt_repr());
    let g = felt_values_of_words(v.word_repr());
    let f = v.felt_repr();
    assert(g[0] == f[0] && g[1] == f[1] && g[2] == f[2] && g[3] == f[3]) by {
        assert(g.take(4)[0] == g[0]);
        assert(g.take(4)[1] == g[1]);
        assert(g.take(4)[2] == g[2]);
        assert(g.take(4)[3] == g[3]);
    }
    assert(u128_of_limbs(g) == u128_of_limbs(f));
}

/// The byte representation of a signed 128-bit value reads back as the value.
pub proof fn lemma_i128_bytes_roundtrip(v: i128)
    ensures
        <i128 as FromMidenRepr>::accepts_bytes(v.byte_repr()),
        <i128 as FromMidenRepr>::from_byte_repr(v.byte_repr()) == v,
{
    let u = v as u128;
    lemma_be_u128_roundtrip(u as int);
    assert(be_bytes_u128(u as int).take(16) =~= be_bytes_u128(u as int));
    assert(((v as u128) as i128) == v) by (bit_vector);
}

/// A signed 128-bit value whose two 64-bit halves are equal converts back from every
/// representation.
pub proof fn lemma_i128_roundtrip(v: i128)
    requires
        (v as u128) as int / pow2_64() == (v as u128) as int % pow2_64(),
    ensures
        roundtrips(v),
{
    let u = v as u128;
    lemma_i128_bytes_roundtrip(v);
    lemma_u128_roundtrip(u);
    assert(v.felt_repr() == u.felt_repr());
    assert(((v as u128) as i128) == v) by (bit_vector);
}

/// A `Felt` converts back from every representation it has.
pub proof fn lemma_felt_roundtrip(v: Felt)
    ensures
        roundtrips(v),
{
    lemma_felt_of_value(v@);
    lemma_felt_ext(felt_of_value(v@), v);
}

proof fn lemma_byte_array_of<const N: usize>(b: Seq<u8>, v: [u8; N])
    requires
        b.len() >= N,
        v@ == b.take(N as int),
    ensures
        byte_array_of::<N>(b) == v,
{
    let c = byte_array_of::<N>(b);
    assert(c@ == b.take(N as int));
    assert(c =~= v);
}

proof fn lemma_prefix_agrees(g: Seq<u8>, h: Seq<u8>, n: int)
    requires
        0 <= n <= g.len(),
        n <= h.len(),
        forall|k: int| 0 <= k < n ==> #[trigger] g[k] == h[k],
    ensures
        g.take(n) == h.take(n),
{
    assert(g.take(n) =~= h.take(n));
}

/// A byte array converts back from its bytes, its field elements, its words and the
/// operand stack.
pub proof fn lemma_byte_array_roundtrip<const N: usize>(v: [u8; N])
    ensures
        roundtrips(v),
{
    let b = v@;
    assert(b.take(N as int) =~= b);
    lemma_byte_array_of::<N>(b, v);
    lemma_bytes_layout_roundtrip(b);
    let f = felt_values_of_bytes(b);
    let g = bytes_of_felt_values(f);
    lemma_byte_array_of::<N>(g, v);
    lemma_words_layout_roundtrip(f);
    let h = felt_values_of_words(words_of_felt_values(f));
    let hb = bytes_of_felt_values(h);
    assert forall|k: int| 0 <= k < N implies #[trigger] hb[k] == g[k] by {
        assert(0 <= k / 4 < f.len());
        assert(h.take(f.len() as int)[k / 4] == f[k / 4]);
        assert(h[k / 4] == f[k / 4]);
    }
    lemma_prefix_agrees(hb, g, N as int);
    lemma_byte_array_of::<N>(hb, v);
}

/// The words of a byte array's representation are those that `bytes_to_words` gives for its
/// bytes.
pub proof fn lemma_bytes_to_words_agrees<const N: usize>(v: [u8; N])
    ensures
        v.word_repr() == words_of_felt_values(felt_values_of_bytes(v@)),
{
}

} // verus!
