//! Conversions between field elements and Rust integers, the word layout of byte strings,
//! and the textual syntax of field elements.
use vstd::prelude::*;
use vstd::std_specs::convert::FromSpecImpl;
use vstd::std_specs::convert::FromSpec;
use crate::felt::{
    raw_felt_try_from_message, felt_of_value, felt_values, lemma_felt_ext, lemma_felt_of_value, word_values,
    word_vec_contents, words_values, Felt, FIELD_MODULUS,
};
use crate::layout::{felt_values_of_bytes, felts_from_bytes, words_from_felts, words_of_felt_values};

verus! {

impl FromSpecImpl<bool> for Felt {
    open spec fn obeys_from_spec() -> bool {
        true
    }

    open spec fn from_spec(v: bool) -> Felt {
        felt_of_value(((if v { 1u64 } else { 0u64 }) as int % FIELD_MODULUS as int) as u64)
    }
}

impl From<bool> for Felt {
    fn from(v: bool) -> (r: Felt) {
        let r = Felt::new(if v { 1u64 } else { 0u64 });
        proof {
            lemma_felt_of_value(r@);
            lemma_felt_ext(r, felt_of_value(((if v { 1u64 } else { 0u64 }) as int % FIELD_MODULUS as int) as u64));
        }
        r
    }
}

impl FromSpecImpl<u8> for Felt {
    open spec fn obeys_from_spec() -> bool {
        true
    }

    open spec fn from_spec(v: u8) -> Felt {
        felt_of_value(((v as u64) as int % FIELD_MODULUS as int) as u64)
    }
}

impl From<u8> for Felt {
    fn from(v: u8) -> (r: Felt) {
        let r = Felt::new(v as u64);
        proof {
            lemma_felt_of_value(r@);
            lemma_felt_ext(r, felt_of_value(((v as u64) as int % FIELD_MODULUS as int) as u64));
        }
        r
    }
}

impl FromSpecImpl<i8> for Felt {
    open spec fn obeys_from_spec() -> bool {
        true
    }

    open spec fn from_spec(v: i8) -> Felt {
        felt_of_value((((v as u8) as u64) as int % FIELD_MODULUS as int) as u64)
    }
}

impl From<i8> for Felt {
    fn from(v: i8) -> (r: Felt) {
        let r = Felt::new((v as u8) as u64);
        proof {
            lemma_felt_of_value(r@);
            lemma_felt_ext(r, felt_of_value((((v as u8) as u64) as int % FIELD_MODULUS as int) as u64));
        }
        r
    }
}

impl FromSpecImpl<i16> for Felt {
    open spec fn obeys_from_spec() -> bool {
        true
    }

    open spec fn from_spec(v: i16) -> Felt {
        felt_of_value((((v as u16) as u64) as int % FIELD_MODULUS as int) as u64)
    }
}

impl From<i16> for Felt {
    fn from(v: i16) -> (r: Felt) {
        let r = Felt::new((v as u16) as u64);
        proof {
            lemma_felt_of_value(r@);
            lemma_felt_ext(r, felt_of_value((((v as u16) as u64) as int % FIELD_MODULUS as int) as u64));
        }
        r
    }
}

impl FromSpecImpl<u16> for Felt {
    open spec fn obeys_from_spec() -> bool {
        true
    }

    open spec fn from_spec(v: u16) -> Felt {
        felt_of_value(((v as u64) as int % FIELD_MODULUS as int) as u64)
    }
}

impl From<u16> for Felt {
    fn from(v: u16) -> (r: Felt) {
        let r = Felt::new(v as u64);
        proof {
            lemma_felt_of_value(r@);
            lemma_felt_ext(r, felt_of_value(((v as u64) as int % FIELD_MODULUS as int) as u64));
        }
        r
    }
}

impl FromSpecImpl<i32> for Felt {
    open spec fn obeys_from_spec() -> bool {
        true
    }

    open spec fn from_spec(v: i32) -> Felt {
        felt_of_value((((v as u32) as u64) as int % FIELD_MODULUS as int) as u64)
    }
}

impl From<i32> for Felt {
    fn from(v: i32) -> (r: Felt) {
        let r = Felt::new((v as u32) as u64);
        proof {
            lemma_felt_of_value(r@);
            lemma_felt_ext(r, felt_of_value((((v as u32) as u64) as int % FIELD_MODULUS as int) as u64));
        }
        r
    }
}

impl FromSpecImpl<u32> for Felt {
    open spec fn obeys_from_spec() -> bool {
        true
    }

    open spec fn from_spec(v: u32) -> Felt {
        felt_of_value(((v as u64) as int % FIELD_MODULUS as int) as u64)
    }
}

impl From<u32> for Felt {
    fn from(v: u32) -> (r: Felt) {
        let r = Felt::new(v as u64);
        proof {
            lemma_felt_of_value(r@);
            lemma_felt_ext(r, felt_of_value(((v as u64) as int % FIELD_MODULUS as int) as u64));
        }
        r
    }
}

impl FromSpecImpl<u64> for Felt {
    open spec fn obeys_from_spec() -> bool {
        true
    }

    open spec fn from_spec(v: u64) -> Felt {
        felt_of_value(((v) as int % FIELD_MODULUS as int) as u64)
    }
}

impl From<u64> for Felt {
    fn from(v: u64) -> (r: Felt) {
        let r = Felt::new(v);
        proof {
            lemma_felt_of_value(r@);
            lemma_felt_ext(r, felt_of_value(((v) as int % FIELD_MODULUS as int) as u64));
        }
        r
    }
}

impl FromSpecImpl<i64> for Felt {
    open spec fn obeys_from_spec() -> bool {
        true
    }

    open spec fn from_spec(v: i64) -> Felt {
        felt_of_value(((v as u64) as int % FIELD_MODULUS as int) as u64)
    }
}

impl From<i64> for Felt {
    fn from(v: i64) -> (r: Felt) {
        let r = Felt::new(v as u64);
        proof {
            lemma_felt_of_value(r@);
            lemma_felt_ext(r, felt_of_value(((v as u64) as int % FIELD_MODULUS as int) as u64));
        }
        r
    }
}

impl FromSpecImpl<Felt> for bool {
    open spec fn obeys_from_spec() -> bool {
        true
    }

    open spec fn from_spec(f: Felt) -> bool {
        f@ != 0
    }
}

impl From<Felt> for bool {
    fn from(f: Felt) -> (r: bool) {
        f.as_int() != 0
    }
}

impl FromSpecImpl<Felt> for u8 {
    open spec fn obeys_from_spec() -> bool {
        true
    }

    open spec fn from_spec(f: Felt) -> u8 {
        f@ as u8
    }
}

impl From<Felt> for u8 {
    fn from(f: Felt) -> (r: u8) {
        f.as_int() as u8
    }
}

impl FromSpecImpl<Felt> for i8 {
    open spec fn obeys_from_spec() -> bool {
        true
    }

    open spec fn from_spec(f: Felt) -> i8 {
        f@ as i8
    }
}

impl From<Felt> for i8 {
    fn from(f: Felt) -> (r: i8) {
        f.as_int() as i8
    }
}

impl FromSpecImpl<Felt> for u16 {
    open spec fn obeys_from_spec() -> bool {
        true
    }

    open spec fn from_spec(f: Felt) -> u16 {
        f@ as u16
    }
}

impl From<Felt> for u16 {
    fn from(f: Felt) -> (r: u16) {
        f.as_int() as u16
    }
}

impl FromSpecImpl<Felt> for i16 {
    open spec fn obeys_from_spec() -> bool {
        true
    }

    open spec fn from_spec(f: Felt) -> i16 {
        f@ as i16
    }
}

impl From<Felt> for i16 {
    fn from(f: Felt) -> (r: i16) {
        f.as_int() as i16
    }
}

impl FromSpecImpl<Felt> for u32 {
    open spec fn obeys_from_spec() -> bool {
        true
    }

    open spec fn from_spec(f: Felt) -> u32 {
        f@ as u32
    }
}

impl From<Felt> for u32 {
    fn from(f: Felt) -> (r: u32) {
        f.as_int() as u32
    }
}

impl FromSpecImpl<Felt> for i32 {
    open spec fn obeys_from_spec() -> bool {
        true
    }

    open spec fn from_spec(f: Felt) -> i32 {
        f@ as i32
    }
}

impl From<Felt> for i32 {
    fn from(f: Felt) -> (r: i32) {
        f.as_int() as i32
    }
}

impl FromSpecImpl<Felt> for u64 {
    open spec fn obeys_from_spec() -> bool {
        true
    }

    open spec fn from_spec(f: Felt) -> u64 {
        f@
    }
}

impl From<Felt> for u64 {
    fn from(f: Felt) -> (r: u64) {
        f.as_int()
    }
}

impl FromSpecImpl<Felt> for i64 {
    open spec fn obeys_from_spec() -> bool {
        true
    }

    open spec fn from_spec(f: Felt) -> i64 {
        f@ as i64
    }
}

impl From<Felt> for i64 {
    fn from(f: Felt) -> (r: i64) {
        f.as_int() as i64
    }
}

/// The canonical values of a sequence of word arrays.
pub open spec fn word_arrays_values(ws: Seq<[Felt; 4]>) -> Seq<Seq<u64>> {
    ws.map_values(|w: [Felt; 4]| felt_values(w@))
}

/// The words carrying `bytes`: four little-endian bytes per element, four elements per word in
/// reverse order, zero-padded to a whole number of words.
///
/// Words placed on the stack and written to memory word by word lay the input bytes out
/// in Miden's memory in order.
pub fn bytes_to_words(bytes: &[u8]) -> (r: Vec<[Felt; 4]>)
    ensures
        word_arrays_values(r@) == words_of_felt_values(
            felt_values_of_bytes(bytes@),
        ),
{
    let felts = felts_from_bytes(bytes);
    let words = words_from_felts(felts.as_slice());
    let ws = words.as_slice();
    let ghost spec_words = words_of_felt_values(felt_values_of_bytes(bytes@));
    let mut out: Vec<[Felt; 4]> = Vec::new();
    let mut i: usize = 0;
    while i < ws.len()
        invariant
            i <= ws@.len(),
            words_values(ws@) == spec_words,
            word_arrays_values(out@) == spec_words.take(i as int),
        decreases ws@.len() - i,
    {
        let w = ws[i].elements;
        let ghost before = out@;
        out.push(w);
        proof {
            assert(spec_words[i as int] == word_values(ws@[i as int]));
            assert(word_arrays_values(out@) =~= word_arrays_values(before).push(felt_values(w@)));
        }
        i += 1;
        assert(word_arrays_values(out@) =~= spec_words.take(i as int));
    }
    assert(spec_words.take(ws@.len() as int) =~= spec_words);
    out
}

/// Converting an integer into a field element and back gives the integer again: for `bool`
/// and the integer types of at most 32 bits always, for `u64` below the field order, and for
/// `i64` whose bits, read unsigned, are below the field order.
pub proof fn lemma_integer_felt_roundtrip(
    b: bool,
    x8: u8,
    y8: i8,
    x16: u16,
    y16: i16,
    x32: u32,
    y32: i32,
    x64: u64,
    y64: i64,
)
    requires
        x64 < FIELD_MODULUS,
        (y64 as u64) < FIELD_MODULUS,
    ensures
        <bool as vstd::std_specs::convert::FromSpec<Felt>>::from_spec(<Felt as vstd::std_specs::convert::FromSpec<bool>>::from_spec(b)) == b,
        <u8 as vstd::std_specs::convert::FromSpec<Felt>>::from_spec(<Felt as vstd::std_specs::convert::FromSpec<u8>>::from_spec(x8)) == x8,
        <i8 as vstd::std_specs::convert::FromSpec<Felt>>::from_spec(<Felt as vstd::std_specs::convert::FromSpec<i8>>::from_spec(y8)) == y8,
        <u16 as vstd::std_specs::convert::FromSpec<Felt>>::from_spec(<Felt as vstd::std_specs::convert::FromSpec<u16>>::from_spec(x16))
            == x16,
        <i16 as vstd::std_specs::convert::FromSpec<Felt>>::from_spec(<Felt as vstd::std_specs::convert::FromSpec<i16>>::from_spec(y16))
            == y16,
        <u32 as vstd::std_specs::convert::FromSpec<Felt>>::from_spec(<Felt as vstd::std_specs::convert::FromSpec<u32>>::from_spec(x32))
            == x32,
        <i32 as vstd::std_specs::convert::FromSpec<Felt>>::from_spec(<Felt as vstd::std_specs::convert::FromSpec<i32>>::from_spec(y32))
            == y32,
        <u64 as vstd::std_specs::convert::FromSpec<Felt>>::from_spec(<Felt as vstd::std_specs::convert::FromSpec<u64>>::from_spec(x64))
            == x64,
        <i64 as vstd::std_specs::convert::FromSpec<Felt>>::from_spec(<Felt as vstd::std_specs::convert::FromSpec<i64>>::from_spec(y64))
            == y64,
{
    lemma_felt_of_value((if b { 1u64 } else { 0u64 }));
    lemma_felt_of_value(x8 as u64);
    lemma_felt_of_value((y8 as u8) as u64);
    lemma_felt_of_value(x16 as u64);
    lemma_felt_of_value((y16 as u16) as u64);
    lemma_felt_of_value(x32 as u64);
    lemma_felt_of_value((y32 as u32) as u64);
    lemma_felt_of_value(x64);
    lemma_felt_of_value(y64 as u64);
    assert(((y8 as u8) as u64) as i8 == y8) by (bit_vector);
    assert(((y16 as u16) as u64) as i16 == y16) by (bit_vector);
    assert(((y32 as u32) as u64) as i32 == y32) by (bit_vector);
    assert((x8 as u64) as u8 == x8) by (bit_vector);
    assert((x16 as u64) as u16 == x16) by (bit_vector);
    assert((x32 as u64) as u32 == x32) by (bit_vector);
    assert((y64 as u64) as i64 == y64) by (bit_vector);
}

/// The field element of an integer has the integer's value: an unsigned integer and a
/// non-negative signed one map to themselves, a negative signed integer of `n` bits maps to
/// its bits read unsigned (its value plus `2^n`), and a `u64` at or above the field order
/// wraps around it. `true` is one and `false` is zero. A signed integer and the unsigned one
/// with the same bits give the same element.
pub proof fn lemma_integer_to_felt(
    b: bool,
    x8: u8,
    y8: i8,
    x16: u16,
    y16: i16,
    x32: u32,
    y32: i32,
    x64: u64,
    y64: i64,
)
    ensures
        <Felt as FromSpec<bool>>::from_spec(b)@ == (if b { 1u64 } else { 0u64 }),
        <Felt as FromSpec<u8>>::from_spec(x8)@ == x8,
        <Felt as FromSpec<u16>>::from_spec(x16)@ == x16,
        <Felt as FromSpec<u32>>::from_spec(x32)@ == x32,
        x64 < FIELD_MODULUS ==> <Felt as FromSpec<u64>>::from_spec(x64)@ == x64,
        x64 >= FIELD_MODULUS ==> <Felt as FromSpec<u64>>::from_spec(x64)@ == x64 - FIELD_MODULUS,
        y8 >= 0 ==> <Felt as FromSpec<i8>>::from_spec(y8)@ == y8,
        y8 < 0 ==> <Felt as FromSpec<i8>>::from_spec(y8)@ == y8 + 0x100,
        y16 >= 0 ==> <Felt as FromSpec<i16>>::from_spec(y16)@ == y16,
        y16 < 0 ==> <Felt as FromSpec<i16>>::from_spec(y16)@ == y16 + 0x1_0000,
        y32 >= 0 ==> <Felt as FromSpec<i32>>::from_spec(y32)@ == y32,
        y32 < 0 ==> <Felt as FromSpec<i32>>::from_spec(y32)@ == y32 + 0x1_0000_0000,
        y64 >= 0 ==> <Felt as FromSpec<i64>>::from_spec(y64)@ == y64,
        y64 < 0 ==> <Felt as FromSpec<i64>>::from_spec(y64)@ == (y64 + 0x1_0000_0000_0000_0000)
            % (FIELD_MODULUS as int),
        <Felt as FromSpec<i8>>::from_spec(y8) == <Felt as FromSpec<u8>>::from_spec(y8 as u8),
        <Felt as FromSpec<i16>>::from_spec(y16) == <Felt as FromSpec<u16>>::from_spec(y16 as u16),
        <Felt as FromSpec<i32>>::from_spec(y32) == <Felt as FromSpec<u32>>::from_spec(y32 as u32),
        <Felt as FromSpec<i64>>::from_spec(y64) == <Felt as FromSpec<u64>>::from_spec(y64 as u64),
{
    lemma_felt_of_value((if b { 1u64 } else { 0u64 }));
    lemma_felt_of_value(x8 as u64);
    lemma_felt_of_value(x16 as u64);
    lemma_felt_of_value(x32 as u64);
    lemma_felt_of_value((x64 as int % FIELD_MODULUS as int) as u64);
    lemma_felt_of_value((y8 as u8) as u64);
    lemma_felt_of_value((y16 as u16) as u64);
    lemma_felt_of_value((y32 as u32) as u64);
    lemma_felt_of_value(((y64 as u64) as int % FIELD_MODULUS as int) as u64);
    assert(y8 >= 0 ==> (y8 as u8) as u64 == y8) by (bit_vector);
    assert(y8 < 0 ==> (y8 as u8) as u64 == y8 + 0x100) by (bit_vector);
    assert(y16 >= 0 ==> (y16 as u16) as u64 == y16) by (bit_vector);
    assert(y16 < 0 ==> (y16 as u16) as u64 == y16 + 0x1_0000) by (bit_vector);
    assert(y32 >= 0 ==> (y32 as u32) as u64 == y32) by (bit_vector);
    assert(y32 < 0 ==> (y32 as u32) as u64 == y32 + 0x1_0000_0000) by (bit_vector);
    assert(y64 >= 0 ==> y64 as u64 == y64) by (bit_vector);
    assert(y64 < 0 ==> y64 as u64 == y64 + 0x1_0000_0000_0000_0000) by (bit_vector);
}

/// An integer taken from a field element keeps the low bits of the element's value: as many
/// as the integer type has, read signed for a signed type; a `u64` keeps the whole value, and
/// a `bool` is whether the value is not zero.
pub proof fn lemma_felt_to_integer(f: Felt)
    ensures
        <bool as FromSpec<Felt>>::from_spec(f) == (f@ != 0),
        <u8 as FromSpec<Felt>>::from_spec(f) == f@ % 0x100,
        <u16 as FromSpec<Felt>>::from_spec(f) == f@ % 0x1_0000,
        <u32 as FromSpec<Felt>>::from_spec(f) == f@ % 0x1_0000_0000,
        <u64 as FromSpec<Felt>>::from_spec(f) == f@,
        f@ % 0x100 < 0x80 ==> <i8 as FromSpec<Felt>>::from_spec(f) == f@ % 0x100,
        f@ % 0x100 >= 0x80 ==> <i8 as FromSpec<Felt>>::from_spec(f) == f@ % 0x100 - 0x100,
        f@ % 0x1_0000 < 0x8000 ==> <i16 as FromSpec<Felt>>::from_spec(f) == f@ % 0x1_0000,
        f@ % 0x1_0000 >= 0x8000 ==> <i16 as FromSpec<Felt>>::from_spec(f) == f@ % 0x1_0000
            - 0x1_0000,
        f@ % 0x1_0000_0000 < 0x8000_0000 ==> <i32 as FromSpec<Felt>>::from_spec(f) == f@
            % 0x1_0000_0000,
        f@ % 0x1_0000_0000 >= 0x8000_0000 ==> <i32 as FromSpec<Felt>>::from_spec(f) == f@
            % 0x1_0000_0000 - 0x1_0000_0000,
        f@ < 0x8000_0000_0000_0000 ==> <i64 as FromSpec<Felt>>::from_spec(f) == f@,
        f@ >= 0x8000_0000_0000_0000 ==> <i64 as FromSpec<Felt>>::from_spec(f) == f@
            - 0x1_0000_0000_0000_0000,
{
    let x: u64 = f@;
    assert(x as u8 == x % 0x100) by (bit_vector);
    assert(x as u16 == x % 0x1_0000) by (bit_vector);
    assert(x as u32 == x % 0x1_0000_0000) by (bit_vector);
    assert(x % 0x100 < 0x80 ==> x as i8 == x % 0x100) by (bit_vector);
    assert(x % 0x100 >= 0x80 ==> x as i8 == x % 0x100 - 0x100) by (bit_vector);
    assert(x % 0x1_0000 < 0x8000 ==> x as i16 == x % 0x1_0000) by (bit_vector);
    assert(x % 0x1_0000 >= 0x8000 ==> x as i16 == x % 0x1_0000 - 0x1_0000) by (bit_vector);
    assert(x % 0x1_0000_0000 < 0x8000_0000 ==> x as i32 == x % 0x1_0000_0000) by (bit_vector);
    assert(x % 0x1_0000_0000 >= 0x8000_0000 ==> x as i32 == x % 0x1_0000_0000 - 0x1_0000_0000)
        by (bit_vector);
    assert(x < 0x8000_0000_0000_0000 ==> x as i64 == x) by (bit_vector);
    assert(x >= 0x8000_0000_0000_0000 ==> x as i64 == x - 0x1_0000_0000_0000_0000) by (bit_vector);
}

/// The value of `c` as a digit in base `radix`, or -1 where it is no such digit.
pub open spec fn digit_value(c: char, radix: u32) -> int {
    let d = if '0' <= c <= '9' {
        c as int - '0' as int
    } else if 'a' <= c <= 'z' {
        c as int - 'a' as int + 10
    } else if 'A' <= c <= 'Z' {
        c as int - 'A' as int + 10
    } else {
        36
    };
    if d < radix {
        d
    } else {
        -1
    }
}

/// The value of the digit string `s` in base `radix`.
pub open spec fn digits_value(s: Seq<char>, radix: u32) -> int
    decreases s.len(),
{
    if s.len() == 0 {
        0
    } else {
        digits_value(s.drop_last(), radix) * radix + digit_value(s.last(), radix)
    }
}

/// The digits of an unsigned integer literal: what follows an optional leading `+`.
pub open spec fn literal_digits(s: Seq<char>) -> Seq<char> {
    if s.len() > 0 && s[0] == '+' {
        s.skip(1)
    } else {
        s
    }
}

/// The value of `s` as a `u64` literal in base `radix`: an optional `+` followed by one or
/// more digits, whose value fits in 64 bits.
pub open spec fn u64_literal(s: Seq<char>, radix: u32) -> Option<u64> {
    let d = literal_digits(s);
    if d.len() > 0 && (forall|i: int| 0 <= i < d.len() ==> digit_value(#[trigger] d[i], radix) >= 0)
        && digits_value(d, radix) <= u64::MAX {
        Some(digits_value(d, radix) as u64)
    } else {
        None
    }
}

/// The message of the error that `u64::from_str_radix(s, radix)` reports.
pub uninterp spec fn parse_int_error_message(s: Seq<char>, radix: u32) -> Seq<char>;

/// Calls `u64::from_str_radix`.
///
/// The contract claims what that function's documentation says: the string must be an
/// optional `+` followed only by digits of the radix, whose value fits in a `u64`; it fails
/// otherwise, and the message of its error depends on the string and radix alone. The radix
/// must lie in `2..=36`, else the function panics.
#[verifier::external_body]
fn u64_from_str_radix(s: &str, radix: u32) -> (r: Result<u64, String>)
    requires
        2 <= radix <= 36,
    ensures
        r is Ok <==> u64_literal(s@, radix) is Some,
        r matches Ok(v) ==> u64_literal(s@, radix) == Some(v),
        r matches Err(m) ==> m@ == parse_int_error_message(s@, radix),
{
    match u64::from_str_radix(s, radix) {
        Ok(v) => Ok(v),
        Err(e) => Err(e.to_string()),
    }
}

/// Whether `c` is whitespace in the sense of `char::is_whitespace`: it has the Unicode
/// `White_Space` property.
pub open spec fn is_unicode_whitespace(c: char) -> bool {
    let n = c as u32;
    ||| 0x9 <= n <= 0xD
    ||| n == 0x20
    ||| n == 0x85
    ||| n == 0xA0
    ||| n == 0x1680
    ||| 0x2000 <= n <= 0x200A
    ||| n == 0x2028
    ||| n == 0x2029
    ||| n == 0x202F
    ||| n == 0x205F
    ||| n == 0x3000
}

/// The number of whitespace characters that `s` starts with.
pub open spec fn leading_whitespace(s: Seq<char>) -> nat
    decreases s.len(),
{
    if s.len() > 0 && is_unicode_whitespace(s[0]) {
        1 + leading_whitespace(s.drop_first())
    } else {
        0
    }
}

/// The number of whitespace characters that `s` ends with.
pub open spec fn trailing_whitespace(s: Seq<char>) -> nat
    decreases s.len(),
{
    if s.len() > 0 && is_unicode_whitespace(s.last()) {
        1 + trailing_whitespace(s.drop_last())
    } else {
        0
    }
}

/// The text of `s` with leading and trailing whitespace removed.
pub open spec fn trim_whitespace(s: Seq<char>) -> Seq<char> {
    let t = s.skip(leading_whitespace(s) as int);
    t.take(t.len() - trailing_whitespace(t))
}

/// Calls `str::trim`, which, as its documentation says, removes leading and trailing
/// whitespace as `char::is_whitespace` defines it.
#[verifier::external_body]
fn str_trim(s: &str) -> (r: &str)
    ensures
        r@ == trim_whitespace(s@),
{
    s.trim()
}

/// Whether `s` starts with the hexadecimal prefix `0x`.
pub open spec fn has_hex_prefix(s: Seq<char>) -> bool {
    s.len() >= 2 && s[0] == '0' && s[1] == 'x'
}

/// The digits and radix of a field element literal: hexadecimal after a `0x` prefix, decimal
/// otherwise.
pub open spec fn felt_literal_parts(s: Seq<char>) -> (Seq<char>, u32) {
    if has_hex_prefix(s) {
        (s.skip(2), 16u32)
    } else {
        (s, 10u32)
    }
}

/// The outcome of parsing `s` as a field element: its value, or the message explaining why
/// it is not one.
pub open spec fn felt_literal(s: Seq<char>) -> Result<u64, Seq<char>> {
    let (digits, radix) = felt_literal_parts(s);
    match u64_literal(digits, radix) {
        None => Err("invalid field element value: "@ + parse_int_error_message(digits, radix)),
        Some(v) => if v > FIELD_MODULUS {
            Err("invalid field element value: exceeds the field modulus"@)
        } else if v == FIELD_MODULUS {
            Err(raw_felt_try_from_message(v))
        } else {
            Ok(v)
        },
    }
}

/// Whether a parse result agrees with [felt_literal].
pub open spec fn parse_agrees(r: Result<Felt, String>, expected: Result<u64, Seq<char>>) -> bool {
    match (r, expected) {
        (Ok(f), Ok(v)) => f@ == v,
        (Err(m), Err(e)) => m@ == e,
        _ => false,
    }
}

impl Felt {
    /// Parse a field element from decimal text, or hexadecimal text after a `0x` prefix.
    pub fn parse(s: &str) -> (r: Result<Felt, String>)
        ensures
            parse_agrees(r, felt_literal(s@)),
    {
        let len = s.unicode_len();
        let hex = len >= 2 && s.get_char(0) == '0' && s.get_char(1) == 'x';
        let parsed = if hex {
            let digits = s.substring_char(2, len);
            assert(digits@ =~= felt_literal_parts(s@).0);
            u64_from_str_radix(digits, 16)
        } else {
            u64_from_str_radix(s, 10)
        };
        let value = match parsed {
            Ok(v) => v,
            Err(e) => {
                let mut msg = "invalid field element value: ".to_owned();
                msg.append(e.as_str());
                return Err(msg);
            },
        };
        if value > FIELD_MODULUS {
            Err("invalid field element value: exceeds the field modulus".to_owned())
        } else {
            Felt::try_from_u64(value)
        }
    }
}

/// The outcome of reading the number `n` as a field element, as deserialization reports it:
/// its value, or the message explaining why it is not one.
pub open spec fn checked_felt_value(n: u64) -> Result<u64, Seq<char>> {
    if n > FIELD_MODULUS {
        Err("invalid field element value: exceeds the field modulus"@)
    } else if n == FIELD_MODULUS {
        Err("invalid field element value: "@ + raw_felt_try_from_message(n))
    } else {
        Ok(n)
    }
}

impl Felt {
    /// The field element of the number `n`, or the message explaining why `n` is none (see
    /// `checked_felt_value`).
    pub fn from_u64_checked(n: u64) -> (r: Result<Felt, String>)
        ensures
            parse_agrees(r, checked_felt_value(n)),
    {
        if n > FIELD_MODULUS {
            Err("invalid field element value: exceeds the field modulus".to_owned())
        } else {
            match Felt::try_from_u64(n) {
                Ok(f) => Ok(f),
                Err(e) => {
                    let mut msg = "invalid field element value: ".to_owned();
                    msg.append(e.as_str());
                    Err(msg)
                },
            }
        }
    }
}

impl core::str::FromStr for Felt {
    type Err = String;

    fn from_str(s: &str) -> (r: Result<Felt, String>)
        ensures
            parse_agrees(r, felt_literal(s@)),
    {
        Felt::parse(s)
    }
}

/// The command-line value parser for field elements.
#[derive(Clone, Copy)]
pub struct FeltParser;

impl FeltParser {
    /// Parse a field element from command-line text, ignoring surrounding whitespace.
    pub fn parse_str(&self, value: &str) -> (r: Result<Felt, String>)
        ensures
            parse_agrees(r, felt_literal(trim_whitespace(value@))),
    {
        let value = str_trim(value);
        Felt::parse(value)
    }
}

} // verus!
