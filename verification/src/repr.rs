//! Conversions of values to and from the representations the Miden VM works with: raw bytes,
//! field elements, words, and the operand and advice stacks.
use vstd::prelude::*;
use crate::encoding::{
    be_bytes_of_u64, be_bytes_u64, be_u64, le_bytes_of_u16, le_bytes_of_u32, le_bytes_u16,
    le_bytes_u32, le_u16, le_u32, pow2_32, u16_of_le_bytes, u32_of_le_bytes, u64_of_be_bytes_at,
    be_bytes_of_u128, be_bytes_u128, be_u128, u128_of_be_bytes_at, pow2_64,
};
use crate::felt::{
    byte_vec_contents, byte_vec_new, byte_vec_push, felt_of_value, felt_values, felt_vec_contents,
    felt_vec_new, felt_vec_push, lemma_felt_of_own_value, word_values, word_vec_contents, word_vec_new,
    word_vec_push, words_values, ByteVec, Felt, FeltVec, Word, WordVec,
};
use crate::layout::{
    bytes_from_felts, bytes_of_felt_values, chunk_count, felt_values_of_bytes,
    felt_values_of_words, felts_from_bytes, felts_from_words, flatten_words, pop_felts,
    push_felt_vec, push_word_vec, words_from_felts, words_of_felt_values,
};

verus! {

/// Conversion of a value into the representations used by the Miden VM.
pub trait ToMidenRepr {
    /// Whether the value has a byte representation at all.
    spec fn has_byte_repr(&self) -> bool;

    /// The bytes of the value, least significant first unless the type says otherwise.
    spec fn byte_repr(&self) -> Seq<u8>;

    /// The values of the field elements representing the value.
    spec fn felt_repr(&self) -> Seq<u64>;

    /// The values of the words representing the value.
    spec fn word_repr(&self) -> Seq<Seq<u64>>;

    /// Convert this value into its raw byte representation.
    fn to_bytes(&self) -> (r: ByteVec)
        requires
            self.has_byte_repr(),
        ensures
            byte_vec_contents(r) == self.byte_repr(),
    ;

    /// Convert this value into one or more field elements.
    fn to_felts(&self) -> (r: FeltVec)
        ensures
            felt_values(felt_vec_contents(r)) == self.felt_repr(),
    ;

    /// Convert this value into one or more words, zero-padding as needed.
    fn to_words(&self) -> (r: WordVec)
        ensures
            words_values(word_vec_contents(r)) == self.word_repr(),
    ;

    /// Push this value on the operand stack in its field element representation, leaving the
    /// first element on top.
    fn push_to_operand_stack(&self, stack: &mut Vec<Felt>)
        ensures
            felt_values(final(stack)@) == felt_values(old(stack)@) + self.felt_repr().reverse(),
    ;

    /// Push this value on the advice stack in its word representation, last word first, and
    /// return the number of words pushed.
    fn push_words_to_advice_stack(&self, stack: &mut Vec<Felt>) -> (n: usize)
        ensures
            n == self.word_repr().len(),
            felt_values(final(stack)@) == felt_values(old(stack)@) + flatten_words(
                self.word_repr().reverse(),
            ),
    ;
}

/// Extraction of a value from the representations used by the Miden VM.
pub trait FromMidenRepr: Sized {
    /// The number of field elements in the representation.
    spec fn felt_size() -> nat;

    /// Whether `bytes` encodes a value of this type.
    spec fn accepts_bytes(bytes: Seq<u8>) -> bool;

    /// The value encoded by `bytes`.
    spec fn from_byte_repr(bytes: Seq<u8>) -> Self;

    /// Whether the field element values `felts` encode a value of this type.
    spec fn accepts_felts(felts: Seq<u64>) -> bool;

    /// The value encoded by the field element values `felts`.
    spec fn from_felt_repr(felts: Seq<u64>) -> Self;

    /// Whether the word values `words` encode a value of this type.
    spec fn accepts_words(words: Seq<Seq<u64>>) -> bool;

    /// The value encoded by the word values `words`.
    spec fn from_word_repr(words: Seq<Seq<u64>>) -> Self;

    /// The size of this type in field elements.
    fn size_in_felts() -> (n: usize)
        ensures
            n == Self::felt_size(),
    ;

    /// Extract a value from its byte representation.
    fn from_bytes(bytes: &[u8]) -> (r: Self)
        requires
            Self::accepts_bytes(bytes@),
        ensures
            r == Self::from_byte_repr(bytes@),
    ;

    /// Extract a value from its field element representation.
    fn from_felts(felts: &[Felt]) -> (r: Self)
        requires
            Self::accepts_felts(felt_values(felts@)),
        ensures
            r == Self::from_felt_repr(felt_values(felts@)),
    ;

    /// Extract a value from its word representation.
    fn from_words(words: &[Word]) -> (r: Self)
        requires
            Self::accepts_words(words_values(words@)),
        ensures
            r == Self::from_word_repr(words_values(words@)),
    ;

    /// Pop a value off the operand stack, top element first.
    fn pop_from_stack(stack: &mut Vec<Felt>) -> (r: Self)
        requires
            old(stack)@.len() >= Self::felt_size(),
            Self::accepts_felts(
                felt_values(old(stack)@.skip(old(stack)@.len() - Self::felt_size()).reverse()),
            ),
        ensures
            final(stack)@ == old(stack)@.take(old(stack)@.len() - Self::felt_size()),
            r == Self::from_felt_repr(
                felt_values(old(stack)@.skip(old(stack)@.len() - Self::felt_size()).reverse()),
            ),
    ;
}

/// The field element values popped, top first, when `count` elements are taken off `stack`.
pub open spec fn popped_values(stack: Seq<Felt>, count: nat) -> Seq<u64> {
    felt_values(stack.skip(stack.len() - count).reverse())
}

/// A vector holding one field element.
fn single_felt(f: Felt) -> (r: FeltVec)
    ensures
        felt_values(felt_vec_contents(r)) == seq![f@],
{
    let mut v = felt_vec_new();
    felt_vec_push(&mut v, f);
    assert(felt_values(felt_vec_contents(v)) =~= seq![f@]);
    v
}

/// A vector holding the given bytes.
fn byte_vec_from(bytes: &[u8]) -> (r: ByteVec)
    ensures
        byte_vec_contents(r) == bytes@,
{
    let mut v = byte_vec_new();
    let mut i: usize = 0;
    while i < bytes.len()
        invariant
            i <= bytes@.len(),
            byte_vec_contents(v) == bytes@.take(i as int),
        decreases bytes@.len() - i,
    {
        byte_vec_push(&mut v, bytes[i]);
        i += 1;
        assert(byte_vec_contents(v) =~= bytes@.take(i as int));
    }
    assert(bytes@.take(bytes@.len() as int) =~= bytes@);
    v
}

// ---------------------------------------------------------------------------------------------
// bool

impl ToMidenRepr for bool {
    open spec fn has_byte_repr(&self) -> bool {
        true
    }

    open spec fn byte_repr(&self) -> Seq<u8> {
        seq![if *self { 1u8 } else { 0u8 }]
    }

    open spec fn felt_repr(&self) -> Seq<u64> {
        seq![if *self { 1u64 } else { 0u64 }]
    }

    open spec fn word_repr(&self) -> Seq<Seq<u64>> {
        words_of_felt_values(self.felt_repr())
    }

    fn to_bytes(&self) -> (r: ByteVec) {
        let mut v = byte_vec_new();
        byte_vec_push(&mut v, if *self { 1u8 } else { 0u8 });
        assert(byte_vec_contents(v) =~= self.byte_repr());
        v
    }

    fn to_felts(&self) -> (r: FeltVec) {
        single_felt(Felt::new(if *self { 1u64 } else { 0u64 }))
    }

    fn to_words(&self) -> (r: WordVec) {
        let felts = self.to_felts();
        words_from_felts(felts.as_slice())
    }

    fn push_to_operand_stack(&self, stack: &mut Vec<Felt>) {
        stack.push(Felt::new(if *self { 1u64 } else { 0u64 }));
        assert(felt_values(stack@) =~= felt_values(old(stack)@) + self.felt_repr().reverse());
    }

    fn push_words_to_advice_stack(&self, stack: &mut Vec<Felt>) -> (n: usize) {
        let words = self.to_words();
        push_word_vec(&words, stack)
    }
}

impl FromMidenRepr for bool {
    open spec fn felt_size() -> nat {
        1
    }

    open spec fn accepts_bytes(bytes: Seq<u8>) -> bool {
        bytes.len() >= 1 && bytes[0] <= 1
    }

    open spec fn from_byte_repr(bytes: Seq<u8>) -> bool {
        bytes[0] == 1
    }

    open spec fn accepts_felts(felts: Seq<u64>) -> bool {
        felts.len() >= 1 && felts[0] <= 1
    }

    open spec fn from_felt_repr(felts: Seq<u64>) -> bool {
        felts[0] == 1
    }

    open spec fn accepts_words(words: Seq<Seq<u64>>) -> bool {
        Self::accepts_felts(felt_values_of_words(words))
    }

    open spec fn from_word_repr(words: Seq<Seq<u64>>) -> bool {
        Self::from_felt_repr(felt_values_of_words(words))
    }

    fn size_in_felts() -> (n: usize) {
        1
    }

    fn from_bytes(bytes: &[u8]) -> (r: bool) {
        match bytes[0] {
            0 => false,
            _ => true,
        }
    }

    fn from_felts(felts: &[Felt]) -> (r: bool) {
        match felts[0].as_int() {
            0 => false,
            _ => true,
        }
    }

    fn from_words(words: &[Word]) -> (r: bool) {
        let felts = felts_from_words(words);
        Self::from_felts(felts.as_slice())
    }

    fn pop_from_stack(stack: &mut Vec<Felt>) -> (r: bool) {
        let ghost old_stack = stack@;
        let f = stack.pop().unwrap();
        assert(popped_values(old_stack, 1) =~= seq![f@]);
        assert(stack@ =~= old_stack.take(old_stack.len() - 1));
        match f.as_int() {
            0 => false,
            _ => true,
        }
    }
}

// ---------------------------------------------------------------------------------------------
// u8

impl ToMidenRepr for u8 {
    open spec fn has_byte_repr(&self) -> bool {
        true
    }

    open spec fn byte_repr(&self) -> Seq<u8> {
        seq![*self]
    }

    open spec fn felt_repr(&self) -> Seq<u64> {
        seq![*self as u64]
    }

    open spec fn word_repr(&self) -> Seq<Seq<u64>> {
        words_of_felt_values(self.felt_repr())
    }

    fn to_bytes(&self) -> (r: ByteVec) {
        let mut v = byte_vec_new();
        byte_vec_push(&mut v, *self);
        assert(byte_vec_contents(v) =~= self.byte_repr());
        v
    }

    fn to_felts(&self) -> (r: FeltVec) {
        single_felt(Felt::new(*self as u64))
    }

    fn to_words(&self) -> (r: WordVec) {
        let felts = self.to_felts();
        words_from_felts(felts.as_slice())
    }

    fn push_to_operand_stack(&self, stack: &mut Vec<Felt>) {
        stack.push(Felt::new(*self as u64));
        assert(felt_values(stack@) =~= felt_values(old(stack)@) + self.felt_repr().reverse());
    }

    fn push_words_to_advice_stack(&self, stack: &mut Vec<Felt>) -> (n: usize) {
        let words = self.to_words();
        push_word_vec(&words, stack)
    }
}

impl FromMidenRepr for u8 {
    open spec fn felt_size() -> nat {
        1
    }

    open spec fn accepts_bytes(bytes: Seq<u8>) -> bool {
        bytes.len() >= 1
    }

    open spec fn from_byte_repr(bytes: Seq<u8>) -> u8 {
        bytes[0]
    }

    open spec fn accepts_felts(felts: Seq<u64>) -> bool {
        felts.len() >= 1
    }

    open spec fn from_felt_repr(felts: Seq<u64>) -> u8 {
        (felts[0] % 256) as u8
    }

    open spec fn accepts_words(words: Seq<Seq<u64>>) -> bool {
        Self::accepts_felts(felt_values_of_words(words))
    }

    open spec fn from_word_repr(words: Seq<Seq<u64>>) -> u8 {
        Self::from_felt_repr(felt_values_of_words(words))
    }

    fn size_in_felts() -> (n: usize) {
        1
    }

    fn from_bytes(bytes: &[u8]) -> (r: u8) {
        bytes[0]
    }

    fn from_felts(felts: &[Felt]) -> (r: u8) {
        (felts[0].as_int() % 256) as u8
    }

    fn from_words(words: &[Word]) -> (r: u8) {
        let felts = felts_from_words(words);
        Self::from_felts(felts.as_slice())
    }

    fn pop_from_stack(stack: &mut Vec<Felt>) -> (r: u8) {
        let ghost old_stack = stack@;
        let f = stack.pop().unwrap();
        assert(popped_values(old_stack, 1) =~= seq![f@]);
        assert(stack@ =~= old_stack.take(old_stack.len() - 1));
        (f.as_int() % 256) as u8
    }
}

// ---------------------------------------------------------------------------------------------
// u32

impl ToMidenRepr for u32 {
    open spec fn has_byte_repr(&self) -> bool {
        true
    }

    open spec fn byte_repr(&self) -> Seq<u8> {
        le_bytes_u32(*self as int)
    }

    open spec fn felt_repr(&self) -> Seq<u64> {
        seq![*self as u64]
    }

    open spec fn word_repr(&self) -> Seq<Seq<u64>> {
        words_of_felt_values(self.felt_repr())
    }

    fn to_bytes(&self) -> (r: ByteVec) {
        let b = le_bytes_of_u32(*self);
        byte_vec_from(&b)
    }

    fn to_felts(&self) -> (r: FeltVec) {
        single_felt(Felt::new(*self as u64))
    }

    fn to_words(&self) -> (r: WordVec) {
        let felts = self.to_felts();
        words_from_felts(felts.as_slice())
    }

    fn push_to_operand_stack(&self, stack: &mut Vec<Felt>) {
        stack.push(Felt::new(*self as u64));
        assert(felt_values(stack@) =~= felt_values(old(stack)@) + self.felt_repr().reverse());
    }

    fn push_words_to_advice_stack(&self, stack: &mut Vec<Felt>) -> (n: usize) {
        let words = self.to_words();
        push_word_vec(&words, stack)
    }
}

impl FromMidenRepr for u32 {
    open spec fn felt_size() -> nat {
        1
    }

    open spec fn accepts_bytes(bytes: Seq<u8>) -> bool {
        bytes.len() >= 4
    }

    open spec fn from_byte_repr(bytes: Seq<u8>) -> u32 {
        le_u32(bytes.take(4)) as u32
    }

    open spec fn accepts_felts(felts: Seq<u64>) -> bool {
        felts.len() >= 1
    }

    open spec fn from_felt_repr(felts: Seq<u64>) -> u32 {
        ((felts[0] as int) % pow2_32()) as u32
    }

    open spec fn accepts_words(words: Seq<Seq<u64>>) -> bool {
        Self::accepts_felts(felt_values_of_words(words))
    }

    open spec fn from_word_repr(words: Seq<Seq<u64>>) -> u32 {
        Self::from_felt_repr(felt_values_of_words(words))
    }

    fn size_in_felts() -> (n: usize) {
        1
    }

    fn from_bytes(bytes: &[u8]) -> (r: u32) {
        let r = u32_of_le_bytes(bytes[0], bytes[1], bytes[2], bytes[3]);
        assert(seq![bytes@[0], bytes@[1], bytes@[2], bytes@[3]] =~= bytes@.take(4));
        r
    }

    fn from_felts(felts: &[Felt]) -> (r: u32) {
        (felts[0].as_int() % 4294967296) as u32
    }

    fn from_words(words: &[Word]) -> (r: u32) {
        let felts = felts_from_words(words);
        Self::from_felts(felts.as_slice())
    }

    fn pop_from_stack(stack: &mut Vec<Felt>) -> (r: u32) {
        let ghost old_stack = stack@;
        let f = stack.pop().unwrap();
        assert(popped_values(old_stack, 1) =~= seq![f@]);
        assert(stack@ =~= old_stack.take(old_stack.len() - 1));
        (f.as_int() % 4294967296) as u32
    }
}

// ---------------------------------------------------------------------------------------------
// u64

/// The two 32-bit limbs of a 64-bit value, most significant first.
pub open spec fn u64_limbs(x: int) -> Seq<u64> {
    seq![(x / pow2_32()) as u64, (x % pow2_32()) as u64]
}

/// The 64-bit value of two 32-bit limbs (each taken modulo 2^32), most significant first.
pub open spec fn u64_of_limbs(hi: u64, lo: u64) -> int {
    ((hi as int) % pow2_32()) * pow2_32() + (lo as int) % pow2_32()
}

fn u64_to_felts(x: u64) -> (r: FeltVec)
    ensures
        felt_values(felt_vec_contents(r)) == u64_limbs(x as int),
{
    let mut v = felt_vec_new();
    felt_vec_push(&mut v, Felt::new(x / 4294967296));
    felt_vec_push(&mut v, Felt::new(x % 4294967296));
    assert(felt_values(felt_vec_contents(v)) =~= u64_limbs(x as int));
    v
}

fn u64_from_felts(felts: &[Felt]) -> (r: u64)
    requires
        felts@.len() >= 2,
    ensures
        r as int == u64_of_limbs(felts@[0]@, felts@[1]@),
{
    let hi = felts[0].as_int() % 4294967296;
    let lo = felts[1].as_int() % 4294967296;
    assert(hi * 4294967296 + lo < 18446744073709551616) by (nonlinear_arith)
        requires
            hi < 4294967296,
            lo < 4294967296,
    ;
    hi * 4294967296 + lo
}

impl ToMidenRepr for u64 {
    open spec fn has_byte_repr(&self) -> bool {
        true
    }

    open spec fn byte_repr(&self) -> Seq<u8> {
        be_bytes_u64(*self as int)
    }

    open spec fn felt_repr(&self) -> Seq<u64> {
        u64_limbs(*self as int)
    }

    open spec fn word_repr(&self) -> Seq<Seq<u64>> {
        words_of_felt_values(self.felt_repr())
    }

    fn to_bytes(&self) -> (r: ByteVec) {
        let b = be_bytes_of_u64(*self);
        byte_vec_from(b.as_slice())
    }

    fn to_felts(&self) -> (r: FeltVec) {
        u64_to_felts(*self)
    }

    fn to_words(&self) -> (r: WordVec) {
        let felts = self.to_felts();
        words_from_felts(felts.as_slice())
    }

    fn push_to_operand_stack(&self, stack: &mut Vec<Felt>) {
        let felts = self.to_felts();
        push_felt_vec(&felts, stack);
    }

    fn push_words_to_advice_stack(&self, stack: &mut Vec<Felt>) -> (n: usize) {
        let words = self.to_words();
        push_word_vec(&words, stack)
    }
}

impl FromMidenRepr for u64 {
    open spec fn felt_size() -> nat {
        2
    }

    open spec fn accepts_bytes(bytes: Seq<u8>) -> bool {
        bytes.len() >= 8
    }

    open spec fn from_byte_repr(bytes: Seq<u8>) -> u64 {
        be_u64(bytes.take(8)) as u64
    }

    open spec fn accepts_felts(felts: Seq<u64>) -> bool {
        felts.len() >= 2
    }

    open spec fn from_felt_repr(felts: Seq<u64>) -> u64 {
        u64_of_limbs(felts[0], felts[1]) as u64
    }

    open spec fn accepts_words(words: Seq<Seq<u64>>) -> bool {
        Self::accepts_felts(felt_values_of_words(words))
    }

    open spec fn from_word_repr(words: Seq<Seq<u64>>) -> u64 {
        Self::from_felt_repr(felt_values_of_words(words))
    }

    fn size_in_felts() -> (n: usize) {
        2
    }

    fn from_bytes(bytes: &[u8]) -> (r: u64) {
        let r = u64_of_be_bytes_at(bytes, 0);
        assert(bytes@.subrange(0, 8) =~= bytes@.take(8));
        r
    }

    fn from_felts(felts: &[Felt]) -> (r: u64) {
        u64_from_felts(felts)
    }

    fn from_words(words: &[Word]) -> (r: u64) {
        let felts = felts_from_words(words);
        Self::from_felts(felts.as_slice())
    }

    fn pop_from_stack(stack: &mut Vec<Felt>) -> (r: u64) {
        let felts = pop_felts(stack, 2);
        Self::from_felts(felts.as_slice())
    }
}

// ---------------------------------------------------------------------------------------------
// Felt

impl ToMidenRepr for Felt {
    open spec fn has_byte_repr(&self) -> bool {
        false
    }

    open spec fn byte_repr(&self) -> Seq<u8> {
        Seq::empty()
    }

    open spec fn felt_repr(&self) -> Seq<u64> {
        seq![self@]
    }

    open spec fn word_repr(&self) -> Seq<Seq<u64>> {
        seq![seq![self@, 0u64, 0u64, 0u64]]
    }

    /// Field elements have no canonical byte representation.
    fn to_bytes(&self) -> (r: ByteVec) {
        byte_vec_new()
    }

    fn to_felts(&self) -> (r: FeltVec) {
        single_felt(*self)
    }

    fn to_words(&self) -> (r: WordVec) {
        let z = Felt::zero();
        let w = Word::new([*self, z, z, z]);
        assert(word_values(w) =~= seq![self@, 0u64, 0u64, 0u64]);
        let mut v = word_vec_new();
        word_vec_push(&mut v, w);
        assert(words_values(word_vec_contents(v)) =~= self.word_repr());
        v
    }

    fn push_to_operand_stack(&self, stack: &mut Vec<Felt>) {
        stack.push(*self);
        assert(felt_values(stack@) =~= felt_values(old(stack)@) + self.felt_repr().reverse());
    }

    fn push_words_to_advice_stack(&self, stack: &mut Vec<Felt>) -> (n: usize) {
        let words = self.to_words();
        push_word_vec(&words, stack)
    }
}

impl FromMidenRepr for Felt {
    open spec fn felt_size() -> nat {
        1
    }

    open spec fn accepts_bytes(bytes: Seq<u8>) -> bool {
        false
    }

    open spec fn from_byte_repr(bytes: Seq<u8>) -> Felt {
        felt_of_value(0)
    }

    open spec fn accepts_felts(felts: Seq<u64>) -> bool {
        felts.len() >= 1
    }

    open spec fn from_felt_repr(felts: Seq<u64>) -> Felt {
        felt_of_value(felts[0])
    }

    open spec fn accepts_words(words: Seq<Seq<u64>>) -> bool {
        words.len() >= 1
    }

    open spec fn from_word_repr(words: Seq<Seq<u64>>) -> Felt {
        felt_of_value(words[0][0])
    }

    fn size_in_felts() -> (n: usize) {
        1
    }

    /// Field elements have no canonical byte representation.
    fn from_bytes(bytes: &[u8]) -> (r: Felt) {
        Felt::zero()
    }

    fn from_felts(felts: &[Felt]) -> (r: Felt) {
        let f = felts[0];
        proof {
            lemma_felt_of_own_value(f);
        }
        f
    }

    fn from_words(words: &[Word]) -> (r: Felt) {
        let f = words[0].elements[0];
        proof {
            lemma_felt_of_own_value(f);
        }
        f
    }

    fn pop_from_stack(stack: &mut Vec<Felt>) -> (r: Felt) {
        let felts = pop_felts(stack, 1);
        Self::from_felts(felts.as_slice())
    }
}


// ---------------------------------------------------------------------------------------------
// i8

impl ToMidenRepr for i8 {
    open spec fn has_byte_repr(&self) -> bool {
        true
    }

    open spec fn byte_repr(&self) -> Seq<u8> {
        seq![*self as u8]
    }

    open spec fn felt_repr(&self) -> Seq<u64> {
        seq![(*self as u8) as u64]
    }

    open spec fn word_repr(&self) -> Seq<Seq<u64>> {
        words_of_felt_values(self.felt_repr())
    }

    fn to_bytes(&self) -> (r: ByteVec) {
        let mut v = byte_vec_new();
        byte_vec_push(&mut v, *self as u8);
        assert(byte_vec_contents(v) =~= self.byte_repr());
        v
    }

    fn to_felts(&self) -> (r: FeltVec) {
        single_felt(Felt::new((*self as u8) as u64))
    }

    fn to_words(&self) -> (r: WordVec) {
        let felts = self.to_felts();
        words_from_felts(felts.as_slice())
    }

    fn push_to_operand_stack(&self, stack: &mut Vec<Felt>) {
        stack.push(Felt::new((*self as u8) as u64));
        assert(felt_values(stack@) =~= felt_values(old(stack)@) + self.felt_repr().reverse());
    }

    fn push_words_to_advice_stack(&self, stack: &mut Vec<Felt>) -> (n: usize) {
        let words = self.to_words();
        push_word_vec(&words, stack)
    }
}

impl FromMidenRepr for i8 {
    open spec fn felt_size() -> nat {
        1
    }

    open spec fn accepts_bytes(bytes: Seq<u8>) -> bool {
        bytes.len() >= 1
    }

    open spec fn from_byte_repr(bytes: Seq<u8>) -> i8 {
        bytes[0] as i8
    }

    open spec fn accepts_felts(felts: Seq<u64>) -> bool {
        felts.len() >= 1
    }

    open spec fn from_felt_repr(felts: Seq<u64>) -> i8 {
        ((felts[0] % 256) as u8) as i8
    }

    open spec fn accepts_words(words: Seq<Seq<u64>>) -> bool {
        Self::accepts_felts(felt_values_of_words(words))
    }

    open spec fn from_word_repr(words: Seq<Seq<u64>>) -> i8 {
        Self::from_felt_repr(felt_values_of_words(words))
    }

    fn size_in_felts() -> (n: usize) {
        1
    }

    fn from_bytes(bytes: &[u8]) -> (r: i8) {
        bytes[0] as i8
    }

    fn from_felts(felts: &[Felt]) -> (r: i8) {
        ((felts[0].as_int() % 256) as u8) as i8
    }

    fn from_words(words: &[Word]) -> (r: i8) {
        let felts = felts_from_words(words);
        Self::from_felts(felts.as_slice())
    }

    fn pop_from_stack(stack: &mut Vec<Felt>) -> (r: i8) {
        let ghost old_stack = stack@;
        let f = stack.pop().unwrap();
        assert(popped_values(old_stack, 1) =~= seq![f@]);
        assert(stack@ =~= old_stack.take(old_stack.len() - 1));
        ((f.as_int() % 256) as u8) as i8
    }
}

// ---------------------------------------------------------------------------------------------
// u16

impl ToMidenRepr for u16 {
    open spec fn has_byte_repr(&self) -> bool {
        true
    }

    open spec fn byte_repr(&self) -> Seq<u8> {
        le_bytes_u16(*self as int)
    }

    open spec fn felt_repr(&self) -> Seq<u64> {
        seq![*self as u64]
    }

    open spec fn word_repr(&self) -> Seq<Seq<u64>> {
        words_of_felt_values(self.felt_repr())
    }

    fn to_bytes(&self) -> (r: ByteVec) {
        let b = le_bytes_of_u16(*self);
        byte_vec_from(&b)
    }

    fn to_felts(&self) -> (r: FeltVec) {
        single_felt(Felt::new(*self as u64))
    }

    fn to_words(&self) -> (r: WordVec) {
        let felts = self.to_felts();
        words_from_felts(felts.as_slice())
    }

    fn push_to_operand_stack(&self, stack: &mut Vec<Felt>) {
        stack.push(Felt::new(*self as u64));
        assert(felt_values(stack@) =~= felt_values(old(stack)@) + self.felt_repr().reverse());
    }

    fn push_words_to_advice_stack(&self, stack: &mut Vec<Felt>) -> (n: usize) {
        let words = self.to_words();
        push_word_vec(&words, stack)
    }
}

impl FromMidenRepr for u16 {
    open spec fn felt_size() -> nat {
        1
    }

    open spec fn accepts_bytes(bytes: Seq<u8>) -> bool {
        bytes.len() >= 2
    }

    open spec fn from_byte_repr(bytes: Seq<u8>) -> u16 {
        le_u16(bytes.take(2)) as u16
    }

    open spec fn accepts_felts(felts: Seq<u64>) -> bool {
        felts.len() >= 1
    }

    open spec fn from_felt_repr(felts: Seq<u64>) -> u16 {
        (felts[0] % 65536) as u16
    }

    open spec fn accepts_words(words: Seq<Seq<u64>>) -> bool {
        Self::accepts_felts(felt_values_of_words(words))
    }

    open spec fn from_word_repr(words: Seq<Seq<u64>>) -> u16 {
        Self::from_felt_repr(felt_values_of_words(words))
    }

    fn size_in_felts() -> (n: usize) {
        1
    }

    fn from_bytes(bytes: &[u8]) -> (r: u16) {
        let r = u16_of_le_bytes(bytes[0], bytes[1]);
        assert(seq![bytes@[0], bytes@[1]] =~= bytes@.take(2));
        r
    }

    fn from_felts(felts: &[Felt]) -> (r: u16) {
        (felts[0].as_int() % 65536) as u16
    }

    fn from_words(words: &[Word]) -> (r: u16) {
        let felts = felts_from_words(words);
        Self::from_felts(felts.as_slice())
    }

    fn pop_from_stack(stack: &mut Vec<Felt>) -> (r: u16) {
        let ghost old_stack = stack@;
        let f = stack.pop().unwrap();
        assert(popped_values(old_stack, 1) =~= seq![f@]);
        assert(stack@ =~= old_stack.take(old_stack.len() - 1));
        (f.as_int() % 65536) as u16
    }
}

// ---------------------------------------------------------------------------------------------
// i16

impl ToMidenRepr for i16 {
    open spec fn has_byte_repr(&self) -> bool {
        true
    }

    open spec fn byte_repr(&self) -> Seq<u8> {
        le_bytes_u16((*self as u16) as int)
    }

    open spec fn felt_repr(&self) -> Seq<u64> {
        seq![(*self as u16) as u64]
    }

    open spec fn word_repr(&self) -> Seq<Seq<u64>> {
        words_of_felt_values(self.felt_repr())
    }

    fn to_bytes(&self) -> (r: ByteVec) {
        let b = le_bytes_of_u16(*self as u16);
        byte_vec_from(&b)
    }

    fn to_felts(&self) -> (r: FeltVec) {
        single_felt(Felt::new((*self as u16) as u64))
    }

    fn to_words(&self) -> (r: WordVec) {
        let felts = self.to_felts();
        words_from_felts(felts.as_slice())
    }

    fn push_to_operand_stack(&self, stack: &mut Vec<Felt>) {
        stack.push(Felt::new((*self as u16) as u64));
        assert(felt_values(stack@) =~= felt_values(old(stack)@) + self.felt_repr().reverse());
    }

    fn push_words_to_advice_stack(&self, stack: &mut Vec<Felt>) -> (n: usize) {
        let words = self.to_words();
        push_word_vec(&words, stack)
    }
}

impl FromMidenRepr for i16 {
    open spec fn felt_size() -> nat {
        1
    }

    open spec fn accepts_bytes(bytes: Seq<u8>) -> bool {
        bytes.len() >= 2
    }

    open spec fn from_byte_repr(bytes: Seq<u8>) -> i16 {
        (le_u16(bytes.take(2)) as u16) as i16
    }

    open spec fn accepts_felts(felts: Seq<u64>) -> bool {
        felts.len() >= 1
    }

    open spec fn from_felt_repr(felts: Seq<u64>) -> i16 {
        ((felts[0] % 65536) as u16) as i16
    }

    open spec fn accepts_words(words: Seq<Seq<u64>>) -> bool {
        Self::accepts_felts(felt_values_of_words(words))
    }

    open spec fn from_word_repr(words: Seq<Seq<u64>>) -> i16 {
        Self::from_felt_repr(felt_values_of_words(words))
    }

    fn size_in_felts() -> (n: usize) {
        1
    }

    fn from_bytes(bytes: &[u8]) -> (r: i16) {
        let r = u16_of_le_bytes(bytes[0], bytes[1]);
        assert(seq![bytes@[0], bytes@[1]] =~= bytes@.take(2));
        r as i16
    }

    fn from_felts(felts: &[Felt]) -> (r: i16) {
        ((felts[0].as_int() % 65536) as u16) as i16
    }

    fn from_words(words: &[Word]) -> (r: i16) {
        let felts = felts_from_words(words);
        Self::from_felts(felts.as_slice())
    }

    fn pop_from_stack(stack: &mut Vec<Felt>) -> (r: i16) {
        let ghost old_stack = stack@;
        let f = stack.pop().unwrap();
        assert(popped_values(old_stack, 1) =~= seq![f@]);
        assert(stack@ =~= old_stack.take(old_stack.len() - 1));
        ((f.as_int() % 65536) as u16) as i16
    }
}

// ---------------------------------------------------------------------------------------------
// i32

impl ToMidenRepr for i32 {
    open spec fn has_byte_repr(&self) -> bool {
        true
    }

    open spec fn byte_repr(&self) -> Seq<u8> {
        le_bytes_u32((*self as u32) as int)
    }

    open spec fn felt_repr(&self) -> Seq<u64> {
        seq![(*self as u32) as u64]
    }

    open spec fn word_repr(&self) -> Seq<Seq<u64>> {
        words_of_felt_values(self.felt_repr())
    }

    fn to_bytes(&self) -> (r: ByteVec) {
        let b = le_bytes_of_u32(*self as u32);
        byte_vec_from(&b)
    }

    fn to_felts(&self) -> (r: FeltVec) {
        single_felt(Felt::new((*self as u32) as u64))
    }

    fn to_words(&self) -> (r: WordVec) {
        let felts = self.to_felts();
        words_from_felts(felts.as_slice())
    }

    fn push_to_operand_stack(&self, stack: &mut Vec<Felt>) {
        stack.push(Felt::new((*self as u32) as u64));
        assert(felt_values(stack@) =~= felt_values(old(stack)@) + self.felt_repr().reverse());
    }

    fn push_words_to_advice_stack(&self, stack: &mut Vec<Felt>) -> (n: usize) {
        let words = self.to_words();
        push_word_vec(&words, stack)
    }
}

impl FromMidenRepr for i32 {
    open spec fn felt_size() -> nat {
        1
    }

    open spec fn accepts_bytes(bytes: Seq<u8>) -> bool {
        bytes.len() >= 4
    }

    open spec fn from_byte_repr(bytes: Seq<u8>) -> i32 {
        (le_u32(bytes.take(4)) as u32) as i32
    }

    open spec fn accepts_felts(felts: Seq<u64>) -> bool {
        felts.len() >= 1
    }

    open spec fn from_felt_repr(felts: Seq<u64>) -> i32 {
        (((felts[0] as int) % pow2_32()) as u32) as i32
    }

    open spec fn accepts_words(words: Seq<Seq<u64>>) -> bool {
        Self::accepts_felts(felt_values_of_words(words))
    }

    open spec fn from_word_repr(words: Seq<Seq<u64>>) -> i32 {
        Self::from_felt_repr(felt_values_of_words(words))
    }

    fn size_in_felts() -> (n: usize) {
        1
    }

    fn from_bytes(bytes: &[u8]) -> (r: i32) {
        let r = u32_of_le_bytes(bytes[0], bytes[1], bytes[2], bytes[3]);
        assert(seq![bytes@[0], bytes@[1], bytes@[2], bytes@[3]] =~= bytes@.take(4));
        r as i32
    }

    fn from_felts(felts: &[Felt]) -> (r: i32) {
        ((felts[0].as_int() % 4294967296) as u32) as i32
    }

    fn from_words(words: &[Word]) -> (r: i32) {
        let felts = felts_from_words(words);
        Self::from_felts(felts.as_slice())
    }

    fn pop_from_stack(stack: &mut Vec<Felt>) -> (r: i32) {
        let ghost old_stack = stack@;
        let f = stack.pop().unwrap();
        assert(popped_values(old_stack, 1) =~= seq![f@]);
        assert(stack@ =~= old_stack.take(old_stack.len() - 1));
        ((f.as_int() % 4294967296) as u32) as i32
    }
}

// ---------------------------------------------------------------------------------------------
// i64

impl ToMidenRepr for i64 {
    open spec fn has_byte_repr(&self) -> bool {
        true
    }

    open spec fn byte_repr(&self) -> Seq<u8> {
        be_bytes_u64((*self as u64) as int)
    }

    open spec fn felt_repr(&self) -> Seq<u64> {
        u64_limbs((*self as u64) as int)
    }

    open spec fn word_repr(&self) -> Seq<Seq<u64>> {
        words_of_felt_values(self.felt_repr())
    }

    fn to_bytes(&self) -> (r: ByteVec) {
        let b = be_bytes_of_u64(*self as u64);
        byte_vec_from(b.as_slice())
    }

    fn to_felts(&self) -> (r: FeltVec) {
        u64_to_felts(*self as u64)
    }

    fn to_words(&self) -> (r: WordVec) {
        let felts = self.to_felts();
        words_from_felts(felts.as_slice())
    }

    fn push_to_operand_stack(&self, stack: &mut Vec<Felt>) {
        let felts = self.to_felts();
        push_felt_vec(&felts, stack);
    }

    fn push_words_to_advice_stack(&self, stack: &mut Vec<Felt>) -> (n: usize) {
        let words = self.to_words();
        push_word_vec(&words, stack)
    }
}

impl FromMidenRepr for i64 {
    open spec fn felt_size() -> nat {
        2
    }

    open spec fn accepts_bytes(bytes: Seq<u8>) -> bool {
        bytes.len() >= 8
    }

    open spec fn from_byte_repr(bytes: Seq<u8>) -> i64 {
        (be_u64(bytes.take(8)) as u64) as i64
    }

    open spec fn accepts_felts(felts: Seq<u64>) -> bool {
        felts.len() >= 2
    }

    open spec fn from_felt_repr(felts: Seq<u64>) -> i64 {
        (u64_of_limbs(felts[0], felts[1]) as u64) as i64
    }

    open spec fn accepts_words(words: Seq<Seq<u64>>) -> bool {
        Self::accepts_felts(felt_values_of_words(words))
    }

    open spec fn from_word_repr(words: Seq<Seq<u64>>) -> i64 {
        Self::from_felt_repr(felt_values_of_words(words))
    }

    fn size_in_felts() -> (n: usize) {
        2
    }

    fn from_bytes(bytes: &[u8]) -> (r: i64) {
        let r = u64_of_be_bytes_at(bytes, 0);
        assert(bytes@.subrange(0, 8) =~= bytes@.take(8));
        r as i64
    }

    fn from_felts(felts: &[Felt]) -> (r: i64) {
        u64_from_felts(felts) as i64
    }

    fn from_words(words: &[Word]) -> (r: i64) {
        let felts = felts_from_words(words);
        Self::from_felts(felts.as_slice())
    }

    fn pop_from_stack(stack: &mut Vec<Felt>) -> (r: i64) {
        let felts = pop_felts(stack, 2);
        Self::from_felts(felts.as_slice())
    }
}

// ---------------------------------------------------------------------------------------------
// u128

/// The four 32-bit limbs of a 128-bit value: those of the low 64-bit half, most significant
/// first, then those of the high half, most significant first.
pub open spec fn u128_limbs(x: int) -> Seq<u64> {
    u64_limbs(x % pow2_64()) + u64_limbs(x / pow2_64())
}

/// The 128-bit value of four 32-bit limbs, read as those of the high 64-bit half, most
/// significant first, then those of the low half.
pub open spec fn u128_of_limbs(f: Seq<u64>) -> int {
    u64_of_limbs(f[0], f[1]) * pow2_64() + u64_of_limbs(f[2], f[3])
}

fn u128_to_felts(x: u128) -> (r: FeltVec)
    ensures
        felt_values(felt_vec_contents(r)) == u128_limbs(x as int),
{
    let hi = (x / 18446744073709551616) as u64;
    let lo = (x % 18446744073709551616) as u64;
    let mut v = felt_vec_new();
    felt_vec_push(&mut v, Felt::new(lo / 4294967296));
    felt_vec_push(&mut v, Felt::new(lo % 4294967296));
    felt_vec_push(&mut v, Felt::new(hi / 4294967296));
    felt_vec_push(&mut v, Felt::new(hi % 4294967296));
    assert(felt_values(felt_vec_contents(v)) =~= u128_limbs(x as int));
    v
}

fn u128_from_felts(felts: &[Felt]) -> (r: u128)
    requires
        felts@.len() >= 4,
    ensures
        r as int == u128_of_limbs(felt_values(felts@)),
{
    let hi = u64_from_felts(felts);
    let f2 = felts[2].as_int() % 4294967296;
    let f3 = felts[3].as_int() % 4294967296;
    assert(f2 * 4294967296 + f3 < 18446744073709551616) by (nonlinear_arith)
        requires
            f2 < 4294967296,
            f3 < 4294967296,
    ;
    let lo = f2 * 4294967296 + f3;
    assert(hi * 18446744073709551616 + lo < 18446744073709551616 * 18446744073709551616)
        by (nonlinear_arith)
        requires
            hi < 18446744073709551616,
            lo < 18446744073709551616,
    ;
    (hi as u128) * 18446744073709551616 + (lo as u128)
}

impl ToMidenRepr for u128 {
    open spec fn has_byte_repr(&self) -> bool {
        true
    }

    open spec fn byte_repr(&self) -> Seq<u8> {
        be_bytes_u128(*self as int)
    }

    open spec fn felt_repr(&self) -> Seq<u64> {
        u128_limbs(*self as int)
    }

    open spec fn word_repr(&self) -> Seq<Seq<u64>> {
        words_of_felt_values(self.felt_repr())
    }

    fn to_bytes(&self) -> (r: ByteVec) {
        let b = be_bytes_of_u128(*self);
        byte_vec_from(b.as_slice())
    }

    fn to_felts(&self) -> (r: FeltVec) {
        u128_to_felts(*self)
    }

    fn to_words(&self) -> (r: WordVec) {
        let felts = self.to_felts();
        words_from_felts(felts.as_slice())
    }

    fn push_to_operand_stack(&self, stack: &mut Vec<Felt>) {
        let felts = self.to_felts();
        push_felt_vec(&felts, stack);
    }

    fn push_words_to_advice_stack(&self, stack: &mut Vec<Felt>) -> (n: usize) {
        let words = self.to_words();
        push_word_vec(&words, stack)
    }
}

impl FromMidenRepr for u128 {
    open spec fn felt_size() -> nat {
        4
    }

    open spec fn accepts_bytes(bytes: Seq<u8>) -> bool {
        bytes.len() >= 16
    }

    open spec fn from_byte_repr(bytes: Seq<u8>) -> u128 {
        be_u128(bytes.take(16)) as u128
    }

    open spec fn accepts_felts(felts: Seq<u64>) -> bool {
        felts.len() >= 4
    }

    open spec fn from_felt_repr(felts: Seq<u64>) -> u128 {
        u128_of_limbs(felts) as u128
    }

    open spec fn accepts_words(words: Seq<Seq<u64>>) -> bool {
        Self::accepts_felts(felt_values_of_words(words))
    }

    open spec fn from_word_repr(words: Seq<Seq<u64>>) -> u128 {
        Self::from_felt_repr(felt_values_of_words(words))
    }

    fn size_in_felts() -> (n: usize) {
        4
    }

    fn from_bytes(bytes: &[u8]) -> (r: u128) {
        let r = u128_of_be_bytes_at(bytes, 0);
        assert(bytes@.subrange(0, 16) =~= bytes@.take(16));
        r
    }

    fn from_felts(felts: &[Felt]) -> (r: u128) {
        u128_from_felts(felts)
    }

    fn from_words(words: &[Word]) -> (r: u128) {
        let felts = felts_from_words(words);
        Self::from_felts(felts.as_slice())
    }

    fn pop_from_stack(stack: &mut Vec<Felt>) -> (r: u128) {
        let felts = pop_felts(stack, 4);
        Self::from_felts(felts.as_slice())
    }
}

// ---------------------------------------------------------------------------------------------
// i128

impl ToMidenRepr for i128 {
    open spec fn has_byte_repr(&self) -> bool {
        true
    }

    open spec fn byte_repr(&self) -> Seq<u8> {
        be_bytes_u128((*self as u128) as int)
    }

    open spec fn felt_repr(&self) -> Seq<u64> {
        u128_limbs((*self as u128) as int)
    }

    open spec fn word_repr(&self) -> Seq<Seq<u64>> {
        words_of_felt_values(self.felt_repr())
    }

    fn to_bytes(&self) -> (r: ByteVec) {
        let b = be_bytes_of_u128(*self as u128);
        byte_vec_from(b.as_slice())
    }

    fn to_felts(&self) -> (r: FeltVec) {
        u128_to_felts(*self as u128)
    }

    fn to_words(&self) -> (r: WordVec) {
        let felts = self.to_felts();
        words_from_felts(felts.as_slice())
    }

    fn push_to_operand_stack(&self, stack: &mut Vec<Felt>) {
        let felts = self.to_felts();
        push_felt_vec(&felts, stack);
    }

    fn push_words_to_advice_stack(&self, stack: &mut Vec<Felt>) -> (n: usize) {
        let words = self.to_words();
        push_word_vec(&words, stack)
    }
}

impl FromMidenRepr for i128 {
    open spec fn felt_size() -> nat {
        4
    }

    open spec fn accepts_bytes(bytes: Seq<u8>) -> bool {
        bytes.len() >= 16
    }

    open spec fn from_byte_repr(bytes: Seq<u8>) -> i128 {
        (be_u128(bytes.take(16)) as u128) as i128
    }

    open spec fn accepts_felts(felts: Seq<u64>) -> bool {
        felts.len() >= 4
    }

    open spec fn from_felt_repr(felts: Seq<u64>) -> i128 {
        (u128_of_limbs(felts) as u128) as i128
    }

    open spec fn accepts_words(words: Seq<Seq<u64>>) -> bool {
        Self::accepts_felts(felt_values_of_words(words))
    }

    open spec fn from_word_repr(words: Seq<Seq<u64>>) -> i128 {
        Self::from_felt_repr(felt_values_of_words(words))
    }

    fn size_in_felts() -> (n: usize) {
        4
    }

    fn from_bytes(bytes: &[u8]) -> (r: i128) {
        let r = u128_of_be_bytes_at(bytes, 0);
        assert(bytes@.subrange(0, 16) =~= bytes@.take(16));
        r as i128
    }

    fn from_felts(felts: &[Felt]) -> (r: i128) {
        u128_from_felts(felts) as i128
    }

    fn from_words(words: &[Word]) -> (r: i128) {
        let felts = felts_from_words(words);
        Self::from_felts(felts.as_slice())
    }

    fn pop_from_stack(stack: &mut Vec<Felt>) -> (r: i128) {
        let felts = pop_felts(stack, 4);
        Self::from_felts(felts.as_slice())
    }
}

// ---------------------------------------------------------------------------------------------
// [u8; N]

/// The byte array holding the first `N` bytes of `bytes`.
pub open spec fn byte_array_of<const N: usize>(bytes: Seq<u8>) -> [u8; N] {
    choose|a: [u8; N]| a@ == bytes.take(N as int)
}

impl<const N: usize> ToMidenRepr for [u8; N] {
    open spec fn has_byte_repr(&self) -> bool {
        true
    }

    open spec fn byte_repr(&self) -> Seq<u8> {
        self@
    }

    open spec fn felt_repr(&self) -> Seq<u64> {
        felt_values_of_bytes(self@)
    }

    open spec fn word_repr(&self) -> Seq<Seq<u64>> {
        words_of_felt_values(self.felt_repr())
    }

    fn to_bytes(&self) -> (r: ByteVec) {
        byte_vec_from(self.as_slice())
    }

    fn to_felts(&self) -> (r: FeltVec) {
        felts_from_bytes(self.as_slice())
    }

    fn to_words(&self) -> (r: WordVec) {
        let felts = self.to_felts();
        words_from_felts(felts.as_slice())
    }

    fn push_to_operand_stack(&self, stack: &mut Vec<Felt>) {
        let felts = self.to_felts();
        push_felt_vec(&felts, stack);
    }

    fn push_words_to_advice_stack(&self, stack: &mut Vec<Felt>) -> (n: usize) {
        let words = self.to_words();
        push_word_vec(&words, stack)
    }
}

impl<const N: usize> FromMidenRepr for [u8; N] {
    open spec fn felt_size() -> nat {
        chunk_count(N as int) as nat
    }

    open spec fn accepts_bytes(bytes: Seq<u8>) -> bool {
        bytes.len() >= N
    }

    open spec fn from_byte_repr(bytes: Seq<u8>) -> [u8; N] {
        byte_array_of::<N>(bytes)
    }

    open spec fn accepts_felts(felts: Seq<u64>) -> bool {
        Self::accepts_bytes(bytes_of_felt_values(felts))
    }

    open spec fn from_felt_repr(felts: Seq<u64>) -> [u8; N] {
        Self::from_byte_repr(bytes_of_felt_values(felts))
    }

    open spec fn accepts_words(words: Seq<Seq<u64>>) -> bool {
        Self::accepts_felts(felt_values_of_words(words))
    }

    open spec fn from_word_repr(words: Seq<Seq<u64>>) -> [u8; N] {
        Self::from_felt_repr(felt_values_of_words(words))
    }

    fn size_in_felts() -> (n: usize) {
        N / 4 + if N % 4 == 0 {
            0
        } else {
            1
        }
    }

    fn from_bytes(bytes: &[u8]) -> (r: [u8; N]) {
        let mut a = [0u8; N];
        let mut i: usize = 0;
        while i < N
            invariant
                i <= N,
                N <= bytes@.len(),
                a@.len() == N,
                forall|j: int| 0 <= j < i ==> a@[j] == bytes@[j],
            decreases N - i,
        {
            a[i] = bytes[i];
            i += 1;
        }
        assert(a@ =~= bytes@.take(N as int));
        proof {
            let c = byte_array_of::<N>(bytes@);
            assert(c@ == bytes@.take(N as int));
            assert(c =~= a);
        }
        a
    }

    fn from_felts(felts: &[Felt]) -> (r: [u8; N]) {
        let bytes = bytes_from_felts(felts);
        Self::from_bytes(bytes.as_slice())
    }

    fn from_words(words: &[Word]) -> (r: [u8; N]) {
        let felts = felts_from_words(words);
        Self::from_felts(felts.as_slice())
    }

    fn pop_from_stack(stack: &mut Vec<Felt>) -> (r: [u8; N]) {
        let n = Self::size_in_felts();
        let felts = pop_felts(stack, n);
        Self::from_felts(felts.as_slice())
    }
}

// ---------------------------------------------------------------------------------------------
// [Felt; 4]

impl FromMidenRepr for [Felt; 4] {
    open spec fn felt_size() -> nat {
        4
    }

    open spec fn accepts_bytes(bytes: Seq<u8>) -> bool {
        false
    }

    open spec fn from_byte_repr(bytes: Seq<u8>) -> [Felt; 4] {
        [felt_of_value(0), felt_of_value(0), felt_of_value(0), felt_of_value(0)]
    }

    open spec fn accepts_felts(felts: Seq<u64>) -> bool {
        felts.len() >= 4
    }

    open spec fn from_felt_repr(felts: Seq<u64>) -> [Felt; 4] {
        [
            felt_of_value(felts[0]),
            felt_of_value(felts[1]),
            felt_of_value(felts[2]),
            felt_of_value(felts[3]),
        ]
    }

    open spec fn accepts_words(words: Seq<Seq<u64>>) -> bool {
        Self::accepts_felts(felt_values_of_words(words))
    }

    open spec fn from_word_repr(words: Seq<Seq<u64>>) -> [Felt; 4] {
        Self::from_felt_repr(felt_values_of_words(words))
    }

    fn size_in_felts() -> (n: usize) {
        4
    }

    /// Field elements have no canonical byte representation.
    fn from_bytes(bytes: &[u8]) -> (r: [Felt; 4]) {
        let z = Felt::zero();
        [z, z, z, z]
    }

    fn from_felts(felts: &[Felt]) -> (r: [Felt; 4]) {
        proof {
            lemma_felt_of_own_value(felts@[0]);
            lemma_felt_of_own_value(felts@[1]);
            lemma_felt_of_own_value(felts@[2]);
            lemma_felt_of_own_value(felts@[3]);
        }
        [felts[0], felts[1], felts[2], felts[3]]
    }

    fn from_words(words: &[Word]) -> (r: [Felt; 4]) {
        let felts = felts_from_words(words);
        Self::from_felts(felts.as_slice())
    }

    fn pop_from_stack(stack: &mut Vec<Felt>) -> (r: [Felt; 4]) {
        let felts = pop_felts(stack, 4);
        Self::from_felts(felts.as_slice())
    }
}

} // verus!
