//! Field elements of the Miden VM's base field, and the small collections used to
//! carry them through the representation layer.
use vstd::prelude::*;
use miden_processor::Felt as RawFelt;
use smallvec::SmallVec;

verus! {

/// The order of the base field, `2^64 - 2^32 + 1`.
pub const FIELD_MODULUS: u64 = 0xffff_ffff_0000_0001u64;

/// The canonical value of `miden_processor::Felt::new(value)`.
///
/// `Felt::new` converts `value` to Montgomery form, silently reducing it modulo the field
/// order, and `Felt::as_int` returns the canonical integer representative; the contract
/// claims exactly that the pair computes `value mod FIELD_MODULUS`.
#[verifier::external_body]
fn raw_felt_reduce(value: u64) -> (r: u64)
    ensures
        r == value % FIELD_MODULUS,
{
    RawFelt::new(value).as_int()
}

/// The decimal digit `d`, below ten, as a character.
pub open spec fn decimal_digit(d: nat) -> char {
    (48 + d) as char
}

/// The decimal text of `n`: its digits, most significant first, with no leading zero.
pub open spec fn decimal_text(n: nat) -> Seq<char>
    decreases n,
{
    if n < 10 {
        seq![decimal_digit(n)]
    } else {
        decimal_text(n / 10).push(decimal_digit(n % 10))
    }
}

/// The message of the error returned by `miden_processor::Felt::try_from(value)`: the value in
/// decimal, between a fixed prefix and suffix.
pub open spec fn raw_felt_try_from_message(value: u64) -> Seq<char> {
    "invalid field element: value "@ + decimal_text(value as nat) + " is greater than or equal to the field modulus"@
}

/// Calls `<miden_processor::Felt as TryFrom<u64>>::try_from`.
///
/// The contract claims what the source of that impl shows: it succeeds with the same value
/// exactly when `value` is below the field order, and otherwise fails with a message that
/// gives `value` in decimal.
#[verifier::external_body]
fn raw_felt_try_from(value: u64) -> (r: Result<u64, String>)
    ensures
        value < FIELD_MODULUS ==> (r is Ok && r->Ok_0 == value),
        value >= FIELD_MODULUS ==> r is Err && r->Err_0@ == raw_felt_try_from_message(value),
{
    match RawFelt::try_from(value) {
        Ok(f) => Ok(f.as_int()),
        Err(e) => Err(e),
    }
}

/// An element of the base field, held in canonical form.
#[derive(Clone, Copy, Debug, PartialEq, Eq, Structural)]
pub struct Felt {
    value: u64,
}

impl View for Felt {
    type V = u64;

    closed spec fn view(&self) -> u64 {
        self.value
    }
}

impl Felt {
    #[verifier::type_invariant]
    spec fn canonical(self) -> bool {
        self.value < FIELD_MODULUS
    }

    /// Create a field element from `value`, reducing it modulo the field order.
    pub fn new(value: u64) -> (r: Felt)
        ensures
            r@ == value % FIELD_MODULUS,
    {
        Felt { value: raw_felt_reduce(value) }
    }

    /// The field element zero.
    pub fn zero() -> (r: Felt)
        ensures
            r@ == 0,
    {
        Felt { value: 0 }
    }

    /// The canonical integer representation of this element.
    pub fn as_int(&self) -> (r: u64)
        ensures
            r == self@,
            r < FIELD_MODULUS,
    {
        proof {
            use_type_invariant(self);
        }
        self.value
    }

    /// Convert `value` into a field element, failing when it is not below the field order.
    pub fn try_from_u64(value: u64) -> (r: Result<Felt, String>)
        ensures
            value < FIELD_MODULUS ==> r is Ok && r->Ok_0@ == value,
            value >= FIELD_MODULUS ==> r is Err && r->Err_0@ == raw_felt_try_from_message(value),
    {
        match raw_felt_try_from(value) {
            Ok(v) => Ok(Felt { value: v }),
            Err(e) => Err(e),
        }
    }
}

/// Two field elements with the same canonical value are the same element.
pub proof fn lemma_felt_ext(a: Felt, b: Felt)
    requires
        a@ == b@,
    ensures
        a == b,
{
}

/// The element whose value is `v`.
pub closed spec fn felt_of_value(v: u64) -> Felt {
    Felt { value: v }
}

/// The element of a value holds that value.
pub proof fn lemma_felt_of_value(v: u64)
    ensures
        felt_of_value(v)@ == v,
{
}

/// An element is the element of its own value.
pub proof fn lemma_felt_of_own_value(f: Felt)
    ensures
        felt_of_value(f@) == f,
{
}

/// The canonical values of a sequence of field elements.
pub open spec fn felt_values(s: Seq<Felt>) -> Seq<u64> {
    s.map_values(|f: Felt| f@)
}

/// A word: four field elements.
#[derive(Clone, Copy, Debug, PartialEq, Eq)]
pub struct Word {
    pub elements: [Felt; 4],
}

/// The canonical values of a word's elements.
pub open spec fn word_values(w: Word) -> Seq<u64> {
    felt_values(w.elements@)
}

/// The canonical values of a sequence of words.
pub open spec fn words_values(ws: Seq<Word>) -> Seq<Seq<u64>> {
    ws.map_values(|w: Word| word_values(w))
}

impl Word {
    /// The word of these four elements.
    pub fn new(elements: [Felt; 4]) -> (r: Word)
        ensures
            r.elements == elements,
    {
        Word { elements }
    }
}

/// A small vector of bytes, stored inline up to 16 bytes.
#[verifier::external_body]
pub struct ByteVec {
    inner: SmallVec<[u8; 16]>,
}

/// The bytes held by a [ByteVec].
pub uninterp spec fn byte_vec_contents(v: ByteVec) -> Seq<u8>;

/// Wraps `SmallVec::<[u8; 16]>::new`: the new vector is empty.
#[verifier::external_body]
pub(crate) fn byte_vec_new() -> (r: ByteVec)
    ensures
        byte_vec_contents(r) == Seq::<u8>::empty(),
{
    ByteVec { inner: SmallVec::new() }
}

/// Wraps `SmallVec::<[u8; 16]>::push`: `b` is appended.
#[verifier::external_body]
pub(crate) fn byte_vec_push(v: &mut ByteVec, b: u8)
    ensures
        byte_vec_contents(*final(v)) == byte_vec_contents(*old(v)).push(b),
{
    v.inner.push(b)
}

impl ByteVec {
    /// Wraps `SmallVec::<[u8; 16]>::as_slice`: the slice holds the vector's bytes.
    #[verifier::external_body]
    pub fn as_slice(&self) -> (r: &[u8])
        ensures
            r@ == byte_vec_contents(*self),
    {
        self.inner.as_slice()
    }
}

/// A small vector of field elements, stored inline up to 4 elements.
#[verifier::external_body]
pub struct FeltVec {
    inner: SmallVec<[Felt; 4]>,
}

/// The field elements held by a [FeltVec].
pub uninterp spec fn felt_vec_contents(v: FeltVec) -> Seq<Felt>;

/// Wraps `SmallVec::<[Felt; 4]>::new`: the new vector is empty.
#[verifier::external_body]
pub(crate) fn felt_vec_new() -> (r: FeltVec)
    ensures
        felt_vec_contents(r) == Seq::<Felt>::empty(),
{
    FeltVec { inner: SmallVec::new() }
}

/// Wraps `SmallVec::<[Felt; 4]>::push`: `f` is appended.
#[verifier::external_body]
pub(crate) fn felt_vec_push(v: &mut FeltVec, f: Felt)
    ensures
        felt_vec_contents(*final(v)) == felt_vec_contents(*old(v)).push(f),
{
    v.inner.push(f)
}

impl FeltVec {
    /// Wraps `SmallVec::<[Felt; 4]>::as_slice`: the slice holds the vector's elements.
    #[verifier::external_body]
    pub fn as_slice(&self) -> (r: &[Felt])
        ensures
            r@ == felt_vec_contents(*self),
    {
        self.inner.as_slice()
    }
}

/// A small vector of words, stored inline up to one word.
#[verifier::external_body]
pub struct WordVec {
    inner: SmallVec<[Word; 1]>,
}

/// The words held by a [WordVec].
pub uninterp spec fn word_vec_contents(v: WordVec) -> Seq<Word>;

/// Wraps `SmallVec::<[Word; 1]>::new`: the new vector is empty.
#[verifier::external_body]
pub(crate) fn word_vec_new() -> (r: WordVec)
    ensures
        word_vec_contents(r) == Seq::<Word>::empty(),
{
    WordVec { inner: SmallVec::new() }
}

/// Wraps `SmallVec::<[Word; 1]>::push`: `w` is appended.
#[verifier::external_body]
pub(crate) fn word_vec_push(v: &mut WordVec, w: Word)
    ensures
        word_vec_contents(*final(v)) == word_vec_contents(*old(v)).push(w),
{
    v.inner.push(w)
}

impl WordVec {
    /// Wraps `SmallVec::<[Word; 1]>::as_slice`: the slice holds the vector's words.
    #[verifier::external_body]
    pub fn as_slice(&self) -> (r: &[Word])
        ensures
            r@ == word_vec_contents(*self),
    {
        self.inner.as_slice()
    }
}

} // verus!
