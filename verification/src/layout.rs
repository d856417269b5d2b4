//! How byte strings are laid out in field elements, how field elements are grouped into words,
//! and how both are placed on the VM's stacks.
use vstd::prelude::*;
use crate::encoding::{le_bytes_of_u32, le_bytes_u32, le_u32, pow2_32, u32_of_le_bytes};
use crate::felt::{
    byte_vec_contents, byte_vec_new, byte_vec_push, felt_values, felt_vec_contents, felt_vec_new,
    felt_vec_push, word_values, word_vec_contents, word_vec_new, word_vec_push, words_values, ByteVec,
    Felt, FeltVec, Word, WordVec,
};

verus! {

/// The number of 4-byte chunks (or 4-element groups) needed to hold `n` items.
pub open spec fn chunk_count(n: int) -> int {
    (n + 3) / 4
}

/// Chunk `i` of `b`, zero-padded to four bytes.
pub open spec fn padded_chunk(b: Seq<u8>, i: int) -> Seq<u8> {
    Seq::new(4, |j: int| if 4 * i + j < b.len() { b[4 * i + j] } else { 0u8 })
}

/// The field element values carrying `b`: each 4-byte chunk, read little-endian, with the
/// last chunk zero-padded.
pub open spec fn felt_values_of_bytes(b: Seq<u8>) -> Seq<u64> {
    Seq::new(chunk_count(b.len() as int) as nat, |i: int| le_u32(padded_chunk(b, i)) as u64)
}

/// The bytes carried by field element values: the low 32 bits of each, little-endian.
pub open spec fn bytes_of_felt_values(f: Seq<u64>) -> Seq<u8> {
    Seq::new(4 * f.len(), |k: int| le_bytes_u32((f[k / 4] as int) % pow2_32())[k % 4])
}

/// Field element values grouped into words: each group of four, reversed, with the last
/// group zero-padded before it is reversed.
pub open spec fn words_of_felt_values(f: Seq<u64>) -> Seq<Seq<u64>> {
    Seq::new(
        chunk_count(f.len() as int) as nat,
        |i: int| Seq::new(4, |j: int| if 4 * i + 3 - j < f.len() { f[4 * i + 3 - j] } else { 0u64 }),
    )
}

/// The field element values held by words, each word read in reverse.
pub open spec fn felt_values_of_words(w: Seq<Seq<u64>>) -> Seq<u64> {
    Seq::new(4 * w.len(), |k: int| w[k / 4][3 - k % 4])
}

/// The elements of a sequence of words, word after word, each in order.
pub open spec fn words_felts(ws: Seq<Word>) -> Seq<Felt> {
    Seq::new(4 * ws.len(), |k: int| ws[k / 4].elements@[k % 4])
}

proof fn lemma_felt_values_push(s: Seq<Felt>, f: Felt)
    ensures
        felt_values(s.push(f)) == felt_values(s).push(f@),
{
    assert(felt_values(s.push(f)) =~= felt_values(s).push(f@));
}

/// Word values flattened, word after word, each in order.
pub open spec fn flatten_words(w: Seq<Seq<u64>>) -> Seq<u64> {
    Seq::new(4 * w.len(), |k: int| w[k / 4][k % 4])
}

/// The values of the elements of words, flattened, are the words' values flattened.
pub proof fn lemma_words_felts_values(ws: Seq<Word>)
    ensures
        felt_values(words_felts(ws)) == flatten_words(words_values(ws)),
{
    assert forall|k: int| 0 <= k < 4 * ws.len() implies #[trigger] felt_values(words_felts(ws))[k]
        == flatten_words(words_values(ws))[k] by {
        assert(0 <= k / 4 < ws.len());
        assert(words_values(ws)[k / 4] == felt_values(ws[k / 4].elements@));
    }
    assert(felt_values(words_felts(ws)) =~= flatten_words(words_values(ws)));
}

/// The values of reversed words are the reversed values of the words.
pub proof fn lemma_words_values_reverse(ws: Seq<Word>)
    ensures
        words_values(ws.reverse()) == words_values(ws).reverse(),
{
    assert(words_values(ws.reverse()) =~= words_values(ws).reverse());
}

/// The values of elements followed by other elements reversed.
pub proof fn lemma_felt_values_append_reverse(a: Seq<Felt>, b: Seq<Felt>)
    ensures
        felt_values(a + b.reverse()) == felt_values(a) + felt_values(b).reverse(),
{
    assert(felt_values(a + b.reverse()) =~= felt_values(a) + felt_values(b).reverse());
}

/// The values of concatenated elements are the concatenated values.
pub proof fn lemma_felt_values_append(a: Seq<Felt>, b: Seq<Felt>)
    ensures
        felt_values(a + b) == felt_values(a) + felt_values(b),
{
    assert(felt_values(a + b) =~= felt_values(a) + felt_values(b));
}

/// Push the elements of `felts` on `stack`, leaving the first element on top.
pub fn push_felt_vec(felts: &FeltVec, stack: &mut Vec<Felt>)
    ensures
        felt_values(final(stack)@) == felt_values(old(stack)@) + felt_values(
            felt_vec_contents(*felts),
        ).reverse(),
{
    push_felts_reversed(felts.as_slice(), stack);
    proof {
        lemma_felt_values_append_reverse(old(stack)@, felt_vec_contents(*felts));
    }
}

/// Push the words of `words` on `stack`, last word first, returning the number of words.
pub fn push_word_vec(words: &WordVec, stack: &mut Vec<Felt>) -> (n: usize)
    ensures
        n == word_vec_contents(*words).len(),
        felt_values(final(stack)@) == felt_values(old(stack)@) + flatten_words(
            words_values(word_vec_contents(*words)).reverse(),
        ),
{
    let s = words.as_slice();
    let n = s.len();
    push_words_reversed(s, stack);
    proof {
        let ws = word_vec_contents(*words);
        lemma_felt_values_append(old(stack)@, words_felts(ws.reverse()));
        lemma_words_felts_values(ws.reverse());
        lemma_words_values_reverse(ws);
    }
    n
}

/// Carry `bytes` in field elements, four little-endian bytes per element.
pub fn felts_from_bytes(bytes: &[u8]) -> (r: FeltVec)
    ensures
        felt_values(felt_vec_contents(r)) == felt_values_of_bytes(bytes@),
{
    let n = bytes.len();
    let count = n / 4 + if n % 4 == 0 {
        0
    } else {
        1
    };
    let mut felts = felt_vec_new();
    let mut c: usize = 0;
    while c < count
        invariant
            n == bytes@.len(),
            count == chunk_count(n as int),
            c <= count,
            felt_values(felt_vec_contents(felts)) == felt_values_of_bytes(bytes@).take(c as int),
        decreases count - c,
    {
        let base = 4 * c;
        let b0 = bytes[base];
        let b1 = if base + 1 < n {
            bytes[base + 1]
        } else {
            0
        };
        let b2 = if base + 2 < n {
            bytes[base + 2]
        } else {
            0
        };
        let b3 = if base + 3 < n {
            bytes[base + 3]
        } else {
            0
        };
        let v = u32_of_le_bytes(b0, b1, b2, b3);
        let f = Felt::new(v as u64);
        proof {
            assert(seq![b0, b1, b2, b3] =~= padded_chunk(bytes@, c as int));
            lemma_felt_values_push(felt_vec_contents(felts), f);
        }
        felt_vec_push(&mut felts, f);
        c += 1;
        assert(felt_values(felt_vec_contents(felts)) =~= felt_values_of_bytes(bytes@).take(
            c as int,
        ));
    }
    assert(felt_values_of_bytes(bytes@).take(count as int) =~= felt_values_of_bytes(bytes@));
    felts
}

/// The bytes carried by `felts`: the low 32 bits of each element, little-endian.
pub fn bytes_from_felts(felts: &[Felt]) -> (r: ByteVec)
    ensures
        byte_vec_contents(r) == bytes_of_felt_values(felt_values(felts@)),
{
    let n = felts.len();
    let ghost vals = felt_values(felts@);
    let mut bytes = byte_vec_new();
    let mut i: usize = 0;
    while i < n
        invariant
            n == felts@.len(),
            vals == felt_values(felts@),
            i <= n,
            byte_vec_contents(bytes) == bytes_of_felt_values(vals).take(4 * i),
        decreases n - i,
    {
        let v = felts[i].as_int();
        let chunk = le_bytes_of_u32((v % 4294967296) as u32);
        let ghost before = byte_vec_contents(bytes);
        byte_vec_push(&mut bytes, chunk[0]);
        byte_vec_push(&mut bytes, chunk[1]);
        byte_vec_push(&mut bytes, chunk[2]);
        byte_vec_push(&mut bytes, chunk[3]);
        proof {
            assert(vals[i as int] == v);
            assert forall|k: int| 4 * i <= k < 4 * i + 4 implies #[trigger] bytes_of_felt_values(
                vals,
            )[k] == chunk@[k - 4 * i] by {
                assert(k / 4 == i);
                assert(k % 4 == k - 4 * i);
            }
        }
        i += 1;
        assert(byte_vec_contents(bytes) =~= bytes_of_felt_values(vals).take(4 * i));
    }
    assert(bytes_of_felt_values(vals).take(4 * n) =~= bytes_of_felt_values(vals));
    bytes
}

/// Element `i` of `felts`, or zero past its end.
fn felt_or_zero(felts: &[Felt], i: usize) -> (r: Felt)
    ensures
        r@ == (if i < felts@.len() {
            felts@[i as int]@
        } else {
            0
        }),
{
    if i < felts.len() {
        felts[i]
    } else {
        Felt::zero()
    }
}

/// Group `felts` into words of four, each group reversed; the last group is zero-padded.
pub fn words_from_felts(felts: &[Felt]) -> (r: WordVec)
    ensures
        words_values(word_vec_contents(r)) == words_of_felt_values(felt_values(felts@)),
{
    let n = felts.len();
    let ghost vals = felt_values(felts@);
    let count = n / 4 + if n % 4 == 0 {
        0
    } else {
        1
    };
    let mut words = word_vec_new();
    let mut c: usize = 0;
    while c < count
        invariant
            n == felts@.len(),
            vals == felt_values(felts@),
            count == chunk_count(n as int),
            c <= count,
            words_values(word_vec_contents(words)) == words_of_felt_values(vals).take(c as int),
        decreases count - c,
    {
        let base = 4 * c;
        let w = Word::new(
            [
                felt_or_zero(felts, base + 3),
                felt_or_zero(felts, base + 2),
                felt_or_zero(felts, base + 1),
                felt_or_zero(felts, base),
            ],
        );
        let ghost before = word_vec_contents(words);
        word_vec_push(&mut words, w);
        proof {
            assert(word_values(w) =~= words_of_felt_values(vals)[c as int]);
            assert(words_values(word_vec_contents(words)) =~= words_values(before).push(
                word_values(w),
            ));
        }
        c += 1;
        assert(words_values(word_vec_contents(words)) =~= words_of_felt_values(vals).take(
            c as int,
        ));
    }
    assert(words_of_felt_values(vals).take(count as int) =~= words_of_felt_values(vals));
    words
}

/// The elements held by `words`, each word read in reverse.
pub fn felts_from_words(words: &[Word]) -> (r: FeltVec)
    ensures
        felt_values(felt_vec_contents(r)) == felt_values_of_words(words_values(words@)),
{
    let n = words.len();
    let ghost ws = words_values(words@);
    let mut felts = felt_vec_new();
    let mut i: usize = 0;
    while i < n
        invariant
            n == words@.len(),
            ws == words_values(words@),
            i <= n,
            felt_values(felt_vec_contents(felts)) == felt_values_of_words(ws).take(4 * i),
        decreases n - i,
    {
        let w = words[i];
        let ghost before = felt_vec_contents(felts);
        felt_vec_push(&mut felts, w.elements[3]);
        felt_vec_push(&mut felts, w.elements[2]);
        felt_vec_push(&mut felts, w.elements[1]);
        felt_vec_push(&mut felts, w.elements[0]);
        proof {
            assert forall|k: int| 4 * i <= k < 4 * i + 4 implies #[trigger] felt_values_of_words(
                ws,
            )[k] == w.elements@[3 - (k - 4 * i)]@ by {
                assert(k / 4 == i);
                assert(k % 4 == k - 4 * i);
                assert(ws[i as int] == felt_values(w.elements@));
                assert(felt_values(w.elements@)[3 - (k - 4 * i)] == w.elements@[3 - (k - 4 * i)]@);
            }
            assert(felt_vec_contents(felts) =~= before + seq![
                w.elements@[3],
                w.elements@[2],
                w.elements@[1],
                w.elements@[0],
            ]);
        }
        proof {
            let cur = felt_values(felt_vec_contents(felts));
            let want = felt_values_of_words(ws).take(4 * i + 4);
            assert(ws.len() == n);
            assert(felt_values_of_words(ws).len() == 4 * n);
            assert(felt_values(before).len() == 4 * i);
            assert(before.len() == 4 * i);
            assert(felt_vec_contents(felts).len() == 4 * i + 4);
            assert(cur.len() == want.len());
            assert forall|k: int| 0 <= k < cur.len() implies cur[k] == want[k] by {
                if k < 4 * i {
                    assert(cur[k] == felt_values(before)[k]);
                } else {
                    assert(cur[k] == felt_vec_contents(felts)[k]@);
                    assert(want[k] == felt_values_of_words(ws)[k]);
                }
            }
            assert(cur =~= want);
        }
        i += 1;
    }
    assert(felt_values_of_words(ws).take(4 * n) =~= felt_values_of_words(ws));
    felts
}

/// Push `felts` on `stack` last element first, leaving the first element on top.
pub fn push_felts_reversed(felts: &[Felt], stack: &mut Vec<Felt>)
    ensures
        final(stack)@ == old(stack)@ + felts@.reverse(),
{
    let n = felts.len();
    let mut i: usize = n;
    while i > 0
        invariant
            n == felts@.len(),
            i <= n,
            stack@ == old(stack)@ + felts@.reverse().take(n - i),
        decreases i,
    {
        i -= 1;
        stack.push(felts[i]);
        assert(stack@ =~= old(stack)@ + felts@.reverse().take(n - i));
    }
    assert(felts@.reverse().take(n as int) =~= felts@.reverse());
}

/// Push `words` on `stack` last word first, each word's elements in order.
pub fn push_words_reversed(words: &[Word], stack: &mut Vec<Felt>)
    ensures
        final(stack)@ == old(stack)@ + words_felts(words@.reverse()),
{
    let n = words.len();
    let ghost rev = words@.reverse();
    let mut i: usize = n;
    while i > 0
        invariant
            n == words@.len(),
            rev == words@.reverse(),
            i <= n,
            stack@ == old(stack)@ + words_felts(rev).take(4 * (n - i)),
        decreases i,
    {
        i -= 1;
        let w = words[i];
        stack.push(w.elements[0]);
        stack.push(w.elements[1]);
        stack.push(w.elements[2]);
        stack.push(w.elements[3]);
        proof {
            assert(rev[n - 1 - i] == w);
            assert forall|k: int| 4 * (n - 1 - i) <= k < 4 * (n - i) implies #[trigger] words_felts(
                rev,
            )[k] == w.elements@[k - 4 * (n - 1 - i)] by {
                assert(k / 4 == n - 1 - i);
                assert(k % 4 == k - 4 * (n - 1 - i));
            }
        }
        assert(stack@ =~= old(stack)@ + words_felts(rev).take(4 * (n - i)));
    }
    assert(words_felts(rev).take(4 * n) =~= words_felts(rev));
}

/// Pop `count` elements off `stack`, top first.
pub fn pop_felts(stack: &mut Vec<Felt>, count: usize) -> (r: FeltVec)
    requires
        old(stack)@.len() >= count,
    ensures
        final(stack)@ == old(stack)@.take(old(stack)@.len() - count),
        felt_vec_contents(r) == old(stack)@.skip(old(stack)@.len() - count).reverse(),
{
    let ghost len = old(stack)@.len();
    let mut felts = felt_vec_new();
    let mut i: usize = 0;
    while i < count
        invariant
            i <= count,
            count <= len,
            len == old(stack)@.len(),
            stack@ == old(stack)@.take(len - i),
            felt_vec_contents(felts) == old(stack)@.skip(len - count).reverse().take(i as int),
        decreases count - i,
    {
        let f = stack.pop().unwrap();
        felt_vec_push(&mut felts, f);
        i += 1;
        assert(stack@ =~= old(stack)@.take(len - i));
        assert(felt_vec_contents(felts) =~= old(stack)@.skip(len - count).reverse().take(i as int));
    }
    assert(old(stack)@.skip(len - count).reverse().take(count as int) =~= old(stack)@.skip(
        len - count,
    ).reverse());
    felts
}

} // verus!
