//! Memory maps as runs of samples.
//!
//! A PCM cache is a memory-mapped file of single-precision samples. These are the outside calls
//! that turn the bytes of a map into samples and samples into bytes, with what is known of them.
//!
//! What a map holds changes through the map alone. Whoever makes one sees to it that nothing else
//! touches its file while it is open.

use vstd::prelude::*;
use memmap2::MmapMut;

verus! {

/// A writable memory map.
#[verifier::external_type_specification]
#[verifier::external_body]
pub struct ExMmapMut(memmap2::MmapMut);

/// The length of a map in bytes.
pub uninterp spec fn map_size(m: MmapMut) -> nat;

/// The bytes of a map can be read as words: there is a whole number of them, and the map was made at
/// an address where a word may stand. A map does not move.
pub uninterp spec fn castable(m: MmapMut) -> bool;

/// The contents of a map as words, in the byte order of the machine.
pub uninterp spec fn map_words(m: MmapMut) -> Seq<u32>;

/// `[u8]::len` on what a `memmap2::MmapMut` dereferences to: its length in bytes.
#[verifier::external_body]
pub(crate) fn byte_len(m: &MmapMut) -> (r: usize)
    ensures
        r == map_size(*m),
{
    m.len()
}

/// `bytemuck::try_cast_slice` from bytes to words. It succeeds exactly where the address is aligned
/// and the length is a whole number of words.
#[verifier::external_body]
pub(crate) fn try_words(m: &MmapMut) -> (r: Option<&[u32]>)
    ensures
        r is Some <==> castable(*m),
        r matches Some(w) ==> w@ == map_words(*m) && w@.len() * 4 == map_size(*m),
{
    bytemuck::try_cast_slice(m).ok()
}

/// `bytemuck::cast_slice` from bytes to words. It panics where the words do not fit the bytes.
#[verifier::external_body]
pub(crate) fn words(m: &MmapMut) -> (r: &[u32])
    requires
        castable(*m),
    ensures
        r@ == map_words(*m),
        r@.len() * 4 == map_size(*m),
{
    bytemuck::cast_slice(m)
}

/// `bytemuck::cast_slice_mut` from bytes to words. What is written through the result is what the
/// map holds afterwards; the map stays where it is and keeps its length.
#[verifier::external_body]
pub(crate) fn words_mut(m: &mut MmapMut) -> (r: &mut [u32])
    requires
        castable(*old(m)),
    ensures
        r@ == map_words(*old(m)),
        r@.len() * 4 == map_size(*old(m)),
        map_words(*final(m)) == final(r)@,
        map_size(*final(m)) == map_size(*old(m)),
        castable(*final(m)),
{
    bytemuck::cast_slice_mut(m)
}

/// Byte `k` of the word `w`, the least significant first.
pub open spec fn byte_of(w: u32, k: int) -> u8 {
    if k == 0 {
        (w % 256) as u8
    } else if k == 1 {
        (w / 256 % 256) as u8
    } else if k == 2 {
        (w / 65536 % 256) as u8
    } else {
        (w / 16777216) as u8
    }
}

/// `bytes` are the words, each least significant byte first.
pub open spec fn little_endian(words: Seq<u32>, bytes: Seq<u8>) -> bool {
    forall|i: int| 0 <= i < bytes.len() ==> #[trigger] bytes[i] == byte_of(words[i / 4], i % 4)
}

/// `bytes` are the words, each most significant byte first.
pub open spec fn big_endian(words: Seq<u32>, bytes: Seq<u8>) -> bool {
    forall|i: int| 0 <= i < bytes.len() ==> #[trigger] bytes[i] == byte_of(words[i / 4], 3 - i % 4)
}

/// `bytes` are the words, four bytes each, all in the same byte order.
pub open spec fn serialized(words: Seq<u32>, bytes: Seq<u8>) -> bool {
    &&& bytes.len() == words.len() * 4
    &&& little_endian(words, bytes) || big_endian(words, bytes)
}

/// `bytemuck::cast_slice` from words to bytes: the words in the byte order of the machine.
#[verifier::external_body]
pub(crate) fn bytes(words: &[u32]) -> (r: &[u8])
    ensures
        serialized(words@, r@),
{
    bytemuck::cast_slice(words)
}

/// A word is made of its bytes.
proof fn lemma_bytes_of_a_word(w: u32)
    ensures
        w == byte_of(w, 0) + 256 * byte_of(w, 1) + 65536 * byte_of(w, 2) + 16777216 * byte_of(w, 3),
{
    let a = w as int / 256;
    let b = a / 256;
    let c = b / 256;
    assert(w as int == 256 * a + w as int % 256);
    assert(a == 256 * b + a % 256);
    assert(b == 256 * c + b % 256);
    assert(w as int / 65536 == b);
    assert(w as int / 16777216 == c);
}

/// Where the bytes of a word stand.
proof fn lemma_place_of_a_word(i: int)
    ensures
        (4 * i) / 4 == i && (4 * i) % 4 == 0,
        (4 * i + 1) / 4 == i && (4 * i + 1) % 4 == 1,
        (4 * i + 2) / 4 == i && (4 * i + 2) % 4 == 2,
        (4 * i + 3) / 4 == i && (4 * i + 3) % 4 == 3,
{
}

/// The bytes hold the words: four bytes for each, in one order throughout, of which each counts 256 times
/// the one before.
pub proof fn law_bytes_hold_the_words(words: Seq<u32>, bytes: Seq<u8>)
    requires
        serialized(words, bytes),
    ensures
        bytes.len() == 4 * words.len(),
        (forall|i: int|
            0 <= i < words.len() ==> #[trigger] words[i] == bytes[4 * i] + 256 * bytes[4 * i + 1] + 65536 * bytes[4 * i
                + 2] + 16777216 * bytes[4 * i + 3]) || (forall|i: int|
            0 <= i < words.len() ==> #[trigger] words[i] == bytes[4 * i + 3] + 256 * bytes[4 * i + 2] + 65536 * bytes[4
                * i + 1] + 16777216 * bytes[4 * i]),
{
    if little_endian(words, bytes) {
        assert forall|i: int| 0 <= i < words.len() implies #[trigger] words[i] == bytes[4 * i] + 256 * bytes[4 * i + 1]
            + 65536 * bytes[4 * i + 2] + 16777216 * bytes[4 * i + 3] by {
            lemma_little_word(words, bytes, i);
        }
    } else {
        assert forall|i: int| 0 <= i < words.len() implies #[trigger] words[i] == bytes[4 * i + 3] + 256 * bytes[4 * i
            + 2] + 65536 * bytes[4 * i + 1] + 16777216 * bytes[4 * i] by {
            lemma_big_word(words, bytes, i);
        }
    }
}

proof fn lemma_little_word(words: Seq<u32>, bytes: Seq<u8>, i: int)
    requires
        little_endian(words, bytes),
        bytes.len() == words.len() * 4,
        0 <= i < words.len(),
    ensures
        words[i] == bytes[4 * i] + 256 * bytes[4 * i + 1] + 65536 * bytes[4 * i + 2] + 16777216 * bytes[4 * i + 3],
{
    let w = words[i];
    lemma_place_of_a_word(i);
    assert(bytes[4 * i] == byte_of(w, 0));
    assert(bytes[4 * i + 1] == byte_of(w, 1));
    assert(bytes[4 * i + 2] == byte_of(w, 2));
    assert(bytes[4 * i + 3] == byte_of(w, 3));
    lemma_bytes_of_a_word(w);
}

proof fn lemma_big_word(words: Seq<u32>, bytes: Seq<u8>, i: int)
    requires
        big_endian(words, bytes),
        bytes.len() == words.len() * 4,
        0 <= i < words.len(),
    ensures
        words[i] == bytes[4 * i + 3] + 256 * bytes[4 * i + 2] + 65536 * bytes[4 * i + 1] + 16777216 * bytes[4 * i],
{
    let w = words[i];
    lemma_place_of_a_word(i);
    assert(bytes[4 * i] == byte_of(w, 3));
    assert(bytes[4 * i + 1] == byte_of(w, 2));
    assert(bytes[4 * i + 2] == byte_of(w, 1));
    assert(bytes[4 * i + 3] == byte_of(w, 0));
    lemma_bytes_of_a_word(w);
}

} // verus!
