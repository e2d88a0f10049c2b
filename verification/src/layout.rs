//! The byte layout of what crosses between host and device: the extent as a uniform
//! record on the way in, the label buffer on the way back.
//!
//! Words are laid out in the byte order of the machine, which is one of two.

use vstd::prelude::*;
use crate::error::PipelineError;
use crate::geometry::Dimensions;

verus! {

/// Byte `k` of a word, counted from the least significant.
pub open spec fn byte_of(word: u32, k: int) -> u8 {
    if k == 0 {
        (word % 0x100) as u8
    } else if k == 1 {
        ((word / 0x100) % 0x100) as u8
    } else if k == 2 {
        ((word / 0x1_0000) % 0x100) as u8
    } else {
        (word / 0x100_0000) as u8
    }
}

/// The word whose bytes are `b0` to `b3`, counted from the least significant.
pub open spec fn word_of(b0: u8, b1: u8, b2: u8, b3: u8) -> u32 {
    (b0 + 0x100 * b1 + 0x1_0000 * b2 + 0x100_0000 * b3) as u32
}

/// The bytes of `words`, four per word, least significant byte first if `little` and
/// most significant byte first otherwise.
pub open spec fn encoded(words: Seq<u32>, little: bool) -> Seq<u8> {
    Seq::new(
        4 * words.len(),
        |i: int|
            byte_of(
                words[i / 4],
                if little {
                    i % 4
                } else {
                    3 - i % 4
                },
            ),
    )
}

/// The words that `bytes` hold, four bytes per word, read in the given byte order.
pub open spec fn decoded(bytes: Seq<u8>, little: bool) -> Seq<u32> {
    Seq::new(
        (bytes.len() / 4) as nat,
        |i: int|
            if little {
                word_of(bytes[4 * i], bytes[4 * i + 1], bytes[4 * i + 2], bytes[4 * i + 3])
            } else {
                word_of(bytes[4 * i + 3], bytes[4 * i + 2], bytes[4 * i + 1], bytes[4 * i])
            },
    )
}

/// The words of the uniform record that carries the extent: columns, rows, and two words
/// of padding that bring the record to sixteen bytes.
pub open spec fn uniform_words(dims: Dimensions) -> Seq<u32> {
    seq![dims.columns, dims.rows, 0u32, 0u32]
}

/// Calls `bytemuck::cast_slice` from `u32` to `u8` and copies the result.  The cast views
/// the memory of the words as bytes, so each word contributes its four bytes in the
/// machine's byte order; it cannot fail in this direction.
#[verifier::external_body]
fn words_to_bytes(words: &[u32]) -> (bytes: Vec<u8>)
    ensures
        bytes@ == encoded(words@, true) || bytes@ == encoded(words@, false),
{
    bytemuck::cast_slice::<u32, u8>(words).to_vec()
}

/// Calls `bytemuck::pod_collect_to_vec` from `u8` to `u32`.  It copies the bytes into
/// freshly allocated words, whatever the alignment of the input, so each word holds four
/// consecutive bytes in the machine's byte order.
#[verifier::external_body]
fn bytes_to_words(bytes: &[u8]) -> (words: Vec<u32>)
    requires
        bytes@.len() % 4 == 0,
    ensures
        words@ == decoded(bytes@, true) || words@ == decoded(bytes@, false),
{
    bytemuck::pod_collect_to_vec::<u8, u32>(bytes)
}

/// The contents of the uniform buffer for an image of extent `dims`: sixteen bytes, the
/// words of the record in the machine's byte order.
pub fn uniform_bytes(dims: &Dimensions) -> (bytes: Vec<u8>)
    ensures
        bytes.len() == 16,
        bytes@ == encoded(uniform_words(*dims), true) || bytes@ == encoded(
            uniform_words(*dims),
            false,
        ),
{
    let mut words: Vec<u32> = Vec::new();
    words.push(dims.columns);
    words.push(dims.rows);
    words.push(0);
    words.push(0);
    assert(words@ =~= uniform_words(*dims));
    words_to_bytes(words.as_slice())
}

/// Reads the label buffer of an image of extent `dims` out of the bytes that came back
/// from the device: one label per pixel, row by row.  Fails exactly when the number of
/// bytes is not four times the number of pixels.
pub fn labels_from_bytes(dims: &Dimensions, bytes: &[u8]) -> (result: Result<
    Vec<u32>,
    PipelineError,
>)
    ensures
        result is Ok <==> bytes@.len() == 4 * dims.pixel_count(),
        result is Err ==> result->Err_0 == PipelineError::ReadbackLength,
        result is Ok ==> result->Ok_0@.len() == dims.pixel_count() && (result->Ok_0@ == decoded(
            bytes@,
            true,
        ) || result->Ok_0@ == decoded(bytes@, false)),
{
    let length: u64 = bytes.len() as u64;
    if length % 4 != 0 || length / 4 != dims.num_pixels() {
        return Err(PipelineError::ReadbackLength);
    }
    Ok(bytes_to_words(bytes))
}

/// Whether the two buffers agree on every position before `at` and part ways there:
/// by holding different words, or by one of them ending.
pub open spec fn parts_at(expected: Seq<u32>, actual: Seq<u32>, at: int) -> bool {
    &&& 0 <= at <= expected.len()
    &&& at <= actual.len()
    &&& forall|i: int| 0 <= i < at ==> expected[i] == actual[i]
    &&& if at < expected.len() && at < actual.len() {
        expected[at] != actual[at]
    } else {
        expected.len() != actual.len()
    }
}

/// The first position at which the label buffer that was read back parts from the one
/// that was expected, or `None` when the two are the same.
pub fn first_difference(expected: &[u32], actual: &[u32]) -> (at: Option<usize>)
    ensures
        at is None <==> expected@ == actual@,
        at is Some ==> parts_at(expected@, actual@, at->0 as int),
{
    let mut i: usize = 0;
    while i < expected.len() && i < actual.len()
        invariant
            i <= expected@.len(),
            i <= actual@.len(),
            forall|j: int| 0 <= j < i ==> expected@[j] == actual@[j],
        decreases expected@.len() - i,
    {
        if expected[i] != actual[i] {
            return Some(i);
        }
        i = i + 1;
    }
    if expected.len() != actual.len() {
        Some(i)
    } else {
        assert(expected@ =~= actual@);
        None
    }
}

/// Reading back what was laid out in the same byte order gives the words again.
pub proof fn lemma_decode_encode(words: Seq<u32>, little: bool)
    ensures
        decoded(encoded(words, little), little) == words,
{
    let bytes = encoded(words, little);
    assert forall|i: int| 0 <= i < words.len() implies decoded(bytes, little)[i] == words[i] by {
        let w = words[i];
        assert((4 * i) / 4 == i && (4 * i + 1) / 4 == i && (4 * i + 2) / 4 == i && (4 * i + 3) / 4
            == i);
        assert((4 * i) % 4 == 0 && (4 * i + 1) % 4 == 1 && (4 * i + 2) % 4 == 2 && (4 * i + 3) % 4
            == 3);
        assert(word_of(byte_of(w, 0), byte_of(w, 1), byte_of(w, 2), byte_of(w, 3)) == w);
    }
    assert(decoded(bytes, little) =~= words);
}

} // verus!
