//! An image held where the parser can read it in place.
//!
//! The parser reads the headers of an image through references to structs
//! with 64-bit fields, so the bytes have to start where such a field may
//! start. Bytes that arrive in a slice start anywhere. [`AlignedImage`]
//! holds a copy of them in 64-bit words: its first byte lies where a word
//! lies.

use vstd::prelude::*;
use vstd::bytes::{
    lemma_auto_spec_u64_to_from_le_bytes, spec_u64_from_le_bytes, spec_u64_to_le_bytes,
    u64_from_le_bytes,
};
use vstd::slice::slice_subrange;

verus! {

/// The bytes of a list of words, each word with its lowest byte first.
pub open spec fn word_bytes(words: Seq<u64>) -> Seq<u8>
    decreases words.len(),
{
    if words.len() == 0 {
        Seq::empty()
    } else {
        word_bytes(words.drop_last()) + spec_u64_to_le_bytes(words.last())
    }
}

/// Each word holds eight bytes.
pub proof fn lemma_word_bytes_len(words: Seq<u64>)
    ensures
        word_bytes(words).len() == 8 * words.len(),
    decreases words.len(),
{
    lemma_auto_spec_u64_to_from_le_bytes();
    if words.len() > 0 {
        lemma_word_bytes_len(words.drop_last());
    }
}

/// Appending the word made of eight bytes appends those bytes.
pub proof fn lemma_word_bytes_push(words: Seq<u64>, chunk: Seq<u8>)
    requires
        chunk.len() == 8,
    ensures
        word_bytes(words.push(spec_u64_from_le_bytes(chunk))) == word_bytes(words) + chunk,
{
    lemma_auto_spec_u64_to_from_le_bytes();
    let word = spec_u64_from_le_bytes(chunk);
    assert(words.push(word).drop_last() =~= words);
    assert(spec_u64_to_le_bytes(word) == chunk);
}

/// The bytes of an image, held in 64-bit words.
///
/// Its value is the bytes it was made from. The words hold them in order,
/// lowest byte first, and zeros after the last.
#[derive(Debug)]
pub struct AlignedImage {
    pub(crate) words: Vec<u64>,
    pub(crate) len: usize,
}

impl View for AlignedImage {
    type V = Seq<u8>;

    closed spec fn view(&self) -> Seq<u8> {
        word_bytes(self.words@).take(self.len as int)
    }
}

impl AlignedImage {
    /// The words hold as many bytes as the image has.
    pub closed spec fn wf(&self) -> bool {
        self.len <= 8 * self.words@.len()
    }

    /// A copy of `image`.
    pub fn copy_of(image: &[u8]) -> (buffer: AlignedImage)
        ensures
            buffer.wf(),
            buffer@ == image@,
    {
        let len = image.len();
        let mut words: Vec<u64> = Vec::new();
        let mut at: usize = 0;
        while len - at >= 8
            invariant
                at <= len,
                len == image@.len(),
                words@.len() * 8 == at,
                word_bytes(words@) == image@.take(at as int),
            decreases len - at,
        {
            let chunk = slice_subrange(image, at, at + 8);
            let word = u64_from_le_bytes(chunk);
            proof {
                lemma_word_bytes_push(words@, chunk@);
                assert(image@.take(at as int) + image@.subrange(at as int, at + 8) =~= image@.take(
                    at + 8,
                ));
            }
            words.push(word);
            at += 8;
        }
        if at < len {
            let mut tail: Vec<u8> = Vec::new();
            let mut k: usize = 0;
            while k < 8
                invariant
                    k <= 8,
                    tail.len() == k,
                    at < len,
                    len - at < 8,
                    len == image@.len(),
                    forall|j: int| 0 <= j < k && at + j < len ==> tail@[j] == image@[at + j],
                decreases 8 - k,
            {
                let byte: u8 = if k < len - at {
                    image[at + k]
                } else {
                    0
                };
                tail.push(byte);
                k += 1;
            }
            let word = u64_from_le_bytes(tail.as_slice());
            proof {
                lemma_word_bytes_push(words@, tail@);
                assert((image@.take(at as int) + tail@).take(len as int) =~= image@);
            }
            words.push(word);
        } else {
            assert(image@.take(at as int).take(len as int) =~= image@);
        }
        let buffer = AlignedImage { words, len };
        proof {
            lemma_word_bytes_len(buffer.words@);
        }
        buffer
    }

    /// The number of bytes of the image.
    pub fn len(&self) -> (n: usize)
        requires
            self.wf(),
        ensures
            n == self@.len(),
    {
        proof {
            lemma_word_bytes_len(self.words@);
        }
        self.len
    }
}

} // verus!
