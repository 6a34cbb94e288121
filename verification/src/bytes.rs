//! Words as bytes.
//!
//! Most data goes to the device as it lies in memory, so in the byte order of the
//! machine; parameter blocks that mix integers and floats are laid out in
//! little-endian order.
use crate::gpu::Upload;
use vstd::prelude::*;

verus! {

/// The order of the bytes of a word.
#[derive(Clone, Copy, Debug, PartialEq, Eq, Structural)]
pub enum ByteOrder {
    /// The order of the machine.
    Native,
    /// Least significant byte first.
    Little,
}

/// The byte of `word` at `place`, where place 0 is the least significant.
pub open spec fn byte_at(word: u32, place: int) -> u8 {
    if place == 0 {
        (word % 256) as u8
    } else if place == 1 {
        ((word / 0x100) % 256) as u8
    } else if place == 2 {
        ((word / 0x1_0000) % 256) as u8
    } else {
        (word / 0x100_0000) as u8
    }
}

/// The bytes of `words`, each word in big-endian or little-endian order.
pub open spec fn bytes_of(words: Seq<u32>, big_endian: bool) -> Seq<u8> {
    Seq::new(
        4 * words.len(),
        |i: int|
            byte_at(
                words[i / 4],
                if big_endian {
                    3 - i % 4
                } else {
                    i % 4
                },
            ),
    )
}

/// `bytes` are the bytes of `words` on a machine of one byte order or the other.
pub open spec fn are_bytes_of(bytes: Seq<u8>, words: Seq<u32>) -> bool {
    bytes == bytes_of(words, false) || bytes == bytes_of(words, true)
}

/// Different words have different bytes, so words can be read back from their
/// bytes in the order they were written in.
pub proof fn bytes_determine_words(a: Seq<u32>, b: Seq<u32>, big_endian: bool)
    requires
        bytes_of(a, big_endian) == bytes_of(b, big_endian),
    ensures
        a == b,
{
    let x = bytes_of(a, big_endian);
    let y = bytes_of(b, big_endian);
    assert(x.len() == 4 * a.len() && y.len() == 4 * b.len());
    assert forall|k: int| 0 <= k < a.len() implies a[k] == b[k] by {
        assert forall|place: int| 0 <= place < 4 implies byte_at(a[k], place) == #[trigger] byte_at(
            b[k],
            place,
        ) by {
            let i = 4 * k + if big_endian {
                3 - place
            } else {
                place
            };
            assert(i / 4 == k);
            assert(x[i] == byte_at(a[k], place));
            assert(y[i] == byte_at(b[k], place));
        }
        let (u, v) = (a[k], b[k]);
        assert(byte_at(u, 0) == byte_at(v, 0));
        assert(byte_at(u, 1) == byte_at(v, 1));
        assert(byte_at(u, 2) == byte_at(v, 2));
        assert(byte_at(u, 3) == byte_at(v, 3));
    }
    assert(a =~= b);
}

/// `bytemuck::cast_slice` from words to bytes, copied: the bytes of the words as
/// they lie in memory. It is trusted that each word becomes its four bytes, in
/// place, in the byte order of the machine; which of the two orders that is, is not
/// stated.
#[verifier::external_body]
fn cast_words(words: &Vec<u32>) -> (bytes: Vec<u8>)
    ensures
        are_bytes_of(bytes@, words@),
{
    bytemuck::cast_slice::<u32, u8>(words).to_vec()
}

/// `bytemuck::pod_collect_to_vec` from bytes to words: the words whose bytes in
/// memory are the given ones. It is trusted that every four bytes become one word,
/// in place, in the byte order of the machine; which of the two orders that is, is
/// not stated.
#[verifier::external_body]
fn collect_words(bytes: &Vec<u8>) -> (words: Vec<u32>)
    requires
        bytes.len() % 4 == 0,
    ensures
        are_bytes_of(bytes@, words@),
{
    bytemuck::pod_collect_to_vec::<u8, u32>(bytes)
}

/// The little-endian bytes of `words`.
fn little_endian(words: &Vec<u32>) -> (bytes: Vec<u8>)
    ensures
        bytes@ == bytes_of(words@, false),
{
    let mut bytes: Vec<u8> = Vec::new();
    let mut i: usize = 0;
    while i < words.len()
        invariant
            i <= words.len(),
            bytes@ == bytes_of(words@, false).take(4 * i),
        decreases words.len() - i,
    {
        let word: u32 = words[i];
        bytes.push((word % 256) as u8);
        bytes.push(((word / 0x100) % 256) as u8);
        bytes.push(((word / 0x1_0000) % 256) as u8);
        bytes.push((word / 0x100_0000) as u8);
        i = i + 1;
        assert(bytes@ =~= bytes_of(words@, false).take(4 * i));
    }
    assert(bytes_of(words@, false).take(4 * i) =~= bytes_of(words@, false));
    bytes
}

/// The bytes of a parameter block, from the bit patterns of its words.
pub fn encode_block(words: &Vec<u32>, order: ByteOrder) -> (bytes: Vec<u8>)
    ensures
        are_bytes_of(bytes@, words@),
        order == ByteOrder::Little ==> bytes@ == bytes_of(words@, false),
{
    match order {
        ByteOrder::Native => cast_words(words),
        ByteOrder::Little => little_endian(words),
    }
}

impl<B> Upload<B> {
    /// The bytes to be written to the buffer.
    pub fn bytes(&self) -> (bytes: Vec<u8>)
        ensures
            are_bytes_of(bytes@, self.words@),
    {
        cast_words(&self.words)
    }
}

/// The words that bytes read from the device stand for.
pub fn decode_words(bytes: &Vec<u8>) -> (words: Vec<u32>)
    requires
        bytes.len() % 4 == 0,
    ensures
        are_bytes_of(bytes@, words@),
        words.len() == bytes.len() / 4,
{
    collect_words(bytes)
}

} // verus!
