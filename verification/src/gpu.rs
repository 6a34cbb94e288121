//! What the simulations ask of the graphics device, as plain values: buffers,
//! bindings, parameter words, uploads and workgroup counts.
//!
//! Single-precision numbers are held as their bit patterns (`u32`). A number that
//! the device needs and that takes floating-point arithmetic to obtain is
//! described by a [`Word`] and computed where it is sent.
use crate::bytes::ByteOrder;
use vstd::prelude::*;

verus! {

/// Bytes in a 32-bit word.
pub const WORD_BYTES: u64 = 4;

/// Invocations in one workgroup of every compute shader.
pub const WORKGROUP_SIZE: u32 = 256;

/// The bit pattern of the single-precision number zero.
pub const F32_ZERO: u32 = 0;

/// The bit pattern of the single-precision number one.
pub const F32_ONE: u32 = 0x3f80_0000;

/// What a buffer may be used for.
#[derive(Clone, Copy, Debug, PartialEq, Eq, Structural)]
pub enum BufferKind {
    /// Shader storage that can be copied to and from.
    Storage,
    /// Shader storage that is only filled from the host.
    StorageInput,
    /// Shader parameters, filled from the host.
    Uniform,
    /// Target of a copy, mapped for reading by the host.
    Readback,
    /// Source of a copy, mapped for writing by the host.
    Staging,
}

/// How a shader accesses one of its bindings.
#[derive(Clone, Copy, Debug, PartialEq, Eq, Structural)]
pub enum Access {
    /// A storage buffer that the shader only reads.
    ReadOnly,
    /// A storage buffer that the shader reads and writes.
    ReadWrite,
    /// A parameter block.
    Uniform,
}

/// The part of a buffer that is bound to a shader.
#[derive(Clone, Copy, Debug, PartialEq, Eq, Structural)]
pub enum Extent {
    /// The whole buffer.
    Entire,
    /// `size` bytes from byte `offset` on.
    Range { offset: u64, size: u64 },
}

/// A 32-bit word of a parameter block.
#[derive(Clone, Copy, Debug, PartialEq, Eq, Structural)]
pub enum Word {
    /// An unsigned integer.
    Unsigned(u32),
    /// A signed integer.
    Signed(i32),
    /// A single-precision number, by its bit pattern.
    Float(u32),
    /// The single-precision number nearest to an integer.
    FloatOf(u64),
    /// The single-precision difference of an integer and a number given by its bit
    /// pattern.
    FloatDifference { whole: i32, minus: u32 },
    /// One divided by the `exponent`-th power of an integer, in single precision.
    InversePower { base: u64, exponent: u64 },
}

/// A parameter block.
#[derive(Debug)]
pub struct ParamBlock {
    pub order: ByteOrder,
    pub words: Vec<Word>,
}

/// A single-precision complex number, by the bit patterns of its parts.
#[derive(Clone, Copy, Debug, PartialEq, Eq, Structural)]
pub struct Complex32Bits {
    pub re: u32,
    pub im: u32,
}

/// The number of workgroups that gives each of `total` elements an invocation.
pub open spec fn groups_for(total: nat) -> nat {
    (total + 255) / 256
}

/// The workgroup count for `total` elements is the least one that gives each of
/// them an invocation.
pub proof fn workgroups_cover(total: nat, other: nat)
    ensures
        groups_for(total) * 256 >= total,
        other * 256 >= total ==> groups_for(total) <= other,
{
}

/// The number of workgroups to dispatch for `total` elements.
pub fn workgroups(total: u32) -> (groups: u32)
    requires
        total + 255 <= u32::MAX,
    ensures
        groups == groups_for(total as nat),
{
    (total + 255) / 256
}

/// The words of a sequence of complex numbers: real and imaginary parts in turn.
pub open spec fn interleaved(data: Seq<Complex32Bits>) -> Seq<u32> {
    Seq::new(
        2 * data.len(),
        |i: int|
            if i % 2 == 0 {
                data[i / 2].re
            } else {
                data[i / 2].im
            },
    )
}

/// The complex numbers of a sequence of words.
pub open spec fn paired(words: Seq<u32>) -> Seq<Complex32Bits> {
    Seq::new(
        words.len() / 2,
        |i: int| Complex32Bits { re: words[2 * i], im: words[2 * i + 1] },
    )
}

/// Lays complex numbers out as words.
pub fn interleave(data: &Vec<Complex32Bits>) -> (words: Vec<u32>)
    ensures
        words@ == interleaved(data@),
{
    let mut words: Vec<u32> = Vec::new();
    let mut i: usize = 0;
    while i < data.len()
        invariant
            i <= data.len(),
            words@ == interleaved(data@).take(2 * i),
        decreases data.len() - i,
    {
        words.push(data[i].re);
        words.push(data[i].im);
        i = i + 1;
        assert(words@ =~= interleaved(data@).take(2 * i));
    }
    assert(interleaved(data@).take(2 * i) =~= interleaved(data@));
    words
}

/// Reads complex numbers back from their words.
pub fn pair_up(words: &Vec<u32>) -> (data: Vec<Complex32Bits>)
    requires
        words.len() % 2 == 0,
    ensures
        data@ == paired(words@),
{
    let mut data: Vec<Complex32Bits> = Vec::new();
    let mut i: usize = 0;
    while i < words.len()
        invariant
            i <= words.len(),
            i % 2 == 0,
            words.len() % 2 == 0,
            data@ == paired(words@).take((i / 2) as int),
        decreases words.len() - i,
    {
        data.push(Complex32Bits { re: words[i], im: words[i + 1] });
        i = i + 2;
        assert(data@ =~= paired(words@).take((i / 2) as int));
    }
    assert(paired(words@).take((i / 2) as int) =~= paired(words@));
    data
}

/// Reading complex numbers back from their words gives the same numbers.
pub proof fn pairs_of_interleaved(data: Seq<Complex32Bits>)
    ensures
        paired(interleaved(data)) == data,
{
    assert(paired(interleaved(data)) =~= data);
}

/// Laying out the complex numbers of an even number of words gives the words back.
pub proof fn interleaved_of_pairs(words: Seq<u32>)
    requires
        words.len() % 2 == 0,
    ensures
        interleaved(paired(words)) == words,
{
    assert(interleaved(paired(words)) =~= words);
}

/// Words to be written to a buffer from byte `offset` on.
#[derive(Debug)]
pub struct Upload<B> {
    pub buffer: B,
    pub offset: u64,
    pub words: Vec<u32>,
}

/// Bytes to be copied out of a buffer for the host to read.
#[derive(Debug)]
pub struct Download<B> {
    pub buffer: B,
    pub offset: u64,
    pub size: u64,
}

/// A buffer of 32-bit elements that held `contents`, after `words` were written from
/// byte `offset` on.
pub open spec fn stored<T>(contents: Seq<T>, offset: int, words: Seq<T>) -> Seq<T> {
    Seq::new(
        contents.len(),
        |i: int|
            if offset / 4 <= i < offset / 4 + words.len() {
                words[i - offset / 4]
            } else {
                contents[i]
            },
    )
}

/// The elements in `size` bytes of a buffer of 32-bit elements from byte `offset` on.
pub open spec fn loaded<T>(contents: Seq<T>, offset: int, size: int) -> Seq<T> {
    contents.subrange(offset / 4, (offset + size) / 4)
}

/// Reading the part of a buffer that was just written gives the words that were
/// written.
pub proof fn load_of_store<T>(contents: Seq<T>, offset: int, words: Seq<T>)
    requires
        0 <= offset,
        offset % 4 == 0,
        offset / 4 + words.len() <= contents.len(),
    ensures
        loaded(stored(contents, offset, words), offset, 4 * words.len() as int) == words,
{
    assert(loaded(stored(contents, offset, words), offset, 4 * words.len() as int) =~= words);
}

/// Writing to a part of a buffer leaves every part alone that does not overlap it.
pub proof fn load_beside_store<T>(
    contents: Seq<T>,
    offset: int,
    words: Seq<T>,
    other: int,
    size: int,
)
    requires
        0 <= offset,
        0 <= other,
        0 <= size,
        offset % 4 == 0,
        other % 4 == 0,
        size % 4 == 0,
        (other + size) / 4 <= contents.len(),
        other + size <= offset || offset + 4 * words.len() <= other,
    ensures
        loaded(stored(contents, offset, words), other, size) == loaded(contents, other, size),
{
    assert(loaded(stored(contents, offset, words), other, size) =~= loaded(contents, other, size));
}

/// A copy of a list of words.
pub(crate) fn copy_words(words: &Vec<u32>) -> (copy: Vec<u32>)
    ensures
        copy@ == words@,
{
    let copy: Vec<u32> = words.clone();
    assert(copy@ =~= words@);
    copy
}

/// The bytes of a buffer that an extent of it covers, from the first to the one
/// after the last.
pub open spec fn extent_bounds(size: int, extent: Extent) -> (int, int) {
    match extent {
        Extent::Entire => (0, size),
        Extent::Range { offset, size } => (offset as int, offset + size),
    }
}

/// A buffer of this kind can be bound with this access.
pub open spec fn kind_allows(kind: BufferKind, access: Access) -> bool {
    match access {
        Access::ReadOnly => kind == BufferKind::Storage || kind == BufferKind::StorageInput,
        Access::ReadWrite => kind == BufferKind::Storage,
        Access::Uniform => kind == BufferKind::Uniform,
    }
}

} // verus!
