//! The words that describe the heap's operations on a diagnostic port.
//!
//! Each operation is described by two or three 32-bit words. The high byte of
//! a word is its opcode, the low 24 bits carry a part of the sizes involved,
//! and the whole word is scrambled with [`HEAPTRACE_KEY`]. The functions of
//! this module only compose the words; to send them is left to the caller.

use super::layout::Layout;
use vstd::prelude::*;

verus! {

/// The key that every trace word is combined with by exclusive or.
pub const HEAPTRACE_KEY: u32 = 0xC5AC_CE55;

/// The 32 low bits of a size.
pub open spec fn low_bits(size: usize) -> u32 {
    size as u32
}

/// The word with `opcode` in its high byte and `payload` below it, scrambled.
pub open spec fn word(opcode: u32, payload: u32) -> u32 {
    (opcode << 24 | payload) ^ HEAPTRACE_KEY
}

/// The two words of an operation on one block of `size` bytes, with the
/// opcodes `first` and `second`: bits 24 to 31 of the size, then its bits 0
/// to 7.
pub open spec fn single(first: u32, second: u32, size: usize) -> Seq<u32> {
    seq![word(first, low_bits(size) >> 24), word(second, low_bits(size) & 0xFF)]
}

/// The three words of an operation that moves a block of `old_size` bytes
/// into one of `new_size` bytes, with the opcodes `first`, `second` and
/// `third`: bits 24 to 31 of the old size; its bits 0 to 7 above bits 16 to
/// 31 of the new size; bits 0 to 15 of the new size.
pub open spec fn double(first: u32, second: u32, third: u32, old_size: usize, new_size: usize)
    -> Seq<u32> {
    seq![
        word(first, low_bits(old_size) >> 24),
        word(second, (low_bits(old_size) & 0xFF) << 16 | low_bits(new_size) >> 16),
        word(third, low_bits(new_size) & 0xFFFF),
    ]
}

/// A scrambled word gives back its opcode and its payload, where the opcode
/// is one byte and the payload is 24 bits.
pub proof fn lemma_word_decodes(opcode: u32, payload: u32)
    requires
        opcode <= 0xFF,
        payload <= 0xFF_FFFF,
    ensures
        (word(opcode, payload) ^ HEAPTRACE_KEY) >> 24 == opcode,
        (word(opcode, payload) ^ HEAPTRACE_KEY) & 0xFF_FFFF == payload,
{
    assert((((opcode << 24 | payload) ^ 0xC5AC_CE55u32) ^ 0xC5AC_CE55u32) >> 24 == opcode
        && (((opcode << 24 | payload) ^ 0xC5AC_CE55u32) ^ 0xC5AC_CE55u32) & 0xFF_FFFF == payload)
        by (bit_vector)
        requires
            opcode <= 0xFF,
            payload <= 0xFF_FFFF,
    ;
}

/// Every payload of the words of this module fits in 24 bits.
pub proof fn lemma_payloads_fit(old_size: u32, new_size: u32)
    ensures
        old_size >> 24 <= 0xFF_FFFF,
        old_size & 0xFF <= 0xFF_FFFF,
        (old_size & 0xFF) << 16 | new_size >> 16 <= 0xFF_FFFF,
        new_size & 0xFFFF <= 0xFF_FFFF,
{
    assert(old_size >> 24 <= 0xFF_FFFF && old_size & 0xFF <= 0xFF_FFFF && ((old_size & 0xFF) << 16
        | new_size >> 16) <= 0xFF_FFFF && new_size & 0xFFFF <= 0xFF_FFFF) by (bit_vector);
}

/// Composes the word with `opcode` in its high byte and `payload` below it.
fn compose(opcode: u32, payload: u32) -> (scrambled: u32)
    requires
        opcode <= 0xFF,
    ensures
        scrambled == word(opcode, payload),
{
    assert(opcode << 24 <= 0xFF00_0000u32) by (bit_vector)
        requires
            opcode <= 0xFF,
    ;
    (opcode << 24 | payload) ^ HEAPTRACE_KEY
}

/// The 32 low bits of a size.
fn truncate(size: usize) -> (bits: u32)
    ensures
        bits == low_bits(size),
{
    #[verifier::truncate]
    (size as u32)
}

/// Composes the two words of an operation on one block.
fn compose_single(first: u32, second: u32, size: usize) -> (words: [u32; 2])
    requires
        first <= 0xFF,
        second <= 0xFF,
    ensures
        words@ == single(first, second, size),
{
    let bits = truncate(size);
    let words = [compose(first, bits >> 24), compose(second, bits & 0xFF)];
    assert(words@ =~= single(first, second, size));
    words
}

/// Composes the three words of an operation that moves a block.
fn compose_double(first: u32, second: u32, third: u32, old_size: usize, new_size: usize) -> (words:
    [u32; 3])
    requires
        first <= 0xFF,
        second <= 0xFF,
        third <= 0xFF,
    ensures
        words@ == double(first, second, third, old_size, new_size),
{
    let old_bits = truncate(old_size);
    let new_bits = truncate(new_size);
    assert((old_bits & 0xFF) << 16 <= 0xFF_0000u32) by (bit_vector);
    let words = [
        compose(first, old_bits >> 24),
        compose(second, (old_bits & 0xFF) << 16 | new_bits >> 16),
        compose(third, new_bits & 0xFFFF),
    ];
    assert(words@ =~= double(first, second, third, old_size, new_size));
    words
}

/// The words that describe the allocation of a block for `layout`: opcodes
/// `0xA1` and `0xA2`.
pub fn allocate(layout: Layout) -> (words: [u32; 2])
    ensures
        words@ == single(0xA1, 0xA2, layout.size()),
{
    compose_single(0xA1, 0xA2, layout.size())
}

/// The words that describe the deallocation of a block of `layout`: opcodes
/// `0xD1` and `0xD2`.
pub fn deallocate(layout: Layout) -> (words: [u32; 2])
    ensures
        words@ == single(0xD1, 0xD2, layout.size()),
{
    compose_single(0xD1, 0xD2, layout.size())
}

/// The words that describe the growth of a block of `old_layout` to
/// `new_layout`: opcodes `0xB1`, `0xB2` and `0xB3`.
pub fn grow(old_layout: Layout, new_layout: Layout) -> (words: [u32; 3])
    ensures
        words@ == double(0xB1, 0xB2, 0xB3, old_layout.size(), new_layout.size()),
{
    compose_double(0xB1, 0xB2, 0xB3, old_layout.size(), new_layout.size())
}

/// The words that describe the shrinking of a block of `old_layout` to
/// `new_layout`: opcodes `0xC1`, `0xC2` and `0xC3`.
pub fn shrink(old_layout: Layout, new_layout: Layout) -> (words: [u32; 3])
    ensures
        words@ == double(0xC1, 0xC2, 0xC3, old_layout.size(), new_layout.size()),
{
    compose_double(0xC1, 0xC2, 0xC3, old_layout.size(), new_layout.size())
}

} // verus!
