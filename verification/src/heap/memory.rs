//! The byte arena that the pools carve their blocks from.
//!
//! A [`Memory`] stands for the range of addresses `origin .. origin + size`.
//! Blocks are read and written byte by byte; the link of a free list is a
//! 64-bit little-endian word kept in the first [`WORD_SIZE`] bytes of a freed
//! block.

use vstd::bytes::*;
use vstd::prelude::*;
use vstd::slice::slice_subrange;

verus! {

/// Number of bytes that a free-list link takes at the start of a freed block.
pub const WORD_SIZE: usize = 8;

/// The mathematical content of a [`Memory`]: where it starts and what it holds.
pub struct MemoryView {
    /// Address of the first byte.
    pub origin: usize,
    /// The bytes, the one at address `origin` first.
    pub bytes: Seq<u8>,
}

impl MemoryView {
    /// Every address of the arena fits in a `usize`.
    pub open spec fn wf(self) -> bool {
        self.origin + self.bytes.len() <= usize::MAX
    }

    /// Address just past the last byte.
    pub open spec fn end(self) -> int {
        self.origin + self.bytes.len()
    }

    /// The `len` bytes that start at `addr` all lie in the arena.
    pub open spec fn contains(self, addr: int, len: int) -> bool {
        self.origin <= addr && 0 <= len && addr + len <= self.end()
    }

    /// The byte at `addr`.
    pub open spec fn byte(self, addr: int) -> u8
        recommends
            self.contains(addr, 1),
    {
        self.bytes[addr - self.origin]
    }

    /// The `len` bytes that start at `addr`.
    pub open spec fn range(self, addr: int, len: int) -> Seq<u8>
        recommends
            self.contains(addr, len),
    {
        self.bytes.subrange(addr - self.origin, addr - self.origin + len)
    }

    /// The little-endian word held by the eight bytes that start at `addr`.
    pub open spec fn word(self, addr: int) -> u64
        recommends
            self.contains(addr, WORD_SIZE as int),
    {
        spec_u64_from_le_bytes(self.range(addr, WORD_SIZE as int))
    }

    /// The arena after `data` was written at `addr`.
    pub open spec fn store_range(self, addr: int, data: Seq<u8>) -> MemoryView
        recommends
            self.contains(addr, data.len() as int),
    {
        MemoryView {
            origin: self.origin,
            bytes: Seq::new(
                self.bytes.len(),
                |i: int|
                    if addr - self.origin <= i < addr - self.origin + data.len() {
                        data[i - (addr - self.origin)]
                    } else {
                        self.bytes[i]
                    },
            ),
        }
    }

    /// The arena after one byte was written at `addr`.
    pub open spec fn store(self, addr: int, value: u8) -> MemoryView
        recommends
            self.contains(addr, 1),
    {
        self.store_range(addr, seq![value])
    }

    /// The arena after `word` was written, little-endian, at `addr`.
    pub open spec fn store_word(self, addr: int, word: u64) -> MemoryView
        recommends
            self.contains(addr, WORD_SIZE as int),
    {
        self.store_range(addr, spec_u64_to_le_bytes(word))
    }

    /// The arena after the `len` bytes at `src` were copied to `dst`.
    pub open spec fn copy(self, src: int, dst: int, len: int) -> MemoryView
        recommends
            self.contains(src, len),
            self.contains(dst, len),
    {
        self.store_range(dst, self.range(src, len))
    }

    /// The arena after `len` bytes from `addr` on were set to `value`.
    pub open spec fn fill(self, addr: int, value: u8, len: int) -> MemoryView
        recommends
            self.contains(addr, len),
    {
        self.store_range(addr, Seq::new(len as nat, |i: int| value))
    }

    /// `other` starts where `self` does, is as long, and holds the same bytes
    /// everywhere but in the `len` bytes from `addr` on.
    pub open spec fn same_outside(self, other: MemoryView, addr: int, len: int) -> bool {
        &&& self.origin == other.origin
        &&& self.bytes.len() == other.bytes.len()
        &&& forall|a: int|
            self.origin <= a < self.end() && !(addr <= a < addr + len) ==> #[trigger] self.byte(a)
                == other.byte(a)
    }

    /// A write changes nothing outside the bytes written.
    pub proof fn lemma_store_range_outside(self, addr: int, data: Seq<u8>)
        requires
            self.contains(addr, data.len() as int),
        ensures
            self.same_outside(self.store_range(addr, data), addr, data.len() as int),
            self.store_range(addr, data).wf() == self.wf(),
    {
    }

    /// What was written is what is read back.
    pub proof fn lemma_store_range_inside(self, addr: int, data: Seq<u8>)
        requires
            self.contains(addr, data.len() as int),
        ensures
            self.store_range(addr, data).range(addr, data.len() as int) == data,
    {
        assert(self.store_range(addr, data).range(addr, data.len() as int) =~= data);
    }

    /// Two arenas that differ only inside one range agree on every range that
    /// does not meet it.
    pub proof fn lemma_same_outside_range(
        self,
        other: MemoryView,
        addr: int,
        len: int,
        at: int,
        n: int,
    )
        requires
            self.same_outside(other, addr, len),
            self.contains(at, n),
            at + n <= addr || addr + len <= at || len <= 0,
        ensures
            self.range(at, n) == other.range(at, n),
    {
        assert forall|i: int| 0 <= i < n implies self.range(at, n)[i] == other.range(at, n)[i] by {
            assert(self.byte(at + i) == other.byte(at + i));
        }
        assert(self.range(at, n) =~= other.range(at, n));
    }

    /// A word that was written is the word that is read back.
    pub proof fn lemma_store_word_inside(self, addr: int, word: u64)
        requires
            self.contains(addr, WORD_SIZE as int),
        ensures
            self.store_word(addr, word).word(addr) == word,
    {
        lemma_auto_spec_u64_to_from_le_bytes();
        self.lemma_store_range_inside(addr, spec_u64_to_le_bytes(word));
    }
}

/// A contiguous range of byte-addressed memory.
pub struct Memory {
    origin: usize,
    bytes: Vec<u8>,
}

impl View for Memory {
    type V = MemoryView;

    closed spec fn view(&self) -> MemoryView {
        MemoryView { origin: self.origin, bytes: self.bytes@ }
    }
}

impl Memory {
    /// Creates an arena of `size` zero bytes whose first byte has the address
    /// `origin`.
    pub fn new(origin: usize, size: usize) -> (memory: Memory)
        requires
            origin + size <= usize::MAX,
        ensures
            memory@.origin == origin,
            memory@.bytes == Seq::new(size as nat, |i: int| 0u8),
            memory@.wf(),
    {
        let bytes = vec![0u8; size];
        assert(bytes@ =~= Seq::new(size as nat, |i: int| 0u8));
        Memory { origin, bytes }
    }

    /// Address of the first byte.
    pub fn origin(&self) -> (origin: usize)
        ensures
            origin == self@.origin,
    {
        self.origin
    }

    /// Number of bytes.
    pub fn size(&self) -> (size: usize)
        ensures
            size == self@.bytes.len(),
    {
        self.bytes.len()
    }

    /// The bytes of the arena, the one at address `origin` first.
    pub fn as_slice(&self) -> (bytes: &[u8])
        ensures
            bytes@ == self@.bytes,
    {
        self.bytes.as_slice()
    }

    /// Tells whether the `len` bytes that start at `addr` all lie in the arena.
    pub fn contains(&self, addr: usize, len: usize) -> (inside: bool)
        ensures
            inside == self@.contains(addr as int, len as int),
    {
        self.origin <= addr && len <= self.bytes.len() && addr - self.origin <= self.bytes.len()
            - len
    }

    /// Reads the byte at `addr`.
    pub fn read(&self, addr: usize) -> (value: u8)
        requires
            self@.contains(addr as int, 1),
        ensures
            value == self@.byte(addr as int),
    {
        self.bytes[addr - self.origin]
    }

    /// Writes `value` at `addr`.
    pub fn write(&mut self, addr: usize, value: u8)
        requires
            old(self)@.contains(addr as int, 1),
        ensures
            final(self)@ == old(self)@.store(addr as int, value),
    {
        let offset = addr - self.origin;
        self.bytes[offset] = value;
        assert(self@.bytes =~= old(self)@.store(addr as int, value).bytes);
    }

    /// Reads the word whose first byte is at `addr`.
    pub fn read_word(&self, addr: usize) -> (word: u64)
        requires
            self@.contains(addr as int, WORD_SIZE as int),
        ensures
            word == self@.word(addr as int),
    {
        let size = self.bytes.len();
        let offset = addr - self.origin;
        assert(offset + WORD_SIZE <= size);
        u64_from_le_bytes(slice_subrange(self.bytes.as_slice(), offset, offset + WORD_SIZE))
    }

    /// Writes `word` into the eight bytes that start at `addr`.
    pub fn write_word(&mut self, addr: usize, word: u64)
        requires
            old(self)@.contains(addr as int, WORD_SIZE as int),
        ensures
            final(self)@ == old(self)@.store_word(addr as int, word),
    {
        let data = u64_to_le_bytes(word);
        let size = self.bytes.len();
        let offset = addr - self.origin;
        let mut i: usize = 0;
        assert(self@.bytes =~= old(self)@.store_range(addr as int, data@.take(0)).bytes);
        while i < WORD_SIZE
            invariant
                i <= WORD_SIZE,
                data@.len() == WORD_SIZE,
                offset == addr - old(self)@.origin,
                size == self.bytes.len(),
                old(self)@.contains(addr as int, WORD_SIZE as int),
                self@ == old(self)@.store_range(addr as int, data@.take(i as int)),
            decreases WORD_SIZE - i,
        {
            self.bytes[offset + i] = data[i];
            i += 1;
            assert(self@.bytes =~= old(self)@.store_range(addr as int, data@.take(i as int)).bytes);
        }
        assert(data@.take(WORD_SIZE as int) =~= data@);
    }

    /// Copies the `len` bytes at `src` to `dst`. The two ranges do not overlap.
    pub fn copy(&mut self, src: usize, dst: usize, len: usize)
        requires
            old(self)@.contains(src as int, len as int),
            old(self)@.contains(dst as int, len as int),
            src + len <= dst || dst + len <= src,
        ensures
            final(self)@ == old(self)@.copy(src as int, dst as int, len as int),
    {
        let size = self.bytes.len();
        let from = src - self.origin;
        let to = dst - self.origin;
        let mut i: usize = 0;
        assert(self@.bytes =~= old(self)@.store_range(
            dst as int,
            old(self)@.range(src as int, len as int).take(0),
        ).bytes);
        while i < len
            invariant
                i <= len,
                size == self.bytes.len(),
                from == src - old(self)@.origin,
                to == dst - old(self)@.origin,
                old(self)@.contains(src as int, len as int),
                old(self)@.contains(dst as int, len as int),
                src + len <= dst || dst + len <= src,
                self@ == old(self)@.store_range(
                    dst as int,
                    old(self)@.range(src as int, len as int).take(i as int),
                ),
            decreases len - i,
        {
            let value = self.bytes[from + i];
            self.bytes[to + i] = value;
            i += 1;
            assert(self@.bytes =~= old(self)@.store_range(
                dst as int,
                old(self)@.range(src as int, len as int).take(i as int),
            ).bytes);
        }
        assert(old(self)@.range(src as int, len as int).take(len as int) =~= old(self)@.range(
            src as int,
            len as int,
        ));
    }

    /// Sets the `len` bytes from `addr` on to `value`.
    pub fn fill(&mut self, addr: usize, value: u8, len: usize)
        requires
            old(self)@.contains(addr as int, len as int),
        ensures
            final(self)@ == old(self)@.fill(addr as int, value, len as int),
    {
        let size = self.bytes.len();
        let offset = addr - self.origin;
        let mut i: usize = 0;
        assert(self@.bytes =~= old(self)@.fill(addr as int, value, 0).bytes);
        while i < len
            invariant
                i <= len,
                size == self.bytes.len(),
                offset == addr - old(self)@.origin,
                old(self)@.contains(addr as int, len as int),
                self@ == old(self)@.fill(addr as int, value, i as int),
            decreases len - i,
        {
            self.bytes[offset + i] = value;
            i += 1;
            assert(self@.bytes =~= old(self)@.fill(addr as int, value, i as int).bytes);
        }
    }
}

} // verus!
