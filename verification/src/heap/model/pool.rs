//! What a pool is and does, as mathematics.
//!
//! A [`PoolView`] is the value of a pool at one moment. The operations of a
//! pool are defined here as functions from one such value to the next, and the
//! laws of a pool are proved of these functions.

use crate::heap::memory::{MemoryView, WORD_SIZE};
use vstd::bytes::{lemma_auto_spec_u64_to_from_le_bytes, spec_u64_to_le_bytes};
use vstd::arithmetic::div_mod::{
    lemma_fundamental_div_mod, lemma_fundamental_div_mod_converse, lemma_mod_multiples_basic,
};
use vstd::prelude::*;

verus! {

/// What a pool is, as a mathematical value.
pub struct PoolView {
    /// Size of a block in bytes.
    pub block_size: usize,
    /// Number of blocks.
    pub capacity: usize,
    /// Address of the byte past the last block.
    pub edge: usize,
    /// Address of the first block that was never handed out; `edge` when there
    /// is none left.
    pub uninit: usize,
    /// Address of the block that was freed last and is still free; zero when
    /// there is none.
    pub head: usize,
    /// The free list: the blocks that came back and are still free, the one
    /// freed last first.
    pub free: Seq<usize>,
    /// The blocks that are handed out.
    pub allocated: Set<usize>,
    /// Number of blocks that are not handed out.
    pub remain: usize,
}

impl PoolView {
    /// A pool of `capacity` blocks of `block_size` bytes from `address` on, none
    /// of them handed out yet.
    pub open spec fn fresh(address: usize, block_size: usize, capacity: usize) -> PoolView {
        PoolView {
            block_size,
            capacity,
            edge: (address + block_size * capacity) as usize,
            uninit: address,
            head: 0,
            free: Seq::empty(),
            allocated: Set::empty(),
            remain: capacity,
        }
    }

    /// Address of the first block.
    pub open spec fn base(self) -> int {
        self.edge - self.block_size * self.capacity
    }

    /// Number of blocks that the cursor has passed: those that were handed out
    /// at least once.
    pub open spec fn touched(self) -> int {
        if self.block_size == 0 {
            0
        } else {
            (self.uninit - self.base()) / (self.block_size as int)
        }
    }

    /// `addr` is where a block starts that was handed out at least once.
    pub open spec fn is_block(self, addr: int) -> bool {
        &&& self.block_size > 0
        &&& self.base() <= addr < self.uninit
        &&& (addr - self.base()) % (self.block_size as int) == 0
    }

    /// `addr` is where a block starts that is handed out now.
    pub open spec fn is_allocated(self, addr: usize) -> bool {
        self.allocated.contains(addr)
    }

    /// Nothing is left to hand out.
    pub open spec fn exhausted(self) -> bool {
        self.free.len() == 0 && self.uninit == self.edge
    }

    /// The free-list link that the `i`-th free block holds.
    pub open spec fn link(self, i: int) -> u64 {
        if i + 1 < self.free.len() {
            self.free[i + 1] as u64
        } else {
            0
        }
    }

    /// The pool's invariant: the pool is consistent, and the range of its
    /// blocks does not start at the null address, which stands for the end of
    /// the free list.
    pub open spec fn wf(self) -> bool {
        &&& self.consistent()
        &&& self.block_size * self.capacity > 0 ==> 0 < self.base()
    }

    /// What holds of every pool, wherever it lies. The range of the blocks
    /// lies in the address space; the cursor stands on a block boundary; the
    /// head is the first block of the free list; every block that the cursor
    /// has passed is either handed out or in the free list, and never both or
    /// twice; a block of the free list is large enough for a link; `remain`
    /// counts the blocks that are not handed out.
    pub open spec fn consistent(self) -> bool {
        &&& 0 <= self.base()
        &&& self.base() <= self.uninit <= self.edge
        &&& self.block_size > 0 ==> (self.uninit - self.base()) % (self.block_size as int) == 0
        &&& self.head == (if self.free.len() == 0 {
            0
        } else {
            self.free[0]
        })
        &&& forall|i: int|
            0 <= i < self.free.len() ==> self.is_block(#[trigger] self.free[i] as int)
                && !self.allocated.contains(self.free[i])
        &&& self.free.no_duplicates()
        &&& self.free.len() > 0 ==> self.block_size >= WORD_SIZE
        &&& self.allocated.finite()
        &&& forall|addr: usize| #[trigger]
            self.allocated.contains(addr) ==> self.is_block(addr as int)
        &&& forall|addr: usize| #[trigger]
            self.is_block(addr as int) ==> self.free.contains(addr) || self.allocated.contains(
                addr,
            )
        &&& self.free.len() + self.allocated.len() == self.touched()
        &&& self.remain + self.allocated.len() == self.capacity
    }

    /// The free list is laid down in `memory`: each free block holds the
    /// address of the next, the last one holds zero.
    pub open spec fn linked(self, memory: MemoryView) -> bool {
        forall|i: int|
            0 <= i < self.free.len() ==> memory.contains(
                #[trigger] self.free[i] as int,
                WORD_SIZE as int,
            ) && memory.word(self.free[i] as int) == self.link(i)
    }

    /// Every block of the pool lies in `memory`.
    pub open spec fn backed(self, memory: MemoryView) -> bool {
        self.base() < self.edge ==> memory.contains(self.base(), self.edge - self.base())
    }

    /// What `allocate` does: the pool after the call, and the call's result.
    /// The block that was freed last is handed out again; where no freed
    /// block is left, the next block behind the cursor; where the cursor has
    /// reached the edge, nothing.
    pub open spec fn allocate(self) -> (PoolView, Option<usize>) {
        if self.free.len() > 0 {
            (
                PoolView {
                    head: if self.free.len() > 1 {
                        self.free[1]
                    } else {
                        0
                    },
                    free: self.free.drop_first(),
                    allocated: self.allocated.insert(self.free[0]),
                    remain: (self.remain - 1) as usize,
                    ..self
                },
                Some(self.free[0]),
            )
        } else if self.uninit != self.edge {
            (
                PoolView {
                    uninit: (self.uninit + self.block_size) as usize,
                    allocated: self.allocated.insert(self.uninit),
                    remain: (self.remain - 1) as usize,
                    ..self
                },
                Some(self.uninit),
            )
        } else {
            (self, None)
        }
    }

    /// What `deallocate` does to the pool: the block at `ptr` becomes the head
    /// of the free list.
    pub open spec fn deallocate(self, ptr: usize) -> PoolView {
        PoolView {
            head: ptr,
            free: seq![ptr] + self.free,
            allocated: self.allocated.remove(ptr),
            remain: (self.remain + 1) as usize,
            ..self
        }
    }

    /// A pool that was just created is consistent when its range lies in the
    /// address space; its first block is where it was asked for, its cursor
    /// has passed no block, and its free list, which is empty, is laid down in
    /// any memory.
    pub proof fn lemma_fresh_consistent(address: usize, block_size: usize, capacity: usize)
        requires
            address + block_size * capacity <= usize::MAX,
        ensures
            Self::fresh(address, block_size, capacity).consistent(),
            Self::fresh(address, block_size, capacity).base() == address,
            Self::fresh(address, block_size, capacity).touched() == 0,
            forall|memory: MemoryView| Self::fresh(address, block_size, capacity).linked(memory),
    {
        assert(0 <= block_size * capacity) by (nonlinear_arith);
        if block_size > 0 {
            lemma_fundamental_div_mod_converse(0, block_size as int, 0, 0);
        }
    }

    /// A consistent pool whose cursor stands on its first block, whose free
    /// list has no head and whose blocks all remain is as it was created.
    pub proof fn lemma_untouched(self)
        requires
            self.consistent(),
            self.head == 0,
            self.remain == self.capacity,
            self.uninit == self.base(),
        ensures
            self == Self::fresh(self.base() as usize, self.block_size, self.capacity),
    {
        assert(self.allocated.len() == 0);
        assert(self.allocated =~= Set::empty());
        assert(self.touched() == 0) by {
            if self.block_size > 0 {
                lemma_fundamental_div_mod_converse(0, self.block_size as int, 0, 0);
            }
        }
        assert(self.free =~= Seq::empty());
    }

    /// Where the cursor stands: on the boundary behind the blocks that it has
    /// passed, which are no more than the pool has.
    pub proof fn lemma_cursor(self)
        requires
            self.consistent(),
            self.block_size > 0,
        ensures
            self.uninit == self.base() + self.touched() * self.block_size,
            self.edge == self.base() + self.capacity * self.block_size,
            0 <= self.touched() <= self.capacity,
    {
        let bs = self.block_size as int;
        let t = self.touched();
        lemma_fundamental_div_mod(self.uninit - self.base(), bs);
        assert(bs * t == t * bs) by (nonlinear_arith);
        assert(self.block_size * self.capacity == self.capacity * self.block_size)
            by (nonlinear_arith);
        assert(0 <= t) by (nonlinear_arith)
            requires
                0 <= t * bs,
                bs > 0,
        ;
        assert(t <= self.capacity) by (nonlinear_arith)
            requires
                t * bs <= self.capacity * bs,
                bs > 0,
        ;
    }

    /// While the cursor has not reached the edge, a whole block lies between
    /// them, and the cursor moved past it stands on a boundary again.
    pub proof fn lemma_cursor_step(self)
        requires
            self.wf(),
            self.uninit != self.edge,
        ensures
            self.block_size > 0,
            self.uninit + self.block_size <= self.edge,
            (self.uninit + self.block_size - self.base()) % (self.block_size as int) == 0,
            (self.uninit + self.block_size - self.base()) / (self.block_size as int)
                == self.touched() + 1,
            self.touched() < self.capacity,
            !self.is_block(self.uninit as int),
            0 < self.uninit,
    {
        if self.block_size == 0 {
            assert(self.block_size * self.capacity == 0) by (nonlinear_arith)
                requires
                    self.block_size == 0,
            ;
        } else {
            let bs = self.block_size as int;
            let t = self.touched();
            let c = self.capacity as int;
            self.lemma_cursor();
            assert(t < c) by (nonlinear_arith)
                requires
                    t * bs < c * bs,
                    bs > 0,
            ;
            assert((t + 1) * bs <= c * bs) by (nonlinear_arith)
                requires
                    t + 1 <= c,
                    bs > 0,
            ;
            assert((t + 1) * bs == t * bs + bs) by (nonlinear_arith);
            lemma_fundamental_div_mod_converse(self.uninit + bs - self.base(), bs, t + 1, 0);
            assert(self.block_size * self.capacity > 0) by (nonlinear_arith)
                requires
                    self.block_size > 0,
                    self.capacity > 0,
            ;
        }
    }

    /// A block that the cursor has passed ends at or before the cursor.
    pub proof fn lemma_block_end(self, addr: int)
        requires
            self.wf(),
            self.is_block(addr),
        ensures
            0 < addr,
            addr + self.block_size <= self.uninit,
    {
        let bs = self.block_size as int;
        let t = self.touched();
        let k = (addr - self.base()) / bs;
        self.lemma_cursor();
        lemma_fundamental_div_mod(addr - self.base(), bs);
        assert(bs * k == k * bs) by (nonlinear_arith);
        assert(k < t) by (nonlinear_arith)
            requires
                k * bs < t * bs,
                bs > 0,
        ;
        assert((k + 1) * bs <= t * bs) by (nonlinear_arith)
            requires
                k + 1 <= t,
                bs > 0,
        ;
        assert((k + 1) * bs == k * bs + bs) by (nonlinear_arith);
        assert(self.block_size * self.capacity > 0) by (nonlinear_arith)
            requires
                self.block_size > 0,
                self.capacity > 0,
        ;
    }

    /// Where the address of the first block and the size of a block are
    /// multiples of `align`, the address of every block is one. The pool does
    /// nothing for the alignment of its blocks beyond that.
    pub proof fn lemma_block_aligned(self, addr: int, align: int)
        requires
            0 < align,
            0 < self.block_size,
            self.base() <= addr,
            (addr - self.base()) % (self.block_size as int) == 0,
            self.base() % align == 0,
            self.block_size as int % align == 0,
        ensures
            addr % align == 0,
    {
        let bs = self.block_size as int;
        let k = (addr - self.base()) / bs;
        let b = self.base() / align;
        let s = bs / align;
        lemma_fundamental_div_mod(addr - self.base(), bs);
        lemma_fundamental_div_mod(self.base(), align);
        lemma_fundamental_div_mod(bs, align);
        assert(addr == (b + s * k) * align) by (nonlinear_arith)
            requires
                addr - self.base() == bs * k,
                self.base() == align * b,
                bs == align * s,
        ;
        lemma_mod_multiples_basic(b + s * k, align);
    }

    /// Two blocks of a pool do not overlap.
    pub proof fn lemma_blocks_apart(self, a: int, b: int)
        requires
            self.consistent(),
            self.is_block(a),
            self.is_block(b),
            a != b,
        ensures
            a + self.block_size <= b || b + self.block_size <= a,
    {
        let bs = self.block_size as int;
        let i = (a - self.base()) / bs;
        let j = (b - self.base()) / bs;
        lemma_fundamental_div_mod(a - self.base(), bs);
        lemma_fundamental_div_mod(b - self.base(), bs);
        assert(bs * i == i * bs) by (nonlinear_arith);
        assert(bs * j == j * bs) by (nonlinear_arith);
        if i < j {
            assert((i + 1) * bs <= j * bs) by (nonlinear_arith)
                requires
                    i + 1 <= j,
                    bs > 0,
            ;
            assert((i + 1) * bs == i * bs + bs) by (nonlinear_arith);
        } else if j < i {
            assert((j + 1) * bs <= i * bs) by (nonlinear_arith)
                requires
                    j + 1 <= i,
                    bs > 0,
            ;
            assert((j + 1) * bs == j * bs + bs) by (nonlinear_arith);
        }
    }

    /// The pool stays well formed when a block is handed out, the block is one
    /// of the pool's and was not handed out before, and no other block changes
    /// hands.
    pub proof fn lemma_allocate(self)
        requires
            self.wf(),
        ensures
            self.allocate().0.wf(),
            self.allocate().1 is None <==> self.exhausted(),
            self.block_size > 0 ==> (self.allocate().1 is None <==> self.remain == 0),
            self.allocate().1 is None ==> self.allocate().0 == self,
            self.allocate().1 matches Some(addr) ==> {
                &&& addr != 0
                &&& !self.is_allocated(addr)
                &&& self.allocate().0.is_block(addr as int)
                &&& self.base() <= addr
                &&& addr + self.block_size <= self.edge
                &&& self.allocate().0.allocated == self.allocated.insert(addr)
                &&& self.allocate().0.remain == self.remain - 1
            },
    {
        let after = self.allocate().0;
        if self.free.len() > 0 {
            let addr = self.free[0];
            assert(self.is_block(addr as int));
            self.lemma_block_end(addr as int);
            self.lemma_cursor();
            if self.free.len() > 1 {
                assert(after.free[0] == self.free[1]);
            }
            assert(self.allocated.insert(addr).len() == self.allocated.len() + 1);
            assert forall|i: int| 0 <= i < after.free.len() implies after.is_block(
                #[trigger] after.free[i] as int,
            ) && !after.allocated.contains(after.free[i]) by {
                assert(after.free[i] == self.free[i + 1]);
            }
            assert(after.free.no_duplicates()) by {
                assert forall|i: int, j: int|
                    0 <= i < after.free.len() && 0 <= j < after.free.len() && i != j implies
                    after.free[i] != after.free[j] by {
                    assert(after.free[i] == self.free[i + 1]);
                    assert(after.free[j] == self.free[j + 1]);
                }
            }
            assert forall|other: usize| #[trigger] after.is_block(other as int) implies
                after.free.contains(other) || after.allocated.contains(other) by {
                assert(self.is_block(other as int));
                if self.free.contains(other) {
                    let k = choose|k: int| 0 <= k < self.free.len() && self.free[k] == other;
                    if k > 0 {
                        assert(after.free[k - 1] == other);
                    }
                }
            }
            assert(after.wf());
        } else if self.uninit != self.edge {
            self.lemma_cursor_step();
            self.lemma_cursor();
            let addr = self.uninit;
            assert(!self.allocated.contains(addr));
            assert(self.allocated.insert(addr).len() == self.allocated.len() + 1);
            lemma_fundamental_div_mod_converse(
                addr - self.base(),
                self.block_size as int,
                self.touched(),
                0,
            );
            assert(after.is_block(addr as int));
            assert forall|other: usize| #[trigger] after.is_block(other as int) implies
                after.free.contains(other) || after.allocated.contains(other) by {
                if other != addr {
                    let bs = self.block_size as int;
                    let t = self.touched();
                    let k = (other - self.base()) / bs;
                    lemma_fundamental_div_mod(other - self.base(), bs);
                    assert(bs * k == k * bs) by (nonlinear_arith);
                    assert((t + 1) * bs == t * bs + bs) by (nonlinear_arith);
                    assert(k < t + 1) by (nonlinear_arith)
                        requires
                            k * bs < (t + 1) * bs,
                            bs > 0,
                    ;
                    assert(k * bs < t * bs) by (nonlinear_arith)
                        requires
                            k <= t,
                            k * bs != t * bs,
                            bs > 0,
                    ;
                    assert(self.is_block(other as int));
                }
            }
            assert(after.wf());
        } else {
            if self.block_size > 0 {
                self.lemma_cursor();
                assert(self.touched() == self.capacity) by (nonlinear_arith)
                    requires
                        self.touched() * self.block_size == self.capacity * self.block_size,
                        self.block_size > 0,
                ;
            } else {
                assert forall|addr: usize| !self.allocated.contains(addr) by {
                    if self.allocated.contains(addr) {
                        assert(self.is_block(addr as int));
                    }
                }
                assert(self.allocated =~= Set::empty());
            }
        }
        if self.remain == 0 && self.block_size > 0 {
            self.lemma_cursor();
            assert(self.touched() * self.block_size == self.capacity * self.block_size)
                by (nonlinear_arith)
                requires
                    self.touched() == self.capacity,
            ;
        }
    }

    /// The pool stays well formed when a block that is handed out comes
    /// back, and the free list stays laid down in memory when the old head is
    /// written into the block.
    pub proof fn lemma_deallocate(self, memory: MemoryView, ptr: usize)
        requires
            self.wf(),
            self.linked(memory),
            self.is_allocated(ptr),
            self.block_size >= WORD_SIZE,
            memory.contains(ptr as int, WORD_SIZE as int),
        ensures
            self.deallocate(ptr).wf(),
            self.deallocate(ptr).linked(memory.store_word(ptr as int, self.head as u64)),
            self.remain < self.capacity,
    {
        let after = self.deallocate(ptr);
        let stored = memory.store_word(ptr as int, self.head as u64);
        assert(self.is_block(ptr as int));
        assert(self.allocated.remove(ptr).len() == self.allocated.len() - 1);
        assert forall|i: int| 0 <= i < after.free.len() implies after.is_block(
            #[trigger] after.free[i] as int,
        ) && !after.allocated.contains(after.free[i]) by {
            if i > 0 {
                assert(after.free[i] == self.free[i - 1]);
            }
        }
        assert(after.free.no_duplicates()) by {
            assert forall|i: int, j: int|
                0 <= i < after.free.len() && 0 <= j < after.free.len() && i != j implies
                after.free[i] != after.free[j] by {
                if i > 0 {
                    assert(after.free[i] == self.free[i - 1]);
                }
                if j > 0 {
                    assert(after.free[j] == self.free[j - 1]);
                }
            }
        }
        assert forall|other: usize| #[trigger] after.is_block(other as int) implies
            after.free.contains(other) || after.allocated.contains(other) by {
            assert(self.is_block(other as int));
            if other == ptr {
                assert(after.free[0] == other);
            } else if self.free.contains(other) {
                let k = choose|k: int| 0 <= k < self.free.len() && self.free[k] == other;
                assert(after.free[k + 1] == other);
            }
        }
        assert(after.wf());
        lemma_auto_spec_u64_to_from_le_bytes();
        memory.lemma_store_range_outside(ptr as int, spec_u64_to_le_bytes(self.head as u64));
        assert forall|i: int| 0 <= i < after.free.len() implies stored.contains(
            #[trigger] after.free[i] as int,
            WORD_SIZE as int,
        ) && stored.word(after.free[i] as int) == after.link(i) by {
            if i == 0 {
                memory.lemma_store_word_inside(ptr as int, self.head as u64);
                if self.free.len() > 0 {
                    assert(after.free[1] == self.free[0]);
                }
            } else {
                let addr = self.free[i - 1];
                assert(after.free[i] == addr);
                assert(self.is_block(addr as int));
                self.lemma_blocks_apart(addr as int, ptr as int);
                memory.lemma_same_outside_range(
                    stored,
                    ptr as int,
                    WORD_SIZE as int,
                    addr as int,
                    WORD_SIZE as int,
                );
                assert(memory.word(addr as int) == self.link(i - 1));
                if i + 1 < after.free.len() {
                    assert(after.free[i + 1] == self.free[i]);
                }
            }
        }
    }

    /// A block that comes back is the next one to be handed out, and the pool
    /// is then what it was before the block came back.
    pub proof fn lemma_reuse(self, ptr: usize)
        requires
            self.wf(),
            self.is_allocated(ptr),
        ensures
            self.deallocate(ptr).allocate() == (self, Some(ptr)),
    {
        let freed = self.deallocate(ptr);
        let again = freed.allocate().0;
        assert(self.allocated.len() > 0) by {
            if self.allocated.len() == 0 {
                assert(self.allocated =~= Set::empty());
            }
        }
        assert(freed.free.drop_first() =~= self.free);
        assert(self.allocated.remove(ptr).insert(ptr) =~= self.allocated);
        if self.free.len() > 0 {
            assert(freed.free[1] == self.free[0]);
        }
        assert(again.head == self.head);
    }

    /// Once every block of the pool is handed out, nothing more is: the
    /// allocation fails and the pool is as it was. After one block came
    /// back, the next allocation succeeds and returns that block.
    pub proof fn lemma_exhaustion(self, ptr: usize)
        requires
            self.wf(),
            self.allocated.len() == self.capacity,
            self.is_allocated(ptr),
        ensures
            self.allocate() == (self, None::<usize>),
            self.deallocate(ptr).allocate() == (self, Some(ptr)),
    {
        self.lemma_allocate();
        self.lemma_reuse(ptr);
    }

    /// The pool after `count` blocks were handed out one after the other,
    /// and what each of the calls returned.
    pub open spec fn allocate_many(self, count: nat) -> (PoolView, Seq<Option<usize>>)
        decreases count,
    {
        if count == 0 {
            (self, Seq::empty())
        } else {
            let (pool, blocks) = self.allocate_many((count - 1) as nat);
            (pool.allocate().0, blocks.push(pool.allocate().1))
        }
    }

    /// Address of the `i`-th block behind the cursor.
    pub open spec fn ahead(self, i: int) -> int {
        self.uninit + i * self.block_size
    }

    /// A pool without freed blocks hands out the blocks behind its cursor in
    /// the order of their addresses, as long as there are blocks: the `i`-th
    /// call returns the `i`-th of them. These blocks lie in the pool's range
    /// and no two of them overlap. A pool that was just created is such a
    /// pool, with its cursor on its first block.
    pub proof fn lemma_allocate_many(self, count: nat)
        requires
            self.wf(),
            self.free.len() == 0,
            0 < self.block_size,
            self.touched() + count <= self.capacity,
        ensures
            self.allocate_many(count).0.wf(),
            self.allocate_many(count).0.block_size == self.block_size,
            self.allocate_many(count).0.capacity == self.capacity,
            self.allocate_many(count).0.edge == self.edge,
            self.allocate_many(count).0.free.len() == 0,
            self.allocate_many(count).0.uninit == self.ahead(count as int),
            self.allocate_many(count).0.touched() == self.touched() + count,
            self.allocate_many(count).0.remain == self.remain - count,
            self.allocate_many(count).1.len() == count,
            forall|i: int|
                0 <= i < count ==> #[trigger] self.allocate_many(count).1[i] == Some(
                    self.ahead(i) as usize,
                ),
            forall|i: int|
                0 <= i < count ==> self.base() <= #[trigger] self.ahead(i) && self.ahead(i)
                    + self.block_size <= self.edge,
            forall|i: int, j: int|
                0 <= i < j < count ==> #[trigger] self.ahead(i) + self.block_size
                    <= #[trigger] self.ahead(j),
        decreases count,
    {
        let bs = self.block_size as int;
        let t = self.touched();
        let c = self.capacity as int;
        self.lemma_cursor();
        assert forall|i: int| 0 <= i < count implies self.base() <= #[trigger] self.ahead(i)
            && self.ahead(i) + self.block_size <= self.edge by {
            assert(0 <= i * bs) by (nonlinear_arith)
                requires
                    0 <= i,
                    0 < bs,
            ;
            assert(t * bs + i * bs + bs <= c * bs) by (nonlinear_arith)
                requires
                    t + i + 1 <= c,
                    0 < bs,
            ;
        }
        assert forall|i: int, j: int| 0 <= i < j < count implies #[trigger] self.ahead(i)
            + self.block_size <= #[trigger] self.ahead(j) by {
            assert(i * bs + bs <= j * bs) by (nonlinear_arith)
                requires
                    i + 1 <= j,
                    0 < bs,
            ;
        }
        if count > 0 {
            let before = (count - 1) as nat;
            self.lemma_allocate_many(before);
            let (pool, blocks) = self.allocate_many(before);
            assert(before * bs + bs == count * bs) by (nonlinear_arith)
                requires
                    before + 1 == count,
            ;
            assert(t * bs + before * bs < c * bs) by (nonlinear_arith)
                requires
                    t + before < c,
                    0 < bs,
            ;
            assert(pool.uninit != pool.edge);
            pool.lemma_allocate();
            pool.lemma_cursor_step();
            assert(pool.allocate().1 == Some(pool.uninit));
            let all = self.allocate_many(count).1;
            assert forall|i: int| 0 <= i < count implies #[trigger] all[i] == Some(
                self.ahead(i) as usize,
            ) by {
                if i < before {
                    assert(all[i] == blocks[i]);
                }
            }
        } else {
            assert(0 * bs == 0) by (nonlinear_arith);
        }
    }

    /// A pool that was just created hands out its blocks in the order of
    /// their addresses: of the first `count` calls, where the pool has that
    /// many blocks, the `i`-th returns the address of the `i`-th block, which
    /// is `address + i * block_size`. No two of these blocks overlap, and all
    /// of them lie between the address of the first block and the edge.
    pub proof fn lemma_fresh_allocations(
        address: usize,
        block_size: usize,
        capacity: usize,
        count: nat,
    )
        requires
            address + block_size * capacity <= usize::MAX,
            0 < address,
            0 < block_size,
            count <= capacity,
        ensures
            ({
                let pool = Self::fresh(address, block_size, capacity);
                &&& pool.allocate_many(count).0.wf()
                &&& pool.allocate_many(count).0.remain == capacity - count
                &&& pool.allocate_many(count).1.len() == count
                &&& forall|i: int|
                    0 <= i < count ==> #[trigger] pool.allocate_many(count).1[i] == Some(
                        pool.ahead(i) as usize,
                    )
                &&& forall|i: int|
                    0 <= i < count ==> address <= #[trigger] pool.ahead(i) && pool.ahead(i)
                        + block_size <= pool.edge
                &&& forall|i: int, j: int|
                    0 <= i < j < count ==> #[trigger] pool.ahead(i) + block_size
                        <= #[trigger] pool.ahead(j)
            }),
    {
        Self::lemma_fresh_consistent(address, block_size, capacity);
        Self::fresh(address, block_size, capacity).lemma_allocate_many(count);
    }
}

} // verus!
