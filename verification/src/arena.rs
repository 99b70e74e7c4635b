use vstd::prelude::*;

verus! {

/// Size in bytes of a standard pool block.
pub const BLOCK_SIZE: usize = 4096;

/// Largest request still served from a pool block; anything larger gets a
/// dedicated block of exactly its own size.
pub const MAX_SMALL_REQUEST: usize = 1024;

/// Alignment quantum for `allocate_aligned`: the pointer size of the target,
/// floored at eight bytes.
pub const ALIGNMENT: usize = 8;

/// Bookkeeping bytes charged per block for its entry in the block list.
pub const BLOCK_ENTRY_BYTES: usize = 8;

/// A byte range handed out by an [`Arena`]: the index of the owning block,
/// the starting offset inside that block, and the length of the range.
#[derive(Clone, Copy)]
pub struct ArenaRef {
    pub block: usize,
    pub offset: usize,
    pub len: usize,
}

/// Two ranges overlap nowhere: they live in different blocks, or one ends
/// before the other starts.
pub open spec fn ranges_disjoint(a: ArenaRef, b: ArenaRef) -> bool {
    ||| a.block != b.block
    ||| a.offset + a.len <= b.offset
    ||| b.offset + b.len <= a.offset
}

/// Total number of bytes covered by a sequence of ranges.
pub open spec fn total_len(rs: Seq<ArenaRef>) -> int
    decreases rs.len(),
{
    if rs.len() == 0 {
        0
    } else {
        total_len(rs.drop_last()) + rs.last().len
    }
}

proof fn lemma_total_len_push(rs: Seq<ArenaRef>, r: ArenaRef)
    ensures
        total_len(rs.push(r)) == total_len(rs) + r.len,
{
    assert(rs.push(r).drop_last() =~= rs);
    assert(rs.push(r).last() == r);
}

/// Padding that rounds `offset` up to the next multiple of [`ALIGNMENT`].
pub open spec fn align_pad(offset: int) -> int {
    if offset % (ALIGNMENT as int) == 0 {
        0
    } else {
        ALIGNMENT as int - offset % (ALIGNMENT as int)
    }
}

/// Fast path: the request (with `pad` bytes of alignment padding) was carved
/// contiguously from the current block at the bump position. No block is
/// added, the usage counter does not move, and exactly `pad + bytes` bytes of
/// the remainder are consumed.
pub open spec fn bumped_from_current(pre: Arena, post: Arena, r: ArenaRef, pad: int, bytes: int) -> bool {
    &&& r.block == pre.current_block()
    &&& r.offset == pre.bump_offset() + pad
    &&& post.usage() == pre.usage()
    &&& post.n_blocks() == pre.n_blocks()
    &&& post.current_block() == pre.current_block()
    &&& post.bump_offset() == pre.bump_offset() + pad + bytes
    &&& post.bytes_remaining() == pre.bytes_remaining() - pad - bytes
}

/// Large fallback: one dedicated block of exactly `bytes` bytes is added and
/// returned whole; the counter grows by exactly that block plus its
/// bookkeeping entry, and the current block's bump state is untouched, so
/// later small requests keep carving the prior remainder.
pub open spec fn dedicated_block(pre: Arena, post: Arena, r: ArenaRef, bytes: int) -> bool {
    &&& r.block == pre.n_blocks()
    &&& r.offset == 0
    &&& post.n_blocks() == pre.n_blocks() + 1
    &&& post.block(pre.n_blocks()).len() == bytes
    &&& post.usage() == pre.usage() + bytes + BLOCK_ENTRY_BYTES as int
    &&& post.current_block() == pre.current_block()
    &&& post.bump_offset() == pre.bump_offset()
    &&& post.bytes_remaining() == pre.bytes_remaining()
}

/// Small fallback: one fresh [`BLOCK_SIZE`]-byte block is added and becomes
/// the current block, with the request carved from its start; the counter
/// grows by exactly that block plus its bookkeeping entry, and the previous
/// block's remainder is abandoned.
pub open spec fn fresh_pool_block(pre: Arena, post: Arena, r: ArenaRef, bytes: int) -> bool {
    &&& r.block == pre.n_blocks()
    &&& r.offset == 0
    &&& post.n_blocks() == pre.n_blocks() + 1
    &&& post.block(pre.n_blocks()).len() == BLOCK_SIZE as int
    &&& post.usage() == pre.usage() + BLOCK_SIZE as int + BLOCK_ENTRY_BYTES as int
    &&& post.current_block() == pre.n_blocks()
    &&& post.bump_offset() == bytes
    &&& post.bytes_remaining() == BLOCK_SIZE as int - bytes
}

/// A bump allocator over pooled blocks. Requests are carved from the front of
/// the current block; when it cannot hold a request, either a dedicated block
/// (for large requests) or a fresh pool block (for small ones) is added. A
/// usage counter records every block's size plus its bookkeeping entry and
/// never decreases while the arena lives. All blocks are released together
/// when the arena is dropped.
pub struct Arena {
    blocks: Vec<Vec<u8>>,
    alloc_block: usize,
    alloc_offset: usize,
    alloc_bytes_remaining: usize,
    memory_usage: usize,
    allocs: Ghost<Seq<ArenaRef>>,
}

impl Arena {
    /// Number of blocks the arena owns.
    pub closed spec fn n_blocks(self) -> int {
        self.blocks@.len() as int
    }

    /// The bytes of block `b`.
    pub closed spec fn block(self, b: int) -> Seq<u8> {
        self.blocks@[b]@
    }

    /// The usage counter.
    pub closed spec fn usage(self) -> int {
        self.memory_usage as int
    }

    /// Every range handed out so far, in order of allocation.
    pub closed spec fn allocations(self) -> Seq<ArenaRef> {
        self.allocs@
    }

    /// `r` addresses real bytes of this arena.
    pub open spec fn holds(self, r: ArenaRef) -> bool {
        &&& r.block < self.n_blocks()
        &&& r.offset + r.len <= self.block(r.block as int).len()
    }

    /// There is room to charge a request of `bytes` more bytes to the usage
    /// counter, whichever fallback the request takes.
    pub open spec fn fits(self, bytes: int) -> bool {
        self.usage() + bytes + BLOCK_SIZE as int + BLOCK_ENTRY_BYTES as int <= usize::MAX as int
    }

    /// Index of the current bump block; meaningful while bytes remain in it.
    pub closed spec fn current_block(self) -> int {
        self.alloc_block as int
    }

    /// The bump position: the next offset to carve from the current block.
    pub closed spec fn bump_offset(self) -> int {
        self.alloc_offset as int
    }

    /// Bytes still unclaimed in the current block.
    pub closed spec fn bytes_remaining(self) -> int {
        self.alloc_bytes_remaining as int
    }

    pub closed spec fn wf(self) -> bool {
        &&& forall|i: int|
            0 <= i < self.allocations().len() ==> self.holds(#[trigger] self.allocations()[i])
                && self.allocations()[i].len >= 1
        &&& forall|i: int, j: int|
            0 <= i < j < self.allocations().len() ==> ranges_disjoint(
                #[trigger] self.allocations()[i],
                #[trigger] self.allocations()[j],
            )
        &&& total_len(self.allocations()) + self.alloc_bytes_remaining <= self.memory_usage
        &&& (self.alloc_bytes_remaining > 0 ==> {
            &&& self.alloc_block < self.n_blocks()
            &&& self.block(self.alloc_block as int).len() == BLOCK_SIZE
            &&& self.alloc_offset + self.alloc_bytes_remaining <= BLOCK_SIZE
            &&& forall|i: int|
                0 <= i < self.allocations().len() && (#[trigger] self.allocations()[i]).block
                    == self.alloc_block ==> self.allocations()[i].offset
                    + self.allocations()[i].len <= self.alloc_offset
        })
    }

    /// A fresh arena: no blocks, no allocations, usage zero.
    pub fn new() -> (a: Arena)
        ensures
            a.wf(),
            a.usage() == 0,
            a.n_blocks() == 0,
            a.allocations() == Seq::<ArenaRef>::empty(),
    {
        Arena {
            blocks: Vec::new(),
            alloc_block: 0,
            alloc_offset: 0,
            alloc_bytes_remaining: 0,
            memory_usage: 0,
            allocs: Ghost(Seq::empty()),
        }
    }

    /// The current value of the usage counter: all block bytes ever obtained
    /// plus the bookkeeping charge per block.
    pub fn memory_usage(&self) -> (n: usize)
        ensures
            n == self.usage(),
    {
        self.memory_usage
    }

    /// Appends a zeroed block of `block_bytes` bytes and charges it to the
    /// usage counter. Does not touch the bump state.
    fn allocate_new_block(&mut self, block_bytes: usize) -> (idx: usize)
        requires
            old(self).wf(),
            1 <= block_bytes,
            old(self).usage() + block_bytes + BLOCK_ENTRY_BYTES <= usize::MAX,
        ensures
            final(self).wf(),
            idx == old(self).n_blocks(),
            final(self).n_blocks() == old(self).n_blocks() + 1,
            forall|b: int| 0 <= b < old(self).n_blocks() ==>
                #[trigger] final(self).block(b) == old(self).block(b),
            final(self).block(idx as int).len() == block_bytes,
            final(self).usage() == old(self).usage() + block_bytes + BLOCK_ENTRY_BYTES,
            forall|b: int| 0 <= b < old(self).n_blocks() ==>
                #[trigger] final(self).blocks@[b] == old(self).blocks@[b],
            final(self).allocations() == old(self).allocations(),
            final(self).alloc_block == old(self).alloc_block,
            final(self).alloc_offset == old(self).alloc_offset,
            final(self).alloc_bytes_remaining == old(self).alloc_bytes_remaining,
    {
        let blk = zero_block(block_bytes);
        self.blocks.push(blk);
        self.memory_usage = self.memory_usage + block_bytes + BLOCK_ENTRY_BYTES;
        self.blocks.len() - 1
    }

    /// Serves a request that the current block cannot hold: a dedicated block
    /// for a large request, else a fresh pool block that becomes current.
    fn allocate_fallback(&mut self, bytes: usize) -> (r: ArenaRef)
        requires
            old(self).wf(),
            1 <= bytes,
            old(self).fits(bytes as int),
        ensures
            final(self).wf(),
            r.len == bytes,
            r.offset == 0,
            final(self).holds(r),
            final(self).allocations() == old(self).allocations().push(r),
            total_len(final(self).allocations()) == total_len(old(self).allocations()) + bytes,
            old(self).usage() <= final(self).usage(),
            final(self).usage() <= old(self).usage() + bytes + BLOCK_SIZE + BLOCK_ENTRY_BYTES,
            final(self).n_blocks() >= old(self).n_blocks(),
            forall|b: int| 0 <= b < old(self).n_blocks() ==>
                #[trigger] final(self).block(b) == old(self).block(b),
            forall|i: int| 0 <= i < old(self).allocations().len() ==> ranges_disjoint(
                r,
                #[trigger] old(self).allocations()[i],
            ),
            bytes > MAX_SMALL_REQUEST ==> dedicated_block(*old(self), *final(self), r, bytes as int),
            bytes <= MAX_SMALL_REQUEST ==> fresh_pool_block(*old(self), *final(self), r, bytes as int),
    {
        proof {
            lemma_total_len_push(self.allocs@, ArenaRef { block: self.blocks.len(), offset: 0, len: bytes });
        }
        let r: ArenaRef;
        if bytes > MAX_SMALL_REQUEST {
            let idx = self.allocate_new_block(bytes);
            r = ArenaRef { block: idx, offset: 0, len: bytes };
            self.allocs = Ghost(self.allocs@.push(r));
        } else {
            let idx = self.allocate_new_block(BLOCK_SIZE);
            self.alloc_block = idx;
            self.alloc_offset = bytes;
            self.alloc_bytes_remaining = BLOCK_SIZE - bytes;
            r = ArenaRef { block: idx, offset: 0, len: bytes };
            self.allocs = Ghost(self.allocs@.push(r));
        }
        proof {
            assert forall|b: int| 0 <= b < old(self).n_blocks() implies self.block(b) == old(
                self,
            ).block(b) by {
                assert(self.blocks@[b] == old(self).blocks@[b]);
            };
            assert forall|i: int| 0 <= i < old(self).allocations().len() implies ranges_disjoint(
                r,
                #[trigger] old(self).allocations()[i],
            ) by {
                assert(old(self).holds(old(self).allocations()[i]));
            };
        }
        r
    }

    /// Returns a writable range of exactly `bytes` bytes, with no alignment
    /// guarantee, disjoint from every range handed out before. A request that
    /// fits the current block's remainder is carved contiguously from it at
    /// the bump position, with no new block and the usage counter unchanged;
    /// one over [`MAX_SMALL_REQUEST`] that does not fit gets a dedicated
    /// block of exactly its own size, the bump state untouched; any other
    /// non-fitting request gets a fresh pool block that becomes current.
    pub fn allocate(&mut self, bytes: usize) -> (r: ArenaRef)
        requires
            old(self).wf(),
            1 <= bytes,
            old(self).fits(bytes as int),
        ensures
            final(self).wf(),
            r.len == bytes,
            final(self).holds(r),
            final(self).allocations() == old(self).allocations().push(r),
            total_len(final(self).allocations()) == total_len(old(self).allocations()) + bytes,
            old(self).usage() <= final(self).usage(),
            final(self).usage() <= old(self).usage() + bytes + BLOCK_SIZE + BLOCK_ENTRY_BYTES,
            final(self).n_blocks() >= old(self).n_blocks(),
            forall|b: int| 0 <= b < old(self).n_blocks() ==>
                #[trigger] final(self).block(b) == old(self).block(b),
            forall|i: int| 0 <= i < old(self).allocations().len() ==> ranges_disjoint(
                r,
                #[trigger] old(self).allocations()[i],
            ),
            bytes <= old(self).bytes_remaining() ==> bumped_from_current(
                *old(self),
                *final(self),
                r,
                0,
                bytes as int,
            ),
            bytes > old(self).bytes_remaining() && bytes > MAX_SMALL_REQUEST ==> dedicated_block(
                *old(self),
                *final(self),
                r,
                bytes as int,
            ),
            bytes > old(self).bytes_remaining() && bytes <= MAX_SMALL_REQUEST ==> fresh_pool_block(
                *old(self),
                *final(self),
                r,
                bytes as int,
            ),
    {
        if bytes <= self.alloc_bytes_remaining {
            let r = ArenaRef { block: self.alloc_block, offset: self.alloc_offset, len: bytes };
            proof {
                lemma_total_len_push(self.allocs@, r);
                assert forall|i: int| 0 <= i < self.allocs@.len() implies ranges_disjoint(
                    r,
                    #[trigger] self.allocs@[i],
                ) by {
                    assert(old(self).holds(old(self).allocations()[i]));
                };
            }
            self.alloc_offset = self.alloc_offset + bytes;
            self.alloc_bytes_remaining = self.alloc_bytes_remaining - bytes;
            self.allocs = Ghost(self.allocs@.push(r));
            r
        } else {
            self.allocate_fallback(bytes)
        }
    }

    /// Returns a range of `bytes` bytes whose starting offset is a multiple
    /// of [`ALIGNMENT`], disjoint from every range handed out before. When
    /// the request fits the current block's remainder after rounding the bump
    /// position up, it is carved there, consuming the padding and the request
    /// and leaving the usage counter unchanged; otherwise it falls back by
    /// size exactly as [`Arena::allocate`] does, and every fallback block
    /// starts the range at offset zero, which is aligned.
    pub fn allocate_aligned(&mut self, bytes: usize) -> (r: ArenaRef)
        requires
            old(self).wf(),
            1 <= bytes,
            old(self).fits(bytes as int),
        ensures
            final(self).wf(),
            r.len == bytes,
            r.offset % ALIGNMENT == 0,
            final(self).holds(r),
            final(self).allocations() == old(self).allocations().push(r),
            total_len(final(self).allocations()) == total_len(old(self).allocations()) + bytes,
            old(self).usage() <= final(self).usage(),
            final(self).usage() <= old(self).usage() + bytes + BLOCK_SIZE + BLOCK_ENTRY_BYTES,
            final(self).n_blocks() >= old(self).n_blocks(),
            forall|b: int| 0 <= b < old(self).n_blocks() ==>
                #[trigger] final(self).block(b) == old(self).block(b),
            forall|i: int| 0 <= i < old(self).allocations().len() ==> ranges_disjoint(
                r,
                #[trigger] old(self).allocations()[i],
            ),
            bytes + align_pad(old(self).bump_offset()) <= old(self).bytes_remaining()
                ==> bumped_from_current(
                *old(self),
                *final(self),
                r,
                align_pad(old(self).bump_offset()),
                bytes as int,
            ),
            bytes + align_pad(old(self).bump_offset()) > old(self).bytes_remaining() && bytes
                > MAX_SMALL_REQUEST ==> dedicated_block(*old(self), *final(self), r, bytes as int),
            bytes + align_pad(old(self).bump_offset()) > old(self).bytes_remaining() && bytes
                <= MAX_SMALL_REQUEST ==> fresh_pool_block(*old(self), *final(self), r, bytes as int),
    {
        let current_mod = self.alloc_offset % ALIGNMENT;
        let slop = if current_mod == 0 {
            0
        } else {
            ALIGNMENT - current_mod
        };
        proof {
            assert(slop == align_pad(old(self).bump_offset()));
        }
        let needed = bytes + slop;
        if needed <= self.alloc_bytes_remaining {
            let r = ArenaRef {
                block: self.alloc_block,
                offset: self.alloc_offset + slop,
                len: bytes,
            };
            proof {
                lemma_total_len_push(self.allocs@, r);
                assert forall|i: int| 0 <= i < self.allocs@.len() implies ranges_disjoint(
                    r,
                    #[trigger] self.allocs@[i],
                ) by {
                    assert(old(self).holds(old(self).allocations()[i]));
                };
            }
            self.alloc_offset = self.alloc_offset + needed;
            self.alloc_bytes_remaining = self.alloc_bytes_remaining - needed;
            self.allocs = Ghost(self.allocs@.push(r));
            r
        } else {
            self.allocate_fallback(bytes)
        }
    }

    /// Writes `v` at position `i` of the range `r`. No byte outside that
    /// position changes, so earlier allocations keep their contents.
    pub fn write_byte(&mut self, r: ArenaRef, i: usize, v: u8)
        requires
            old(self).wf(),
            old(self).holds(r),
            i < r.len,
        ensures
            final(self).wf(),
            final(self).n_blocks() == old(self).n_blocks(),
            final(self).block(r.block as int) == old(self).block(r.block as int).update(
                r.offset + i,
                v,
            ),
            forall|b: int| 0 <= b < old(self).n_blocks() && b != r.block ==>
                #[trigger] final(self).block(b) == old(self).block(b),
            final(self).allocations() == old(self).allocations(),
            final(self).usage() == old(self).usage(),
            final(self).holds(r),
    {
        let blk = &mut self.blocks[r.block];
        let n = blk.len();
        assert(r.offset + i < n);
        blk.set(r.offset + i, v);
    }

    /// Reads the byte at position `i` of the range `r`.
    pub fn read_byte(&self, r: ArenaRef, i: usize) -> (v: u8)
        requires
            self.holds(r),
            i < r.len,
        ensures
            v == self.block(r.block as int)[r.offset + i],
    {
        let blk = &self.blocks[r.block];
        let n = blk.len();
        assert(r.offset + i < n);
        blk[r.offset + i]
    }
}

impl Default for Arena {
    fn default() -> (a: Arena)
        ensures
            a.wf(),
            a.usage() == 0,
            a.n_blocks() == 0,
            a.allocations() == Seq::<ArenaRef>::empty(),
    {
        Arena::new()
    }
}

/// A zeroed byte vector of length `n`.
fn zero_block(n: usize) -> (b: Vec<u8>)
    ensures
        b@.len() == n,
{
    let mut b: Vec<u8> = Vec::new();
    let mut i: usize = 0;
    while i < n
        invariant
            i <= n,
            b@.len() == i,
        decreases n - i,
    {
        b.push(0);
        i = i + 1;
    }
    b
}

/// Any two ranges the arena has handed out occupy disjoint bytes, so a write
/// through one never disturbs the contents behind another.
pub proof fn lemma_allocations_disjoint(a: Arena, i: int, j: int)
    requires
        a.wf(),
        0 <= i < a.allocations().len(),
        0 <= j < a.allocations().len(),
        i != j,
    ensures
        ranges_disjoint(a.allocations()[i], a.allocations()[j]),
{
}

/// Stability law: two distinct allocations address no byte in common, so a
/// write through one — which by the contract of `write_byte` changes exactly
/// the byte it names — leaves every byte behind the other unchanged until
/// the arena is dropped.
pub proof fn lemma_distinct_allocations_share_no_byte(a: Arena, i: int, j: int, bi: int, bj: int)
    requires
        a.wf(),
        0 <= i < a.allocations().len(),
        0 <= j < a.allocations().len(),
        i != j,
        0 <= bi < a.allocations()[i].len,
        0 <= bj < a.allocations()[j].len,
    ensures
        a.allocations()[i].block != a.allocations()[j].block || a.allocations()[i].offset + bi
            != a.allocations()[j].offset + bj,
{
    lemma_allocations_disjoint(a, i, j);
}

/// The usage counter dominates the total bytes of user data handed out.
pub proof fn lemma_usage_covers_requests(a: Arena)
    requires
        a.wf(),
    ensures
        a.usage() >= total_len(a.allocations()),
{
}

} // verus!
