//! Layer 2: storage of numbered blocks of one fixed size.

use crate::bytes::{copy_into, copy_range, overlay, pow256};
use crate::pyramid::{ceil_div, lemma_mul_div};
use crate::types::{CacheMode, HeaderSlotId, OpenMode, SfsError};
use std::collections::VecDeque;
use vstd::prelude::*;

verus! {

/// The index that marks "no block": the largest number of `w` bytes.
pub open spec fn sentinel(w: nat) -> nat {
    (pow256(w) - 1) as nat
}

/// A run of `n` zero bytes.
pub open spec fn zero_bytes(n: nat) -> Seq<u8> {
    Seq::new(n, |i: int| 0u8)
}

/// `blocks` with the blocks of `added` put in, all zero.
pub open spec fn with_zero_blocks(
    blocks: Map<u64, Seq<u8>>,
    added: Seq<u64>,
    size: nat,
) -> Map<u64, Seq<u8>> {
    Map::new(
        |b: u64| blocks.contains_key(b) || added.contains(b),
        |b: u64|
            if added.contains(b) {
                zero_bytes(size)
            } else {
                blocks[b]
            },
    )
}

/// `blocks` without the blocks of `gone`.
pub open spec fn without_blocks(blocks: Map<u64, Seq<u8>>, gone: Seq<u64>) -> Map<u64, Seq<u8>> {
    Map::new(|b: u64| blocks.contains_key(b) && !gone.contains(b), |b: u64| blocks[b])
}

/// Header slots of the given sizes, with nothing written to them yet.
pub open spec fn empty_slots(sizes: Seq<u16>) -> Seq<Seq<u8>> {
    Seq::new(sizes.len(), |i: int| zero_bytes(sizes[i] as nat))
}

/// The layers above name each block in use once, and no other block.
pub open spec fn claims_fit(claimed: Seq<u64>, blocks: Map<u64, Seq<u8>>) -> bool {
    &&& claimed.no_duplicates()
    &&& forall|b: u64| #[trigger] claimed.contains(b) <==> blocks.contains_key(b)
}

/// The byte at position `p` of the run of blocks that starts at `start`.
pub open spec fn run_byte(blocks: Map<u64, Seq<u8>>, start: u64, size: nat, p: int) -> u8 {
    blocks[(start + p / size as int) as u64][p % size as int]
}

/// The `count` blocks from `start` on are all in use.
pub open spec fn run_held(blocks: Map<u64, Seq<u8>>, start: u64, count: nat) -> bool {
    &&& start + count <= u64::MAX
    &&& forall|b: u64| start <= b < start + count ==> #[trigger] blocks.contains_key(b)
}

/// The blocks after `buf` was written into the run of blocks at `start`, from
/// position `offset` of the run on.
pub open spec fn run_written(
    blocks: Map<u64, Seq<u8>>,
    start: u64,
    size: nat,
    offset: int,
    buf: Seq<u8>,
) -> Map<u64, Seq<u8>> {
    Map::new(
        |b: u64| blocks.contains_key(b),
        |b: u64|
            if start <= b < start + ceil_div((offset + buf.len()) as nat, size) {
                Seq::new(
                    size,
                    |q: int|
                        if offset <= (b - start) * size + q < offset + buf.len() {
                            buf[(b - start) * size + q - offset]
                        } else {
                            blocks[b][q]
                        },
                )
            } else {
                blocks[b]
            },
    )
}

/// Two states of a store that hold the same things.
pub open spec fn same_store<L: BlockLayer>(a: L, b: L) -> bool {
    &&& a.wf()
    &&& b.wf()
    &&& b.bsize() == a.bsize()
    &&& b.iwidth() == a.iwidth()
    &&& b.blocks() == a.blocks()
    &&& b.slots() == a.slots()
    &&& b.own_blocks() == a.own_blocks()
}

/// Two states of a store of the same make, with the same header slots.
pub open spec fn same_make<L: BlockLayer>(a: L, b: L) -> bool {
    &&& a.wf()
    &&& b.wf()
    &&& b.bsize() == a.bsize()
    &&& b.iwidth() == a.iwidth()
    &&& b.slots() == a.slots()
    &&& b.own_blocks() == a.own_blocks()
}

/// Block storage.
///
/// A store is known by the blocks that are in use, each by its index, and by
/// the header slots that it keeps for the layers above. `faults` counts the
/// calls that failed in the store itself (the medium failed, or no block was
/// left to give out): what a call promises, it promises when it meets no
/// fault. After a fault the store is to be opened anew.
pub trait BlockLayer: Sized {
    /// The blocks in use and what they hold.
    spec fn blocks(&self) -> Map<u64, Seq<u8>>;

    /// The header slots for the layers above.
    spec fn slots(&self) -> Seq<Seq<u8>>;

    /// The size of a block in bytes.
    spec fn bsize(&self) -> nat;

    /// The number of bytes of a block index.
    spec fn iwidth(&self) -> nat;

    /// The blocks that the store keeps for itself.
    spec fn own_blocks(&self) -> Set<u64>;

    /// The number of calls that failed in the store.
    spec fn faults(&self) -> nat;

    /// No call that only reads fails in the store.
    spec fn reads_always() -> bool;

    /// The store is consistent.
    spec fn wf(&self) -> bool;

    /// The store is open and can be read, though what it holds may be damaged.
    spec fn usable(&self) -> bool;

    /// What is known of every store that is open.
    proof fn lemma_usable(&self)
        requires
            self.usable(),
        ensures
            1 <= self.iwidth() <= 8,
            2 * self.iwidth() <= self.bsize() <= 0x8000_0000,
            4 + self.iwidth() <= self.bsize(),
    ;

    /// What is known of every consistent store.
    proof fn lemma_wf(&self)
        requires
            self.wf(),
        ensures
            self.usable(),
            1 <= self.iwidth() <= 8,
            2 * self.iwidth() <= self.bsize() <= 0x8000_0000,
            4 + self.iwidth() <= self.bsize(),
            forall|b: u64| #[trigger]
                self.blocks().contains_key(b) ==> self.blocks()[b].len() == self.bsize() && b
                    < sentinel(self.iwidth()) && !self.own_blocks().contains(b),
    ;

    /// Creates a new store at `path`, with header slots of the given sizes for
    /// the layers above.
    fn create(
        path: &str,
        block_size_shift: u8,
        block_index_width: u8,
        slot_sizes: VecDeque<u16>,
    ) -> (r: Result<Self, SfsError>)
        ensures
            r matches Ok(store) ==> {
                &&& store.wf()
                &&& store.blocks() == Map::<u64, Seq<u8>>::empty()
                &&& store.bsize() == vstd::arithmetic::power2::pow2(block_size_shift as nat)
                &&& store.iwidth() == block_index_width
                &&& store.slots() == empty_slots(slot_sizes@)
            },
    ;

    /// Opens the store at `path`. What it finds there may be damaged: `verify`
    /// tells.
    fn open(path: &str, mode: OpenMode) -> (r: Result<Self, SfsError>)
        ensures
            r matches Ok(store) ==> store.usable(),
    ;

    /// The size of a block in bytes.
    fn block_size(&self) -> (size: usize)
        requires
            self.wf() || self.usable(),
        ensures
            size == self.bsize(),
    ;

    /// The size of a block as a power of two.
    fn block_size_shift(&self) -> (shift: u8)
        requires
            self.wf() || self.usable(),
        ensures
            shift < 32,
            self.bsize() == vstd::arithmetic::power2::pow2(shift as nat),
    ;

    /// The number of bytes of a block index.
    fn block_index_width(&self) -> (width: u8)
        requires
            self.wf() || self.usable(),
        ensures
            width == self.iwidth(),
    ;

    /// Takes `count` new blocks into use, all zero.
    fn allocate_blocks(&mut self, count: u64) -> (r: Result<Vec<u64>, SfsError>)
        requires
            old(self).wf(),
        ensures
            final(self).bsize() == old(self).bsize(),
            final(self).iwidth() == old(self).iwidth(),
            final(self).faults() >= old(self).faults(),
            (r is Ok) == (final(self).faults() == old(self).faults()),
            r matches Ok(added) ==> {
                &&& final(self).wf()
                &&& added@.len() == count
                &&& added@.no_duplicates()
                &&& forall|i: int|
                    0 <= i < added@.len() ==> !old(self).blocks().contains_key(#[trigger] added@[i])
                &&& final(self).blocks() == with_zero_blocks(
                    old(self).blocks(),
                    added@,
                    old(self).bsize(),
                )
                &&& final(self).slots() == old(self).slots()
                &&& final(self).own_blocks() == old(self).own_blocks()
            },
    {
        let ghost b0 = self.blocks();
        let mut added: Vec<u64> = Vec::new();
        let mut left: u64 = count;
        proof {
            assert(with_zero_blocks(b0, added@, self.bsize()) =~= b0);
        }
        while left > 0
            invariant
                self.wf(),
                self.iwidth() == old(self).iwidth(),
                self.bsize() == old(self).bsize(),
                self.slots() == old(self).slots(),
                self.own_blocks() == old(self).own_blocks(),
                self.faults() == old(self).faults(),
                left <= count,
                added@.len() == count - left,
                added@.no_duplicates(),
                b0 == old(self).blocks(),
                forall|i: int|
                    0 <= i < added@.len() ==> !b0.contains_key(#[trigger] added@[i]),
                self.blocks() == with_zero_blocks(b0, added@, self.bsize()),
            decreases left,
        {
            let ghost before = added@;
            match self.allocate_block() {
                Ok(b) => {
                    added.push(b);
                    proof {
                        assert forall|i: int| 0 <= i < before.len() implies before[i] != b by {
                            assert(before.contains(before[i]));
                        }
                        assert forall|c: u64| #[trigger] added@.contains(c) == (c == b
                            || before.contains(c)) by {
                            if before.contains(c) {
                                let i = choose|i: int| 0 <= i < before.len() && before[i] == c;
                                assert(added@[i] == c);
                            }
                            assert(added@[before.len() as int] == b);
                        }
                        assert(self.blocks() =~= with_zero_blocks(b0, added@, self.bsize()));
                    }
                },
                Err(e) => {
                    return Err(e);
                },
            }
            left = left - 1;
        }
        Ok(added)
    }

    /// Takes one new block into use, all zero.
    fn allocate_block(&mut self) -> (r: Result<u64, SfsError>)
        requires
            old(self).wf(),
        ensures
            final(self).bsize() == old(self).bsize(),
            final(self).iwidth() == old(self).iwidth(),
            final(self).faults() >= old(self).faults(),
            (r is Ok) == (final(self).faults() == old(self).faults()),
            r matches Ok(b) ==> {
                &&& final(self).wf()
                &&& !old(self).blocks().contains_key(b)
                &&& final(self).blocks() == old(self).blocks().insert(
                    b,
                    zero_bytes(old(self).bsize()),
                )
                &&& final(self).slots() == old(self).slots()
                &&& final(self).own_blocks() == old(self).own_blocks()
            },
    ;

    /// Gives blocks back for later use. The order of `indices` may change.
    fn deallocate_blocks(&mut self, indices: &mut Vec<u64>) -> (r: Result<(), SfsError>)
        requires
            old(self).wf(),
            old(indices)@.no_duplicates(),
            forall|i: int|
                0 <= i < old(indices)@.len() ==> old(self).blocks().contains_key(
                    #[trigger] old(indices)@[i],
                ) || old(self).own_blocks().contains(old(indices)@[i]),
        ensures
            final(self).bsize() == old(self).bsize(),
            final(self).iwidth() == old(self).iwidth(),
            final(self).faults() >= old(self).faults(),
            r is Ok ==> final(self).faults() == old(self).faults(),
            (forall|i: int|
                0 <= i < old(indices)@.len() ==> !old(self).own_blocks().contains(
                    #[trigger] old(indices)@[i],
                )) ==> (r is Ok) == (final(self).faults() == old(self).faults()),
            (exists|i: int|
                0 <= i < old(indices)@.len() && old(self).own_blocks().contains(
                    #[trigger] old(indices)@[i],
                )) ==> {
                &&& final(self).faults() == old(self).faults()
                &&& r matches Err(e) && e is IoError
                &&& *final(self) == *old(self)
            },
            r is Ok ==> {
                &&& final(self).wf()
                &&& final(self).blocks() == without_blocks(old(self).blocks(), old(indices)@)
                &&& final(self).slots() == old(self).slots()
                &&& final(self).own_blocks() == old(self).own_blocks()
            },
    ;

    /// Gives one block back for later use.
    fn deallocate_block(&mut self, index: u64) -> (r: Result<(), SfsError>)
        requires
            old(self).wf(),
            old(self).blocks().contains_key(index) || old(self).own_blocks().contains(index),
        ensures
            final(self).bsize() == old(self).bsize(),
            final(self).iwidth() == old(self).iwidth(),
            final(self).faults() >= old(self).faults(),
            r is Ok ==> final(self).faults() == old(self).faults(),
            !old(self).own_blocks().contains(index) ==> (r is Ok) == (final(self).faults() == old(
                self,
            ).faults()),
            old(self).own_blocks().contains(index) ==> {
                &&& final(self).faults() == old(self).faults()
                &&& r matches Err(e) && e is IoError
                &&& *final(self) == *old(self)
            },
            r is Ok ==> {
                &&& final(self).wf()
                &&& final(self).blocks() == old(self).blocks().remove(index)
                &&& final(self).slots() == old(self).slots()
                &&& final(self).own_blocks() == old(self).own_blocks()
            },
    ;

    /// Reads from one block, from `offset` on, as many bytes as `buf` holds.
    fn read_block(&mut self, index: u64, offset: usize, buf: &mut [u8], cache: CacheMode) -> (r:
        Result<usize, SfsError>)
        requires
            old(self).wf() || old(self).usable(),
        ensures
            final(self).wf() == old(self).wf(),
            final(self).usable() == old(self).usable(),
            final(self).bsize() == old(self).bsize(),
            final(self).iwidth() == old(self).iwidth(),
            final(self).blocks() == old(self).blocks(),
            final(self).slots() == old(self).slots(),
            final(self).own_blocks() == old(self).own_blocks(),
            final(self).faults() >= old(self).faults(),
            Self::reads_always() ==> final(self).faults() == old(self).faults(),
            final(buf)@.len() == old(buf)@.len(),
            r is Ok ==> final(self).faults() == old(self).faults(),
            offset + old(buf)@.len() > old(self).bsize() ==> {
                &&& final(self).faults() == old(self).faults()
                &&& r matches Err(e) && e is IoError
                &&& final(buf)@ == old(buf)@
            },
            old(self).wf() && old(self).blocks().contains_key(index) && offset + old(buf)@.len()
                <= old(self).bsize() && final(self).faults() == old(self).faults() ==> {
                &&& r matches Ok(n) && n == old(buf)@.len()
                &&& final(buf)@ == old(self).blocks()[index].subrange(
                    offset as int,
                    offset + old(buf)@.len(),
                )
            },
    ;

    /// Writes `buf` into one block, from `offset` on.
    fn write_block(&mut self, index: u64, offset: usize, buf: &[u8], cache: CacheMode) -> (r:
        Result<usize, SfsError>)
        requires
            old(self).wf(),
            old(self).blocks().contains_key(index),
        ensures
            final(self).bsize() == old(self).bsize(),
            final(self).iwidth() == old(self).iwidth(),
            final(self).faults() >= old(self).faults(),
            offset + buf@.len() <= old(self).bsize() ==> (r is Ok) == (final(self).faults() == old(
                self,
            ).faults()),
            offset + buf@.len() > old(self).bsize() ==> {
                &&& final(self).faults() == old(self).faults()
                &&& r matches Err(e) && e is IoError
                &&& *final(self) == *old(self)
            },
            r matches Ok(n) ==> {
                &&& n == buf@.len()
                &&& final(self).wf()
                &&& final(self).blocks() == old(self).blocks().insert(
                    index,
                    overlay(old(self).blocks()[index], offset as int, buf@),
                )
                &&& final(self).slots() == old(self).slots()
                &&& final(self).own_blocks() == old(self).own_blocks()
            },
    ;

    /// Reads across consecutive blocks, from `offset` within block
    /// `start_index` on, as many bytes as `buf` holds.
    fn read_contiguous_blocks(&mut self, start_index: u64, offset: usize, buf: &mut [u8]) -> (r:
        Result<usize, SfsError>)
        requires
            old(self).wf(),
            offset < old(self).bsize(),
            run_held(
                old(self).blocks(),
                start_index,
                ceil_div((offset + old(buf)@.len()) as nat, old(self).bsize()),
            ),
        ensures
            final(self).wf(),
            final(self).bsize() == old(self).bsize(),
            final(self).iwidth() == old(self).iwidth(),
            final(self).blocks() == old(self).blocks(),
            final(self).slots() == old(self).slots(),
            final(self).own_blocks() == old(self).own_blocks(),
            final(self).faults() >= old(self).faults(),
            Self::reads_always() ==> final(self).faults() == old(self).faults(),
            final(buf)@.len() == old(buf)@.len(),
            (r is Ok) == (final(self).faults() == old(self).faults()),
            r matches Ok(n) ==> {
                &&& n == old(buf)@.len()
                &&& forall|i: int|
                    0 <= i < n ==> #[trigger] final(buf)@[i] == run_byte(
                        old(self).blocks(),
                        start_index,
                        old(self).bsize(),
                        offset + i,
                    )
            },
    {
        proof {
            self.lemma_wf();
        }
        let bs: usize = self.block_size();
        let total: usize = buf.len();
        let ghost size = bs as int;
        let mut bytes_read: usize = 0;
        let mut block: u64 = start_index;
        let mut off: usize = offset;
        while bytes_read < total
            invariant
                self.wf(),
                self.iwidth() == old(self).iwidth(),
                self.bsize() == old(self).bsize(),
                self.blocks() == old(self).blocks(),
                self.slots() == old(self).slots(),
                self.own_blocks() == old(self).own_blocks(),
                self.faults() == old(self).faults(),
                total == buf@.len() == old(buf)@.len(),
                bytes_read <= total,
                bs == size == self.bsize(),
                1 <= size <= 0x8000_0000,
                off < bs,
                offset < bs,
                bytes_read < total ==> off + (block - start_index) * size == offset + bytes_read,
                start_index <= block,
                run_held(
                    self.blocks(),
                    start_index,
                    ceil_div((offset + total) as nat, self.bsize()),
                ),
                forall|b: u64| #[trigger]
                    self.blocks().contains_key(b) ==> self.blocks()[b].len() == self.bsize(),
                forall|i: int|
                    0 <= i < bytes_read ==> #[trigger] buf@[i] == run_byte(
                        self.blocks(),
                        start_index,
                        self.bsize(),
                        offset + i,
                    ),
            decreases total - bytes_read,
        {
            let left: usize = total - bytes_read;
            let chunk: usize = if left < bs - off {
                left
            } else {
                bs - off
            };
            let ghost j = (block - start_index) as int;
            proof {
                lemma_run_position(j, off as int, size);
                lemma_run_in_reach(j, off as int, (offset + total) as int, size);
                assert(self.blocks().contains_key(block));
            }
            let mut part: Vec<u8> = vec![0u8; chunk];
            match self.read_block(block, off, part.as_mut_slice(), CacheMode::Bypass) {
                Ok(_) => {},
                Err(e) => {
                    return Err(e);
                },
            }
            let ghost before = buf@;
            copy_into(buf, bytes_read, part.as_slice());
            proof {
                assert forall|i: int| 0 <= i < bytes_read + chunk implies #[trigger] buf@[i]
                    == run_byte(self.blocks(), start_index, self.bsize(), offset + i) by {
                    if i < bytes_read {
                        assert(buf@[i] == before[i]);
                    } else {
                        let q = off + (i - bytes_read);
                        lemma_run_position(j, q, size);
                        assert(offset + i == j * size + q);
                        assert(buf@[i] == part@[i - bytes_read]);
                        assert(part@[i - bytes_read] == self.blocks()[block][q]);
                        assert((start_index + j) as u64 == block);
                    }
                }
                assert((j + 1) * size == j * size + size) by (nonlinear_arith);
            }
            bytes_read = bytes_read + chunk;
            block = block + 1;
            off = 0;
        }
        Ok(bytes_read)
    }

    /// Writes across consecutive blocks, from `offset` within block
    /// `start_index` on.
    fn write_contiguous_blocks(&mut self, start_index: u64, offset: usize, buf: &[u8]) -> (r:
        Result<usize, SfsError>)
        requires
            old(self).wf(),
            offset < old(self).bsize(),
            run_held(
                old(self).blocks(),
                start_index,
                ceil_div((offset + buf@.len()) as nat, old(self).bsize()),
            ),
        ensures
            final(self).bsize() == old(self).bsize(),
            final(self).iwidth() == old(self).iwidth(),
            final(self).faults() >= old(self).faults(),
            (r is Ok) == (final(self).faults() == old(self).faults()),
            r matches Ok(n) ==> {
                &&& n == buf@.len()
                &&& final(self).wf()
                &&& final(self).slots() == old(self).slots()
                &&& final(self).own_blocks() == old(self).own_blocks()
                &&& final(self).blocks() == run_written(
                    old(self).blocks(),
                    start_index,
                    old(self).bsize(),
                    offset as int,
                    buf@,
                )
            },
    {
        proof {
            self.lemma_wf();
            assert(self.blocks() =~= run_written(
                self.blocks(),
                start_index,
                self.bsize(),
                offset as int,
                buf@.take(0),
            )) by {
                lemma_run_written_nothing(
                    self.blocks(),
                    start_index,
                    self.bsize(),
                    offset as int,
                    buf@.take(0),
                );
            }
        }
        let bs: usize = self.block_size();
        let total: usize = buf.len();
        let ghost size = bs as int;
        let mut bytes_written: usize = 0;
        let mut block: u64 = start_index;
        let mut off: usize = offset;
        while bytes_written < total
            invariant
                self.wf(),
                self.iwidth() == old(self).iwidth(),
                self.bsize() == old(self).bsize(),
                self.slots() == old(self).slots(),
                self.own_blocks() == old(self).own_blocks(),
                self.faults() == old(self).faults(),
                total == buf@.len(),
                bytes_written <= total,
                bs == size == self.bsize(),
                1 <= size <= 0x8000_0000,
                off < bs,
                offset < bs,
                bytes_written < total ==> off + (block - start_index) * size == offset
                    + bytes_written,
                start_index <= block,
                run_held(
                    old(self).blocks(),
                    start_index,
                    ceil_div((offset + total) as nat, self.bsize()),
                ),
                forall|b: u64| #[trigger]
                    old(self).blocks().contains_key(b) ==> old(self).blocks()[b].len()
                        == self.bsize(),
                self.blocks() == run_written(
                    old(self).blocks(),
                    start_index,
                    self.bsize(),
                    offset as int,
                    buf@.take(bytes_written as int),
                ),
            decreases total - bytes_written,
        {
            let left: usize = total - bytes_written;
            let chunk: usize = if left < bs - off {
                left
            } else {
                bs - off
            };
            let ghost j = (block - start_index) as int;
            proof {
                lemma_run_position(j, off as int, size);
                lemma_run_in_reach(j, off as int, (offset + total) as int, size);
                assert(self.blocks().contains_key(block));
            }
            let part: Vec<u8> = copy_range(buf, bytes_written, bytes_written + chunk);
            let ghost before = self.blocks();
            match self.write_block(block, off, part.as_slice(), CacheMode::Bypass) {
                Ok(_) => {},
                Err(e) => {
                    return Err(e);
                },
            }
            proof {
                lemma_run_written_step(
                    old(self).blocks(),
                    start_index,
                    self.bsize(),
                    offset as int,
                    buf@,
                    bytes_written as int,
                    j,
                    off as int,
                    chunk as int,
                );
                assert((j + 1) * size == j * size + size) by (nonlinear_arith);
            }
            bytes_written = bytes_written + chunk;
            block = block + 1;
            off = 0;
        }
        proof {
            assert(buf@.take(total as int) =~= buf@);
        }
        Ok(bytes_written)
    }

    /// The header slot of the layer `index` places above.
    fn header_slot_for_upper(&self, index: u8) -> (slot: HeaderSlotId)
        ensures
            slot.pos() == index,
    ;

    /// Writes a header slot. `data` must be as long as the slot.
    fn write_header_slot(&mut self, slot: HeaderSlotId, data: &[u8]) -> (r: Result<(), SfsError>)
        requires
            old(self).wf(),
        ensures
            final(self).bsize() == old(self).bsize(),
            final(self).iwidth() == old(self).iwidth(),
            final(self).faults() >= old(self).faults(),
            r is Ok ==> final(self).faults() == old(self).faults(),
            final(self).faults() == old(self).faults() ==> {
                let fits = slot.pos() < old(self).slots().len() && data@.len() == old(
                    self,
                ).slots()[slot.pos() as int].len();
                &&& final(self).wf()
                &&& final(self).blocks() == old(self).blocks()
                &&& final(self).own_blocks() == old(self).own_blocks()
                &&& fits ==> r is Ok && final(self).slots() == old(self).slots().update(
                    slot.pos() as int,
                    data@,
                )
                &&& !fits ==> {
                    &&& r matches Err(e) && e is IoError
                    &&& final(self).slots() == old(self).slots()
                }
            },
    ;

    /// Reads a header slot.
    fn read_header_slot(&self, slot: HeaderSlotId) -> (r: Result<Vec<u8>, SfsError>)
        requires
            self.wf() || self.usable(),
        ensures
            match r {
                Ok(data) => slot.pos() < self.slots().len() && data@ == self.slots()[slot.pos() as int],
                Err(e) => slot.pos() >= self.slots().len() && e is IoError,
            },
    ;

    /// Forgets what the owner's block cache holds. Nothing else changes.
    fn invalidate_block_cache(&mut self)
        requires
            old(self).wf() || old(self).usable(),
        ensures
            final(self).wf() == old(self).wf(),
            final(self).usable() == old(self).usable(),
            final(self).bsize() == old(self).bsize(),
            final(self).iwidth() == old(self).iwidth(),
            final(self).blocks() == old(self).blocks(),
            final(self).slots() == old(self).slots(),
            final(self).own_blocks() == old(self).own_blocks(),
            final(self).faults() == old(self).faults(),
    {
    }

    /// Checks the store. `claimed_blocks` are the blocks that the layers above
    /// say are theirs. There is something to report unless the store is
    /// consistent and the claims fit its blocks.
    fn verify(&mut self, claimed_blocks: &[u64]) -> (r: Result<Vec<String>, SfsError>)
        requires
            old(self).wf() || old(self).usable(),
        ensures
            final(self).wf() == old(self).wf(),
            final(self).usable() == old(self).usable(),
            final(self).bsize() == old(self).bsize(),
            final(self).iwidth() == old(self).iwidth(),
            final(self).blocks() == old(self).blocks(),
            final(self).slots() == old(self).slots(),
            final(self).own_blocks() == old(self).own_blocks(),
            final(self).faults() >= old(self).faults(),
            Self::reads_always() ==> final(self).faults() == old(self).faults(),
            (r is Ok) == (final(self).faults() == old(self).faults()),
            r matches Ok(issues) ==> (issues@.len() == 0 <==> old(self).wf() && claims_fit(
                claimed_blocks@,
                old(self).blocks(),
            )),
    ;
}

/// Position `j * size + q` of a run is byte `q` of its block `j`.
pub proof fn lemma_run_position(j: int, q: int, size: int)
    requires
        0 <= j,
        0 <= q < size,
    ensures
        (j * size + q) / size == j,
        (j * size + q) % size == q,
        j * size >= 0,
{
    lemma_mul_div(j, q, size);
}

/// A block of the run that holds a position before `end` is one of the blocks
/// that `end` bytes take.
pub proof fn lemma_run_in_reach(j: int, q: int, end: int, size: int)
    requires
        0 <= j,
        0 <= q < size,
        j * size + q < end,
    ensures
        j < ceil_div(end as nat, size as nat),
{
    lemma_mul_div(j, q, size);
    vstd::arithmetic::div_mod::lemma_div_is_ordered(j * size + q, end - 1, size);
}

proof fn lemma_run_written_nothing(
    blocks: Map<u64, Seq<u8>>,
    start: u64,
    size: nat,
    offset: int,
    buf: Seq<u8>,
)
    requires
        buf.len() == 0,
        forall|b: u64| #[trigger] blocks.contains_key(b) ==> blocks[b].len() == size,
    ensures
        run_written(blocks, start, size, offset, buf) == blocks,
{
    let after = run_written(blocks, start, size, offset, buf);
    assert forall|b: u64| #[trigger] blocks.contains_key(b) implies after[b] == blocks[b] by {
        assert(after[b] =~= blocks[b]);
    }
    assert(after =~= blocks);
}

proof fn lemma_run_written_step(
    blocks: Map<u64, Seq<u8>>,
    start: u64,
    size: nat,
    offset: int,
    buf: Seq<u8>,
    done: int,
    j: int,
    off: int,
    chunk: int,
)
    requires
        size >= 1,
        0 <= offset < size,
        0 <= done,
        0 <= j,
        0 <= off < size,
        1 <= chunk,
        chunk <= size - off,
        done + chunk <= buf.len(),
        done + chunk == buf.len() || off + chunk == size,
        j * size + off == offset + done,
        run_held(blocks, start, ceil_div((offset + buf.len()) as nat, size)),
        forall|b: u64| #[trigger] blocks.contains_key(b) ==> blocks[b].len() == size,
    ensures
        ({
            let before = run_written(blocks, start, size, offset, buf.take(done));
            let block = (start + j) as u64;
            before.insert(
                block,
                overlay(before[block], off, buf.subrange(done, done + chunk)),
            ) == run_written(blocks, start, size, offset, buf.take(done + chunk))
        }),
{
    let before = run_written(blocks, start, size, offset, buf.take(done));
    let goal = run_written(blocks, start, size, offset, buf.take(done + chunk));
    let part = buf.subrange(done, done + chunk);
    lemma_run_in_reach(j, off, offset + buf.len(), size as int);
    let block = (start + j) as u64;
    let after = before.insert(block, overlay(before[block], off, part));
    let end0 = (offset + done) as nat;
    let end1 = (offset + done + chunk) as nat;
    // The blocks that the first `done` bytes take, and those that `done + chunk` take.
    lemma_mul_div(j, off, size as int);
    lemma_mul_div(j, off + chunk - 1, size as int);
    assert(ceil_div(end1, size) == j + 1);
    assert(off > 0 ==> ceil_div(end0, size) == j + 1) by {
        if off > 0 {
            lemma_mul_div(j, off - 1, size as int);
        }
    }
    assert(off == 0 ==> ceil_div(end0, size) == j) by {
        if off == 0 && j > 0 {
            assert((j - 1) * size + (size - 1) == j * size - 1) by (nonlinear_arith);
            lemma_mul_div(j - 1, size as int - 1, size as int);
        } else if off == 0 {
            assert(j * size == 0) by (nonlinear_arith)
                requires
                    j == 0,
            ;
        }
    }
    assert forall|b: u64| #[trigger] blocks.contains_key(b) implies after[b] == goal[b] by {
        if start <= b < start + j + 1 {
            let i = b - start;
            assert(i < j ==> i * size + size <= j * size) by (nonlinear_arith)
                requires
                    i < j ==> i + 1 <= j,
                    size >= 1,
            ;
            assert(after[b] =~= goal[b]);
        }
    }
    assert(after =~= goal);
}

} // verus!
