//! The block layer in one file.

use crate::block_cache::BlockCache;
use crate::block_check::{check_claims, tells_claims, walk_free};
use crate::block_file::{
    blocks_in, free_ok, give_back, handed_out, laid_out, lemma_list_longer, lemma_off_list,
    lemma_prefix_kept, lemma_sizes, lemma_trunks, on_list, position, read_raw_block, size_of_block,
    take_free, trunks, write_raw, write_raw_block, LARGEST_SHIFT, SMALLEST_SHIFT,
};
use crate::block_image::{
    block0_head, block0_magic, block0_ok, block0_slots, block_pos, image, infos_match, init_block0,
    lemma_block_in_file, lemma_block_read, lemma_image_grown, lemma_new_block0, lemma_run_in_file,
    lemma_run_written_in_file, lemma_slot_bounds, lemma_with_head, lemma_with_slot, new_block0,
    parse_block0, reaches, sizes_fit, slots_size, with_head, Block0SlotInfo,
};
use crate::block_layer::{
    claims_fit, run_byte, run_held, run_written, sentinel, with_zero_blocks, without_blocks,
    zero_bytes, BlockLayer,
};
use crate::bytes::{
    copy_into, copy_range, le_bytes, lemma_le_bytes_len, lemma_pow256_values, overlay, push_le,
    zeros,
};
use crate::file_layer::{header_ok, magic_offset, new_file, FileLayer, MAGIC_SIZE};
use crate::free_chain::{in_use, is_chain, list_ok};
use crate::free_list::{
    any_covers, ascending, coalesce_extents, lemma_ascending_ok, TrunkExtent, BLOCK_INDEX_SENTINEL,
};
use crate::pyramid::{ceil_div, lemma_div_mod, lemma_mul_div};
use crate::types::{
    beyond_block, lemma_issues_around, lemma_still_mentioned, text_num, CacheMode, HeaderSlotId,
    OpenMode, SfsError,
};
use std::collections::VecDeque;
use vstd::arithmetic::power2::pow2;
use vstd::prelude::*;

verus! {

/// The least size of a block in a new file, as a power of two.
pub const MIN_BLOCK_SIZE_SHIFT: u8 = 6;

/// How many bytes of blocks each cache keeps, unless it is told otherwise.
pub const DEFAULT_CACHE_BUDGET_BYTES: usize = 2097152;

/// How many blocks a cache keeps at most.
pub const BLOCK_CACHE_MAX_ENTRIES: usize = 4096;

/// Where the blocks begin in a new file.
pub const NEW_DATA_OFFSET: u64 = 14;

/// Sorts numbers, by `<[u64]>::sort_unstable`: they stand in ascending order
/// then, and are the same as before.
#[verifier::external_body]
fn sort_numbers(v: &mut Vec<u64>)
    ensures
        final(v)@.to_multiset() == old(v)@.to_multiset(),
        forall|i: int, j: int| 0 <= i <= j < final(v)@.len() ==> final(v)@[i] <= final(v)@[j],
{
    v.sort_unstable();
}

/// The size of the blocks of a file.
pub open spec fn size_in(file: Seq<u8>) -> nat {
    pow2(file[12] as nat)
}

/// The number of whole blocks in a file.
pub open spec fn total_in(file: Seq<u8>, off: nat) -> nat {
    ((file.len() - off) / size_in(file) as int) as nat
}

/// The blocks of a file.
pub open spec fn image_in(file: Seq<u8>, off: nat) -> Seq<Seq<u8>> {
    image(file, off, size_in(file), total_in(file, off))
}

/// A file can be opened: what stands before the blocks is in order, and so is
/// block 0.
pub open spec fn can_be_opened(file: Seq<u8>, off: nat) -> bool {
    &&& 13 <= off <= 65535
    &&& off <= file.len() <= u64::MAX
    &&& file.len() >= 14
    &&& SMALLEST_SHIFT <= file[12] <= LARGEST_SHIFT
    &&& file[13] != 1
    &&& off + size_in(file) <= file.len()
    &&& block0_ok(image_in(file, off)[0])
}

/// A file is in order: it can be opened, it has whole blocks alone, and no block
/// is free twice.
pub open spec fn file_ok(file: Seq<u8>, off: nat) -> bool {
    &&& can_be_opened(file, off)
    &&& header_ok(file, off)
    &&& file.len() == off + total_in(file, off) * size_in(file)
    &&& total_in(file, off) <= BLOCK_INDEX_SENTINEL
    &&& free_ok(block0_head(image_in(file, off)[0]), image_in(file, off))
}

/// The blocks in use of a file.
pub open spec fn blocks_of(file: Seq<u8>, off: nat) -> Map<u64, Seq<u8>> {
    let img = image_in(file, off);
    in_use(trunks(block0_head(img[0]), img), img)
}

/// The header slots of a file.
pub open spec fn slots_of(file: Seq<u8>, off: nat) -> Seq<Seq<u8>> {
    block0_slots(image_in(file, off)[0])
}

/// Blocks in one file.
///
/// Block 0 belongs to the layer: it tells where the list of free blocks begins,
/// and holds the header slots of the layers above. The list is a chain of
/// trunks: free blocks, each of which tells the next, and a number of extents of
/// free blocks.
///
/// There are two caches of whole blocks, one for the blocks of streams and one
/// for the blocks of the table of streams. With a budget of zero there is none.
pub struct BlocksInFile<L1: FileLayer, const CACHE_BUDGET_BYTES: usize> {
    layer1: L1,
    block_size_shift: u8,
    /// The number of blocks, with block 0.
    total_blocks: u64,
    /// The first trunk of the list of free blocks.
    free_list_head: u32,
    /// What block 0 holds.
    block0_cache: Vec<u8>,
    /// Where the header slots are in block 0.
    block0_slots: Vec<Block0SlotInfo>,
    block_cache: BlockCache,
    shared_cache: BlockCache,
    /// How often there was no block left to give out.
    exhausted: Ghost<nat>,
}

/// What a cache holds of the blocks in use is what the file holds.
spec fn coherent(cache: BlockCache, head: u32, img: Seq<Seq<u8>>) -> bool {
    forall|k: u32| #[trigger]
        cache.holds(k) is Some && 1 <= k < img.len() && !on_list(head, img, k as u64)
            ==> cache.holds(k) == Some(img[k as int])
}

/// Numbers sorted are the same numbers.
proof fn lemma_sorted(before: Seq<u64>, after: Seq<u64>)
    requires
        after.to_multiset() == before.to_multiset(),
        before.no_duplicates(),
        forall|i: int, j: int| 0 <= i <= j < after.len() ==> after[i] <= after[j],
    ensures
        after.len() == before.len(),
        after.no_duplicates(),
        ascending(after),
        forall|b: u64| #[trigger] after.contains(b) <==> before.contains(b),
{
    before.to_multiset_ensures();
    after.to_multiset_ensures();
    before.lemma_multiset_has_no_duplicates();
    after.lemma_multiset_has_no_duplicates_conv();
    assert forall|b: u64| #[trigger] after.contains(b) <==> before.contains(b) by {
        assert(after.contains(b) <==> after.to_multiset().count(b) > 0);
        assert(before.contains(b) <==> before.to_multiset().count(b) > 0);
    }
}

/// Numbers below a limit are finitely many.
proof fn lemma_below_finite(s: Set<u64>, n: nat)
    requires
        forall|b: u64| #[trigger] s.contains(b) ==> b < n,
    ensures
        s.finite(),
    decreases n,
{
    if n == 0 {
        assert(s =~= Set::<u64>::empty());
    } else if n - 1 <= u64::MAX {
        let last = (n - 1) as u64;
        lemma_below_finite(s.remove(last), (n - 1) as nat);
        if s.contains(last) {
            assert(s =~= s.remove(last).insert(last));
        } else {
            assert(s =~= s.remove(last));
        }
    } else {
        lemma_below_finite(s, (n - 1) as nat);
    }
}

/// How many blocks a list gives: as many as are asked for, or all that it has.
proof fn lemma_list_used(
    head0: u32,
    img0: Seq<Seq<u8>>,
    head: u32,
    img: Seq<Seq<u8>>,
    taken: Seq<u64>,
    free: Set<u64>,
    count: nat,
)
    requires
        handed_out(head0, img0, head, img, taken),
        free_ok(head0, img0),
        img.len() <= BLOCK_INDEX_SENTINEL,
        taken.len() <= count,
        taken.len() < count ==> head == BLOCK_INDEX_SENTINEL,
        forall|b: u64| #[trigger]
            free.contains(b) <==> 1 <= b < img0.len() && on_list(head0, img0, b),
    ensures
        free.finite(),
        taken.len() == count ==> count <= free.len(),
        taken.len() < count ==> taken.len() == free.len(),
{
    lemma_below_finite(free, img0.len());
    taken.unique_seq_to_set();
    let set = taken.to_set();
    assert forall|b: u64| #[trigger] set.contains(b) implies free.contains(b) by {
        assert(taken.contains(b));
        assert(on_list(head0, img0, b));
        crate::block_file::lemma_on_list(head0, img0, b);
    }
    vstd::set_lib::lemma_len_subset(set, free);
    if taken.len() < count {
        let t = Seq::<u64>::empty();
        assert(is_chain(t, head, img));
        assert(list_ok(t, img));
        lemma_trunks(head, img, t);
        assert forall|b: u64| #[trigger] free.contains(b) implies set.contains(b) by {
            assert(on_list(head0, img0, b) <==> on_list(head, img, b) || taken.contains(b));
        }
        assert(set =~= free);
    }
}

/// Lists in ascending order that hold the same numbers are the same.
proof fn lemma_same_ascending(a: Seq<u64>, b: Seq<u64>)
    requires
        ascending(a),
        ascending(b),
        forall|x: u64| #[trigger] a.contains(x) <==> b.contains(x),
    ensures
        a == b,
    decreases a.len(),
{
    if a.len() == 0 {
        if b.len() > 0 {
            assert(b.contains(b[0]));
            assert(a.contains(b[0]));
        }
        assert(a =~= b);
    } else {
        assert(a.contains(a[0]));
        assert(b.len() > 0);
        let x = a.last();
        let y = b.last();
        assert(a.contains(x) && b.contains(y));
        assert(a.contains(y));
        let i = choose|i: int| 0 <= i < b.len() && b[i] == x;
        let j = choose|j: int| 0 <= j < a.len() && a[j] == y;
        assert(x == y);
        let a1 = a.drop_last();
        let b1 = b.drop_last();
        assert forall|z: u64| #[trigger] a1.contains(z) <==> b1.contains(z) by {
            if a1.contains(z) {
                let k = choose|k: int| 0 <= k < a1.len() && a1[k] == z;
                assert(a[k] == z);
                assert(a.contains(z));
                let l = choose|l: int| 0 <= l < b.len() && b[l] == z;
                assert(b1[l] == z);
            }
            if b1.contains(z) {
                let k = choose|k: int| 0 <= k < b1.len() && b1[k] == z;
                assert(b[k] == z);
                assert(a.contains(z));
                let l = choose|l: int| 0 <= l < a.len() && a[l] == z;
                assert(a1[l] == z);
            }
        }
        lemma_same_ascending(a1, b1);
        assert(a =~= a1.push(x));
        assert(b =~= b1.push(y));
    }
}

/// A cache after blocks were taken out of it.
spec fn evicted(before: BlockCache, after: BlockCache, gone: Seq<u64>) -> bool {
    forall|k: u32| #[trigger]
        after.holds(k) is Some ==> after.holds(k) == before.holds(k) && !gone.contains(k as u64)
}

/// A cache stays coherent when the blocks that changed are taken out of it.
proof fn lemma_coherent_after(
    before: BlockCache,
    after: BlockCache,
    head0: u32,
    img0: Seq<Seq<u8>>,
    head: u32,
    img: Seq<Seq<u8>>,
    gone: Seq<u64>,
)
    requires
        coherent(before, head0, img0),
        evicted(before, after, gone),
        forall|b: u64|
            #![trigger on_list(head, img, b)]
            1 <= b < img.len() && !on_list(head, img, b) && !gone.contains(b) ==> b < img0.len()
                && !on_list(head0, img0, b) && img[b as int] == img0[b as int],
    ensures
        coherent(after, head, img),
{
    assert forall|k: u32| #[trigger]
        after.holds(k) is Some && 1 <= k < img.len() && !on_list(head, img, k as u64) implies after.holds(
    k) == Some(img[k as int]) by {
        assert(before.holds(k) is Some);
    }
}

/// A cache after a block was written: it has the block no more, or as one of the
/// caches had it, changed. `other` is the cache beside it.
spec fn rewritten(
    before: BlockCache,
    other: BlockCache,
    after: BlockCache,
    k: u32,
    at: int,
    buf: Seq<u8>,
) -> bool {
    forall|j: u32| #[trigger]
        after.holds(j) is Some ==> if j == k {
            exists|block: Seq<u8>|
                after.holds(j) == Some(#[trigger] overlay(block, at, buf)) && (before.holds(j)
                    == Some(block) || other.holds(j) == Some(block))
        } else {
            after.holds(j) == before.holds(j)
        }
}

proof fn lemma_coherent_written(
    before: BlockCache,
    other: BlockCache,
    after: BlockCache,
    head: u32,
    img: Seq<Seq<u8>>,
    k: u32,
    at: int,
    buf: Seq<u8>,
)
    requires
        coherent(before, head, img),
        coherent(other, head, img),
        rewritten(before, other, after, k, at, buf),
        1 <= k < img.len(),
        !on_list(head, img, k as u64),
        forall|b: u64| #[trigger]
            on_list(head, img.update(k as int, overlay(img[k as int], at, buf)), b) == on_list(
                head,
                img,
                b,
            ),
    ensures
        coherent(after, head, img.update(k as int, overlay(img[k as int], at, buf))),
{
    let img2 = img.update(k as int, overlay(img[k as int], at, buf));
    assert forall|j: u32| #[trigger]
        after.holds(j) is Some && 1 <= j < img2.len() && !on_list(
            head,
            img2,
            j as u64,
        ) implies after.holds(j) == Some(img2[j as int]) by {
        assert(on_list(head, img2, j as u64) == on_list(head, img, j as u64));
        if j == k {
            let block = choose|block: Seq<u8>|
                after.holds(j) == Some(#[trigger] overlay(block, at, buf)) && (before.holds(j)
                    == Some(block) || other.holds(j) == Some(block));
            if before.holds(j) == Some(block) {
                assert(before.holds(j) is Some);
            } else {
                assert(other.holds(j) is Some);
            }
        } else {
            assert(before.holds(j) is Some);
        }
    }
}

/// The numbers of a run of blocks.
fn run_numbers(start: u64, count: u64) -> (numbers: Vec<u64>)
    requires
        start + count <= u64::MAX,
    ensures
        numbers@ == Seq::new(count as nat, |i: int| (start + i) as u64),
{
    let mut numbers: Vec<u64> = Vec::new();
    let mut i: u64 = 0;
    while i < count
        invariant
            i <= count,
            start + count <= u64::MAX,
            numbers@ == Seq::new(i as nat, |j: int| (start + j) as u64),
        decreases count - i,
    {
        numbers.push(start + i);
        i = i + 1;
        proof {
            assert(numbers@ =~= Seq::new(i as nat, |j: int| (start + j) as u64));
        }
    }
    numbers
}

/// The numbers of reused blocks, and those of the blocks that were put at the
/// end of the file.
proof fn lemma_grown_numbers(reused: Seq<u64>, added: Seq<u64>, total0: nat, total: nat)
    requires
        reused.no_duplicates(),
        forall|i: int| 0 <= i < reused.len() ==> 1 <= #[trigger] reused[i] < total0,
        total0 <= total <= BLOCK_INDEX_SENTINEL,
        added == reused + Seq::new((total - total0) as nat, |j: int| (total0 + j) as u64),
    ensures
        added.no_duplicates(),
        added.len() == reused.len() + (total - total0),
        added.take(reused.len() as int) == reused,
        forall|i: int| 0 <= i < added.len() ==> #[trigger] added[i] <= u32::MAX,
        forall|b: u64| #[trigger]
            added.contains(b) <==> reused.contains(b) || total0 <= b < total,
{
    assert(added.take(reused.len() as int) =~= reused);
    assert forall|b: u64| #[trigger] added.contains(b) <==> reused.contains(b) || total0 <= b
        < total by {
        if reused.contains(b) {
            let i = choose|i: int| 0 <= i < reused.len() && reused[i] == b;
            assert(added[i] == b);
        }
        if total0 <= b < total {
            assert(added[reused.len() + (b - total0)] == b);
        }
        if added.contains(b) {
            let i = choose|i: int| 0 <= i < added.len() && added[i] == b;
            if i < reused.len() {
                assert(reused[i] == b);
            }
        }
    }
}

/// The list of free blocks, and the blocks themselves, once `added` were taken
/// into use.
proof fn lemma_allocated(
    head0: u32,
    img0: Seq<Seq<u8>>,
    head: u32,
    img1: Seq<Seq<u8>>,
    img: Seq<Seq<u8>>,
    reused: Seq<u64>,
    added: Seq<u64>,
    size: nat,
)
    requires
        1 <= img0.len() <= img.len() <= BLOCK_INDEX_SENTINEL,
        free_ok(head0, img0),
        handed_out(head0, img0, head, img1, reused),
        forall|b: u64| #[trigger] on_list(head, img, b) == on_list(head, img1, b),
        forall|b: u64| #[trigger]
            added.contains(b) <==> reused.contains(b) || img0.len() <= b < img.len(),
        forall|b: u64|
            #![trigger img[b as int]]
            1 <= b < img.len() ==> img[b as int] == if reused.contains(b) {
                zero_bytes(size)
            } else if b < img1.len() {
                img1[b as int]
            } else {
                zero_bytes(size)
            },
    ensures
        forall|b: u64|
            #![trigger on_list(head, img, b)]
            1 <= b < img.len() && !on_list(head, img, b) && !added.contains(b) ==> b < img0.len()
                && !on_list(head0, img0, b) && img[b as int] == img0[b as int],
        forall|b: u64| #[trigger]
            added.contains(b) ==> 1 <= b < img.len() && !on_list(head, img, b) && img[b as int]
                == zero_bytes(size) && (b >= img0.len() || on_list(head0, img0, b)),
        forall|b: u64| #[trigger] on_list(head, img, b) ==> on_list(head0, img0, b),
{
    assert forall|b: u64|
        #![trigger on_list(head, img, b)]
        1 <= b < img.len() && !on_list(head, img, b) && !added.contains(b) implies b < img0.len()
        && !on_list(head0, img0, b) && img[b as int] == img0[b as int] by {
        assert(on_list(head, img, b) == on_list(head, img1, b));
        assert(on_list(head0, img0, b) <==> on_list(head, img1, b) || reused.contains(b));
    }
    assert forall|b: u64| #[trigger] added.contains(b) implies 1 <= b < img.len() && !on_list(
        head,
        img,
        b,
    ) && img[b as int] == zero_bytes(size) && (b >= img0.len() || on_list(head0, img0, b)) by {
        assert(on_list(head, img, b) == on_list(head, img1, b));
        if reused.contains(b) {
            assert(on_list(head0, img0, b));
            crate::block_file::lemma_on_list(head0, img0, b);
        } else if on_list(head, img1, b) {
            crate::block_file::lemma_on_list(head, img1, b);
        }
    }
    assert forall|b: u64| #[trigger] on_list(head, img, b) implies on_list(head0, img0, b) by {
        assert(on_list(head, img, b) == on_list(head, img1, b));
    }
}

proof fn lemma_total(file: Seq<u8>, off: nat, shift: u8, total: nat)
    requires
        off <= file.len(),
        SMALLEST_SHIFT <= shift <= LARGEST_SHIFT,
        file.len() >= 14,
        file[12] == shift,
    ensures
        file.len() == off + total * pow2(shift as nat) ==> total_in(file, off) == total,
        reaches(file, off, size_in(file), total_in(file, off)),
        off + size_in(file) <= file.len() <==> total_in(file, off) >= 1,
        file.len() == off + total_in(file, off) * size_in(file) <==> (file.len() - off)
            % size_in(file) as int == 0,
        total_in(file, off) <= file.len(),
{
    let size = pow2(shift as nat) as int;
    lemma_sizes(shift);
    let data = file.len() - off;
    lemma_div_mod(data, size);
    if data == total * size {
        lemma_mul_div(total as int, 0, size);
    }
    let q = data / size;
    assert(q >= 0) by (nonlinear_arith)
        requires
            data == q * size + data % size,
            0 <= data % size < size,
            data >= 0,
    ;
    assert(q <= data) by (nonlinear_arith)
        requires
            data == q * size + data % size,
            0 <= data % size,
            size >= 1,
            q >= 0,
    ;
    assert(q >= 1 <==> size <= data) by (nonlinear_arith)
        requires
            data == q * size + data % size,
            0 <= data % size < size,
    ;
}

impl<L1: FileLayer, const CACHE_BUDGET_BYTES: usize> BlocksInFile<L1, CACHE_BUDGET_BYTES> {
    /// The bytes of the file.
    pub closed spec fn file(&self) -> Seq<u8> {
        self.layer1.bytes()
    }

    /// The offset at which the blocks begin.
    pub closed spec fn data_offset(&self) -> nat {
        self.layer1.offset()
    }

    /// The number of calls that failed in the file.
    pub closed spec fn file_faults(&self) -> nat {
        self.layer1.faults()
    }

    /// The number of blocks, with block 0.
    pub closed spec fn total(&self) -> nat {
        self.total_blocks as nat
    }

    /// The blocks that are not in use.
    pub open spec fn free_blocks(&self) -> Set<u64> {
        Set::new(|b: u64| 1 <= b < self.total() && !self.blocks().contains_key(b))
    }

    /// The number of blocks by which the file must grow for `count` new ones: no
    /// more than those that free blocks do not make up for.
    pub open spec fn growth(&self, count: nat) -> nat {
        let free = self.free_blocks().len();
        if count > free {
            (count - free) as nat
        } else {
            0
        }
    }

    /// `added` are blocks that were taken into use between `before` and `after`:
    /// free ones first, and in ascending order.
    pub open spec fn reused(before: Self, after: Self, added: Seq<u64>) -> bool {
        &&& ascending(added)
        &&& after.total() == before.total() + before.growth(added.len())
        &&& forall|i: int|
            0 <= i < added.len() ==> before.free_blocks().contains(#[trigger] added[i])
                || before.total() <= added[i] < after.total()
    }

    spec fn img(&self) -> Seq<Seq<u8>> {
        blocks_in(self.layer1, self.block_size_shift, self.total_blocks as nat)
    }

    /// What is kept in memory is as the file says.
    spec fn synced(&self) -> bool {
        &&& self.block_size_shift == self.layer1.bytes()[12]
        &&& self.total_blocks == total_in(self.layer1.bytes(), self.layer1.offset())
        &&& self.block0_cache@ == self.img()[0]
        &&& self.free_list_head == block0_head(self.block0_cache@)
        &&& infos_match(self.block0_slots@, self.block0_cache@)
        &&& coherent(self.block_cache, self.free_list_head, self.img())
        &&& coherent(self.shared_cache, self.free_list_head, self.img())
    }

    proof fn lemma_in_order(&self)
        requires
            self.wf(),
        ensures
            self.usable(),
            laid_out(
                self.layer1.bytes(),
                self.layer1.offset(),
                self.block_size_shift,
                self.total_blocks as nat,
            ),
            free_ok(self.free_list_head, self.img()),
            self.img() == image_in(self.layer1.bytes(), self.layer1.offset()),
            self.img().len() == self.total_blocks,
            block0_ok(self.block0_cache@),
            self.block0_cache@.len() == pow2(self.block_size_shift as nat),
            self.blocks() == in_use(trunks(self.free_list_head, self.img()), self.img()),
            is_chain(
                trunks(self.free_list_head, self.img()),
                self.free_list_head,
                self.img(),
            ),
            list_ok(trunks(self.free_list_head, self.img()), self.img()),
            forall|b: u64| #[trigger]
                self.blocks().contains_key(b) <==> 1 <= b < self.total_blocks && !on_list(
                    self.free_list_head,
                    self.img(),
                    b,
                ),
            forall|b: u64| #[trigger]
                self.blocks().contains_key(b) ==> self.blocks()[b] == self.img()[b as int],
    {
        let file = self.layer1.bytes();
        let off = self.layer1.offset();
        lemma_total(file, off, self.block_size_shift, self.total_blocks as nat);
        lemma_block_in_file(off, size_in(file), self.total_blocks as nat, 0);
        assert(magic_offset(file) == off);
    }

    /// What a store is once the pieces that it is made of are in order.
    proof fn lemma_assembled(&self)
        requires
            laid_out(
                self.layer1.bytes(),
                self.layer1.offset(),
                self.block_size_shift,
                self.total_blocks as nat,
            ),
            free_ok(self.free_list_head, self.img()),
            block0_ok(self.block0_cache@),
            self.block0_cache@ == self.img()[0],
            self.free_list_head == block0_head(self.block0_cache@),
            infos_match(self.block0_slots@, self.block0_cache@),
            coherent(self.block_cache, self.free_list_head, self.img()),
            coherent(self.shared_cache, self.free_list_head, self.img()),
        ensures
            self.wf(),
    {
        let file = self.layer1.bytes();
        let off = self.layer1.offset();
        lemma_sizes(self.block_size_shift);
        let size = pow2(self.block_size_shift as nat);
        assert(self.total_blocks * size >= size) by (nonlinear_arith)
            requires
                self.total_blocks >= 1,
                size >= 0,
        ;
        assert(self.total_blocks * size <= 0xFFFF_FFFF * 0x8000_0000) by (nonlinear_arith)
            requires
                self.total_blocks <= 0xFFFF_FFFF,
                0 <= size <= 0x8000_0000,
        ;
        lemma_total(file, off, self.block_size_shift, self.total_blocks as nat);
        assert(self.img() == image_in(file, off));
        if off == 13 {
            // Byte 13 is then the first byte of block 0.
            let b0 = self.img()[0];
            assert(block_pos(off, size, 0) == 13);
            assert(b0[0] == file[13]);
            assert(b0.subrange(0, 4)[0] == block0_magic()[0]);
        }
    }
}

/// Whether a new file can be made: the blocks are neither too small nor too
/// large, their numbers have four bytes, and block 0 has room for the slots.
pub open spec fn makes_file(shift: u8, width: u8, sizes: Seq<u16>) -> bool {
    &&& MIN_BLOCK_SIZE_SHIFT <= shift <= LARGEST_SHIFT
    &&& width == 4
    &&& sizes_fit(sizes, pow2(shift as nat))
}

/// The numbers of a queue, in their order.
fn into_vec(queue: VecDeque<u16>) -> (v: Vec<u16>)
    ensures
        v@ == queue@,
{
    let mut v: Vec<u16> = Vec::new();
    let n: usize = queue.len();
    let mut i: usize = 0;
    while i < n
        invariant
            i <= n == queue@.len(),
            v@ == queue@.take(i as int),
        decreases n - i,
    {
        v.push(queue[i]);
        i = i + 1;
        proof {
            assert(v@ =~= queue@.take(i as int));
        }
    }
    proof {
        assert(queue@.take(n as int) =~= queue@);
    }
    v
}

/// Whether block 0 has room for slots of these sizes.
fn slots_can_fit(sizes: &Vec<u16>, size: usize) -> (fit: bool)
    requires
        16 <= size <= 0x8000_0000,
    ensures
        fit == sizes_fit(sizes@, size as nat),
{
    let count: usize = sizes.len();
    if count > 255 {
        return false;
    }
    let mut sum: u64 = 10;
    let mut i: usize = 0;
    proof {
        assert(sizes@.take(0) =~= Seq::<u16>::empty());
    }
    while i < count
        invariant
            i <= count == sizes@.len(),
            count <= 255,
            sum == 10 + slots_size(sizes@.take(i as int)),
            sum <= 10 + i * 65537,
        decreases count - i,
    {
        sum = sum + 2 + sizes[i] as u64;
        proof {
            let more = sizes@.take(i + 1);
            assert(more.drop_last() =~= sizes@.take(i as int));
        }
        i = i + 1;
    }
    proof {
        assert(sizes@.take(count as int) =~= sizes@);
    }
    sum <= size as u64
}

/// Makes a new file a file of blocks: the size of the blocks, that they are not
/// encrypted, and block 0.
pub(crate) fn format_file<L1: FileLayer>(layer1: &mut L1, shift: u8, sizes: &Vec<u16>) -> (r: Result<
    Vec<u8>,
    SfsError,
>)
    requires
        old(layer1).bytes() == new_file(NEW_DATA_OFFSET as nat),
        old(layer1).offset() == NEW_DATA_OFFSET,
        MIN_BLOCK_SIZE_SHIFT <= shift <= LARGEST_SHIFT,
        sizes_fit(sizes@, pow2(shift as nat)),
    ensures
        final(layer1).offset() == old(layer1).offset(),
        final(layer1).faults() >= old(layer1).faults(),
        (r is Ok) == (final(layer1).faults() == old(layer1).faults()),
        NEW_DATA_OFFSET + pow2(shift as nat) <= L1::room() ==> r is Ok,
        r matches Ok(b0) ==> {
            &&& b0@ == new_block0(sizes@, pow2(shift as nat))
            &&& laid_out(final(layer1).bytes(), final(layer1).offset(), shift, 1)
            &&& blocks_in(*final(layer1), shift, 1) == seq![b0@]
        },
{
    let ghost file0 = layer1.bytes();
    let size: usize = size_of_block(shift);
    let mut bootstrap: Vec<u8> = Vec::new();
    bootstrap.push(shift);
    bootstrap.push(0);
    match layer1.write(MAGIC_SIZE, bootstrap.as_slice()) {
        Ok(()) => {},
        Err(e) => {
            return Err(e);
        },
    }
    let ghost file1 = layer1.bytes();
    let b0: Vec<u8> = init_block0(size, sizes);
    match layer1.set_len(NEW_DATA_OFFSET + size as u64) {
        Ok(()) => {},
        Err(e) => {
            return Err(e);
        },
    }
    let ghost file2 = layer1.bytes();
    proof {
        let off = NEW_DATA_OFFSET as nat;
        crate::file_layer::law_magic_round_trip(14);
        let m = crate::file_layer::magic_bytes(14);
        assert(file0.len() == 14);
        assert(file2.len() == 14 + size);
        assert forall|i: int| 0 <= i < 12 implies file2[i] == m[i] by {}
        assert(file2.subrange(0, 9) =~= m.subrange(0, 9));
        assert(file2.subrange(10, 12) =~= m.subrange(10, 12));
        assert(file2[12] == shift);
        assert(file2[13] == 0);
        assert(1 * pow2(shift as nat) == size) by (nonlinear_arith)
            requires
                pow2(shift as nat) == size,
        ;
        assert(laid_out(file2, off, shift, 1));
        lemma_new_block0(sizes@, size as nat);
    }
    match write_raw_block(layer1, shift, 0, &b0, Ghost(1)) {
        Ok(()) => {},
        Err(e) => {
            return Err(e);
        },
    }
    proof {
        assert(blocks_in(*layer1, shift, 1) =~= seq![b0@]);
    }
    Ok(b0)
}

/// What is known of a file that was opened.
pub(crate) struct FileStart {
    pub shift: u8,
    pub total: u64,
    pub block0: Vec<u8>,
    pub head: u32,
    pub infos: Vec<Block0SlotInfo>,
}

/// Reads what stands before the blocks, and block 0.
pub(crate) fn read_start<L1: FileLayer>(layer1: &mut L1) -> (r: Result<FileStart, SfsError>)
    ensures
        final(layer1).bytes() == old(layer1).bytes(),
        final(layer1).offset() == old(layer1).offset(),
        final(layer1).faults() >= old(layer1).faults(),
        r is Ok ==> final(layer1).faults() == old(layer1).faults(),
        L1::reads_always() ==> final(layer1).faults() == old(layer1).faults(),
        final(layer1).faults() == old(layer1).faults() ==> {
            let file = old(layer1).bytes();
            let off = old(layer1).offset();
            match r {
                Ok(start) => {
                    &&& can_be_opened(file, off)
                    &&& start.shift == file[12]
                    &&& start.total == total_in(file, off)
                    &&& start.block0@ == image_in(file, off)[0]
                    &&& start.head == block0_head(start.block0@)
                    &&& infos_match(start.infos@, start.block0@)
                },
                Err(e) => !can_be_opened(file, off) && e is IoError,
            }
        },
{
    let ghost file = layer1.bytes();
    let ghost off = layer1.offset();
    let data_offset: u64 = layer1.data_offset();
    let len: u64 = match layer1.len() {
        Ok(len) => len,
        Err(e) => {
            return Err(e);
        },
    };
    if data_offset < 13 || len < data_offset || len < 14 {
        return Err(SfsError::IoError("file is too short".to_owned()));
    }
    let mut bootstrap: Vec<u8> = zeros(2);
    match layer1.read(MAGIC_SIZE, bootstrap.as_mut_slice()) {
        Ok(_) => {},
        Err(e) => {
            return Err(e);
        },
    }
    assert(bootstrap@[0] == file[12] && bootstrap@[1] == file[13]);
    let shift: u8 = bootstrap[0];
    if shift < SMALLEST_SHIFT || shift > LARGEST_SHIFT {
        return Err(
            SfsError::IoError(text_num("unsupported block size shift: ", shift as u64, "")),
        );
    }
    if bootstrap[1] == 1 {
        return Err(SfsError::IoError("file is encrypted but no password was provided".to_owned()));
    }
    let size: usize = size_of_block(shift);
    let total: u64 = (len - data_offset) / size as u64;
    proof {
        lemma_total(file, off, shift, 0);
    }
    if total == 0 {
        return Err(SfsError::IoError("block 0 too small".to_owned()));
    }
    let block0: Vec<u8> = match read_raw_block(layer1, shift, 0, Ghost(total as nat)) {
        Ok(block0) => block0,
        Err(e) => {
            return Err(e);
        },
    };
    match parse_block0(block0.as_slice()) {
        Ok((head, infos)) => Ok(FileStart { shift, total, block0, head, infos }),
        Err(e) => Err(e),
    }
}

impl<L1: FileLayer, const CACHE_BUDGET_BYTES: usize> BlocksInFile<L1, CACHE_BUDGET_BYTES> {
    /// How many blocks a cache keeps.
    fn compute_cache_capacity(shift: u8) -> (entries: usize)
        requires
            SMALLEST_SHIFT <= shift <= LARGEST_SHIFT,
        ensures
            entries == {
                let by_budget = CACHE_BUDGET_BYTES as int / pow2(shift as nat) as int;
                if by_budget < 1 {
                    1
                } else if by_budget > BLOCK_CACHE_MAX_ENTRIES {
                    BLOCK_CACHE_MAX_ENTRIES as int
                } else {
                    by_budget
                }
            },
            1 <= entries <= BLOCK_CACHE_MAX_ENTRIES,
    {
        let by_budget: usize = CACHE_BUDGET_BYTES / size_of_block(shift);
        if by_budget < 1 {
            1
        } else if by_budget > BLOCK_CACHE_MAX_ENTRIES {
            BLOCK_CACHE_MAX_ENTRIES
        } else {
            by_budget
        }
    }

    /// A cache keeps as many blocks as its budget has room for, but no more than 4096, and
    /// one at least.
    proof fn law_cache_capacity(shift: u8, entries: usize)
        requires
            4 <= shift <= 31,
            call_ensures(Self::compute_cache_capacity, (shift,), entries),
        ensures
            1 <= entries <= 4096,
            entries > 1 ==> entries * pow2(shift as nat) <= CACHE_BUDGET_BYTES,
            entries < 4096 ==> CACHE_BUDGET_BYTES < (entries + 1) * pow2(shift as nat),
    {
        lemma_sizes(shift);
        let size = pow2(shift as nat) as int;
        let n = CACHE_BUDGET_BYTES as int / size;
        lemma_div_mod(CACHE_BUDGET_BYTES as int, size);
        assert(n * size <= CACHE_BUDGET_BYTES < (n + 1) * size) by (nonlinear_arith)
            requires
                CACHE_BUDGET_BYTES as int == n * size + CACHE_BUDGET_BYTES as int % size,
                0 <= CACHE_BUDGET_BYTES as int % size < size,
        ;
        assert(entries * size <= n * size || entries == 1) by (nonlinear_arith)
            requires
                entries <= n || entries == 1,
                size >= 1,
        ;
        assert((n + 1) * size <= (entries + 1) * size || entries == 4096) by (nonlinear_arith)
            requires
                n <= entries || entries == 4096,
                size >= 1,
        ;
    }

    /// A store with empty caches.
    fn assemble(
        layer1: L1,
        shift: u8,
        total: u64,
        head: u32,
        block0: Vec<u8>,
        infos: Vec<Block0SlotInfo>,
    ) -> (store: Self)
        requires
            SMALLEST_SHIFT <= shift <= LARGEST_SHIFT,
        ensures
            store.layer1 == layer1,
            store.block_size_shift == shift,
            store.total_blocks == total,
            store.free_list_head == head,
            store.block0_cache == block0,
            store.block0_slots == infos,
            store.exhausted@ == 0,
            coherent(store.block_cache, head, store.img()),
            coherent(store.shared_cache, head, store.img()),
    {
        let capacity: usize = Self::compute_cache_capacity(shift);
        let enabled: bool = CACHE_BUDGET_BYTES != 0;
        BlocksInFile {
            layer1,
            block_size_shift: shift,
            total_blocks: total,
            free_list_head: head,
            block0_cache: block0,
            block0_slots: infos,
            block_cache: BlockCache::new(capacity, enabled),
            shared_cache: BlockCache::new(capacity, enabled),
            exhausted: Ghost(0),
        }
    }

    /// What opening the store in `layer1` gives. Where the medium fails no read,
    /// every file that can be opened is.
    pub open spec fn opened(layer1: L1, r: Result<Self, SfsError>) -> bool {
        let file = layer1.bytes();
        let off = layer1.offset();
        &&& r is Ok ==> can_be_opened(file, off)
        &&& L1::reads_always() ==> {
            &&& r is Ok <==> can_be_opened(file, off)
            &&& r matches Err(e) ==> e is IoError
        }
        &&& r matches Ok(store) ==> {
            &&& store.usable()
            &&& store.file() == file
            &&& store.data_offset() == off
            &&& store.wf() == file_ok(file, off)
            &&& store.blocks() == blocks_of(file, off)
            &&& store.slots() == slots_of(file, off)
            &&& store.bsize() == size_in(file)
            &&& store.iwidth() == 4
            &&& store.own_blocks() == set![0u64]
            &&& store.faults() == layer1.faults()
        }
    }

    /// Blocks that were given back where none was free are given out again when as
    /// many are asked for, and the file does not grow.
    pub proof fn law_given_back_reused(before: Self, after: Self, indices: Seq<u64>, added: Seq<u64>)
        requires
            ascending(indices),
            before.free_blocks() == indices.to_set(),
            added.len() == indices.len(),
            Self::reused(before, after, added),
        ensures
            added == indices,
            after.total() == before.total(),
    {
        let free = before.free_blocks();
        assert(indices.no_duplicates());
        assert(added.no_duplicates());
        indices.unique_seq_to_set();
        added.unique_seq_to_set();
        let set = added.to_set();
        assert forall|b: u64| #[trigger] set.contains(b) implies free.contains(b) by {
            assert(added.contains(b));
        }
        vstd::set_lib::lemma_subset_equality(set, free);
        assert forall|x: u64| #[trigger] added.contains(x) <==> indices.contains(x) by {
            assert(set.contains(x) <==> free.contains(x));
        }
        lemma_same_ascending(added, indices);
    }

    /// Opens the store in a file that is open. What the file holds, the store
    /// holds.
    pub fn open_on(layer1: L1) -> (r: Result<Self, SfsError>)
        ensures
            Self::opened(layer1, r),
    {
        let mut layer1 = layer1;
        let start: FileStart = match read_start(&mut layer1) {
            Ok(start) => start,
            Err(e) => {
                return Err(e);
            },
        };
        Ok(
            Self::assemble(
                layer1,
                start.shift,
                start.total,
                start.head,
                start.block0,
                start.infos,
            ),
        )
    }

    /// The blocks that the owner's cache holds.
    pub closed spec fn cached(&self) -> Set<u64> {
        Set::new(|b: u64| b <= u32::MAX && self.block_cache.holds(b as u32) is Some)
    }

    /// The blocks that the cache holds that all share.
    pub closed spec fn cached_for_all(&self) -> Set<u64> {
        Set::new(|b: u64| b <= u32::MAX && self.shared_cache.holds(b as u32) is Some)
    }

    /// Gives the file back. All that the store holds is in it.
    pub fn into_file(self) -> (layer1: L1)
        requires
            self.usable(),
        ensures
            layer1.bytes() == self.file(),
            layer1.offset() == self.data_offset(),
            layer1.faults() == self.file_faults(),
            can_be_opened(layer1.bytes(), layer1.offset()),
            self.wf() == file_ok(layer1.bytes(), layer1.offset()),
            self.blocks() == blocks_of(layer1.bytes(), layer1.offset()),
            self.slots() == slots_of(layer1.bytes(), layer1.offset()),
            self.bsize() == size_in(layer1.bytes()),
            self.iwidth() == 4,
    {
        self.layer1
    }

    /// Notes the first trunk of the list of free blocks in block 0.
    fn persist_l2_header(&mut self) -> (r: Result<(), SfsError>)
        requires
            laid_out(
                old(self).layer1.bytes(),
                old(self).layer1.offset(),
                old(self).block_size_shift,
                old(self).total_blocks as nat,
            ),
            old(self).block0_cache@.len() == pow2(old(self).block_size_shift as nat),
        ensures
            final(self).layer1.offset() == old(self).layer1.offset(),
            final(self).layer1.faults() >= old(self).layer1.faults(),
            (r is Ok) == (final(self).layer1.faults() == old(self).layer1.faults()),
            old(self).layer1.bytes().len() <= L1::room() ==> r is Ok,
            final(self).block_size_shift == old(self).block_size_shift,
            final(self).total_blocks == old(self).total_blocks,
            final(self).free_list_head == old(self).free_list_head,
            final(self).block0_slots == old(self).block0_slots,
            final(self).block_cache == old(self).block_cache,
            final(self).shared_cache == old(self).shared_cache,
            final(self).exhausted == old(self).exhausted,
            final(self).block0_cache@ == with_head(
                old(self).block0_cache@,
                old(self).free_list_head,
            ),
            r is Ok ==> {
                &&& laid_out(
                    final(self).layer1.bytes(),
                    final(self).layer1.offset(),
                    final(self).block_size_shift,
                    final(self).total_blocks as nat,
                )
                &&& final(self).img() == old(self).img().update(0, final(self).block0_cache@)
            },
    {
        let mut head: Vec<u8> = Vec::new();
        push_le(&mut head, self.free_list_head as u64, 4);
        proof {
            lemma_sizes(self.block_size_shift);
            lemma_le_bytes_len(self.free_list_head as nat, 4);
            assert(head@ =~= le_bytes(self.free_list_head as nat, 4));
        }
        copy_into(self.block0_cache.as_mut_slice(), 5, head.as_slice());
        write_raw_block(
            &mut self.layer1,
            self.block_size_shift,
            0,
            &self.block0_cache,
            Ghost(self.total_blocks as nat),
        )
    }

    /// Takes blocks out of both caches.
    fn evict_all(&mut self, gone: &Vec<u64>)
        requires
            forall|i: int| 0 <= i < gone@.len() ==> #[trigger] gone@[i] <= u32::MAX,
        ensures
            final(self).layer1 == old(self).layer1,
            final(self).block_size_shift == old(self).block_size_shift,
            final(self).total_blocks == old(self).total_blocks,
            final(self).free_list_head == old(self).free_list_head,
            final(self).block0_cache == old(self).block0_cache,
            final(self).block0_slots == old(self).block0_slots,
            final(self).exhausted == old(self).exhausted,
            evicted(old(self).block_cache, final(self).block_cache, gone@),
            evicted(old(self).shared_cache, final(self).shared_cache, gone@),
    {
        let mut i: usize = 0;
        while i < gone.len()
            invariant
                i <= gone@.len(),
                forall|j: int| 0 <= j < gone@.len() ==> #[trigger] gone@[j] <= u32::MAX,
                self.layer1 == old(self).layer1,
                self.block_size_shift == old(self).block_size_shift,
                self.total_blocks == old(self).total_blocks,
                self.free_list_head == old(self).free_list_head,
                self.block0_cache == old(self).block0_cache,
                self.block0_slots == old(self).block0_slots,
                self.exhausted == old(self).exhausted,
                evicted(old(self).block_cache, self.block_cache, gone@.take(i as int)),
                evicted(old(self).shared_cache, self.shared_cache, gone@.take(i as int)),
            decreases gone@.len() - i,
        {
            let k: u32 = gone[i] as u32;
            self.block_cache.evict(k);
            self.shared_cache.evict(k);
            proof {
                let done = gone@.take(i as int);
                let next = gone@.take(i + 1);
                assert(next =~= done.push(gone@[i as int]));
                assert forall|c: u64| #[trigger] next.contains(c) implies done.contains(c) || c
                    == gone@[i as int] by {
                    let j = choose|j: int| 0 <= j < next.len() && next[j] == c;
                    if j < i {
                        assert(done[j] == c);
                    }
                }
            }
            i = i + 1;
        }
        proof {
            assert(gone@.take(i as int) =~= gone@);
        }
    }

    /// Block 0 alone was written.
    proof fn lemma_block0_written(&self, before: Self)
        requires
            before.wf(),
            laid_out(
                self.layer1.bytes(),
                self.layer1.offset(),
                self.block_size_shift,
                self.total_blocks as nat,
            ),
            self.layer1.offset() == before.layer1.offset(),
            self.block_size_shift == before.block_size_shift,
            self.total_blocks == before.total_blocks,
            self.free_list_head == before.free_list_head,
            self.block0_slots == before.block0_slots,
            self.block_cache == before.block_cache,
            self.shared_cache == before.shared_cache,
            block0_ok(self.block0_cache@),
            self.free_list_head == block0_head(self.block0_cache@),
            infos_match(self.block0_slots@, self.block0_cache@),
            self.img() == before.img().update(0, self.block0_cache@),
        ensures
            self.wf(),
            self.blocks() == before.blocks(),
    {
        before.lemma_in_order();
        before.lemma_synced();
        let head = self.free_list_head;
        let img = before.img();
        if on_list(head, img, 0) {
            crate::block_file::lemma_on_list(head, img, 0);
        }
        lemma_off_list(head, img, self.img());
        assert(self.img()[0] == self.block0_cache@);
        self.lemma_assembled();
        self.lemma_in_order();
        assert(self.blocks() =~= before.blocks());
    }

    /// What the cache for an access has of a block.
    fn cached_block(&mut self, k: u32, cache: CacheMode) -> (block: Option<Vec<u8>>)
        ensures
            final(self).layer1 == old(self).layer1,
            final(self).block_size_shift == old(self).block_size_shift,
            final(self).total_blocks == old(self).total_blocks,
            final(self).free_list_head == old(self).free_list_head,
            final(self).block0_cache == old(self).block0_cache,
            final(self).block0_slots == old(self).block0_slots,
            final(self).exhausted == old(self).exhausted,
            forall|j: u32| #[trigger]
                final(self).block_cache.holds(j) == old(self).block_cache.holds(j),
            forall|j: u32| #[trigger]
                final(self).shared_cache.holds(j) == old(self).shared_cache.holds(j),
            match cache {
                CacheMode::Bypass => {
                    &&& block is None
                    &&& final(self).block_cache == old(self).block_cache
                    &&& final(self).shared_cache == old(self).shared_cache
                },
                CacheMode::ThreadLocal => {
                    &&& BlockCache::looked_up(
                        old(self).block_cache,
                        final(self).block_cache,
                        k,
                        block,
                    )
                    &&& final(self).shared_cache == old(self).shared_cache
                },
                CacheMode::Shared => {
                    &&& BlockCache::looked_up(
                        old(self).shared_cache,
                        final(self).shared_cache,
                        k,
                        block,
                    )
                    &&& final(self).block_cache == old(self).block_cache
                },
            },
    {
        match cache {
            CacheMode::Bypass => None,
            CacheMode::ThreadLocal => self.block_cache.get(k),
            CacheMode::Shared => self.shared_cache.get(k),
        }
    }

    /// Puts a block into the cache for an access.
    fn cache_put(&mut self, k: u32, block: Vec<u8>, cache: CacheMode)
        ensures
            final(self).layer1 == old(self).layer1,
            final(self).block_size_shift == old(self).block_size_shift,
            final(self).total_blocks == old(self).total_blocks,
            final(self).free_list_head == old(self).free_list_head,
            final(self).block0_cache == old(self).block0_cache,
            final(self).block0_slots == old(self).block0_slots,
            final(self).exhausted == old(self).exhausted,
            forall|j: u32| #[trigger]
                final(self).block_cache.holds(j) is Some ==> final(self).block_cache.holds(j)
                    == old(self).block_cache.holds(j) || (j == k && final(self).block_cache.holds(j)
                    == Some(block@)),
            forall|j: u32| #[trigger]
                final(self).shared_cache.holds(j) is Some ==> final(self).shared_cache.holds(j)
                    == old(self).shared_cache.holds(j) || (j == k
                    && final(self).shared_cache.holds(j) == Some(block@)),
            match cache {
                CacheMode::Bypass => {
                    &&& final(self).block_cache == old(self).block_cache
                    &&& final(self).shared_cache == old(self).shared_cache
                },
                CacheMode::ThreadLocal => {
                    &&& BlockCache::taken_in(
                        old(self).block_cache,
                        final(self).block_cache,
                        k,
                        block@,
                    )
                    &&& final(self).shared_cache == old(self).shared_cache
                },
                CacheMode::Shared => {
                    &&& BlockCache::taken_in(
                        old(self).shared_cache,
                        final(self).shared_cache,
                        k,
                        block@,
                    )
                    &&& final(self).block_cache == old(self).block_cache
                },
            },
    {
        match cache {
            CacheMode::Bypass => {},
            CacheMode::ThreadLocal => {
                self.block_cache.put(k, block);
            },
            CacheMode::Shared => {
                self.shared_cache.put(k, block);
            },
        }
    }

    /// Changes a block in the cache for an access as it was changed in the file.
    /// The other cache has it no more.
    fn cache_update(&mut self, k: u32, offset: usize, buf: &[u8], cache: CacheMode)
        ensures
            final(self).layer1 == old(self).layer1,
            final(self).block_size_shift == old(self).block_size_shift,
            final(self).total_blocks == old(self).total_blocks,
            final(self).free_list_head == old(self).free_list_head,
            final(self).block0_cache == old(self).block0_cache,
            final(self).block0_slots == old(self).block0_slots,
            final(self).exhausted == old(self).exhausted,
            rewritten(
                old(self).block_cache,
                old(self).shared_cache,
                final(self).block_cache,
                k,
                offset as int,
                buf@,
            ),
            rewritten(
                old(self).shared_cache,
                old(self).block_cache,
                final(self).shared_cache,
                k,
                offset as int,
                buf@,
            ),
            match cache {
                CacheMode::ThreadLocal => forall|j: u32| #[trigger]
                    final(self).block_cache.holds(j) is Some ==> old(self).block_cache.holds(
                        j,
                    ) is Some,
                _ => forall|j: u32| #[trigger]
                    final(self).block_cache.holds(j) == if j == k {
                        None
                    } else {
                        old(self).block_cache.holds(j)
                    },
            },
            match cache {
                CacheMode::Shared => forall|j: u32| #[trigger]
                    final(self).shared_cache.holds(j) is Some ==> old(self).shared_cache.holds(
                        j,
                    ) is Some,
                _ => forall|j: u32| #[trigger]
                    final(self).shared_cache.holds(j) == if j == k {
                        None
                    } else {
                        old(self).shared_cache.holds(j)
                    },
            },
    {
        let found: Option<Vec<u8>> = self.cached_block(k, cache);
        self.block_cache.evict(k);
        self.shared_cache.evict(k);
        match found {
            Some(block) => {
                let mut block = block;
                let ghost before = block@;
                if offset <= block.len() && buf.len() <= block.len() - offset {
                    copy_into(block.as_mut_slice(), offset, buf);
                    self.cache_put(k, block, cache);
                }
            },
            None => {},
        }
    }

    /// A run of blocks in use lies in the file.
    proof fn lemma_run(&self, start: u64, at: int, len: int, end: nat)
        requires
            self.wf(),
            0 <= at < self.bsize(),
            len >= 1,
            end >= at + len,
            run_held(self.blocks(), start, ceil_div(end, self.bsize())),
        ensures
            start <= 0xFFFF_FFFF,
            start + ((at + len - 1) / self.bsize() as int) < self.total_blocks,
            self.blocks().contains_key((start + (at + len - 1) / self.bsize() as int) as u64),
            start + (at + len - 1) / self.bsize() as int <= u64::MAX,
            (at + len - 1) / self.bsize() as int >= 0,
    {
        self.lemma_in_order();
        lemma_sizes(self.block_size_shift);
        let size = self.bsize() as int;
        vstd::arithmetic::div_mod::lemma_div_is_ordered(at + len - 1, end - 1, size);
        vstd::arithmetic::div_mod::lemma_div_pos_is_pos(at + len - 1, size);
        vstd::arithmetic::div_mod::lemma_div_pos_is_pos(end - 1, size);
        let last = (start + (at + len - 1) / size) as u64;
        assert(self.blocks().contains_key(last));
        assert(self.blocks().contains_key(start));
    }

    /// A block outside a run holds no byte of it.
    proof fn lemma_outside_run(&self, start: u64, at: int, len: int, b: u64, q: int)
        requires
            SMALLEST_SHIFT <= self.block_size_shift <= LARGEST_SHIFT,
            0 <= at < self.bsize(),
            len >= 1,
            !(start <= b < start + ceil_div((at + len) as nat, self.bsize())),
            0 <= q < self.bsize(),
        ensures
            !(at <= (b - start) * self.bsize() + q < at + len),
    {
        lemma_sizes(self.block_size_shift);
        let size = self.bsize() as int;
        let n = ceil_div((at + len) as nat, self.bsize()) as int;
        crate::stream_tree::lemma_ceil_covers((at + len) as nat, self.bsize());
        if b < start {
            assert((b - start) * size <= -size) by (nonlinear_arith)
                requires
                    b - start <= -1,
                    size >= 1,
            ;
        } else {
            assert((b - start) * size >= n * size) by (nonlinear_arith)
                requires
                    b - start >= n,
                    size >= 1,
            ;
        }
    }

    proof fn lemma_synced(&self)
        requires
            self.usable(),
        ensures
            block0_ok(self.block0_cache@),
            self.slots() == block0_slots(self.block0_cache@),
            self.img() == image_in(self.layer1.bytes(), self.layer1.offset()),
            self.img().len() == self.total_blocks >= 1,
            reaches(
                self.layer1.bytes(),
                self.layer1.offset(),
                pow2(self.block_size_shift as nat),
                self.total_blocks as nat,
            ),
            SMALLEST_SHIFT <= self.block_size_shift <= LARGEST_SHIFT,
            self.layer1.offset() <= 65535,
            self.layer1.bytes().len() <= u64::MAX,
    {
        lemma_total(
            self.layer1.bytes(),
            self.layer1.offset(),
            self.block_size_shift,
            self.total_blocks as nat,
        );
    }
}

impl<L1: FileLayer, const CACHE_BUDGET_BYTES: usize> BlockLayer for BlocksInFile<
    L1,
    CACHE_BUDGET_BYTES,
> {
    closed spec fn blocks(&self) -> Map<u64, Seq<u8>> {
        blocks_of(self.layer1.bytes(), self.layer1.offset())
    }

    closed spec fn slots(&self) -> Seq<Seq<u8>> {
        slots_of(self.layer1.bytes(), self.layer1.offset())
    }

    closed spec fn bsize(&self) -> nat {
        pow2(self.block_size_shift as nat)
    }

    closed spec fn iwidth(&self) -> nat {
        4
    }

    closed spec fn own_blocks(&self) -> Set<u64> {
        set![0u64]
    }

    closed spec fn faults(&self) -> nat {
        self.layer1.faults() + self.exhausted@
    }

    open spec fn reads_always() -> bool {
        L1::reads_always()
    }

    closed spec fn wf(&self) -> bool {
        &&& file_ok(self.layer1.bytes(), self.layer1.offset())
        &&& self.synced()
    }

    closed spec fn usable(&self) -> bool {
        &&& can_be_opened(self.layer1.bytes(), self.layer1.offset())
        &&& self.synced()
    }

    proof fn lemma_usable(&self) {
        lemma_sizes(self.block_size_shift);
    }

    fn create(
        path: &str,
        block_size_shift: u8,
        block_index_width: u8,
        slot_sizes: VecDeque<u16>,
    ) -> (r: Result<Self, SfsError>)
        ensures
            r is Ok ==> makes_file(block_size_shift, block_index_width, slot_sizes@),
            r matches Ok(store) ==> store.own_blocks() == set![0u64] && store.total() == 1,
            !makes_file(block_size_shift, block_index_width, slot_sizes@) ==> {
                r matches Err(e) && e is IoError
            },
            makes_file(block_size_shift, block_index_width, slot_sizes@) ==> exists|
                made: Result<L1, SfsError>,
            | #[trigger]
                call_ensures(L1::create, (path, NEW_DATA_OFFSET), made) && match made {
                    Ok(_) => NEW_DATA_OFFSET + pow2(block_size_shift as nat) <= L1::room()
                        ==> r is Ok,
                    Err(e) => r == Err::<Self, SfsError>(e),
                },
    {
        if block_size_shift < MIN_BLOCK_SIZE_SHIFT {
            return Err(
                SfsError::IoError(
                    "block_size_shift must be >= 6 (minimum 64 bytes for superblock)".to_owned(),
                ),
            );
        }
        if block_size_shift > LARGEST_SHIFT {
            return Err(
                SfsError::IoError(
                    text_num("block_size_shift must be <= 31, got ", block_size_shift as u64, ""),
                ),
            );
        }
        if block_index_width != 4 {
            return Err(
                SfsError::IoError(
                    text_num("block_index_width must be 4, got ", block_index_width as u64, ""),
                ),
            );
        }
        let sizes: Vec<u16> = into_vec(slot_sizes);
        if !slots_can_fit(&sizes, size_of_block(block_size_shift)) {
            return Err(SfsError::IoError("header slots do not fit into block 0".to_owned()));
        }
        let mut layer1: L1 = match L1::create(path, NEW_DATA_OFFSET) {
            Ok(layer1) => layer1,
            Err(e) => {
                return Err(e);
            },
        };
        let b0: Vec<u8> = match format_file(&mut layer1, block_size_shift, &sizes) {
            Ok(b0) => b0,
            Err(e) => {
                return Err(e);
            },
        };
        proof {
            lemma_new_block0(sizes@, pow2(block_size_shift as nat));
        }
        let infos: Vec<Block0SlotInfo> = match parse_block0(b0.as_slice()) {
            Ok(found) => found.1,
            Err(e) => {
                return Err(e);
            },
        };
        let store = Self::assemble(
            layer1,
            block_size_shift,
            1,
            BLOCK_INDEX_SENTINEL,
            b0,
            infos,
        );
        proof {
            let img = store.img();
            let t = Seq::<u64>::empty();
            assert(is_chain(t, BLOCK_INDEX_SENTINEL, img));
            assert(list_ok(t, img));
            lemma_trunks(BLOCK_INDEX_SENTINEL, img, t);
            store.lemma_assembled();
            store.lemma_in_order();
            assert(store.blocks() =~= Map::<u64, Seq<u8>>::empty());
        }
        Ok(store)
    }

    fn open(path: &str, mode: OpenMode) -> (r: Result<Self, SfsError>)
        ensures
            exists|found: Result<L1, SfsError>| #[trigger]
                call_ensures(L1::open, (path, mode), found) && match found {
                    Ok(layer1) => Self::opened(layer1, r),
                    Err(e) => r == Err::<Self, SfsError>(e),
                },
    {
        match L1::open(path, mode) {
            Ok(layer1) => Self::open_on(layer1),
            Err(e) => Err(e),
        }
    }

    fn block_size(&self) -> (size: usize) {
        size_of_block(self.block_size_shift)
    }

    fn block_size_shift(&self) -> (shift: u8) {
        self.block_size_shift
    }

    fn block_index_width(&self) -> (width: u8) {
        4
    }

    fn header_slot_for_upper(&self, index: u8) -> (slot: HeaderSlotId) {
        HeaderSlotId::new(index)
    }

    fn read_header_slot(&self, slot: HeaderSlotId) -> (r: Result<Vec<u8>, SfsError>) {
        proof {
            if self.wf() {
                self.lemma_in_order();
            }
        }
        let index: usize = slot.index() as usize;
        if index >= self.block0_slots.len() {
            return Err(
                SfsError::IoError(
                    text_num(
                        text_num("admin slot index ", index as u64, " out of range (have ").as_str(),
                        self.block0_slots.len() as u64,
                        " slots in block 0)",
                    ),
                ),
            );
        }
        let info: Block0SlotInfo = self.block0_slots[index];
        proof {
            self.lemma_synced();
            lemma_slot_bounds(self.block0_cache@, index as nat, self.block0_cache@[9] as nat);
            assert(info == self.block0_slots@[index as int]);
            assert(self.block0_cache@.len() == self.block0_cache.len());
        }
        Ok(
            copy_range(
                self.block0_cache.as_slice(),
                info.offset,
                info.offset + info.payload_len as usize,
            ),
        )
    }

    fn invalidate_block_cache(&mut self)
        ensures
            final(self).cached() == Set::<u64>::empty(),
            final(self).cached_for_all() == old(self).cached_for_all(),
    {
        proof {
            if self.wf() {
                self.lemma_in_order();
            }
        }
        self.block_cache.clear();
        assert(self.cached() =~= Set::empty());
    }

    fn read_block(&mut self, index: u64, offset: usize, buf: &mut [u8], cache: CacheMode) -> (r:
        Result<usize, SfsError>)
        ensures
            final(self).file_faults() == old(self).file_faults() ==> final(self).faults() == old(
                self,
            ).faults(),
            old(self).wf() && old(self).blocks().contains_key(index) && (cache is ThreadLocal && old(
                self,
            ).cached().contains(index) || cache is Shared && old(self).cached_for_all().contains(
                index,
            )) ==> final(self).faults() == old(self).faults(),
            match cache {
                CacheMode::Bypass => {
                    &&& final(self).cached() == old(self).cached()
                    &&& final(self).cached_for_all() == old(self).cached_for_all()
                },
                CacheMode::ThreadLocal => {
                    &&& final(self).cached().subset_of(old(self).cached().insert(index))
                    &&& final(self).cached_for_all() == old(self).cached_for_all()
                },
                CacheMode::Shared => {
                    &&& final(self).cached() == old(self).cached()
                    &&& final(self).cached_for_all().subset_of(
                        old(self).cached_for_all().insert(index),
                    )
                },
            },
    {
        proof {
            if self.wf() {
                self.lemma_in_order();
            }
            self.lemma_synced();
        }
        let shift: u8 = self.block_size_shift;
        let size: usize = size_of_block(shift);
        let want: usize = buf.len();
        let ghost buf0 = buf@;
        let ghost file = self.layer1.bytes();
        let ghost off = self.layer1.offset();
        let ghost total = self.total_blocks as nat;
        let ghost img = self.img();
        if offset > size || want > size - offset {
            return Err(
                SfsError::IoError(beyond_block("read_block: offset ", offset, want, size)),
            );
        }
        if index >= BLOCK_INDEX_SENTINEL as u64 {
            return Err(
                SfsError::IoError(text_num("read_block: block index ", index, " is sentinel")),
            );
        }
        proof {
            if index < total {
                lemma_block_read(file, off, size as nat, total, index as int, offset as int, buf0);
            }
        }
        proof {
            if self.wf() && self.blocks().contains_key(index) {
                let k = index as u32;
                assert(self.block_cache.holds(k) is Some ==> self.block_cache.holds(k) == Some(
                    img[k as int],
                ));
                assert(self.shared_cache.holds(k) is Some ==> self.shared_cache.holds(k) == Some(
                    img[k as int],
                ));
                self.lemma_wf();
                assert(self.blocks()[index] == img[k as int]);
            }
        }
        // What a cache has need not be read.
        match self.cached_block(index as u32, cache) {
            Some(block) => {
                if block.len() == size {
                    let part: Vec<u8> = copy_range(block.as_slice(), offset, offset + want);
                    copy_into(buf, 0, part.as_slice());
                    proof {
                        assert(buf@ =~= part@);
                    }
                    return Ok(want);
                }
            },
            None => {},
        }
        let pos: u64 = position(&self.layer1, shift, index);
        let direct: bool = match cache {
            CacheMode::Bypass => true,
            _ => CACHE_BUDGET_BYTES == 0,
        };
        if direct {
            match self.layer1.read(pos + offset as u64, buf) {
                Ok(_) => {},
                Err(e) => {
                    return Err(e);
                },
            }
            return Ok(want);
        }
        let mut full: Vec<u8> = zeros(size);
        let ghost full0 = full@;
        let n: usize = match self.layer1.read(pos, full.as_mut_slice()) {
            Ok(n) => n,
            Err(e) => {
                return Err(e);
            },
        };
        proof {
            if index < total {
                lemma_block_read(file, off, size as nat, total, index as int, 0, full0);
                lemma_block_in_file(off, size as nat, total, index as int);
                assert(img[index as int].subrange(0, size as int) =~= img[index as int]);
            }
        }
        let part: Vec<u8> = copy_range(full.as_slice(), offset, offset + want);
        copy_into(buf, 0, part.as_slice());
        proof {
            assert(buf@ =~= part@);
        }
        if n == size {
            self.cache_put(index as u32, full, cache);
        }
        Ok(want)
    }

    fn write_block(&mut self, index: u64, offset: usize, buf: &[u8], cache: CacheMode) -> (r:
        Result<usize, SfsError>)
        ensures
            final(self).file_faults() == old(self).file_faults() ==> final(self).faults() == old(
                self,
            ).faults(),
            old(self).file().len() <= L1::room() ==> final(self).faults() == old(self).faults(),
            r is Ok ==> {
                let kept = old(self).cached().remove(index);
                let kept_for_all = old(self).cached_for_all().remove(index);
                match cache {
                    CacheMode::Bypass => {
                        &&& final(self).cached() == kept
                        &&& final(self).cached_for_all() == kept_for_all
                    },
                    CacheMode::ThreadLocal => {
                        &&& final(self).cached().subset_of(old(self).cached())
                        &&& final(self).cached_for_all() == kept_for_all
                    },
                    CacheMode::Shared => {
                        &&& final(self).cached() == kept
                        &&& final(self).cached_for_all().subset_of(old(self).cached_for_all())
                    },
                }
            },
    {
        proof {
            self.lemma_in_order();
            self.lemma_synced();
        }
        let shift: u8 = self.block_size_shift;
        let size: usize = size_of_block(shift);
        let count: usize = buf.len();
        let ghost total = self.total_blocks as nat;
        let ghost head = self.free_list_head;
        let ghost img = self.img();
        if offset > size || count > size - offset {
            return Err(
                SfsError::IoError(beyond_block("write_block: offset ", offset, count, size)),
            );
        }
        match write_raw(&mut self.layer1, shift, index, offset, buf, Ghost(total)) {
            Ok(()) => {},
            Err(e) => {
                return Err(e);
            },
        }
        self.cache_update(index as u32, offset, buf, cache);
        proof {
            assert(cache !is ThreadLocal ==> self.cached() =~= old(self).cached().remove(index));
            assert(cache !is Shared ==> self.cached_for_all() =~= old(self).cached_for_all().remove(
                index,
            ));
            let after = self.img();
            let block = overlay(img[index as int], offset as int, buf@);
            assert(after == img.update(index as int, block));
            assert(on_list(head, img, index) == false);
            lemma_off_list(head, img, after);
            lemma_coherent_written(
                old(self).block_cache,
                old(self).shared_cache,
                self.block_cache,
                head,
                img,
                index as u32,
                offset as int,
                buf@,
            );
            lemma_coherent_written(
                old(self).shared_cache,
                old(self).block_cache,
                self.shared_cache,
                head,
                img,
                index as u32,
                offset as int,
                buf@,
            );
            assert(after[0] == self.block0_cache@);
            self.lemma_assembled();
            self.lemma_in_order();
            self.lemma_synced();
            assert(self.blocks() =~= old(self).blocks().insert(index, block));
        }
        Ok(count)
    }

    fn read_contiguous_blocks(&mut self, start_index: u64, offset: usize, buf: &mut [u8]) -> (r:
        Result<usize, SfsError>)
        ensures
            final(self).file_faults() == old(self).file_faults() ==> final(self).faults() == old(
                self,
            ).faults(),
            old(buf)@.len() == 0 ==> final(self).faults() == old(self).faults(),
    {
        proof {
            self.lemma_in_order();
            self.lemma_synced();
            lemma_sizes(self.block_size_shift);
        }
        let want: usize = buf.len();
        if want == 0 {
            return Ok(0);
        }
        let ghost size = self.bsize();
        let ghost file = self.layer1.bytes();
        let ghost off = self.layer1.offset();
        let ghost total = self.total_blocks as nat;
        let ghost img = self.img();
        let ghost buf0 = buf@;
        proof {
            self.lemma_run(start_index, offset as int, want as int, (offset + want) as nat);
        }
        let pos: u64 = position(&self.layer1, self.block_size_shift, start_index);
        match self.layer1.read(pos + offset as u64, buf) {
            Ok(n) => {
                proof {
                    let last = offset + want - 1;
                    lemma_run_in_file(file, off, size, total, start_index as int, last);
                    assert(n == want);
                    assert forall|i: int| 0 <= i < want implies #[trigger] buf@[i] == run_byte(
                        self.blocks(),
                        start_index,
                        size,
                        offset + i,
                    ) by {
                        let p = offset + i;
                        self.lemma_run(start_index, offset as int, i + 1, (offset + want) as nat);
                        lemma_run_in_file(file, off, size, total, start_index as int, p);
                        let b = (start_index + p / size as int) as u64;
                        assert(self.blocks().contains_key(b));
                    }
                }
                Ok(n)
            },
            Err(e) => Err(e),
        }
    }

    fn write_contiguous_blocks(&mut self, start_index: u64, offset: usize, buf: &[u8]) -> (r:
        Result<usize, SfsError>)
        ensures
            final(self).file_faults() == old(self).file_faults() ==> final(self).faults() == old(
                self,
            ).faults(),
            buf@.len() == 0 ==> final(self).faults() == old(self).faults(),
            old(self).file().len() <= L1::room() ==> final(self).faults() == old(self).faults(),
    {
        proof {
            self.lemma_in_order();
            self.lemma_synced();
            self.lemma_wf();
            lemma_sizes(self.block_size_shift);
        }
        let count: usize = buf.len();
        let ghost size = self.bsize();
        if count == 0 {
            proof {
                let after = run_written(self.blocks(), start_index, size, offset as int, buf@);
                assert forall|b: u64| #[trigger] self.blocks().contains_key(b) implies after[b]
                    == self.blocks()[b] by {
                    assert(after[b] =~= self.blocks()[b]);
                }
                assert(after =~= self.blocks());
            }
            return Ok(0);
        }
        let ghost file = self.layer1.bytes();
        let ghost off = self.layer1.offset();
        let ghost total = self.total_blocks as nat;
        let ghost img = self.img();
        let ghost head = self.free_list_head;
        let ghost end = (offset + count) as nat;
        proof {
            self.lemma_run(start_index, offset as int, count as int, end);
            lemma_run_in_file(file, off, size, total, start_index as int, end - 1);
        }
        let pos: u64 = position(&self.layer1, self.block_size_shift, start_index);
        match self.layer1.write(pos + offset as u64, buf) {
            Ok(()) => {},
            Err(e) => {
                return Err(e);
            },
        }
        let gone: Vec<u64> = run_numbers(
            start_index,
            (offset as u64 + count as u64 - 1) / size_of_block(self.block_size_shift) as u64 + 1,
        );
        self.evict_all(&gone);
        proof {
            let n = ceil_div(end, size);
            lemma_run_written_in_file(
                file,
                off,
                size,
                total,
                start_index as int,
                offset as int,
                buf@,
            );
            lemma_prefix_kept(file, self.layer1.bytes(), off, self.block_size_shift);
            let after = self.img();
            assert forall|b: u64|
                b < total && !(start_index <= b < start_index + n) implies #[trigger] after[b as int]
                == img[b as int] by {
                lemma_block_in_file(off, size, total, b as int);
                assert(after[b as int].len() == size);
                assert forall|q: int| 0 <= q < size implies after[b as int][q] == img[b as int][q] by {
                    self.lemma_outside_run(start_index, offset as int, count as int, b, q);
                }
                assert(after[b as int] =~= img[b as int]);
            }
            assert forall|b: u64|
                #![trigger on_list(head, img, b)]
                b < img.len() && on_list(head, img, b) implies after[b as int] == img[b as int] by {
                if start_index <= b < start_index + n {
                    assert(old(self).blocks().contains_key(b));
                }
            }
            lemma_off_list(head, img, after);
            assert forall|b: u64|
                #![trigger on_list(head, after, b)]
                1 <= b < after.len() && !on_list(head, after, b) && !gone@.contains(b) implies b
                < img.len() && !on_list(head, img, b) && after[b as int] == img[b as int] by {
                assert(on_list(head, after, b) == on_list(head, img, b));
                if start_index <= b < start_index + n {
                    assert(gone@[b - start_index] == b);
                }
            }
            lemma_coherent_after(
                old(self).block_cache,
                self.block_cache,
                head,
                img,
                head,
                after,
                gone@,
            );
            lemma_coherent_after(
                old(self).shared_cache,
                self.shared_cache,
                head,
                img,
                head,
                after,
                gone@,
            );
            assert(old(self).blocks().contains_key(start_index));
            let zero: u64 = 0;
            assert(after[zero as int] == img[zero as int]);
            self.lemma_assembled();
            self.lemma_in_order();
            self.lemma_synced();
            let goal = run_written(old(self).blocks(), start_index, size, offset as int, buf@);
            assert forall|b: u64| #[trigger] old(self).blocks().contains_key(b) implies goal[b]
                == self.blocks()[b] by {
                assert(on_list(head, after, b) == on_list(head, img, b));
                if start_index <= b < start_index + n {
                    assert(after[b as int].len() == size);
                    assert(goal[b] =~= after[b as int]);
                }
            }
            assert(self.blocks() =~= goal);
        }
        Ok(count)
    }

    fn verify(&mut self, claimed_blocks: &[u64]) -> (r: Result<Vec<String>, SfsError>)
        ensures
            final(self).file_faults() == old(self).file_faults() ==> final(self).faults() == old(
                self,
            ).faults(),
            r matches Ok(issues) ==> old(self).wf() ==> tells_claims(
                issues@,
                claimed_blocks@,
                old(self).free_blocks(),
                old(self).total(),
            ),
    {
        proof {
            if self.wf() {
                self.lemma_in_order();
            }
            self.lemma_synced();
            lemma_sizes(self.block_size_shift);
        }
        let ghost file = self.layer1.bytes();
        let ghost off = self.layer1.offset();
        let size: u64 = size_of_block(self.block_size_shift) as u64;
        let total: u64 = self.total_blocks;
        proof {
            lemma_total(file, off, self.block_size_shift, total as nat);
        }
        let mut issues: Vec<String> = match self.layer1.verify() {
            Ok(issues) => issues,
            Err(e) => {
                return Err(e);
            },
        };
        let len: u64 = match self.layer1.len() {
            Ok(len) => len,
            Err(e) => {
                return Err(e);
            },
        };
        if (len - self.layer1.data_offset()) % size != 0 {
            let size_found: String = text_num("L2: file size (", len, ") does not match expected (");
            let size_wanted: String = text_num(
                size_found.as_str(),
                self.layer1.data_offset() + total * size,
                ") for ",
            );
            issues.push(text_num(size_wanted.as_str(), total, " blocks"));
        }
        if total > BLOCK_INDEX_SENTINEL as u64 {
            issues.push(text_num("L2: more blocks than can be numbered: ", total, ""));
            return Ok(issues);
        }
        let (free, mut found) = match walk_free(
            &mut self.layer1,
            self.block_size_shift,
            self.free_list_head,
            total,
        ) {
            Ok(found) => found,
            Err(e) => {
                return Err(e);
            },
        };
        issues.append(&mut found);
        let mut unfit: Vec<String> = check_claims(claimed_blocks, &free, total);
        let ghost told = unfit@;
        let ghost before = issues@;
        issues.append(&mut unfit);
        proof {
            lemma_issues_around(before, told);
        }
        let ghost after = issues@;
        match parse_block0(self.block0_cache.as_slice()) {
            Ok(_) => {},
            Err(_) => {
                issues.push("L2: block 0 parse error".to_owned());
            },
        }
        proof {
            if file_ok(file, off) {
                assert(old(self).wf());
                assert(claims_fit(claimed_blocks@, old(self).blocks()) <==> {
                    &&& claimed_blocks@.no_duplicates()
                    &&& forall|b: u64| #[trigger]
                        claimed_blocks@.contains(b) <==> 1 <= b < total && !free@.contains(b)
                }) by {
                    assert forall|b: u64| #[trigger] old(self).blocks().contains_key(b) <==> 1 <= b
                        < total && !free@.contains(b) by {}
                }
                assert(old(self).free_blocks() =~= Set::new(
                    |b: u64| 1 <= b < total && free@.contains(b),
                ));
            }
            assert(issues@.subrange(0, after.len() as int) =~= after);
            lemma_still_mentioned(after, issues@);
        }
        Ok(issues)
    }

    fn write_header_slot(&mut self, slot: HeaderSlotId, data: &[u8]) -> (r: Result<(), SfsError>)
        ensures
            final(self).file_faults() == old(self).file_faults() ==> final(self).faults() == old(
                self,
            ).faults(),
            old(self).file().len() <= L1::room() ==> final(self).faults() == old(self).faults(),
    {
        proof {
            self.lemma_in_order();
            self.lemma_synced();
        }
        let index: usize = slot.index() as usize;
        if index >= self.block0_slots.len() {
            return Err(
                SfsError::IoError(
                    text_num(
                        text_num("admin slot index ", index as u64, " out of range (have ").as_str(),
                        self.block0_slots.len() as u64,
                        " slots in block 0)",
                    ),
                ),
            );
        }
        let info: Block0SlotInfo = self.block0_slots[index];
        proof {
            lemma_slot_bounds(self.block0_cache@, index as nat, self.block0_cache@[9] as nat);
            assert(info == self.block0_slots@[index as int]);
        }
        if data.len() != info.payload_len as usize {
            return Err(
                SfsError::IoError(
                    text_num(
                        text_num(
                            text_num("admin slot ", index as u64, ": expected ").as_str(),
                            info.payload_len as u64,
                            " bytes, got ",
                        ).as_str(),
                        data.len() as u64,
                        "",
                    ),
                ),
            );
        }
        let ghost b0 = self.block0_cache@;
        proof {
            lemma_slot_bounds(b0, index as nat, b0[9] as nat);
            lemma_with_slot(b0, index as nat, data@, self.block0_slots@);
        }
        copy_into(self.block0_cache.as_mut_slice(), info.offset, data);
        match write_raw_block(
            &mut self.layer1,
            self.block_size_shift,
            0,
            &self.block0_cache,
            Ghost(self.total_blocks as nat),
        ) {
            Ok(()) => {},
            Err(e) => {
                return Err(e);
            },
        }
        proof {
            self.lemma_block0_written(*old(self));
            self.lemma_in_order();
            self.lemma_synced();
        }
        Ok(())
    }

    fn allocate_blocks(&mut self, count: u64) -> (r: Result<Vec<u64>, SfsError>)
        ensures
            final(self).file_faults() == old(self).file_faults() && final(self).faults() > old(
                self,
            ).faults() ==> old(self).total() + old(self).growth(count as nat)
                > BLOCK_INDEX_SENTINEL,
            count == 0 ==> final(self).faults() == old(self).faults(),
            L1::reads_always() && old(self).total() + old(self).growth(count as nat)
                <= BLOCK_INDEX_SENTINEL && old(self).file().len() + old(self).growth(count as nat)
                * old(self).bsize() <= L1::room() ==> final(self).faults() == old(self).faults(),
            r matches Ok(added) ==> Self::reused(*old(self), *final(self), added@),
    {
        if count == 0 {
            proof {
                assert(with_zero_blocks(self.blocks(), Seq::<u64>::empty(), self.bsize())
                    =~= self.blocks());
            }
            return Ok(Vec::new());
        }
        let shift: u8 = self.block_size_shift;
        let size: usize = size_of_block(shift);
        let ghost total0 = self.total_blocks as nat;
        let ghost head0 = self.free_list_head;
        let ghost img0 = self.img();
        let ghost blocks0 = self.blocks();
        let ghost b0 = self.block0_cache@;
        proof {
            self.lemma_in_order();
            self.lemma_synced();
        }
        // Take what the list of free blocks has.
        let mut added: Vec<u64> = match take_free(
            &mut self.layer1,
            shift,
            &mut self.free_list_head,
            count,
            Ghost(total0),
        ) {
            Ok(taken) => taken,
            Err(e) => {
                return Err(e);
            },
        };
        let ghost taken = added@;
        let reused: usize = added.len();
        sort_numbers(&mut added);
        let ghost img1 = self.img();
        let ghost head1 = self.free_list_head;
        proof {
            lemma_sorted(taken, added@);
            lemma_list_used(
                head0,
                img0,
                head1,
                img1,
                taken,
                old(self).free_blocks(),
                count as nat,
            );
            assert forall|i: int| 0 <= i < added@.len() implies 1 <= #[trigger] added@[i] < total0 by {
                assert(added@.contains(added@[i]));
                assert(on_list(head0, img0, added@[i]));
                crate::block_file::lemma_on_list(head0, img0, added@[i]);
            }
        }
        // Make the file longer for the rest.
        let remaining: u64 = count - reused as u64;
        let ghost fits = L1::reads_always() && old(self).file().len() + old(self).growth(
            count as nat,
        ) * old(self).bsize() <= L1::room();
        proof {
            assert(remaining == old(self).growth(count as nat));
            assert(self.layer1.bytes().len() == old(self).file().len());
            assert(0 <= remaining * size) by (nonlinear_arith);
        }
        let ghost old_added = added@;
        if remaining > 0 {
            let first: u64 = self.total_blocks;
            if remaining > BLOCK_INDEX_SENTINEL as u64 - first {
                self.exhausted = Ghost(self.exhausted@ + 1);
                return Err(
                    SfsError::IoError(
                        text_num(
                            text_num(
                                "block index overflow: need ",
                                remaining,
                                " blocks but only ",
                            ).as_str(),
                            BLOCK_INDEX_SENTINEL as u64 - first,
                            " available before sentinel",
                        ),
                    ),
                );
            }
            let len: u64 = position(&self.layer1, shift, first + remaining);
            let ghost file1 = self.layer1.bytes();
            proof {
                assert((first + remaining) * size == first * size + remaining * size)
                    by (nonlinear_arith);
                assert(len == file1.len() + remaining * size);
            }
            match self.layer1.set_len(len) {
                Ok(()) => {},
                Err(e) => {
                    return Err(e);
                },
            }
            self.total_blocks = first + remaining;
            proof {
                let off = self.layer1.offset();
                lemma_image_grown(file1, off, size as nat, total0, remaining as nat);
                lemma_prefix_kept(file1, self.layer1.bytes(), off, shift);
            }
            let mut i: u64 = 0;
            while i < remaining
                invariant
                    i <= remaining,
                    first == total0,
                    first + remaining <= BLOCK_INDEX_SENTINEL,
                    added@ == old_added + Seq::new(i as nat, |j: int| (first + j) as u64),
                decreases remaining - i,
            {
                added.push(first + i);
                i = i + 1;
                proof {
                    assert(added@ =~= old_added + Seq::new(i as nat, |j: int| (first + j) as u64));
                }
            }
        }
        let ghost total2 = self.total_blocks as nat;
        let ghost len2 = self.layer1.bytes().len();
        assert(fits ==> len2 <= L1::room());
        let ghost more = Seq::new((total2 - total0) as nat, |i: int| zero_bytes(size as nat));
        let ghost img2 = self.img();
        proof {
            assert(img2 =~= img1 + more);
            lemma_list_longer(head1, img1, more);
            assert(added@ =~= old_added + Seq::new(
                (total2 - total0) as nat,
                |j: int| (total0 + j) as u64,
            ));
            lemma_grown_numbers(old_added, added@, total0, total2);
            assert(ascending(added@));
            assert forall|i: int| 0 <= i < old_added.len() implies !on_list(
                head1,
                img2,
                #[trigger] old_added[i],
            ) by {
                assert(old_added.contains(old_added[i]));
                assert(taken.contains(old_added[i]));
                assert(on_list(head1, img2, old_added[i]) == on_list(head1, img1, old_added[i]));
            }
        }
        // Blocks that were used before are not zero yet.
        let blank: Vec<u8> = zeros(size);
        let mut k: usize = 0;
        while k < reused
            invariant
                count > 0,
                k <= reused == old_added.len(),
                reused <= added@.len(),
                added@.take(reused as int) == old_added,
                forall|i: int| 0 <= i < old_added.len() ==> 1 <= #[trigger] old_added[i] < total0,
                forall|i: int|
                    0 <= i < old_added.len() ==> !on_list(head1, img2, #[trigger] old_added[i]),
                total0 <= total2 <= BLOCK_INDEX_SENTINEL,
                self.total_blocks == total2,
                self.block_size_shift == shift == old(self).block_size_shift,
                self.free_list_head == head1,
                self.block0_cache == old(self).block0_cache,
                self.block0_slots == old(self).block0_slots,
                self.block_cache == old(self).block_cache,
                self.shared_cache == old(self).shared_cache,
                self.exhausted == old(self).exhausted,
                self.layer1.offset() == old(self).layer1.offset(),
                self.layer1.faults() == old(self).layer1.faults(),
                laid_out(self.layer1.bytes(), self.layer1.offset(), shift, total2),
                self.layer1.bytes().len() == len2,
                fits ==> len2 <= L1::room(),
                fits == (L1::reads_always() && old(self).file().len() + old(self).growth(
                    count as nat,
                ) * old(self).bsize() <= L1::room()),
                blank@ == zero_bytes(size as nat),
                size == pow2(shift as nat),
                img2.len() == total2,
                self.img().len() == total2,
                free_ok(head1, self.img()),
                forall|b: u64| #[trigger] on_list(head1, self.img(), b) == on_list(head1, img2, b),
                forall|b: u64|
                    #![trigger self.img()[b as int]]
                    b < total2 ==> self.img()[b as int] == if old_added.take(k as int).contains(b) {
                        zero_bytes(size as nat)
                    } else {
                        img2[b as int]
                    },
            decreases reused - k,
        {
            let b: u64 = added[k];
            let ghost img = self.img();
            proof {
                assert(added@.take(reused as int)[k as int] == added@[k as int]);
                assert(old_added[k as int] == b);
            }
            match write_raw_block(&mut self.layer1, shift, b, &blank, Ghost(total2)) {
                Ok(()) => {},
                Err(e) => {
                    return Err(e);
                },
            }
            proof {
                let after = self.img();
                assert(after == img.update(b as int, blank@));
                assert(on_list(head1, img, b) == on_list(head1, img2, b));
                lemma_off_list(head1, img, after);
                assert forall|c: u64| #[trigger] on_list(head1, after, c) == on_list(
                    head1,
                    img2,
                    c,
                ) by {
                    assert(on_list(head1, img, c) == on_list(head1, img2, c));
                }
                let done = old_added.take(k as int);
                let next = old_added.take(k + 1);
                assert(next =~= done.push(b));
                assert forall|c: u64| #[trigger] next.contains(c) <==> done.contains(c) || c == b by {
                    if done.contains(c) {
                        let j = choose|j: int| 0 <= j < done.len() && done[j] == c;
                        assert(next[j] == c);
                    }
                    assert(next[k as int] == b);
                    if next.contains(c) {
                        let j = choose|j: int| 0 <= j < next.len() && next[j] == c;
                        if j < k {
                            assert(done[j] == c);
                        }
                    }
                }
                assert forall|c: u64|
                    #![trigger after[c as int]]
                    c < total2 implies after[c as int] == if next.contains(c) {
                    zero_bytes(size as nat)
                } else {
                    img2[c as int]
                } by {
                    assert(img[c as int] == if done.contains(c) {
                        zero_bytes(size as nat)
                    } else {
                        img2[c as int]
                    });
                }
            }
            k = k + 1;
        }
        let ghost img3 = self.img();
        proof {
            assert(old_added.take(reused as int) =~= old_added);
            lemma_with_head(b0, head1, self.block0_slots@);
        }
        // Note where the list begins now.
        match self.persist_l2_header() {
            Ok(()) => {},
            Err(e) => {
                return Err(e);
            },
        }
        self.evict_all(&added);
        proof {
            let img4 = self.img();
            assert(img4 == img3.update(0, self.block0_cache@));
            if on_list(head1, img3, 0) {
                crate::block_file::lemma_on_list(head1, img3, 0);
            }
            lemma_off_list(head1, img3, img4);
            lemma_allocated(head0, img0, head1, img1, img4, old_added, added@, size as nat);
            assert(coherent(self.block_cache, head1, img4)) by {
                lemma_coherent_after(
                    old(self).block_cache,
                    self.block_cache,
                    head0,
                    img0,
                    head1,
                    img4,
                    added@,
                );
            }
            assert(coherent(self.shared_cache, head1, img4)) by {
                lemma_coherent_after(
                    old(self).shared_cache,
                    self.shared_cache,
                    head0,
                    img0,
                    head1,
                    img4,
                    added@,
                );
            }
            assert(img4[0] == self.block0_cache@);
            self.lemma_assembled();
            self.lemma_in_order();
            self.lemma_synced();
            assert(self.blocks() =~= with_zero_blocks(blocks0, added@, size as nat));
            assert forall|i: int| 0 <= i < added@.len() implies old(self).free_blocks().contains(
                #[trigger] added@[i],
            ) || total0 <= added@[i] < total2 by {
                assert(added@.contains(added@[i]));
                if old_added.contains(added@[i]) {
                    let j = choose|j: int| 0 <= j < old_added.len() && old_added[j] == added@[i];
                    assert(1 <= old_added[j] < total0);
                    assert(taken.contains(added@[i]));
                    assert(on_list(head0, img0, added@[i]));
                }
            }
            assert forall|i: int| 0 <= i < added@.len() implies !blocks0.contains_key(
                #[trigger] added@[i],
            ) by {
                assert(added@.contains(added@[i]));
            }
        }
        Ok(added)
    }

    fn allocate_block(&mut self) -> (r: Result<u64, SfsError>)
        ensures
            final(self).file_faults() == old(self).file_faults() && final(self).faults() > old(
                self,
            ).faults() ==> old(self).total() + old(self).growth(1) > BLOCK_INDEX_SENTINEL,
            L1::reads_always() && old(self).total() + old(self).growth(1) <= BLOCK_INDEX_SENTINEL
                && old(self).file().len() + old(self).growth(1) * old(self).bsize() <= L1::room()
                ==> final(self).faults() == old(self).faults(),
            r matches Ok(b) ==> Self::reused(*old(self), *final(self), seq![b]),
    {
        match self.allocate_blocks(1) {
            Ok(added) => {
                let b: u64 = added[0];
                proof {
                    assert forall|c: u64| #[trigger] added@.contains(c) <==> c == b by {
                        if c == b {
                            assert(added@[0] == c);
                        }
                    }
                    assert(self.blocks() =~= old(self).blocks().insert(
                        b,
                        zero_bytes(old(self).bsize()),
                    ));
                    assert(added@ =~= seq![b]);
                }
                Ok(b)
            },
            Err(e) => Err(e),
        }
    }

    fn deallocate_block(&mut self, index: u64) -> (r: Result<(), SfsError>)
        ensures
            final(self).file_faults() == old(self).file_faults() ==> final(self).faults() == old(
                self,
            ).faults(),
            L1::reads_always() && old(self).file().len() <= L1::room() ==> final(self).faults()
                == old(self).faults(),
    {
        let mut indices: Vec<u64> = Vec::new();
        indices.push(index);
        let ghost given = indices@;
        assert(given[0] == index);
        let r = self.deallocate_blocks(&mut indices);
        proof {
            assert forall|c: u64| #[trigger] given.contains(c) <==> c == index by {
                if c == index {
                    assert(given[0] == c);
                }
            }
            if r is Ok {
                assert(self.blocks() =~= old(self).blocks().remove(index));
            }
        }
        r
    }

    fn deallocate_blocks(&mut self, indices: &mut Vec<u64>) -> (r: Result<(), SfsError>)
        ensures
            final(self).file_faults() == old(self).file_faults() ==> final(self).faults() == old(
                self,
            ).faults(),
            old(indices)@.len() == 0 ==> final(self).faults() == old(self).faults(),
            L1::reads_always() && old(self).file().len() <= L1::room() ==> final(self).faults()
                == old(self).faults(),
            r is Ok ==> {
                &&& final(indices)@.to_multiset() == old(indices)@.to_multiset()
                &&& ascending(final(indices)@)
                &&& final(self).total() == old(self).total()
                &&& final(self).file().len() == old(self).file().len()
                &&& final(self).free_blocks() == old(self).free_blocks().union(
                    old(indices)@.to_set(),
                )
            },
            (exists|i: int| 0 <= i < old(indices)@.len() && #[trigger] old(indices)@[i] == 0)
                ==> final(indices)@ == old(indices)@,
    {
        let ghost given = indices@;
        if indices.len() == 0 {
            proof {
                self.lemma_in_order();
                assert(without_blocks(self.blocks(), given) =~= self.blocks());
                assert(self.free_blocks() =~= self.free_blocks().union(given.to_set()));
            }
            return Ok(());
        }
        let mut i: usize = 0;
        while i < indices.len()
            invariant
                i <= indices@.len(),
                indices@ == given,
                *self == *old(self),
                given == old(indices)@,
                forall|j: int| 0 <= j < i ==> #[trigger] given[j] != 0,
            decreases indices@.len() - i,
        {
            if indices[i] == 0 {
                assert(self.own_blocks().contains(given[i as int]));
                return Err(SfsError::IoError("cannot deallocate block 0 (superblock)".to_owned()));
            }
            i = i + 1;
        }
        let shift: u8 = self.block_size_shift;
        let ghost total = self.total_blocks as nat;
        let ghost head0 = self.free_list_head;
        let ghost img0 = self.img();
        let ghost blocks0 = self.blocks();
        let ghost b0 = self.block0_cache@;
        proof {
            self.lemma_in_order();
            self.lemma_synced();
            assert forall|j: int| 0 <= j < given.len() implies blocks0.contains_key(
                #[trigger] given[j],
            ) by {}
        }
        sort_numbers(indices);
        proof {
            lemma_sorted(given, indices@);
            assert forall|j: int| 0 <= j < indices@.len() implies blocks0.contains_key(
                #[trigger] indices@[j],
            ) by {
                assert(indices@.contains(indices@[j]));
                let k = choose|k: int| 0 <= k < given.len() && given[k] == indices@[j];
                assert(blocks0.contains_key(given[k]));
            }
        }
        let extents: Vec<TrunkExtent> = coalesce_extents(indices);
        let ghost ext = extents@;
        proof {
            assert forall|b: u64| #[trigger] any_covers(ext, b) implies blocks0.contains_key(b) by {
                let k = choose|k: int| 0 <= k < indices@.len() && indices@[k] == b;
                assert(blocks0.contains_key(indices@[k]));
            }
            lemma_ascending_ok(ext, total);
        }
        match give_back(
            &mut self.layer1,
            shift,
            &mut self.free_list_head,
            extents,
            Ghost(total),
        ) {
            Ok(()) => {},
            Err(e) => {
                return Err(e);
            },
        }
        let ghost head1 = self.free_list_head;
        let ghost img1 = self.img();
        proof {
            lemma_with_head(b0, head1, self.block0_slots@);
        }
        match self.persist_l2_header() {
            Ok(()) => {},
            Err(e) => {
                return Err(e);
            },
        }
        self.evict_all(indices);
        proof {
            let img2 = self.img();
            if on_list(head1, img1, 0) {
                crate::block_file::lemma_on_list(head1, img1, 0);
            }
            lemma_off_list(head1, img1, img2);
            assert forall|b: u64| #[trigger] on_list(head1, img2, b) <==> on_list(head0, img0, b)
                || given.contains(b) by {
                assert(on_list(head1, img1, b) == on_list(head1, img2, b));
                assert(on_list(head0, img0, b) || any_covers(ext, b) <==> on_list(head1, img1, b)
                    || any_covers(Seq::empty(), b));
                assert(any_covers(ext, b) <==> indices@.contains(b));
                assert(indices@.contains(b) <==> given.contains(b));
            }
            assert forall|b: u64|
                1 <= b < total && !on_list(head1, img2, b) implies #[trigger] img2[b as int]
                == img0[b as int] by {
                assert(!on_list(head0, img0, b));
                assert(any_covers(ext, b) <==> indices@.contains(b));
            }
            lemma_coherent_after(
                old(self).block_cache,
                self.block_cache,
                head0,
                img0,
                head1,
                img2,
                indices@,
            );
            lemma_coherent_after(
                old(self).shared_cache,
                self.shared_cache,
                head0,
                img0,
                head1,
                img2,
                indices@,
            );
            assert(img2[0] == self.block0_cache@);
            self.lemma_assembled();
            self.lemma_in_order();
            self.lemma_synced();
            assert(self.blocks() =~= without_blocks(blocks0, given));
            assert forall|b: u64| #[trigger] given.to_set().contains(b) implies 1 <= b < total by {
                let j = choose|j: int| 0 <= j < given.len() && given[j] == b;
                assert(blocks0.contains_key(given[j]));
            }
            assert(self.free_blocks() =~= old(self).free_blocks().union(given.to_set()));
        }
        Ok(())
    }

    proof fn lemma_wf(&self) {
        self.lemma_in_order();
        lemma_sizes(self.block_size_shift);
        lemma_pow256_values();
        assert forall|b: u64| #[trigger] self.blocks().contains_key(b) implies self.blocks()[b].len()
            == self.bsize() by {
            lemma_block_in_file(
                self.layer1.offset(),
                self.bsize(),
                self.total_blocks as nat,
                b as int,
            );
        }
    }
}

} // verus!
