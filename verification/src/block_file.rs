//! Reading and writing the blocks of a file, and the list of its free blocks.

use crate::block_image::{
    block_pos, image, lemma_block_in_file, lemma_block_read, lemma_block_written, reaches,
};
use crate::bytes::{overlay, zeros};
use crate::file_layer::{is_magic, magic_offset, FileLayer};
use crate::free_chain::{
    is_chain, is_free, lemma_chain_unique, lemma_free_range, lemma_list_frame, lemma_list_grown,
    lemma_list_joined, lemma_list_split, list_ok,
};
use crate::free_list::{
    any_covers, build_trunk, empty_extents, extent_count, extents_ok, fill_extents, parse_trunk,
    take_extents, trunk_extents, trunk_is_empty, trunk_next, TrunkExtent, BLOCK_INDEX_SENTINEL,
};
use crate::types::SfsError;
use vstd::arithmetic::power2::pow2;
use vstd::prelude::*;

verus! {

/// The least and the greatest size of a block, as powers of two.
pub const SMALLEST_SHIFT: u8 = 4;
pub const LARGEST_SHIFT: u8 = 31;

/// What stands before the blocks is in order: the header of the file, the size
/// of the blocks, and that the file is not encrypted.
pub open spec fn prefix_ok(file: Seq<u8>, off: nat, shift: u8) -> bool {
    &&& 13 <= off <= 65535
    &&& is_magic(file)
    &&& magic_offset(file) == off
    &&& SMALLEST_SHIFT <= shift <= LARGEST_SHIFT
    &&& file[12] == shift
    &&& off >= 14 ==> file[13] != 1
}

/// The file holds `total` whole blocks and nothing behind them.
pub open spec fn laid_out(file: Seq<u8>, off: nat, shift: u8, total: nat) -> bool {
    &&& prefix_ok(file, off, shift)
    &&& 1 <= total <= BLOCK_INDEX_SENTINEL
    &&& file.len() == off + total * pow2(shift as nat)
}

/// The blocks of a file.
pub open spec fn blocks_in<L1: FileLayer>(layer1: L1, shift: u8, total: nat) -> Seq<Seq<u8>> {
    image(layer1.bytes(), layer1.offset(), pow2(shift as nat), total)
}

/// The list of free blocks that begins at `head` is in order.
pub open spec fn free_ok(head: u32, img: Seq<Seq<u8>>) -> bool {
    exists|t: Seq<u64>| #[trigger] is_chain(t, head, img) && list_ok(t, img)
}

/// The trunks of the list of free blocks that begins at `head`.
pub open spec fn trunks(head: u32, img: Seq<Seq<u8>>) -> Seq<u64> {
    choose|t: Seq<u64>| #[trigger] is_chain(t, head, img) && list_ok(t, img)
}

/// `b` is on the list of free blocks that begins at `head`.
pub open spec fn on_list(head: u32, img: Seq<Seq<u8>>, b: u64) -> bool {
    is_free(trunks(head, img), img, b)
}

/// The trunks of a list that is in order.
pub proof fn lemma_trunks(head: u32, img: Seq<Seq<u8>>, t: Seq<u64>)
    requires
        is_chain(t, head, img),
        list_ok(t, img),
        img.len() <= BLOCK_INDEX_SENTINEL,
    ensures
        free_ok(head, img),
        trunks(head, img) == t,
{
    lemma_chain_unique(t, trunks(head, img), head, img);
}

/// A block that is not on the list can change, and the list stays.
pub proof fn lemma_off_list(head: u32, img: Seq<Seq<u8>>, after: Seq<Seq<u8>>)
    requires
        free_ok(head, img),
        img.len() <= BLOCK_INDEX_SENTINEL,
        after.len() == img.len(),
        forall|b: u64|
            #![trigger on_list(head, img, b)]
            b < img.len() && on_list(head, img, b) ==> after[b as int] == img[b as int],
    ensures
        free_ok(head, after),
        forall|b: u64| #[trigger] on_list(head, after, b) == on_list(head, img, b),
{
    let t = trunks(head, img);
    assert forall|b: u64| #[trigger] t.contains(b) implies after[b as int] == img[b as int] by {
        assert(is_free(t, img, b));
        lemma_free_range(t, head, img, b);
        assert(on_list(head, img, b));
    }
    lemma_list_frame(t, head, img, after);
    lemma_trunks(head, after, t);
}

/// A file that grows has the same list of free blocks.
pub proof fn lemma_list_longer(head: u32, img: Seq<Seq<u8>>, more: Seq<Seq<u8>>)
    requires
        free_ok(head, img),
        img.len() + more.len() <= BLOCK_INDEX_SENTINEL,
    ensures
        free_ok(head, img + more),
        forall|b: u64| #[trigger] on_list(head, img + more, b) == on_list(head, img, b),
{
    let t = trunks(head, img);
    lemma_list_grown(t, head, img, more);
    lemma_trunks(head, img + more, t);
}

/// The blocks on the list lie in the file, behind block 0.
pub proof fn lemma_on_list(head: u32, img: Seq<Seq<u8>>, b: u64)
    requires
        free_ok(head, img),
        on_list(head, img, b),
    ensures
        1 <= b < img.len(),
{
    lemma_free_range(trunks(head, img), head, img, b);
}

/// The sizes that a block can have.
pub proof fn lemma_sizes(shift: u8)
    requires
        SMALLEST_SHIFT <= shift <= LARGEST_SHIFT,
    ensures
        16 <= pow2(shift as nat) <= 0x8000_0000,
{
    vstd::arithmetic::power2::lemma2_to64();
    if shift > 4 {
        vstd::arithmetic::power2::lemma_pow2_strictly_increases(4, shift as nat);
    }
    if shift < 31 {
        vstd::arithmetic::power2::lemma_pow2_strictly_increases(shift as nat, 31);
    }
}

/// The size of a block in bytes.
pub(crate) fn size_of_block(shift: u8) -> (size: usize)
    requires
        SMALLEST_SHIFT <= shift <= LARGEST_SHIFT,
    ensures
        size == pow2(shift as nat),
        16 <= size <= 0x8000_0000,
{
    proof {
        lemma_sizes(shift);
        vstd::bits::lemma_u32_shl_is_mul(1, shift as u32);
    }
    (1u32 << (shift as u32)) as usize
}

/// What stands before the blocks does not change with them.
pub proof fn lemma_prefix_kept(file: Seq<u8>, after: Seq<u8>, off: nat, shift: u8)
    requires
        prefix_ok(file, off, shift),
        off <= after.len(),
        off <= file.len(),
        after.take(off as int) == file.take(off as int),
    ensures
        prefix_ok(after, off, shift),
{
    assert forall|i: int| 0 <= i < off implies after[i] == file[i] by {
        assert(after.take(off as int)[i] == after[i]);
        assert(file.take(off as int)[i] == file[i]);
    }
    assert(after.subrange(0, 9) =~= file.subrange(0, 9));
    assert(after.subrange(10, 12) =~= file.subrange(10, 12));
}

/// Where a block begins in the file.
pub(crate) fn position<L1: FileLayer>(layer1: &L1, shift: u8, index: u64) -> (pos: u64)
    requires
        SMALLEST_SHIFT <= shift <= LARGEST_SHIFT,
        index <= 0xFFFF_FFFF,
    ensures
        pos == block_pos(layer1.offset(), pow2(shift as nat), index as int),
        pos <= 0x8000_0000 * 0xFFFF_FFFF + 65535,
{
    let data_offset: u64 = layer1.data_offset();
    let size: u64 = size_of_block(shift) as u64;
    assert(0 <= index * size <= 0x8000_0000 * 0xFFFF_FFFF) by (nonlinear_arith)
        requires
            0 <= index <= 0xFFFF_FFFF,
            0 <= size <= 0x8000_0000,
    ;
    data_offset + index * size
}

/// Reads one block.
pub(crate) fn read_raw_block<L1: FileLayer>(
    layer1: &mut L1,
    shift: u8,
    index: u64,
    Ghost(total): Ghost<nat>,
) -> (r: Result<Vec<u8>, SfsError>)
    requires
        SMALLEST_SHIFT <= shift <= LARGEST_SHIFT,
        reaches(old(layer1).bytes(), old(layer1).offset(), pow2(shift as nat), total),
        index < total,
        index <= 0xFFFF_FFFF,
    ensures
        final(layer1).bytes() == old(layer1).bytes(),
        final(layer1).offset() == old(layer1).offset(),
        final(layer1).faults() >= old(layer1).faults(),
        (r is Ok) == (final(layer1).faults() == old(layer1).faults()),
        L1::reads_always() ==> r is Ok,
        r matches Ok(block) ==> block@ == blocks_in(*old(layer1), shift, total)[index as int]
            && block@.len() == pow2(shift as nat),
{
    let size: usize = size_of_block(shift);
    let mut block: Vec<u8> = zeros(size);
    let pos: u64 = position(layer1, shift, index);
    let ghost before = block@;
    match layer1.read(pos, block.as_mut_slice()) {
        Ok(_) => {},
        Err(e) => {
            return Err(e);
        },
    }
    proof {
        let file = old(layer1).bytes();
        lemma_block_read(
            file,
            old(layer1).offset(),
            size as nat,
            total,
            index as int,
            0,
            before,
        );
        let b = blocks_in(*old(layer1), shift, total)[index as int];
        lemma_block_in_file(old(layer1).offset(), size as nat, total, index as int);
        assert(b.subrange(0, size as int) =~= b);
    }
    Ok(block)
}

/// Writes a part of one block.
pub(crate) fn write_raw<L1: FileLayer>(
    layer1: &mut L1,
    shift: u8,
    index: u64,
    at: usize,
    data: &[u8],
    Ghost(total): Ghost<nat>,
) -> (r: Result<(), SfsError>)
    requires
        laid_out(old(layer1).bytes(), old(layer1).offset(), shift, total),
        index < total,
        at + data@.len() <= pow2(shift as nat),
    ensures
        final(layer1).offset() == old(layer1).offset(),
        final(layer1).faults() >= old(layer1).faults(),
        (r is Ok) == (final(layer1).faults() == old(layer1).faults()),
        old(layer1).bytes().len() <= L1::room() ==> r is Ok,
        r is Ok ==> {
            let img = blocks_in(*old(layer1), shift, total);
            &&& laid_out(final(layer1).bytes(), final(layer1).offset(), shift, total)
            &&& blocks_in(*final(layer1), shift, total) == img.update(
                index as int,
                overlay(img[index as int], at as int, data@),
            )
        },
{
    proof {
        lemma_sizes(shift);
        lemma_block_in_file(layer1.offset(), pow2(shift as nat), total, index as int);
        lemma_block_written(
            layer1.bytes(),
            layer1.offset(),
            pow2(shift as nat),
            total,
            index as int,
            at as int,
            data@,
        );
    }
    let ghost file = layer1.bytes();
    let ghost off = layer1.offset();
    let pos: u64 = position(layer1, shift, index);
    match layer1.write(pos + at as u64, data) {
        Ok(()) => {},
        Err(e) => {
            return Err(e);
        },
    }
    proof {
        assert(total * pow2(shift as nat) >= 0) by (nonlinear_arith);
        lemma_prefix_kept(file, layer1.bytes(), off, shift);
    }
    Ok(())
}

/// Writes one whole block.
pub(crate) fn write_raw_block<L1: FileLayer>(
    layer1: &mut L1,
    shift: u8,
    index: u64,
    block: &Vec<u8>,
    Ghost(total): Ghost<nat>,
) -> (r: Result<(), SfsError>)
    requires
        laid_out(old(layer1).bytes(), old(layer1).offset(), shift, total),
        index < total,
        block@.len() == pow2(shift as nat),
    ensures
        final(layer1).offset() == old(layer1).offset(),
        final(layer1).faults() >= old(layer1).faults(),
        (r is Ok) == (final(layer1).faults() == old(layer1).faults()),
        old(layer1).bytes().len() <= L1::room() ==> r is Ok,
        r is Ok ==> {
            &&& laid_out(final(layer1).bytes(), final(layer1).offset(), shift, total)
            &&& blocks_in(*final(layer1), shift, total) == blocks_in(
                *old(layer1),
                shift,
                total,
            ).update(index as int, block@)
        },
{
    proof {
        let img = blocks_in(*layer1, shift, total);
        lemma_block_in_file(layer1.offset(), pow2(shift as nat), total, index as int);
        assert(overlay(img[index as int], 0, block@) =~= block@);
    }
    write_raw(layer1, shift, index, 0, block.as_slice(), Ghost(total))
}

/// The blocks that a list of free blocks has lost to `taken`: they are off the
/// list now, and nothing else is.
pub open spec fn handed_out(
    head0: u32,
    img0: Seq<Seq<u8>>,
    head: u32,
    img: Seq<Seq<u8>>,
    taken: Seq<u64>,
) -> bool {
    &&& img.len() == img0.len()
    &&& free_ok(head, img)
    &&& taken.no_duplicates()
    &&& forall|b: u64| #[trigger]
        on_list(head0, img0, b) <==> on_list(head, img, b) || taken.contains(b)
    &&& forall|b: u64| #[trigger] taken.contains(b) ==> !on_list(head, img, b)
    &&& forall|b: u64|
        #![trigger on_list(head0, img0, b)]
        b < img0.len() && !on_list(head0, img0, b) ==> img[b as int] == img0[b as int]
}

/// What the list has lost when its first trunk gave `part`, and went itself.
proof fn lemma_trunk_spent(
    head0: u32,
    img0: Seq<Seq<u8>>,
    head: u32,
    img: Seq<Seq<u8>>,
    taken: Seq<u64>,
    part: Seq<u64>,
)
    requires
        img.len() <= BLOCK_INDEX_SENTINEL,
        head != BLOCK_INDEX_SENTINEL,
        handed_out(head0, img0, head, img, taken),
        part.no_duplicates(),
        forall|b: u64| #[trigger]
            any_covers(trunk_extents(img[head as int]), b) <==> part.contains(b),
    ensures
        handed_out(
            head0,
            img0,
            trunk_next(img[head as int]),
            img,
            taken + part + seq![head as u64],
        ),
{
    let t = trunks(head, img);
    let e = trunk_extents(img[head as int]);
    lemma_list_split(t, head, img);
    let r = t.skip(1);
    let next = trunk_next(img[head as int]);
    lemma_trunks(next, img, r);
    let all = taken + part + seq![head as u64];
    assert forall|b: u64| #[trigger] all.contains(b) <==> taken.contains(b) || part.contains(b) || b
        == head by {
        if taken.contains(b) {
            let i = choose|i: int| 0 <= i < taken.len() && taken[i] == b;
            assert(all[i] == b);
        }
        if part.contains(b) {
            let i = choose|i: int| 0 <= i < part.len() && part[i] == b;
            assert(all[taken.len() + i] == b);
        }
        assert(all[all.len() - 1] == head);
        if all.contains(b) {
            let i = choose|i: int| 0 <= i < all.len() && all[i] == b;
            if i < taken.len() {
                assert(taken[i] == b);
            } else if i < taken.len() + part.len() {
                assert(part[i - taken.len()] == b);
            }
        }
    }
    assert forall|b: u64| #[trigger] taken.contains(b) implies !part.contains(b) && b != head by {
        assert(!on_list(head, img, b));
        assert(is_free(t, img, b) <==> b == head || any_covers(e, b) || is_free(r, img, b));
    }
    assert forall|i: int, j: int| 0 <= i < j < all.len() implies all[i] != all[j] by {
        if j < taken.len() {
            assert(taken[i] != taken[j]);
        } else if j < taken.len() + part.len() {
            assert(part.contains(part[j - taken.len()]));
            if i < taken.len() {
                assert(taken.contains(taken[i]));
            } else {
                assert(part[i - taken.len()] != part[j - taken.len()]);
            }
        } else {
            if i < taken.len() {
                assert(taken.contains(taken[i]));
            } else {
                assert(part.contains(part[i - taken.len()]));
                assert(any_covers(e, part[i - taken.len()]));
            }
        }
    }
    assert forall|b: u64| #[trigger]
        on_list(head0, img0, b) <==> on_list(next, img, b) || all.contains(b) by {
        assert(is_free(t, img, b) <==> b == head || any_covers(e, b) || is_free(r, img, b));
        assert(on_list(head0, img0, b) <==> on_list(head, img, b) || taken.contains(b));
        assert(any_covers(e, b) <==> part.contains(b));
    }
    assert forall|b: u64| #[trigger] all.contains(b) implies !on_list(next, img, b) by {
        assert(is_free(t, img, b) <==> b == head || any_covers(e, b) || is_free(r, img, b));
        if part.contains(b) {
            assert(any_covers(e, b));
        }
    }
}

/// What the list has lost when its first trunk gave `part`.
proof fn lemma_trunk_drawn(
    head0: u32,
    img0: Seq<Seq<u8>>,
    head: u32,
    img: Seq<Seq<u8>>,
    taken: Seq<u64>,
    part: Seq<u64>,
    block: Seq<u8>,
)
    requires
        img.len() <= BLOCK_INDEX_SENTINEL,
        head != BLOCK_INDEX_SENTINEL,
        handed_out(head0, img0, head, img, taken),
        trunk_next(block) == trunk_next(img[head as int]),
        extents_ok(trunk_extents(block), img.len()),
        crate::free_list::taken(trunk_extents(img[head as int]), trunk_extents(block), part),
    ensures
        handed_out(head0, img0, head, img.update(head as int, block), taken + part),
{
    let t = trunks(head, img);
    let e = trunk_extents(img[head as int]);
    let e2 = trunk_extents(block);
    lemma_list_split(t, head, img);
    assert(t[0] == head);
    let r = t.skip(1);
    let after = img.update(head as int, block);
    assert forall|b: u64| #[trigger] r.contains(b) implies after[b as int] == img[b as int] by {
        assert(is_free(r, img, b));
    }
    lemma_list_frame(r, trunk_next(block), img, after);
    assert(is_free(r, after, head as u64) == is_free(r, img, head as u64));
    assert(any_covers(e, head as u64) <==> any_covers(e2, head as u64) || part.contains(
        head as u64,
    ));
    assert forall|b: u64|
        #![trigger any_covers(e2, b)]
        #![trigger is_free(r, after, b)]
        !(any_covers(e2, b) && is_free(r, after, b)) by {
        assert(any_covers(e, b) <==> any_covers(e2, b) || part.contains(b));
        assert(is_free(r, after, b) == is_free(r, img, b));
    }
    lemma_list_joined(r, head, after);
    let u = seq![head as u64] + r;
    assert(u =~= t);
    lemma_trunks(head, after, u);
    let all = taken + part;
    assert forall|b: u64| #[trigger] all.contains(b) <==> taken.contains(b) || part.contains(b) by {
        if taken.contains(b) {
            let i = choose|i: int| 0 <= i < taken.len() && taken[i] == b;
            assert(all[i] == b);
        }
        if part.contains(b) {
            let i = choose|i: int| 0 <= i < part.len() && part[i] == b;
            assert(all[taken.len() + i] == b);
        }
        if all.contains(b) {
            let i = choose|i: int| 0 <= i < all.len() && all[i] == b;
            if i < taken.len() {
                assert(taken[i] == b);
            } else {
                assert(part[i - taken.len()] == b);
            }
        }
    }
    assert forall|b: u64|
        #![trigger is_free(t, img, b)]
        #![trigger is_free(u, after, b)]
        is_free(t, img, b) <==> is_free(u, after, b) || part.contains(b) by {
        assert(is_free(t, img, b) <==> b == head || any_covers(e, b) || is_free(r, img, b));
        assert(is_free(u, after, b) <==> b == head || any_covers(e2, b) || is_free(r, after, b));
        assert(any_covers(e, b) <==> any_covers(e2, b) || part.contains(b));
        assert(is_free(r, after, b) == is_free(r, img, b));
    }
    assert forall|b: u64| #[trigger] part.contains(b) implies !is_free(u, after, b) by {
        assert(is_free(u, after, b) <==> b == head || any_covers(e2, b) || is_free(r, after, b));
        assert(any_covers(e, b) <==> any_covers(e2, b) || part.contains(b));
        assert(is_free(r, after, b) == is_free(r, img, b));
        assert(any_covers(e, b));
    }
    assert forall|b: u64| #[trigger] taken.contains(b) implies !part.contains(b) by {
        assert(!on_list(head, img, b));
        assert(is_free(t, img, b) <==> is_free(u, after, b) || part.contains(b));
    }
    assert forall|i: int, j: int| 0 <= i < j < all.len() implies all[i] != all[j] by {
        if j < taken.len() {
            assert(taken[i] != taken[j]);
        } else {
            assert(part.contains(part[j - taken.len()]));
            if i < taken.len() {
                assert(taken.contains(taken[i]));
            } else {
                assert(part[i - taken.len()] != part[j - taken.len()]);
            }
        }
    }
    assert forall|b: u64| #[trigger]
        on_list(head0, img0, b) <==> on_list(head, after, b) || all.contains(b) by {
        assert(on_list(head0, img0, b) <==> on_list(head, img, b) || taken.contains(b));
        assert(is_free(t, img, b) <==> is_free(u, after, b) || part.contains(b));
    }
    assert forall|b: u64| #[trigger] all.contains(b) implies !on_list(head, after, b) by {
        if taken.contains(b) {
            assert(!on_list(head, img, b));
            assert(is_free(t, img, b) <==> is_free(u, after, b) || part.contains(b));
        }
    }
    assert forall|b: u64|
        #![trigger on_list(head0, img0, b)]
        b < img0.len() && !on_list(head0, img0, b) implies after[b as int] == img0[b as int] by {
        assert(on_list(head, img, head as u64)) by {
            assert(is_free(t, img, head as u64));
        }
        assert(on_list(head0, img0, head as u64));
    }
}

/// Takes up to `count` blocks off the list of free blocks, in no special order.
/// Where the list has fewer, it is empty then.
pub(crate) fn take_free<L1: FileLayer>(
    layer1: &mut L1,
    shift: u8,
    head: &mut u32,
    count: u64,
    Ghost(total): Ghost<nat>,
) -> (r: Result<Vec<u64>, SfsError>)
    requires
        laid_out(old(layer1).bytes(), old(layer1).offset(), shift, total),
        free_ok(*old(head), blocks_in(*old(layer1), shift, total)),
    ensures
        final(layer1).offset() == old(layer1).offset(),
        final(layer1).faults() >= old(layer1).faults(),
        (r is Ok) == (final(layer1).faults() == old(layer1).faults()),
        L1::reads_always() && old(layer1).bytes().len() <= L1::room() ==> r is Ok,
        r matches Ok(taken) ==> {
            &&& laid_out(final(layer1).bytes(), final(layer1).offset(), shift, total)
            &&& taken@.len() <= count
            &&& taken@.len() < count ==> *final(head) == BLOCK_INDEX_SENTINEL
            &&& handed_out(
                *old(head),
                blocks_in(*old(layer1), shift, total),
                *final(head),
                blocks_in(*final(layer1), shift, total),
                taken@,
            )
        },
{
    let ghost head0 = *head;
    let ghost img0 = blocks_in(*layer1, shift, total);
    let size: usize = size_of_block(shift);
    let mut taken: Vec<u64> = Vec::new();
    while (taken.len() as u64) < count && *head != BLOCK_INDEX_SENTINEL
        invariant
            laid_out(layer1.bytes(), layer1.offset(), shift, total),
            layer1.offset() == old(layer1).offset(),
            layer1.faults() == old(layer1).faults(),
            layer1.bytes().len() == old(layer1).bytes().len(),
            size == pow2(shift as nat),
            16 <= size <= 0x8000_0000,
            img0 == blocks_in(*old(layer1), shift, total),
            head0 == *old(head),
            taken@.len() <= count,
            handed_out(head0, img0, *head, blocks_in(*layer1, shift, total), taken@),
        decreases count - taken@.len(),
    {
        let ghost img = blocks_in(*layer1, shift, total);
        let ghost taken0 = taken@;
        let trunk_index: u32 = *head;
        proof {
            let t = trunks(trunk_index, img);
            lemma_list_split(t, trunk_index, img);
            assert(t[0] == trunk_index);
        }
        let trunk: Vec<u8> = match read_raw_block(
            layer1,
            shift,
            trunk_index as u64,
            Ghost(total),
        ) {
            Ok(trunk) => trunk,
            Err(e) => {
                return Err(e);
            },
        };
        let (next, mut extents) = parse_trunk(trunk.as_slice());
        let modified: bool = take_extents(&mut extents, &mut taken, count, Ghost(total));
        let ghost part = taken@.skip(taken0.len() as int);
        proof {
            assert(taken@ =~= taken0 + part);
        }
        if trunk_is_empty(&extents) && (taken.len() as u64) < count {
            proof {
                assert forall|b: u64| #[trigger]
                    any_covers(trunk_extents(img[trunk_index as int]), b) <==> part.contains(b) by {
                    assert(!any_covers(extents@, b));
                }
                lemma_trunk_spent(head0, img0, trunk_index, img, taken0, part);
                assert(taken@.push(trunk_index as u64) =~= taken0 + part + seq![trunk_index as u64]);
            }
            *head = next;
            taken.push(trunk_index as u64);
        } else {
            proof {
                if taken@.len() < count {
                    assert(forall|i: int|
                        0 <= i < extents@.len() ==> (#[trigger] extents@[i]).unused());
                }
            }
            if modified {
                let block: Vec<u8> = build_trunk(next, &extents, size);
                proof {
                    lemma_trunk_drawn(head0, img0, trunk_index, img, taken0, part, block@);
                }
                match write_raw_block(layer1, shift, trunk_index as u64, &block, Ghost(total)) {
                    Ok(()) => {},
                    Err(e) => {
                        return Err(e);
                    },
                }
            }
        }
    }
    Ok(taken)
}

/// The list of free blocks has got the blocks that `given` covers, but for those
/// that `left` still covers.
pub open spec fn handed_back(
    head0: u32,
    img0: Seq<Seq<u8>>,
    given: Seq<TrunkExtent>,
    head: u32,
    img: Seq<Seq<u8>>,
    left: Seq<TrunkExtent>,
) -> bool {
    &&& img.len() == img0.len()
    &&& free_ok(head, img)
    &&& forall|b: u64| #[trigger]
        on_list(head0, img0, b) || any_covers(given, b) <==> on_list(head, img, b) || any_covers(
            left,
            b,
        )
    &&& forall|b: u64|
        #![trigger on_list(head, img, b)]
        #![trigger any_covers(left, b)]
        !(on_list(head, img, b) && any_covers(left, b))
    &&& forall|b: u64|
        #![trigger on_list(head0, img0, b)]
        b < img0.len() && !on_list(head0, img0, b) && !any_covers(given, b) ==> img[b as int]
            == img0[b as int]
}

/// The first trunk of a list covers more than before.
proof fn lemma_trunk_filled(head: u32, img: Seq<Seq<u8>>, block: Seq<u8>, part: Seq<TrunkExtent>)
    requires
        img.len() <= BLOCK_INDEX_SENTINEL,
        free_ok(head, img),
        head != BLOCK_INDEX_SENTINEL,
        trunk_next(block) == trunk_next(img[head as int]),
        extents_ok(trunk_extents(block), img.len()),
        forall|b: u64| #[trigger]
            any_covers(trunk_extents(block), b) <==> any_covers(trunk_extents(img[head as int]), b)
                || any_covers(part, b),
        forall|b: u64| #[trigger] any_covers(part, b) ==> !on_list(head, img, b),
    ensures
        free_ok(head, img.update(head as int, block)),
        on_list(head, img, head as u64),
        forall|b: u64| #[trigger]
            on_list(head, img.update(head as int, block), b) <==> on_list(head, img, b)
                || any_covers(part, b),
{
    let t = trunks(head, img);
    let e = trunk_extents(img[head as int]);
    let e2 = trunk_extents(block);
    lemma_list_split(t, head, img);
    assert(t[0] == head);
    let r = t.skip(1);
    let after = img.update(head as int, block);
    assert(is_free(t, img, head as u64));
    assert forall|b: u64| #[trigger] r.contains(b) implies after[b as int] == img[b as int] by {
        assert(is_free(r, img, b));
    }
    lemma_list_frame(r, trunk_next(block), img, after);
    assert(is_free(r, after, head as u64) == is_free(r, img, head as u64));
    assert(!any_covers(e2, head as u64)) by {
        assert(any_covers(e2, head as u64) <==> any_covers(e, head as u64) || any_covers(
            part,
            head as u64,
        ));
        assert(on_list(head, img, head as u64));
    }
    assert forall|b: u64|
        #![trigger any_covers(e2, b)]
        #![trigger is_free(r, after, b)]
        !(any_covers(e2, b) && is_free(r, after, b)) by {
        assert(any_covers(e2, b) <==> any_covers(e, b) || any_covers(part, b));
        assert(is_free(r, after, b) == is_free(r, img, b));
        assert(is_free(t, img, b) <==> b == head || any_covers(e, b) || is_free(r, img, b));
        if any_covers(part, b) {
            assert(!on_list(head, img, b));
        }
    }
    lemma_list_joined(r, head, after);
    let u = seq![head as u64] + r;
    lemma_trunks(head, after, u);
    assert forall|b: u64| #[trigger]
        on_list(head, after, b) <==> on_list(head, img, b) || any_covers(part, b) by {
        assert(is_free(t, img, b) <==> b == head || any_covers(e, b) || is_free(r, img, b));
        assert(is_free(u, after, b) <==> b == head || any_covers(e2, b) || is_free(r, after, b));
        assert(any_covers(e2, b) <==> any_covers(e, b) || any_covers(part, b));
        assert(is_free(r, after, b) == is_free(r, img, b));
    }
}

/// A block that is not free becomes the first trunk of the list.
proof fn lemma_trunk_added(head: u32, img: Seq<Seq<u8>>, new: u32, block: Seq<u8>)
    requires
        img.len() <= BLOCK_INDEX_SENTINEL,
        free_ok(head, img),
        1 <= new < img.len(),
        trunk_next(block) == head,
        extents_ok(trunk_extents(block), img.len()),
        !on_list(head, img, new as u64),
        !any_covers(trunk_extents(block), new as u64),
        forall|b: u64| #[trigger] any_covers(trunk_extents(block), b) ==> !on_list(head, img, b),
    ensures
        free_ok(new, img.update(new as int, block)),
        forall|b: u64| #[trigger]
            on_list(new, img.update(new as int, block), b) <==> b == new || any_covers(
                trunk_extents(block),
                b,
            ) || on_list(head, img, b),
{
    let r = trunks(head, img);
    let e = trunk_extents(block);
    let after = img.update(new as int, block);
    assert forall|b: u64| #[trigger] r.contains(b) implies after[b as int] == img[b as int] by {
        assert(is_free(r, img, b));
        assert(on_list(head, img, b));
    }
    lemma_list_frame(r, head, img, after);
    assert(is_free(r, after, new as u64) == is_free(r, img, new as u64));
    assert forall|b: u64|
        #![trigger any_covers(e, b)]
        #![trigger is_free(r, after, b)]
        !(any_covers(e, b) && is_free(r, after, b)) by {
        assert(is_free(r, after, b) == is_free(r, img, b));
        if any_covers(e, b) {
            assert(!on_list(head, img, b));
        }
    }
    lemma_list_joined(r, new, after);
    let u = seq![new as u64] + r;
    lemma_trunks(new, after, u);
    assert forall|b: u64| #[trigger]
        on_list(new, after, b) <==> b == new || any_covers(e, b) || on_list(head, img, b) by {
        assert(is_free(u, after, b) <==> b == new || any_covers(e, b) || is_free(r, after, b));
        assert(is_free(r, after, b) == is_free(r, img, b));
    }
}

/// What a list of extents covers, a part of it covers and the rest.
proof fn lemma_covers_split(s: Seq<TrunkExtent>, k: int, total: nat)
    requires
        0 <= k <= s.len(),
        extents_ok(s, total),
    ensures
        extents_ok(s.skip(k), total),
        forall|b: u64| #[trigger]
            any_covers(s, b) <==> any_covers(s.take(k), b) || any_covers(s.skip(k), b),
        forall|b: u64|
            #![trigger any_covers(s.take(k), b)]
            #![trigger any_covers(s.skip(k), b)]
            !(any_covers(s.take(k), b) && any_covers(s.skip(k), b)),
{
    let a = s.take(k);
    let c = s.skip(k);
    assert forall|i: int| 0 <= i < c.len() && !(#[trigger] c[i]).unused() implies 1 <= c[i].start
        && c[i].length >= 1 && c[i].start + c[i].length <= total by {
        assert(c[i] == s[k + i]);
    }
    assert forall|i: int, j: int, b: u64|
        #![trigger c[i].covers(b), c[j].covers(b)]
        0 <= i < c.len() && 0 <= j < c.len() && c[i].covers(b) && c[j].covers(b) implies i == j by {
        assert(s[k + i].covers(b) && s[k + j].covers(b));
    }
    assert forall|b: u64| #[trigger] any_covers(s, b) <==> any_covers(a, b) || any_covers(c, b) by {
        if any_covers(s, b) {
            let i = choose|i: int| 0 <= i < s.len() && (#[trigger] s[i]).covers(b);
            if i < k {
                assert(a[i].covers(b));
            } else {
                assert(c[i - k].covers(b));
            }
        }
        if any_covers(a, b) {
            let i = choose|i: int| 0 <= i < a.len() && (#[trigger] a[i]).covers(b);
            assert(s[i].covers(b));
        }
        if any_covers(c, b) {
            let i = choose|i: int| 0 <= i < c.len() && (#[trigger] c[i]).covers(b);
            assert(s[k + i].covers(b));
        }
    }
    assert forall|b: u64|
        #![trigger any_covers(a, b)]
        #![trigger any_covers(c, b)]
        !(any_covers(a, b) && any_covers(c, b)) by {
        if any_covers(a, b) && any_covers(c, b) {
            let i = choose|i: int| 0 <= i < a.len() && (#[trigger] a[i]).covers(b);
            let j = choose|j: int| 0 <= j < c.len() && (#[trigger] c[j]).covers(b);
            assert(s[i].covers(b) && s[k + j].covers(b));
        }
    }
}

/// The first block of the first extent is set aside.
proof fn lemma_first_aside(s: Seq<TrunkExtent>, total: nat)
    requires
        s.len() > 0,
        total <= BLOCK_INDEX_SENTINEL,
        extents_ok(s, total),
        !s[0].unused(),
    ensures
        ({
            let rest = if s[0].length > 1 {
                s.update(
                    0,
                    TrunkExtent { start: (s[0].start + 1) as u32, length: (s[0].length - 1) as u32 },
                )
            } else {
                s.skip(1)
            };
            &&& extents_ok(rest, total)
            &&& any_covers(s, s[0].start as u64)
            &&& forall|b: u64| #[trigger]
                any_covers(s, b) <==> b == s[0].start || any_covers(rest, b)
            &&& !any_covers(rest, s[0].start as u64)
        }),
{
    let x = s[0].start as u64;
    assert(s[0].covers(x));
    if s[0].length > 1 {
        let e = TrunkExtent { start: (s[0].start + 1) as u32, length: (s[0].length - 1) as u32 };
        let rest = s.update(0, e);
        assert forall|b: u64| #[trigger] s[0].covers(b) <==> b == x || e.covers(b) by {}
        assert forall|b: u64| #[trigger] any_covers(s, b) <==> b == x || any_covers(rest, b) by {
            if any_covers(s, b) {
                let i = choose|i: int| 0 <= i < s.len() && (#[trigger] s[i]).covers(b);
                if i == 0 {
                    assert(s[0].covers(b));
                    if b != x {
                        assert(rest[0].covers(b));
                    }
                } else {
                    assert(rest[i].covers(b));
                }
            }
            if any_covers(rest, b) {
                let i = choose|i: int| 0 <= i < rest.len() && (#[trigger] rest[i]).covers(b);
                if i == 0 {
                    assert(s[0].covers(b));
                } else {
                    assert(s[i].covers(b));
                }
            }
        }
        assert(!any_covers(rest, x)) by {
            if any_covers(rest, x) {
                let i = choose|i: int| 0 <= i < rest.len() && (#[trigger] rest[i]).covers(x);
                if i > 0 {
                    assert(s[i].covers(x) && s[0].covers(x));
                }
            }
        }
        assert forall|i: int, j: int, b: u64|
            #![trigger rest[i].covers(b), rest[j].covers(b)]
            0 <= i < rest.len() && 0 <= j < rest.len() && rest[i].covers(b) && rest[j].covers(
                b,
            ) implies i == j by {
            assert(s[i].covers(b)) by {
                if i == 0 {
                    assert(s[0].covers(b));
                }
            }
            assert(s[j].covers(b)) by {
                if j == 0 {
                    assert(s[0].covers(b));
                }
            }
        }
    } else {
        lemma_covers_split(s, 1, total);
        let a = s.take(1);
        assert forall|b: u64| #[trigger] any_covers(a, b) <==> b == x by {
            if b == x {
                assert(a[0].covers(b));
            }
        }
        assert(any_covers(a, x));
    }
}

/// Puts the blocks that `extents` cover on the list of free blocks. Where the
/// first trunk has no room, blocks among them become trunks.
pub(crate) fn give_back<L1: FileLayer>(
    layer1: &mut L1,
    shift: u8,
    head: &mut u32,
    given: Vec<TrunkExtent>,
    Ghost(total): Ghost<nat>,
) -> (r: Result<(), SfsError>)
    requires
        laid_out(old(layer1).bytes(), old(layer1).offset(), shift, total),
        free_ok(*old(head), blocks_in(*old(layer1), shift, total)),
        extents_ok(given@, total),
        forall|i: int| 0 <= i < given@.len() ==> !(#[trigger] given@[i]).unused(),
        forall|b: u64| #[trigger]
            any_covers(given@, b) ==> !on_list(
                *old(head),
                blocks_in(*old(layer1), shift, total),
                b,
            ),
    ensures
        final(layer1).offset() == old(layer1).offset(),
        final(layer1).faults() >= old(layer1).faults(),
        (r is Ok) == (final(layer1).faults() == old(layer1).faults()),
        L1::reads_always() && old(layer1).bytes().len() <= L1::room() ==> r is Ok,
        r is Ok ==> {
            &&& laid_out(final(layer1).bytes(), final(layer1).offset(), shift, total)
            &&& handed_back(
                *old(head),
                blocks_in(*old(layer1), shift, total),
                given@,
                *final(head),
                blocks_in(*final(layer1), shift, total),
                Seq::empty(),
            )
        },
{
    let ghost head0 = *head;
    let ghost img0 = blocks_in(*layer1, shift, total);
    let ghost all = given@;
    let size: usize = size_of_block(shift);
    let mut extents: Vec<TrunkExtent> = given;
    let mut at: usize = 0;
    proof {
        assert(extents@.skip(0) =~= all);
    }
    if *head != BLOCK_INDEX_SENTINEL {
        let trunk_index: u32 = *head;
        proof {
            let t = trunks(trunk_index, img0);
            lemma_list_split(t, trunk_index, img0);
            assert(t[0] == trunk_index);
            assert forall|b: u64|
                #![trigger any_covers(trunk_extents(img0[trunk_index as int]), b)]
                #![trigger any_covers(all, b)]
                !(any_covers(trunk_extents(img0[trunk_index as int]), b) && any_covers(all, b)) by {
                if any_covers(trunk_extents(img0[trunk_index as int]), b) {
                    assert(is_free(t, img0, b));
                    assert(on_list(head0, img0, b));
                }
            }
        }
        let trunk: Vec<u8> = match read_raw_block(
            layer1,
            shift,
            trunk_index as u64,
            Ghost(total),
        ) {
            Ok(trunk) => trunk,
            Err(e) => {
                return Err(e);
            },
        };
        let (next, mut slots) = parse_trunk(trunk.as_slice());
        at = fill_extents(&mut slots, &extents, 0, Ghost(total));
        if at > 0 {
            let block: Vec<u8> = build_trunk(next, &slots, size);
            proof {
                lemma_covers_split(all, at as int, total);
                let part = extents@.subrange(0, at as int);
                assert(part =~= all.take(at as int));
                assert forall|b: u64| #[trigger] any_covers(part, b) implies !on_list(
                    head0,
                    img0,
                    b,
                ) by {
                    assert(any_covers(all, b));
                }
                lemma_trunk_filled(trunk_index, img0, block@, part);
            }
            match write_raw_block(layer1, shift, trunk_index as u64, &block, Ghost(total)) {
                Ok(()) => {},
                Err(e) => {
                    return Err(e);
                },
            }
        }
    }
    assert(handed_back(
        head0,
        img0,
        all,
        *head,
        blocks_in(*layer1, shift, total),
        extents@.skip(at as int),
    )) by {
        lemma_covers_split(all, at as int, total);
        assert(extents@.subrange(0, at as int) =~= all.take(at as int));
        let img = blocks_in(*layer1, shift, total);
        let left = extents@.skip(at as int);
        let part = all.take(at as int);
        assert forall|b: u64|
            #![trigger on_list(*head, img, b)]
            #![trigger any_covers(left, b)]
            !(on_list(*head, img, b) && any_covers(left, b)) by {
            assert(any_covers(all, b) <==> any_covers(part, b) || any_covers(left, b));
            assert(on_list(*head, img, b) ==> on_list(head0, img0, b) || any_covers(part, b));
        }
        assert forall|b: u64| #[trigger]
            on_list(head0, img0, b) || any_covers(all, b) <==> on_list(*head, img, b) || any_covers(
                left,
                b,
            ) by {
            assert(any_covers(all, b) <==> any_covers(part, b) || any_covers(left, b));
        }
    }
    assert(extents_ok(extents@.skip(at as int), total)) by {
        lemma_covers_split(all, at as int, total);
    }
    while at < extents.len()
        invariant
            at <= extents@.len(),
            laid_out(layer1.bytes(), layer1.offset(), shift, total),
            layer1.offset() == old(layer1).offset(),
            layer1.faults() == old(layer1).faults(),
            layer1.bytes().len() == old(layer1).bytes().len(),
            size == pow2(shift as nat),
            16 <= size <= 0x8000_0000,
            img0 == blocks_in(*old(layer1), shift, total),
            head0 == *old(head),
            all == given@,
            extents_ok(extents@.skip(at as int), total),
            forall|i: int| at <= i < extents@.len() ==> !(#[trigger] extents@[i]).unused(),
            handed_back(
                head0,
                img0,
                all,
                *head,
                blocks_in(*layer1, shift, total),
                extents@.skip(at as int),
            ),
        decreases
                extents@.len() - at,
                if at < extents@.len() {
                    extents@[at as int].length as int
                } else {
                    0
                },
    {
        let ghost img = blocks_in(*layer1, shift, total);
        let ghost before = extents@.skip(at as int);
        let first: TrunkExtent = extents[at];
        let trunk_block: u32 = first.start;
        proof {
            assert(before[0] == first);
            lemma_first_aside(before, total);
            assert(1 <= first.start && first.start + first.length <= total);
        }
        if first.length > 1 {
            extents.set(at, TrunkExtent { start: first.start + 1, length: first.length - 1 });
            proof {
                assert(extents@.skip(at as int) =~= before.update(
                    0,
                    TrunkExtent { start: (first.start + 1) as u32, length: (first.length - 1) as u32 },
                ));
            }
        } else {
            at = at + 1;
            proof {
                assert(extents@.skip(at as int) =~= before.skip(1));
            }
        }
        let ghost rest = extents@.skip(at as int);
        let mut slots: Vec<TrunkExtent> = empty_extents((size - 4) / 8);
        proof {
            assert(slots@.len() == extent_count(size as nat));
            assert forall|b: u64| !any_covers(slots@, b) by {}
            assert(extents_ok(slots@, total));
        }
        let next: usize = fill_extents(&mut slots, &extents, at, Ghost(total));
        let block: Vec<u8> = build_trunk(*head, &slots, size);
        proof {
            let k = next - at;
            lemma_covers_split(rest, k, total);
            let part = rest.take(k);
            let left = rest.skip(k);
            assert(extents@.subrange(at as int, next as int) =~= part);
            assert(extents@.skip(next as int) =~= left);
            assert(any_covers(before, trunk_block as u64));
            assert forall|b: u64| #[trigger] any_covers(slots@, b) <==> any_covers(part, b) by {}
            assert forall|b: u64| #[trigger] any_covers(slots@, b) implies !on_list(
                *head,
                img,
                b,
            ) by {
                assert(any_covers(part, b));
                assert(any_covers(rest, b));
                assert(any_covers(before, b));
            }
            assert(!any_covers(slots@, trunk_block as u64)) by {
                assert(any_covers(rest, trunk_block as u64) <==> any_covers(
                    part,
                    trunk_block as u64,
                ) || any_covers(left, trunk_block as u64));
            }
            lemma_trunk_added(*head, img, trunk_block, block@);
            let after = img.update(trunk_block as int, block@);
            assert forall|b: u64| #[trigger]
                on_list(head0, img0, b) || any_covers(all, b) <==> on_list(trunk_block, after, b)
                    || any_covers(left, b) by {
                assert(on_list(head0, img0, b) || any_covers(all, b) <==> on_list(*head, img, b)
                    || any_covers(before, b));
                assert(any_covers(before, b) <==> b == trunk_block || any_covers(rest, b));
                assert(any_covers(rest, b) <==> any_covers(part, b) || any_covers(left, b));
                assert(any_covers(slots@, b) <==> any_covers(part, b));
            }
            assert forall|b: u64|
                #![trigger on_list(trunk_block, after, b)]
                #![trigger any_covers(left, b)]
                !(on_list(trunk_block, after, b) && any_covers(left, b)) by {
                assert(any_covers(rest, b) <==> any_covers(part, b) || any_covers(left, b));
                assert(any_covers(before, b) <==> b == trunk_block || any_covers(rest, b));
                assert(any_covers(slots@, b) <==> any_covers(part, b));
                assert(!(any_covers(part, b) && any_covers(left, b)));
                assert(!(on_list(*head, img, b) && any_covers(before, b)));
            }
            assert forall|b: u64|
                #![trigger on_list(head0, img0, b)]
                b < img0.len() && !on_list(head0, img0, b) && !any_covers(all, b) implies after[b as int]
                == img0[b as int] by {
                assert(on_list(head0, img0, b) || any_covers(all, b) <==> on_list(*head, img, b)
                    || any_covers(before, b));
            }
            assert(handed_back(head0, img0, all, trunk_block, after, left));
        }
        match write_raw_block(layer1, shift, trunk_block as u64, &block, Ghost(total)) {
            Ok(()) => {},
            Err(e) => {
                return Err(e);
            },
        }
        *head = trunk_block;
        at = next;
    }
    proof {
        assert(extents@.skip(at as int) =~= Seq::<TrunkExtent>::empty());
    }
    Ok(())
}

} // verus!
