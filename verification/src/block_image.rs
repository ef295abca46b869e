//! The blocks in a file, and what block 0 tells of them.

use crate::block_layer::{empty_slots, zero_bytes};
use crate::bytes::{
    after_read, copy_range, get_le, law_le_round_trip, le_bytes, le_value, lemma_le_bytes_len,
    lemma_pow256_values, overlay, pow256, push_le, read_count, same_bytes, zeros,
};
use crate::file_layer::{file_written, resized};
use crate::free_list::BLOCK_INDEX_SENTINEL;
use crate::pyramid::lemma_div_mod;
use crate::types::{text_num, SfsError};
use vstd::prelude::*;

verus! {

// ---------------------------------------------------------------------------
// The blocks of a file
// ---------------------------------------------------------------------------

/// The position in the file at which block `b` begins.
pub open spec fn block_pos(off: nat, size: nat, b: int) -> int {
    off + b * size
}

/// Block `b` of a file.
pub open spec fn block_of(file: Seq<u8>, off: nat, size: nat, b: int) -> Seq<u8> {
    file.subrange(block_pos(off, size, b), block_pos(off, size, b) + size)
}

/// The first `total` blocks of a file.
pub open spec fn image(file: Seq<u8>, off: nat, size: nat, total: nat) -> Seq<Seq<u8>> {
    Seq::new(total, |b: int| block_of(file, off, size, b))
}

/// A file of so many blocks is so long at least.
pub open spec fn reaches(file: Seq<u8>, off: nat, size: nat, total: nat) -> bool {
    off + total * size <= file.len()
}

/// A block of the file ends before the file does.
pub proof fn lemma_block_in_file(off: nat, size: nat, total: nat, b: int)
    requires
        0 <= b < total,
    ensures
        off <= block_pos(off, size, b),
        block_pos(off, size, b) + size <= off + total * size,
{
    assert(b * size + size <= total * size) by (nonlinear_arith)
        requires
            b + 1 <= total,
            size >= 0,
    ;
    assert(0 <= b * size) by (nonlinear_arith)
        requires
            0 <= b,
            size >= 0,
    ;
}

/// Two blocks do not overlap.
proof fn lemma_blocks_apart(off: nat, size: nat, a: int, b: int)
    requires
        a < b,
    ensures
        block_pos(off, size, a) + size <= block_pos(off, size, b),
{
    assert(a * size + size <= b * size) by (nonlinear_arith)
        requires
            a + 1 <= b,
            size >= 0,
    ;
}

/// Reading a part of a block from the file gives that part.
pub proof fn lemma_block_read(
    file: Seq<u8>,
    off: nat,
    size: nat,
    total: nat,
    b: int,
    at: int,
    buf: Seq<u8>,
)
    requires
        reaches(file, off, size, total),
        0 <= b < total,
        0 <= at,
        at + buf.len() <= size,
    ensures
        read_count(file.len() as int, block_pos(off, size, b) + at, buf.len() as int) == buf.len(),
        after_read(file, block_pos(off, size, b) + at, buf) == image(
            file,
            off,
            size,
            total,
        )[b].subrange(at, at + buf.len()),
{
    lemma_block_in_file(off, size, total, b);
    assert(after_read(file, block_pos(off, size, b) + at, buf) =~= image(
        file,
        off,
        size,
        total,
    )[b].subrange(at, at + buf.len()));
}

/// Writing a part of a block to the file changes that part and nothing else.
pub proof fn lemma_block_written(
    file: Seq<u8>,
    off: nat,
    size: nat,
    total: nat,
    b: int,
    at: int,
    data: Seq<u8>,
)
    requires
        reaches(file, off, size, total),
        0 <= b < total,
        0 <= at,
        at + data.len() <= size,
    ensures
        ({
            let after = file_written(file, block_pos(off, size, b) + at, data);
            let img = image(file, off, size, total);
            &&& after.len() == file.len()
            &&& after.take(off as int) == file.take(off as int)
            &&& image(after, off, size, total) == img.update(b, overlay(img[b], at, data))
        }),
{
    let pos = block_pos(off, size, b);
    let after = file_written(file, pos + at, data);
    let img = image(file, off, size, total);
    let goal = img.update(b, overlay(img[b], at, data));
    lemma_block_in_file(off, size, total, b);
    assert(after.take(off as int) =~= file.take(off as int));
    assert forall|c: int| 0 <= c < total implies image(after, off, size, total)[c] == goal[c] by {
        lemma_block_in_file(off, size, total, c);
        if c < b {
            lemma_blocks_apart(off, size, c, b);
        } else if b < c {
            lemma_blocks_apart(off, size, b, c);
        }
        assert(image(after, off, size, total)[c] =~= goal[c]);
    }
    assert(image(after, off, size, total) =~= goal);
}

/// A file made longer by whole blocks has zero blocks at its end.
pub proof fn lemma_image_grown(file: Seq<u8>, off: nat, size: nat, total: nat, more: nat)
    requires
        file.len() == off + total * size,
    ensures
        ({
            let after = resized(file, (off + (total + more) * size) as nat);
            &&& after.len() == off + (total + more) * size
            &&& after.take(off as int) == file.take(off as int)
            &&& image(after, off, size, total + more) == image(file, off, size, total) + Seq::new(
                more,
                |i: int| zero_bytes(size),
            )
        }),
{
    assert((total + more) * size >= total * size >= 0) by (nonlinear_arith)
        requires
            more >= 0,
            size >= 0,
            total >= 0,
    ;
    let after = resized(file, (off + (total + more) * size) as nat);
    let goal = image(file, off, size, total) + Seq::new(more, |i: int| zero_bytes(size));
    assert(after.take(off as int) =~= file.take(off as int));
    assert forall|c: int| 0 <= c < total + more implies image(after, off, size, total + more)[c]
        == goal[c] by {
        lemma_block_in_file(off, size, total + more, c);
        if c < total {
            lemma_block_in_file(off, size, total, c);
        } else {
            assert(c * size >= total * size) by (nonlinear_arith)
                requires
                    c >= total,
                    size >= 0,
            ;
        }
        assert(image(after, off, size, total + more)[c] =~= goal[c]);
    }
    assert(image(after, off, size, total + more) =~= goal);
}

/// Byte `p` of a run of blocks, from block `start` on, in the file.
pub proof fn lemma_run_in_file(
    file: Seq<u8>,
    off: nat,
    size: nat,
    total: nat,
    start: int,
    p: int,
)
    requires
        reaches(file, off, size, total),
        size >= 1,
        0 <= start,
        0 <= p,
        start + (p / size as int) < total,
    ensures
        block_pos(off, size, start) + p < off + total * size,
        image(file, off, size, total)[start + p / size as int][p % size as int] == file[block_pos(
            off,
            size,
            start,
        ) + p],
{
    let j = p / size as int;
    let q = p % size as int;
    lemma_div_mod(p, size as int);
    assert(j >= 0) by (nonlinear_arith)
        requires
            p == j * size + q,
            0 <= q < size,
            p >= 0,
    ;
    lemma_block_in_file(off, size, total, start + j);
    assert((start + j) * size == start * size + j * size) by (nonlinear_arith);
}

/// Writing across a run of blocks changes the bytes of the run that were
/// written, and nothing else.
pub proof fn lemma_run_written_in_file(
    file: Seq<u8>,
    off: nat,
    size: nat,
    total: nat,
    start: int,
    at: int,
    data: Seq<u8>,
)
    requires
        reaches(file, off, size, total),
        size >= 1,
        0 <= start,
        0 <= at,
        data.len() > 0,
        start + ((at + data.len() - 1) / size as int) < total,
    ensures
        ({
            let after = file_written(file, block_pos(off, size, start) + at, data);
            let img = image(file, off, size, total);
            let img2 = image(after, off, size, total);
            &&& after.len() == file.len()
            &&& after.take(off as int) == file.take(off as int)
            &&& forall|b: int|
                0 <= b < total ==> (#[trigger] img2[b]).len() == size && forall|q: int|
                    0 <= q < size ==> #[trigger] img2[b][q] == if at <= (b - start) * size + q < at
                        + data.len() {
                        data[(b - start) * size + q - at]
                    } else {
                        img[b][q]
                    }
        }),
{
    let pos = block_pos(off, size, start);
    lemma_run_in_file(file, off, size, total, start, at + data.len() - 1);
    let after = file_written(file, pos + at, data);
    let img = image(file, off, size, total);
    let img2 = image(after, off, size, total);
    assert(start * size >= 0) by (nonlinear_arith)
        requires
            start >= 0,
            size >= 0,
    ;
    assert(after.take(off as int) =~= file.take(off as int));
    assert forall|b: int| 0 <= b < total implies (#[trigger] img2[b]).len() == size && forall|q: int|
        0 <= q < size ==> #[trigger] img2[b][q] == if at <= (b - start) * size + q < at
            + data.len() {
            data[(b - start) * size + q - at]
        } else {
            img[b][q]
        } by {
        lemma_block_in_file(off, size, total, b);
        assert((b - start) * size == b * size - start * size) by (nonlinear_arith);
        assert forall|q: int| 0 <= q < size implies #[trigger] img2[b][q] == if at <= (b - start)
            * size + q < at + data.len() {
            data[(b - start) * size + q - at]
        } else {
            img[b][q]
        } by {
            let i = block_pos(off, size, b) + q;
            assert(img2[b][q] == after[i]);
            assert(img[b][q] == file[i]);
            assert(i - (pos + at) == (b - start) * size + q - at);
        }
    }
}

// ---------------------------------------------------------------------------
// Block 0
// ---------------------------------------------------------------------------

/// The version of the layout of block 0.
pub const BLOCK0_VERSION: u8 = 1;

/// The size of the fixed part of block 0.
pub const B0_SLOTS_OFFSET: u64 = 10;

/// The letters that block 0 starts with: "blk0".
pub open spec fn block0_magic() -> Seq<u8> {
    seq![98u8, 108u8, 107u8, 48u8]
}

/// The first trunk of the list of free blocks, as block 0 tells it.
pub open spec fn block0_head(b0: Seq<u8>) -> u32 {
    le_value(b0.subrange(5, 9)) as u32
}

/// The position of slot `k` of block 0: its length, then what it holds.
pub open spec fn slot_pos(b0: Seq<u8>, k: nat) -> nat
    decreases k,
{
    if k == 0 {
        B0_SLOTS_OFFSET as nat
    } else {
        slot_pos(b0, (k - 1) as nat) + 2 + slot_len(b0, slot_pos(b0, (k - 1) as nat))
    }
}

/// The length that stands at a position.
pub open spec fn slot_len(b0: Seq<u8>, pos: nat) -> nat {
    le_value(b0.subrange(pos as int, pos + 2int))
}

/// The slots up to `k` lie within block 0.
pub open spec fn slots_fit(b0: Seq<u8>, k: nat) -> bool
    decreases k,
{
    k > 0 ==> {
        let pos = slot_pos(b0, (k - 1) as nat);
        &&& slots_fit(b0, (k - 1) as nat)
        &&& pos + 2 <= b0.len()
        &&& pos + 2 + slot_len(b0, pos) <= b0.len()
    }
}

/// Block 0 is in order.
pub open spec fn block0_ok(b0: Seq<u8>) -> bool {
    &&& b0.len() >= B0_SLOTS_OFFSET
    &&& b0.subrange(0, 4) == block0_magic()
    &&& b0[4] == BLOCK0_VERSION
    &&& slots_fit(b0, b0[9] as nat)
}

/// What slot `k` holds.
pub open spec fn slot_at(b0: Seq<u8>, k: nat) -> Seq<u8> {
    let pos = slot_pos(b0, k);
    b0.subrange(pos + 2int, pos + 2int + slot_len(b0, pos))
}

/// What the slots hold.
pub open spec fn block0_slots(b0: Seq<u8>) -> Seq<Seq<u8>> {
    Seq::new(b0[9] as nat, |k: int| slot_at(b0, k as nat))
}

/// Where a slot of block 0 is.
#[derive(Debug, Clone, Copy)]
pub struct Block0SlotInfo {
    /// The position of what the slot holds.
    pub offset: usize,
    /// The length of what the slot holds.
    pub payload_len: u16,
}

/// The slots are where block 0 says.
pub open spec fn infos_match(infos: Seq<Block0SlotInfo>, b0: Seq<u8>) -> bool {
    &&& infos.len() == b0[9]
    &&& forall|k: int|
        0 <= k < infos.len() ==> {
            &&& (#[trigger] infos[k]).offset == slot_pos(b0, k as nat) + 2
            &&& infos[k].payload_len == slot_len(b0, slot_pos(b0, k as nat))
        }
}

/// A slot that fits lies within block 0, and before the slots behind it.
pub proof fn lemma_slot_bounds(b0: Seq<u8>, k: nat, n: nat)
    requires
        slots_fit(b0, n),
        k < n,
    ensures
        slots_fit(b0, k),
        B0_SLOTS_OFFSET <= slot_pos(b0, k),
        slot_pos(b0, k) + 2 + slot_len(b0, slot_pos(b0, k)) <= slot_pos(b0, n),
        slot_pos(b0, n) <= b0.len(),
        slot_pos(b0, k) + 2 <= b0.len(),
        slot_pos(b0, k) + 2 + slot_len(b0, slot_pos(b0, k)) <= b0.len(),
    decreases n,
{
    if k + 1 < n {
        lemma_slot_bounds(b0, k, (n - 1) as nat);
    }
    lemma_slot_pos_min(b0, k);
}

proof fn lemma_slot_pos_min(b0: Seq<u8>, k: nat)
    ensures
        slot_pos(b0, k) >= B0_SLOTS_OFFSET,
    decreases k,
{
    if k > 0 {
        lemma_slot_pos_min(b0, (k - 1) as nat);
    }
}

/// Two blocks that tell the same lengths have their slots at the same places.
proof fn lemma_slots_frame(a: Seq<u8>, b: Seq<u8>, n: nat)
    requires
        a.len() == b.len(),
        slots_fit(a, n),
        forall|k: nat|
            k < n ==> slot_len(b, #[trigger] slot_pos(a, k)) == slot_len(a, slot_pos(a, k)),
    ensures
        slots_fit(b, n),
        slot_pos(b, n) == slot_pos(a, n),
    decreases n,
{
    if n > 0 {
        lemma_slots_frame(a, b, (n - 1) as nat);
        assert(slot_len(b, slot_pos(a, (n - 1) as nat)) == slot_len(a, slot_pos(a, (n - 1) as nat)));
    }
}

/// Block 0 after the first trunk was noted in it.
pub open spec fn with_head(b0: Seq<u8>, head: u32) -> Seq<u8> {
    overlay(b0, 5, le_bytes(head as nat, 4))
}

/// The first trunk is noted, and the slots stay as they are.
pub proof fn lemma_with_head(b0: Seq<u8>, head: u32, infos: Seq<Block0SlotInfo>)
    requires
        block0_ok(b0),
        infos_match(infos, b0),
    ensures
        block0_ok(with_head(b0, head)),
        with_head(b0, head).len() == b0.len(),
        block0_head(with_head(b0, head)) == head,
        block0_slots(with_head(b0, head)) == block0_slots(b0),
        infos_match(infos, with_head(b0, head)),
{
    let a = with_head(b0, head);
    lemma_pow256_values();
    lemma_le_bytes_len(head as nat, 4);
    law_le_round_trip(head as nat, 4);
    assert(a.subrange(5, 9) =~= le_bytes(head as nat, 4));
    assert(a.subrange(0, 4) =~= b0.subrange(0, 4));
    let n = b0[9] as nat;
    assert forall|k: nat| k < n implies slot_len(a, #[trigger] slot_pos(b0, k)) == slot_len(
        b0,
        slot_pos(b0, k),
    ) by {
        lemma_slot_bounds(b0, k, n);
        assert(a.subrange(slot_pos(b0, k) as int, slot_pos(b0, k) + 2int) =~= b0.subrange(
            slot_pos(b0, k) as int,
            slot_pos(b0, k) + 2int,
        ));
    }
    lemma_slots_frame(b0, a, n);
    assert forall|k: nat| k < n implies slot_pos(a, k) == slot_pos(b0, k) && slot_at(a, k)
        == #[trigger] slot_at(b0, k) by {
        lemma_slot_bounds(b0, k, n);
        lemma_slots_frame(b0, a, k);
        assert(slot_len(a, slot_pos(b0, k)) == slot_len(b0, slot_pos(b0, k)));
        assert(slot_at(a, k) =~= slot_at(b0, k));
    }
    assert(block0_slots(a) =~= block0_slots(b0));
    assert forall|k: int| 0 <= k < infos.len() implies (#[trigger] infos[k]).offset == slot_pos(
        a,
        k as nat,
    ) + 2 && infos[k].payload_len == slot_len(a, slot_pos(a, k as nat)) by {
        assert(slot_at(a, k as nat) == slot_at(b0, k as nat));
        assert(slot_len(a, slot_pos(b0, k as nat)) == slot_len(b0, slot_pos(b0, k as nat)));
    }
}

/// Block 0 after slot `k` was written.
pub open spec fn with_slot(b0: Seq<u8>, k: nat, data: Seq<u8>) -> Seq<u8> {
    overlay(b0, slot_pos(b0, k) + 2int, data)
}

/// A slot is written, and all else stays as it is.
pub proof fn lemma_with_slot(b0: Seq<u8>, k: nat, data: Seq<u8>, infos: Seq<Block0SlotInfo>)
    requires
        block0_ok(b0),
        infos_match(infos, b0),
        k < b0[9],
        data.len() == slot_len(b0, slot_pos(b0, k)),
    ensures
        block0_ok(with_slot(b0, k, data)),
        with_slot(b0, k, data).len() == b0.len(),
        block0_head(with_slot(b0, k, data)) == block0_head(b0),
        block0_slots(with_slot(b0, k, data)) == block0_slots(b0).update(k as int, data),
        infos_match(infos, with_slot(b0, k, data)),
{
    let a = with_slot(b0, k, data);
    let n = b0[9] as nat;
    lemma_slot_bounds(b0, k, n);
    assert(a.subrange(0, 4) =~= b0.subrange(0, 4));
    assert(a.subrange(5, 9) =~= b0.subrange(5, 9));
    assert forall|j: nat| j < n implies slot_len(a, #[trigger] slot_pos(b0, j)) == slot_len(
        b0,
        slot_pos(b0, j),
    ) by {
        lemma_slot_bounds(b0, j, n);
        if j < k {
            lemma_slot_bounds(b0, j, k);
        } else if k < j {
            lemma_slot_bounds(b0, k, j);
        }
        assert(a.subrange(slot_pos(b0, j) as int, slot_pos(b0, j) + 2int) =~= b0.subrange(
            slot_pos(b0, j) as int,
            slot_pos(b0, j) + 2int,
        ));
    }
    lemma_slots_frame(b0, a, n);
    let goal = block0_slots(b0).update(k as int, data);
    assert forall|j: nat| j < n implies slot_pos(a, j) == #[trigger] slot_pos(b0, j) && slot_at(
        a,
        j,
    ) == goal[j as int] by {
        lemma_slot_bounds(b0, j, n);
        lemma_slots_frame(b0, a, j);
        assert(slot_len(a, slot_pos(b0, j)) == slot_len(b0, slot_pos(b0, j)));
        if j < k {
            lemma_slot_bounds(b0, j, k);
        } else if k < j {
            lemma_slot_bounds(b0, k, j);
        }
        assert(slot_at(a, j) =~= goal[j as int]);
    }
    assert(block0_slots(a) =~= goal) by {
        assert forall|j: int| 0 <= j < n implies block0_slots(a)[j] == goal[j] by {
            assert(slot_pos(a, j as nat) == slot_pos(b0, j as nat));
        }
    }
    assert forall|j: int| 0 <= j < infos.len() implies (#[trigger] infos[j]).offset == slot_pos(
        a,
        j as nat,
    ) + 2 && infos[j].payload_len == slot_len(a, slot_pos(a, j as nat)) by {
        assert(slot_pos(a, j as nat) == slot_pos(b0, j as nat));
        assert(slot_len(a, slot_pos(b0, j as nat)) == slot_len(b0, slot_pos(b0, j as nat)));
    }
}

/// How many bytes slots of the given sizes take.
pub open spec fn slots_size(sizes: Seq<u16>) -> nat
    decreases sizes.len(),
{
    if sizes.len() == 0 {
        0
    } else {
        slots_size(sizes.drop_last()) + 2 + sizes.last() as nat
    }
}

/// The bytes of empty slots.
pub open spec fn slots_bytes(sizes: Seq<u16>) -> Seq<u8>
    decreases sizes.len(),
{
    if sizes.len() == 0 {
        Seq::empty()
    } else {
        slots_bytes(sizes.drop_last()) + le_bytes(sizes.last() as nat, 2) + zero_bytes(
            sizes.last() as nat,
        )
    }
}

/// A new block 0: no block is free, and the slots are empty.
pub open spec fn new_block0(sizes: Seq<u16>, size: nat) -> Seq<u8> {
    block0_magic() + seq![BLOCK0_VERSION] + le_bytes(BLOCK_INDEX_SENTINEL as nat, 4)
        + seq![sizes.len() as u8] + slots_bytes(sizes) + zero_bytes(
        (size - B0_SLOTS_OFFSET - slots_size(sizes)) as nat,
    )
}

/// Slots of these sizes fit in a block of `size` bytes.
pub open spec fn sizes_fit(sizes: Seq<u16>, size: nat) -> bool {
    sizes.len() <= 255 && B0_SLOTS_OFFSET + slots_size(sizes) <= size
}

proof fn lemma_slots_bytes_len(sizes: Seq<u16>)
    ensures
        slots_bytes(sizes).len() == slots_size(sizes),
    decreases sizes.len(),
{
    if sizes.len() > 0 {
        lemma_slots_bytes_len(sizes.drop_last());
        lemma_le_bytes_len(sizes.last() as nat, 2);
    }
}

proof fn lemma_slots_size_take(sizes: Seq<u16>, k: nat)
    requires
        k <= sizes.len(),
    ensures
        slots_size(sizes.take(k as int)) <= slots_size(sizes),
    decreases sizes.len(),
{
    if k < sizes.len() {
        lemma_slots_size_take(sizes.drop_last(), k);
        assert(sizes.drop_last().take(k as int) =~= sizes.take(k as int));
    } else {
        assert(sizes.take(k as int) =~= sizes);
    }
}

/// The bytes of the first slots stand at the begin of the bytes of all.
proof fn lemma_slots_bytes_take(sizes: Seq<u16>, k: nat)
    requires
        k <= sizes.len(),
    ensures
        slots_size(sizes.take(k as int)) <= slots_size(sizes),
        slots_bytes(sizes).take(slots_size(sizes.take(k as int)) as int) == slots_bytes(
            sizes.take(k as int),
        ),
    decreases sizes.len(),
{
    lemma_slots_bytes_len(sizes);
    lemma_slots_size_take(sizes, k);
    let part = sizes.take(k as int);
    lemma_slots_bytes_len(part);
    if k < sizes.len() {
        let less = sizes.drop_last();
        lemma_slots_bytes_take(less, k);
        lemma_slots_bytes_len(less);
        assert(less.take(k as int) =~= part);
        assert(slots_bytes(sizes).take(slots_size(part) as int) =~= slots_bytes(less).take(
            slots_size(part) as int,
        ));
    } else {
        assert(part =~= sizes);
        assert(slots_bytes(sizes).take(slots_size(part) as int) =~= slots_bytes(part));
    }
}

proof fn lemma_new_slot(sizes: Seq<u16>, size: nat, k: nat)
    requires
        sizes_fit(sizes, size),
        k <= sizes.len(),
    ensures
        ({
            let b0 = new_block0(sizes, size);
            &&& b0.len() == size
            &&& slots_fit(b0, k)
            &&& slot_pos(b0, k) == B0_SLOTS_OFFSET + slots_size(sizes.take(k as int))
            &&& k < sizes.len() ==> slot_len(b0, slot_pos(b0, k)) == sizes[k as int]
            &&& k < sizes.len() ==> slot_at(b0, k) == zero_bytes(sizes[k as int] as nat)
        }),
    decreases k,
{
    let b0 = new_block0(sizes, size);
    lemma_slots_bytes_len(sizes);
    lemma_le_bytes_len(BLOCK_INDEX_SENTINEL as nat, 4);
    lemma_slots_size_take(sizes, k);
    assert(b0.len() == size);
    if k > 0 {
        lemma_new_slot(sizes, size, (k - 1) as nat);
        assert(sizes.take(k as int).drop_last() =~= sizes.take(k - 1));
    }
    if k < sizes.len() {
        let len = sizes[k as int] as nat;
        let next = sizes.take(k + 1int);
        assert(next.drop_last() =~= sizes.take(k as int));
        lemma_slots_bytes_take(sizes, (k + 1) as nat);
        lemma_slots_bytes_len(sizes.take(k as int));
        lemma_slots_bytes_len(next);
        lemma_le_bytes_len(len, 2);
        lemma_pow256_values();
        law_le_round_trip(len, 2);
        let at = slots_size(sizes.take(k as int));
        let all = slots_bytes(sizes);
        let upto = slots_bytes(next);
        assert(all.take(slots_size(next) as int) == upto);
        assert forall|i: int| 0 <= i < slots_size(next) implies b0[10 + i] == #[trigger] upto[i] by {
            assert(all.take(slots_size(next) as int)[i] == all[i]);
        }
        assert(b0.subrange(10 + at as int, 12int + at) =~= le_bytes(len, 2)) by {
            let got = b0.subrange(10 + at as int, 12int + at);
            assert forall|i: int| 0 <= i < 2 implies #[trigger] got[i] == le_bytes(len, 2)[i] by {
                assert(b0[10 + (at + i)] == upto[at + i]);
            }
        }
        assert(b0.subrange(12 + at as int, 12int + at + len) =~= zero_bytes(len)) by {
            let got = b0.subrange(12 + at as int, 12int + at + len);
            assert forall|i: int| 0 <= i < len implies #[trigger] got[i] == 0u8 by {
                assert(b0[10 + (at + 2 + i)] == upto[at + 2 + i]);
            }
        }
    }
}

/// A new block 0 is in order, tells of no free block, and its slots are empty.
pub proof fn lemma_new_block0(sizes: Seq<u16>, size: nat)
    requires
        sizes_fit(sizes, size),
    ensures
        ({
            let b0 = new_block0(sizes, size);
            &&& b0.len() == size
            &&& block0_ok(b0)
            &&& block0_head(b0) == BLOCK_INDEX_SENTINEL
            &&& block0_slots(b0) == empty_slots(sizes)
        }),
{
    let b0 = new_block0(sizes, size);
    lemma_new_slot(sizes, size, sizes.len());
    lemma_pow256_values();
    lemma_slots_bytes_len(sizes);
    lemma_le_bytes_len(BLOCK_INDEX_SENTINEL as nat, 4);
    law_le_round_trip(BLOCK_INDEX_SENTINEL as nat, 4);
    assert(b0.subrange(0, 4) =~= block0_magic());
    assert(b0.subrange(5, 9) =~= le_bytes(BLOCK_INDEX_SENTINEL as nat, 4));
    assert forall|k: int| 0 <= k < sizes.len() implies block0_slots(b0)[k] == empty_slots(
        sizes,
    )[k] by {
        lemma_new_slot(sizes, size, k as nat);
    }
    assert(block0_slots(b0) =~= empty_slots(sizes));
}

/// Writes a new block 0 down.
pub(crate) fn init_block0(size: usize, sizes: &Vec<u16>) -> (b0: Vec<u8>)
    requires
        sizes_fit(sizes@, size as nat),
    ensures
        b0@ == new_block0(sizes@, size as nat),
{
    let mut b0: Vec<u8> = vec![98u8, 108u8, 107u8, 48u8];
    b0.push(BLOCK0_VERSION);
    push_le(&mut b0, BLOCK_INDEX_SENTINEL as u64, 4);
    b0.push(sizes.len() as u8);
    let ghost head = b0@;
    proof {
        assert(head =~= block0_magic() + seq![BLOCK0_VERSION] + le_bytes(
            BLOCK_INDEX_SENTINEL as nat,
            4,
        ) + seq![sizes@.len() as u8]);
        lemma_le_bytes_len(BLOCK_INDEX_SENTINEL as nat, 4);
        assert(sizes@.take(0) =~= Seq::<u16>::empty());
        assert(b0@ =~= head + slots_bytes(sizes@.take(0)));
    }
    let mut i: usize = 0;
    while i < sizes.len()
        invariant
            i <= sizes@.len(),
            b0@ == head + slots_bytes(sizes@.take(i as int)),
        decreases sizes@.len() - i,
    {
        push_le(&mut b0, sizes[i] as u64, 2);
        let mut payload: Vec<u8> = zeros(sizes[i] as usize);
        b0.append(&mut payload);
        proof {
            let more = sizes@.take(i + 1);
            assert(more.drop_last() =~= sizes@.take(i as int));
            assert(b0@ =~= head + slots_bytes(more));
        }
        i = i + 1;
    }
    proof {
        assert(sizes@.take(i as int) =~= sizes@);
        lemma_slots_bytes_len(sizes@);
    }
    let mut rest: Vec<u8> = zeros(size - b0.len());
    b0.append(&mut rest);
    proof {
        assert(b0@ =~= new_block0(sizes@, size as nat));
    }
    b0
}

/// Reads block 0: the first trunk, and where the slots are.
pub(crate) fn parse_block0(b0: &[u8]) -> (r: Result<(u32, Vec<Block0SlotInfo>), SfsError>)
    ensures
        r is Ok <==> block0_ok(b0@),
        r matches Err(e) ==> e is IoError,
        r matches Ok(found) ==> found.0 == block0_head(b0@) && infos_match(found.1@, b0@),
{
    let len: usize = b0.len();
    if len < 10 {
        return Err(SfsError::IoError("block 0 too small".to_owned()));
    }
    let magic: Vec<u8> = vec![98u8, 108u8, 107u8, 48u8];
    let found: Vec<u8> = copy_range(b0, 0, 4);
    proof {
        assert(magic@ =~= block0_magic());
        lemma_pow256_values();
    }
    if !same_bytes(found.as_slice(), magic.as_slice()) {
        return Err(SfsError::IoError("block 0 magic mismatch: expected 'blk0'".to_owned()));
    }
    if b0[4] != BLOCK0_VERSION {
        return Err(
            SfsError::IoError(text_num("unsupported block 0 version: ", b0[4] as u64, "")),
        );
    }
    let head: u32 = get_le(b0, 5, 4) as u32;
    let count: usize = b0[9] as usize;
    let mut infos: Vec<Block0SlotInfo> = Vec::new();
    let mut pos: usize = 10;
    let mut k: usize = 0;
    while k < count
        invariant
            k <= count == b0@[9],
            len == b0@.len() >= 10,
            b0@.subrange(0, 4) == block0_magic(),
            b0@[4] == BLOCK0_VERSION,
            pow256(2) == 0x1_0000,
            pos == slot_pos(b0@, k as nat),
            pos <= len,
            slots_fit(b0@, k as nat),
            infos@.len() == k,
            forall|j: int|
                0 <= j < k ==> {
                    &&& (#[trigger] infos@[j]).offset == slot_pos(b0@, j as nat) + 2
                    &&& infos@[j].payload_len == slot_len(b0@, slot_pos(b0@, j as nat))
                },
        decreases count - k,
    {
        if len - pos < 2 {
            proof {
                if slots_fit(b0@, count as nat) {
                    lemma_slot_bounds(b0@, k as nat, count as nat);
                }
            }
            return Err(SfsError::IoError("block 0 slot registry truncated".to_owned()));
        }
        let payload_len: u16 = get_le(b0, pos, 2) as u16;
        if len - pos - 2 < payload_len as usize {
            proof {
                if slots_fit(b0@, count as nat) {
                    lemma_slot_bounds(b0@, k as nat, count as nat);
                }
            }
            return Err(SfsError::IoError("block 0 slot payload extends beyond block".to_owned()));
        }
        infos.push(Block0SlotInfo { offset: pos + 2, payload_len });
        pos = pos + 2 + payload_len as usize;
        k = k + 1;
    }
    Ok((head, infos))
}

} // verus!
