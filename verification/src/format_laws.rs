//! Where every byte stands that is written to a file: told by the positions of the bytes
//! and by the bytes of the numbers, the least one first.

use crate::block_image::{
    block0_head, block0_ok, block0_slots, lemma_new_block0, lemma_slot_bounds, new_block0,
    sizes_fit, slot_at, slot_len, slot_pos, with_head, with_slot,
};
use crate::bytes::{
    copy_into, copy_range, get_le, law_le_bytes_of_value, law_le_round_trip, le_bytes, le_value,
    lemma_le_bytes_len, overlay, push_le, same_bytes, zeros,
};
use crate::compressed::{packed_len, packed_ptr};
use crate::descriptor::StreamDescriptor;
use crate::free_list::{extent_count, trunk_extent, trunk_next};
use crate::header_sections::{
    header_size, parsed_header, placed, sections, sections_size, short_at, HeaderSections,
    HeaderView, SlotInfo,
};
use crate::pyramid::index_at;
use crate::sfs::{is_l4_header, l4_header, l4_root, law_l4_header_round_trip};
use crate::stream_table::{
    is_l3_header, l3_header, l3_table, law_l3_header_round_trip, slot_count, slot_of,
};
use crate::terms::{byte_of, law_le_bytes, law_pow256};
use crate::types::{HeaderSlotId, SfsError};
use vstd::arithmetic::power::pow;
use vstd::prelude::*;

verus! {

/// The `w` bytes of `s` from `at` on are those of the number `v`.
pub open spec fn spells(s: Seq<u8>, at: int, w: nat, v: nat) -> bool {
    &&& 0 <= at && at + w <= s.len()
    &&& v < pow(256, w)
    &&& forall|k: int| at <= k < at + w ==> #[trigger] s[k] == byte_of(v, (k - at) as nat)
}

/// A number that is read from some bytes is the one whose bytes they are.
pub proof fn law_spelt_number(s: Seq<u8>, at: int, w: nat, v: nat)
    requires
        0 <= at,
        at + w <= s.len(),
    ensures
        spells(s, at, w, v) <==> le_value(s.subrange(at, at + w)) == v,
{
    let part = s.subrange(at, at + w);
    law_pow256(w);
    law_le_bytes_of_value(part);
    if le_value(part) == v {
        assert forall|k: int| at <= k < at + w implies #[trigger] s[k] == byte_of(
            v,
            (k - at) as nat,
        ) by {
            law_le_bytes(v, w, k - at);
            assert(part[k - at] == s[k]);
        }
    }
    if spells(s, at, w, v) {
        lemma_le_bytes_len(v, w);
        assert forall|k: int| 0 <= k < w implies #[trigger] part[k] == le_bytes(v, w)[k] by {
            law_le_bytes(v, w, k);
            assert(s[at + k] == byte_of(v, k as nat));
        }
        assert(part =~= le_bytes(v, w));
        law_le_round_trip(v, w);
    }
}

proof fn lemma_powers()
    ensures
        pow(256, 0) == 1,
        pow(256, 1) == 256,
        pow(256, 2) == 0x1_0000,
        pow(256, 4) == 0x1_0000_0000,
        pow(256, 8) == 0x1_0000_0000_0000_0000,
{
    crate::bytes::lemma_pow256_values();
    law_pow256(0);
    law_pow256(1);
    law_pow256(2);
    law_pow256(4);
    law_pow256(8);
}

// ---------------------------------------------------------------------------
// Descriptors and the table of them
// ---------------------------------------------------------------------------

/// The bytes of a descriptor: eight for the size, eight for the top block, eight for the
/// capacity, and one for the flags.
pub open spec fn spells_descriptor(s: Seq<u8>, at: int, d: StreamDescriptor) -> bool {
    &&& spells(s, at, 8, d.size as nat)
    &&& spells(s, at + 8, 8, d.top_block as nat)
    &&& spells(s, at + 16, 8, d.reserved as nat)
    &&& at + 25 <= s.len()
    &&& s[at + 24] == d.flags
}

/// A descriptor is written to 25 bytes, and is read from the bytes that it is written to.
/// It is free where all bytes of its top block are 255, and compressed where its flags
/// are odd.
pub proof fn law_call_descriptor(
    d: &StreamDescriptor,
    buf: Vec<u8>,
    data: &[u8],
    e: StreamDescriptor,
    free: bool,
    compressed: bool,
)
    requires
        call_ensures(StreamDescriptor::to_bytes, (d,), buf),
        data@.len() == 25,
        call_ensures(StreamDescriptor::from_bytes, (data,), e),
        call_ensures(StreamDescriptor::is_free, (d,), free),
        call_ensures(StreamDescriptor::is_compressed, (d,), compressed),
    ensures
        buf@.len() == 25,
        spells_descriptor(buf@, 0, *d),
        spells_descriptor(data@, 0, e),
        buf@ == data@ <==> *d == e,
        free <==> forall|k: int| 8 <= k < 16 ==> #[trigger] buf@[k] == 255,
        compressed <==> buf@[24] as int % 2 == 1,
{
    lemma_powers();
    crate::descriptor::law_descriptor_round_trip(*d);
    let s = buf@;
    lemma_decoded(s);
    lemma_decoded(data@);
    if *d == e {
        law_le_bytes_of_value(data@.subrange(0, 8));
        law_le_bytes_of_value(data@.subrange(8, 16));
        law_le_bytes_of_value(data@.subrange(16, 24));
        assert(s =~= data@);
    }
    let top = 0xFFFF_FFFF_FFFF_FFFFnat;
    assert forall|k: nat| k < 8 implies #[trigger] byte_of(top, k) == 255 by {
        lemma_all_ones(k);
    }
    if forall|k: int| 8 <= k < 16 ==> #[trigger] s[k] == 255 {
        assert(spells(s, 8, 8, top));
        law_spelt_number(s, 8, 8, top);
    }
}

proof fn lemma_all_ones(k: nat)
    requires
        k < 8,
    ensures
        byte_of(0xFFFF_FFFF_FFFF_FFFFnat, k) == 255,
{
    lemma_powers();
    vstd::arithmetic::power::lemma_pow_adds(256, 2, 1);
    vstd::arithmetic::power::lemma_pow_adds(256, 4, 1);
    vstd::arithmetic::power::lemma_pow_adds(256, 4, 2);
    vstd::arithmetic::power::lemma_pow_adds(256, 5, 2);
    assert(pow(256, 3) == 0x100_0000);
    assert(pow(256, 5) == 0x100_0000_0000);
    assert(pow(256, 6) == 0x1_0000_0000_0000);
    assert(pow(256, 7) == 0x100_0000_0000_0000);
    let p = pow(256, k);
    if k == 0 {
        assert(0xFFFF_FFFF_FFFF_FFFFint / p == 0xFFFFFFFFFFFFFFFF) by (nonlinear_arith)
            requires
                p == 0x1,
        ;
    } else if k == 1 {
        assert(0xFFFF_FFFF_FFFF_FFFFint / p == 0xFFFFFFFFFFFFFF) by (nonlinear_arith)
            requires
                p == 0x100,
        ;
    } else if k == 2 {
        assert(0xFFFF_FFFF_FFFF_FFFFint / p == 0xFFFFFFFFFFFF) by (nonlinear_arith)
            requires
                p == 0x10000,
        ;
    } else if k == 3 {
        assert(0xFFFF_FFFF_FFFF_FFFFint / p == 0xFFFFFFFFFF) by (nonlinear_arith)
            requires
                p == 0x1000000,
        ;
    } else if k == 4 {
        assert(0xFFFF_FFFF_FFFF_FFFFint / p == 0xFFFFFFFF) by (nonlinear_arith)
            requires
                p == 0x100000000,
        ;
    } else if k == 5 {
        assert(0xFFFF_FFFF_FFFF_FFFFint / p == 0xFFFFFF) by (nonlinear_arith)
            requires
                p == 0x10000000000,
        ;
    } else if k == 6 {
        assert(0xFFFF_FFFF_FFFF_FFFFint / p == 0xFFFF) by (nonlinear_arith)
            requires
                p == 0x1000000000000,
        ;
    } else if k == 7 {
        assert(0xFFFF_FFFF_FFFF_FFFFint / p == 0xFF) by (nonlinear_arith)
            requires
                p == 0x100000000000000,
        ;
    }
}

proof fn lemma_decoded(s: Seq<u8>)
    requires
        s.len() >= 25,
    ensures
        spells_descriptor(s, 0, StreamDescriptor::decoding(s)),
{
    lemma_powers();
    law_pow256(8);
    law_le_bytes_of_value(s.subrange(0, 8));
    law_le_bytes_of_value(s.subrange(8, 16));
    law_le_bytes_of_value(s.subrange(16, 24));
    law_spelt_number(s, 0, 8, le_value(s.subrange(0, 8)));
    law_spelt_number(s, 8, 8, le_value(s.subrange(8, 16)));
    law_spelt_number(s, 16, 8, le_value(s.subrange(16, 24)));
}

/// The descriptors of a table stand one behind the other, 25 bytes each, as many as the
/// table has room for.
pub proof fn law_table_bytes(table: Seq<u8>, i: int)
    requires
        0 <= i < slot_count(table),
    ensures
        slot_count(table) == table.len() / 25,
        spells_descriptor(table, 25 * i, slot_of(table, i)),
{
    let part = table.subrange(25 * i, 25 * i + 25);
    lemma_decoded(part);
    assert(slot_of(table, i) == StreamDescriptor::decoding(part));
    let d = slot_of(table, i);
    assert forall|k: int| 25 * i <= k < 25 * i + 8 implies #[trigger] table[k] == byte_of(
        d.size as nat,
        (k - 25 * i) as nat,
    ) by {
        assert(part[k - 25 * i] == table[k]);
    }
    assert forall|k: int| 25 * i + 8 <= k < 25 * i + 16 implies #[trigger] table[k] == byte_of(
        d.top_block as nat,
        (k - (25 * i + 8)) as nat,
    ) by {
        assert(part[k - 25 * i] == table[k]);
    }
    assert forall|k: int| 25 * i + 16 <= k < 25 * i + 24 implies #[trigger] table[k] == byte_of(
        d.reserved as nat,
        (k - (25 * i + 16)) as nat,
    ) by {
        assert(part[k - 25 * i] == table[k]);
    }
}

// ---------------------------------------------------------------------------
// Headers of the layers
// ---------------------------------------------------------------------------

/// The header of the stream layer has 32 bytes: the letters "pyra" and two spaces, the
/// version, the size, the top block and the capacity of the table, eight bytes each, and
/// the size of a compressed piece as a power of two.
pub proof fn law_l3_header_bytes(table: StreamDescriptor, cbss: u8, data: Seq<u8>)
    requires
        table.flags == 0,
    ensures
        ({
            let h = l3_header(table, cbss);
            &&& h.len() == 32
            &&& h.take(7) == seq![112u8, 121, 114, 97, 32, 32, 2]
            &&& spells(h, 7, 8, table.size as nat)
            &&& spells(h, 15, 8, table.top_block as nat)
            &&& spells(h, 23, 8, table.reserved as nat)
            &&& h[31] == cbss
        }),
        is_l3_header(data) <==> data.len() >= 32 && data.take(7) == seq![
            112u8,
            121,
            114,
            97,
            32,
            32,
            2,
        ],
        data.len() >= 32 ==> {
            &&& spells(data, 7, 8, l3_table(data).size as nat)
            &&& spells(data, 15, 8, l3_table(data).top_block as nat)
            &&& spells(data, 23, 8, l3_table(data).reserved as nat)
            &&& l3_table(data).flags == 0
        },
{
    let h = l3_header(table, cbss);
    law_l3_header_round_trip(table, cbss);
    lemma_three(h);
    assert(h.take(7) =~= seq![112u8, 121, 114, 97, 32, 32, 2]);
    let letters = seq![112u8, 121, 114, 97, 32, 32, 2];
    if data.len() >= 32 {
        lemma_three(data);
        if data.take(7) == letters {
            assert forall|k: int| 0 <= k < 7 implies #[trigger] data[k] == letters[k] by {
                assert(data.take(7)[k] == data[k]);
            }
            assert(data.subrange(0, 6) =~= crate::stream_table::l3_identifier());
        }
        if is_l3_header(data) {
            assert forall|k: int| 0 <= k < 6 implies #[trigger] data[k] == letters[k] by {
                assert(data.subrange(0, 6)[k] == data[k]);
            }
            assert(data.take(7) =~= letters);
        }
    }
}

proof fn lemma_three(h: Seq<u8>)
    requires
        h.len() >= 32,
    ensures
        spells(h, 7, 8, l3_table(h).size as nat),
        spells(h, 15, 8, l3_table(h).top_block as nat),
        spells(h, 23, 8, l3_table(h).reserved as nat),
{
    lemma_powers();
    law_pow256(8);
    law_le_bytes_of_value(h.subrange(7, 15));
    law_le_bytes_of_value(h.subrange(15, 23));
    law_le_bytes_of_value(h.subrange(23, 31));
    law_spelt_number(h, 7, 8, le_value(h.subrange(7, 15)));
    law_spelt_number(h, 15, 8, le_value(h.subrange(15, 23)));
    law_spelt_number(h, 23, 8, le_value(h.subrange(23, 31)));
}

/// The header of the file system has 15 bytes: the letters "filing", the version, and
/// eight bytes for the number of the root directory.
pub proof fn law_l4_header_bytes(root: u64, data: Seq<u8>)
    ensures
        ({
            let h = l4_header(root);
            &&& h.len() == 15
            &&& h.take(7) == seq![102u8, 105, 108, 105, 110, 103, 0]
            &&& spells(h, 7, 8, root as nat)
        }),
        is_l4_header(data) <==> data.len() >= 15 && data.take(7) == seq![
            102u8,
            105,
            108,
            105,
            110,
            103,
            0,
        ],
        data.len() >= 15 ==> spells(data, 7, 8, l4_root(data) as nat),
{
    let h = l4_header(root);
    let letters = seq![102u8, 105, 108, 105, 110, 103, 0];
    lemma_powers();
    law_pow256(8);
    law_l4_header_round_trip(root);
    law_le_bytes_of_value(h.subrange(7, 15));
    law_spelt_number(h, 7, 8, root as nat);
    assert(h.take(7) =~= letters);
    if data.len() >= 15 {
        law_le_bytes_of_value(data.subrange(7, 15));
        law_spelt_number(data, 7, 8, le_value(data.subrange(7, 15)));
        if data.take(7) == letters {
            assert forall|k: int| 0 <= k < 7 implies #[trigger] data[k] == letters[k] by {
                assert(data.take(7)[k] == data[k]);
            }
            assert(data.subrange(0, 6) =~= crate::sfs::l4_identifier());
        }
        if is_l4_header(data) {
            assert forall|k: int| 0 <= k < 6 implies #[trigger] data[k] == letters[k] by {
                assert(data.subrange(0, 6)[k] == data[k]);
            }
            assert(data.take(7) =~= letters);
        }
    }
}

// ---------------------------------------------------------------------------
// Redirectors and trunks
// ---------------------------------------------------------------------------

/// A redirector holds block numbers of `w` bytes, one behind the other. A compression
/// redirector has four bytes for the packed length before them.
pub proof fn law_redirector_bytes(block: Seq<u8>, i: int, w: nat)
    requires
        0 <= i,
        4 + i * w + w <= block.len(),
        0 <= i * w,
    ensures
        spells(block, i * w, w, index_at(block, i, w)),
        spells(block, 0, 4, packed_len(block)),
        spells(block, 4 + i * w, w, packed_ptr(block, i, w)),
{
    law_spelt_number(block, i * w, w, index_at(block, i, w));
    law_spelt_number(block, 0, 4, packed_len(block));
    law_spelt_number(block, 4 + i * w, w, packed_ptr(block, i, w));
}

/// A trunk of the list of free blocks holds four bytes for the next trunk, then as many
/// extents as there is room for, each of them four bytes for the first block and four for
/// their number.
pub proof fn law_trunk_bytes(block: Seq<u8>, i: int)
    requires
        block.len() >= 4,
        0 <= i < extent_count(block.len()),
    ensures
        extent_count(block.len()) == (block.len() - 4) / 8,
        spells(block, 0, 4, trunk_next(block) as nat),
        spells(block, 4 + 8 * i, 4, trunk_extent(block, i).start as nat),
        spells(block, 8 + 8 * i, 4, trunk_extent(block, i).length as nat),
{
    lemma_powers();
    law_pow256(4);
    law_le_bytes_of_value(block.subrange(0, 4));
    law_le_bytes_of_value(block.subrange(4 + 8 * i, 8 + 8 * i));
    law_le_bytes_of_value(block.subrange(8 + 8 * i, 12 + 8 * i));
    law_spelt_number(block, 0, 4, trunk_next(block) as nat);
    law_spelt_number(block, 4 + 8 * i, 4, trunk_extent(block, i).start as nat);
    law_spelt_number(block, 8 + 8 * i, 4, trunk_extent(block, i).length as nat);
}

// ---------------------------------------------------------------------------
// Block 0
// ---------------------------------------------------------------------------

/// Block 0 begins with the letters "blk0" and the version, then has four bytes for the
/// first trunk of the list of free blocks and one for the number of slots. The slots
/// stand one behind the other, each with two bytes for its length before it.
pub proof fn law_block0_bytes(b0: Seq<u8>, k: nat)
    requires
        block0_ok(b0),
        k < b0[9],
    ensures
        b0.take(5) == seq![98u8, 108, 107, 48, 1],
        spells(b0, 5, 4, block0_head(b0) as nat),
        block0_slots(b0).len() == b0[9],
        slot_pos(b0, 0) == 10,
        spells(b0, slot_pos(b0, k) as int, 2, block0_slots(b0)[k as int].len()),
        block0_slots(b0)[k as int] == b0.subrange(
            slot_pos(b0, k) + 2int,
            slot_pos(b0, k) + 2int + block0_slots(b0)[k as int].len(),
        ),
        slot_pos(b0, (k + 1) as nat) == slot_pos(b0, k) + 2 + block0_slots(b0)[k as int].len(),
{
    let letters = seq![98u8, 108, 107, 48, 1];
    lemma_powers();
    law_pow256(4);
    lemma_slot_bounds(b0, k, b0[9] as nat);
    law_le_bytes_of_value(b0.subrange(5, 9));
    law_spelt_number(b0, 5, 4, block0_head(b0) as nat);
    law_spelt_number(b0, slot_pos(b0, k) as int, 2, slot_len(b0, slot_pos(b0, k)));
    assert forall|i: int| 0 <= i < 4 implies #[trigger] b0[i] == letters[i] by {
        assert(b0.subrange(0, 4)[i] == b0[i]);
    }
    assert(b0.take(5) =~= letters);
    assert(slot_at(b0, k).len() == slot_len(b0, slot_pos(b0, k)));
}

/// A new block 0 has no free block listed and empty slots, behind which it is zero; its
/// length is that of a block.
pub proof fn law_new_block0(sizes: Seq<u16>, size: nat, k: int)
    requires
        sizes_fit(sizes, size),
    ensures
        ({
            let b0 = new_block0(sizes, size);
            &&& b0.len() == size
            &&& block0_ok(b0)
            &&& b0[9] == sizes.len()
            &&& forall|i: int| 5 <= i < 9 ==> #[trigger] b0[i] == 255
            &&& 0 <= k < sizes.len() ==> block0_slots(b0)[k] == Seq::new(
                sizes[k] as nat,
                |i: int| 0u8,
            )
        }),
{
    lemma_new_block0(sizes, size);
    let b0 = new_block0(sizes, size);
    lemma_powers();
    lemma_le_bytes_len(0xFFFF_FFFF, 4);
    assert forall|i: int| 5 <= i < 9 implies #[trigger] b0[i] == 255 by {
        law_le_bytes(0xFFFF_FFFF, 4, i - 5);
        lemma_ones((i - 5) as nat);
        assert(b0[i] == le_bytes(0xFFFF_FFFF, 4)[i - 5]);
    }
    if 0 <= k < sizes.len() {
        assert(block0_slots(b0)[k] =~= Seq::new(sizes[k] as nat, |i: int| 0u8));
    }
}

proof fn lemma_ones(k: nat)
    requires
        k < 4,
    ensures
        byte_of(0xFFFF_FFFFnat, k) == 255,
{
    lemma_powers();
    vstd::arithmetic::power::lemma_pow_adds(256, 2, 1);
    assert(pow(256, 3) == 0x100_0000);
    let p = pow(256, k);
    if k == 0 {
        assert(0xFFFF_FFFFint / p == 0xFFFFFFFF) by (nonlinear_arith)
            requires
                p == 0x1,
        ;
    } else if k == 1 {
        assert(0xFFFF_FFFFint / p == 0xFFFFFF) by (nonlinear_arith)
            requires
                p == 0x100,
        ;
    } else if k == 2 {
        assert(0xFFFF_FFFFint / p == 0xFFFF) by (nonlinear_arith)
            requires
                p == 0x10000,
        ;
    } else if k == 3 {
        assert(0xFFFF_FFFFint / p == 0xFF) by (nonlinear_arith)
            requires
                p == 0x1000000,
        ;
    }
}

/// A new first trunk changes four bytes of block 0, and a slot that is written its own;
/// all other bytes are as they were.
pub proof fn law_block0_changed(b0: Seq<u8>, head: u32, k: nat, data: Seq<u8>, i: int)
    requires
        block0_ok(b0),
        k < b0[9],
        data.len() == block0_slots(b0)[k as int].len(),
        0 <= i < b0.len(),
    ensures
        with_head(b0, head).len() == b0.len(),
        spells(with_head(b0, head), 5, 4, head as nat),
        !(5 <= i < 9) ==> with_head(b0, head)[i] == b0[i],
        with_slot(b0, k, data).len() == b0.len(),
        ({
            let at = slot_pos(b0, k) + 2;
            with_slot(b0, k, data)[i] == if at <= i < at + data.len() {
                data[i - at]
            } else {
                b0[i]
            }
        }),
{
    lemma_powers();
    lemma_slot_bounds(b0, k, b0[9] as nat);
    lemma_le_bytes_len(head as nat, 4);
    let a = with_head(b0, head);
    assert(a == overlay(b0, 5, le_bytes(head as nat, 4)));
    assert forall|j: int| 5 <= j < 9 implies #[trigger] a[j] == byte_of(head as nat, (j - 5) as nat) by {
        law_le_bytes(head as nat, 4, j - 5);
    }
    assert(slot_at(b0, k).len() == slot_len(b0, slot_pos(b0, k)));
}

// ---------------------------------------------------------------------------
// A header with sections
// ---------------------------------------------------------------------------

/// The sections stand one behind the other from `at` on, until they reach `end`; each
/// begins with two bytes for its length, which counts these two as well.
pub open spec fn in_line(bytes: Seq<u8>, slots: Seq<SlotInfo>, at: int, end: int) -> bool {
    &&& slots.len() == 0 ==> at >= end
    &&& slots.len() > 0 ==> {
        &&& slots[0].offset == at
        &&& slots.last().offset + 2 + slots.last().payload_len >= end
    }
    &&& forall|i: int|
        0 < i < slots.len() ==> (#[trigger] slots[i]).offset == slots[i - 1].offset + 2 + slots[i
            - 1].payload_len
    &&& forall|i: int|
        0 <= i < slots.len() ==> (#[trigger] slots[i]).offset < end && spells(
            bytes,
            slots[i].offset as int,
            2,
            (slots[i].payload_len + 2) as nat,
        )
}

proof fn lemma_in_line_skip(bytes: Seq<u8>, slots: Seq<SlotInfo>, at: int, end: int)
    requires
        slots.len() > 0,
        at < end,
    ensures
        in_line(bytes, slots, at, end) <==> {
            &&& slots[0].offset == at
            &&& spells(bytes, at, 2, (slots[0].payload_len + 2) as nat)
            &&& in_line(bytes, slots.skip(1), at + 2 + slots[0].payload_len, end)
        },
{
    let rest = slots.skip(1);
    let next = at + 2 + slots[0].payload_len;
    if in_line(bytes, slots, at, end) {
        if rest.len() > 0 {
            assert(rest[0] == slots[1]);
            assert(rest.last() == slots.last());
        } else {
            assert(slots.last() == slots[0]);
        }
        assert forall|i: int| 0 < i < rest.len() implies (#[trigger] rest[i]).offset == rest[i
            - 1].offset + 2 + rest[i - 1].payload_len by {
            assert(rest[i] == slots[i + 1]);
            assert(rest[i - 1] == slots[i]);
        }
        assert forall|i: int| 0 <= i < rest.len() implies (#[trigger] rest[i]).offset < end
            && spells(bytes, rest[i].offset as int, 2, (rest[i].payload_len + 2) as nat) by {
            assert(rest[i] == slots[i + 1]);
        }
    }
    if slots[0].offset == at && spells(bytes, at, 2, (slots[0].payload_len + 2) as nat) && in_line(
        bytes,
        rest,
        next,
        end,
    ) {
        if rest.len() > 0 {
            assert(rest[0] == slots[1]);
            assert(rest.last() == slots.last());
        } else {
            assert(slots.last() == slots[0]);
        }
        assert forall|i: int| 0 < i < slots.len() implies (#[trigger] slots[i]).offset == slots[i
            - 1].offset + 2 + slots[i - 1].payload_len by {
            assert(rest[i - 1] == slots[i]);
            if i > 1 {
                assert(rest[i - 2] == slots[i - 1]);
            }
        }
        assert forall|i: int| 0 <= i < slots.len() implies (#[trigger] slots[i]).offset < end
            && spells(bytes, slots[i].offset as int, 2, (slots[i].payload_len + 2) as nat) by {
            if i > 0 {
                assert(rest[i - 1] == slots[i]);
            }
        }
    }
}

proof fn lemma_sections_in_line(bytes: Seq<u8>, slots: Seq<SlotInfo>, at: int, end: int)
    requires
        0 <= at,
        end <= 65535,
    ensures
        sections(bytes, at, end) == Some(slots) <==> in_line(bytes, slots, at, end),
    decreases
            if at < end {
                end - at
            } else {
                0
            },
{
    lemma_powers();
    law_pow256(2);
    if at >= end {
        if sections(bytes, at, end) == Some(slots) {
            assert(slots.len() == 0);
        }
        if in_line(bytes, slots, at, end) {
            if slots.len() > 0 {
                assert(slots[0].offset < end);
            }
            assert(slots =~= Seq::<SlotInfo>::empty());
        }
    } else if at + 2 > bytes.len() {
        if in_line(bytes, slots, at, end) {
            assert(spells(bytes, slots[0].offset as int, 2, (slots[0].payload_len + 2) as nat));
        }
    } else {
        let len = short_at(bytes, at);
        law_le_bytes_of_value(bytes.subrange(at, at + 2));
        law_spelt_number(bytes, at, 2, len);
        if slots.len() > 0 {
            law_spelt_number(bytes, at, 2, (slots[0].payload_len + 2) as nat);
            lemma_in_line_skip(bytes, slots, at, end);
            if len >= 2 {
                lemma_sections_in_line(bytes, slots.skip(1), at + len, end);
                let first = SlotInfo { offset: at as u64, payload_len: (len - 2) as u16 };
                if sections(bytes, at, end) == Some(slots) {
                    let rest = sections(bytes, at + len, end).unwrap();
                    assert(slots == seq![first] + rest);
                    assert(slots.skip(1) =~= rest);
                    assert(slots[0] == first);
                }
                if in_line(bytes, slots, at, end) {
                    assert(slots[0].payload_len + 2 == len);
                    assert(slots[0] == first);
                    assert(slots =~= seq![first] + slots.skip(1));
                }
            }
        } else {
            if len >= 2 && sections(bytes, at + len, end) is Some {
                let rest = sections(bytes, at + len, end).unwrap();
                assert(sections(bytes, at, end).unwrap().len() == 1 + rest.len());
            }
        }
    }
}

/// The bytes begin with a header: the letters "stream_fs", the version and two bytes for
/// the length of the header; the section of the file, with its length, the letters
/// "ondisk" and its version; and the sections of the layers above.
pub open spec fn begins_with_header(bytes: Seq<u8>, view: HeaderView) -> bool {
    &&& bytes.len() >= 21
    &&& bytes.take(10) == seq![115u8, 116, 114, 101, 97, 109, 95, 102, 115, 0]
    &&& spells(bytes, 10, 2, view.data_offset)
    &&& bytes.subrange(14, 21) == seq![111u8, 110, 100, 105, 115, 107, 0]
    &&& exists|l1: nat| #[trigger]
        spells(bytes, 12, 2, l1) && 9 <= l1 && 12 + l1 <= bytes.len() && in_line(
            bytes,
            view.slots,
            12int + l1,
            view.data_offset as int,
        )
}

/// A header is read if and only if the bytes begin with one, and it tells what stands
/// there.
pub proof fn law_call_parse_header(bytes: &[u8], r: Result<HeaderSections, SfsError>)
    requires
        call_ensures(HeaderSections::parse_header, (bytes,), r),
    ensures
        r is Ok ==> begins_with_header(bytes@, r->Ok_0@),
        r is Err ==> r->Err_0 is IoError && forall|view: HeaderView|
            !#[trigger] begins_with_header(bytes@, view),
{
    let b = bytes@;
    match r {
        Ok(header) => {
            lemma_header_read(b, header@);
        },
        Err(_) => {
            assert forall|view: HeaderView| !#[trigger] begins_with_header(b, view) by {
                lemma_header_read(b, view);
            }
        },
    }
}

proof fn lemma_header_read(b: Seq<u8>, view: HeaderView)
    ensures
        parsed_header(b) == Some(view) <==> begins_with_header(b, view),
{
    let first = seq![115u8, 116, 114, 101, 97, 109, 95, 102, 115, 0];
    let second = seq![111u8, 110, 100, 105, 115, 107, 0];
    lemma_powers();
    law_pow256(2);
    if b.len() >= 21 {
        assert(b.take(10) == first <==> b.subrange(0, 9) == crate::header_sections::sections_magic()
            && b[9] == 0) by {
            lemma_parts(b, 0, crate::header_sections::sections_magic(), 0);
            assert(b.take(10) =~= b.subrange(0, 10));
            assert(first =~= crate::header_sections::sections_magic().push(0));
        }
        assert(b.subrange(14, 21) == second <==> b.subrange(14, 20)
            == crate::header_sections::l1_identifier() && b[20] == 0) by {
            lemma_parts(b, 14, crate::header_sections::l1_identifier(), 0);
            assert(second =~= crate::header_sections::l1_identifier().push(0));
        }
        let end = short_at(b, 10);
        let l1 = short_at(b, 12);
        law_le_bytes_of_value(b.subrange(10, 12));
        law_le_bytes_of_value(b.subrange(12, 14));
        law_spelt_number(b, 10, 2, end);
        law_spelt_number(b, 12, 2, l1);
        law_spelt_number(b, 10, 2, view.data_offset);
        lemma_sections_in_line(b, view.slots, 12int + l1, end as int);
        if begins_with_header(b, view) {
            let l = choose|l: nat| #[trigger]
                spells(b, 12, 2, l) && 9 <= l && 12 + l <= b.len() && in_line(
                    b,
                    view.slots,
                    12int + l,
                    view.data_offset as int,
                );
            law_spelt_number(b, 12, 2, l);
            assert(l == l1);
        }
    }
}

proof fn lemma_parts(b: Seq<u8>, at: int, letters: Seq<u8>, last: u8)
    requires
        0 <= at,
        at + letters.len() + 1 <= b.len(),
    ensures
        b.subrange(at, at + letters.len() + 1) == letters.push(last) <==> b.subrange(
            at,
            at + letters.len(),
        ) == letters && b[at + letters.len()] == last,
{
    let n = letters.len() as int;
    let whole = b.subrange(at, at + n + 1);
    assert(whole.drop_last() =~= b.subrange(at, at + n));
    assert(whole.last() == b[at + n]);
    if whole == letters.push(last) {
        assert(letters.push(last).drop_last() =~= letters);
        assert(letters.push(last).last() == last);
    }
    if b.subrange(at, at + n) == letters && b[at + n] == last {
        assert(whole =~= letters.push(last));
    }
}

proof fn lemma_placed(sizes: Seq<u16>, at: int, i: int)
    requires
        0 <= i < sizes.len(),
        0 <= at,
        at + sections_size(sizes) <= u64::MAX,
    ensures
        placed(sizes, at).len() == sizes.len(),
        placed(sizes, at)[i].payload_len == sizes[i],
        placed(sizes, at)[0].offset == at,
        i > 0 ==> placed(sizes, at)[i].offset == placed(sizes, at)[i - 1].offset + 2 + sizes[i - 1],
        placed(sizes, at).last().offset + 2 + sizes.last() == at + sections_size(sizes),
    decreases sizes.len(),
{
    let rest = sizes.skip(1);
    let next = at + 2 + sizes[0];
    let all = placed(sizes, at);
    assert(all == seq![SlotInfo { offset: at as u64, payload_len: sizes[0] }] + placed(rest, next));
    if rest.len() > 0 {
        lemma_placed(rest, next, if i > 0 {
            i - 1
        } else {
            0
        });
        assert(rest.last() == sizes.last());
        assert(all.last() == placed(rest, next).last());
        if i > 0 {
            assert(rest[i - 1] == sizes[i]);
            assert(all[i] == placed(rest, next)[i - 1]);
            if i > 1 {
                assert(rest[i - 2] == sizes[i - 1]);
                assert(all[i - 1] == placed(rest, next)[i - 2]);
            }
        }
    } else {
        assert(rest =~= Seq::<u16>::empty());
        assert(placed(rest, next).len() == 0);
        assert(sections_size(rest) == 0);
        assert(all.last() == all[0]);
        assert(sizes.last() == sizes[0]);
    }
}

/// A new header has a section for each of the sizes, the first at byte 21; what it tells
/// is what stands in its bytes, whatever comes behind them.
pub proof fn law_call_header_created(
    sizes: &[u16],
    r: (HeaderSections, Vec<u8>),
    i: int,
    data: Seq<u8>,
)
    requires
        crate::header_sections::sizes_fit(sizes@),
        header_size(sizes@) <= 65535,
        call_ensures(HeaderSections::create, (sizes,), r),
    ensures
        ({
            let slots = r.0@.slots;
            &&& slots.len() == sizes@.len()
            &&& r.1@.len() == r.0@.data_offset
            &&& sizes@.len() == 0 ==> r.0@.data_offset == 21
            &&& sizes@.len() > 0 ==> slots[0].offset == 21 && r.0@.data_offset
                == slots.last().offset + 2 + sizes@.last()
            &&& 0 <= i < slots.len() ==> slots[i].payload_len == sizes@[i]
            &&& 0 < i < slots.len() ==> slots[i].offset == slots[i - 1].offset + 2 + sizes@[i - 1]
            &&& begins_with_header(r.1@ + data, r.0@)
        }),
{
    crate::header_sections::law_header_round_trip(sizes@, data);
    lemma_header_read(r.1@ + data, r.0@);
    crate::header_sections::lemma_new_header_len(sizes@);
    if sizes@.len() > 0 {
        lemma_placed(sizes@, 21, if 0 <= i < sizes@.len() {
            i
        } else {
            0
        });
    }
}

/// What is written for a section is two bytes for the length and then what it is to hold,
/// at the place of the section; what is read is what stands behind these two bytes.
pub proof fn law_call_header_slot(
    header: &HeaderSections,
    slot: HeaderSlotId,
    data: &[u8],
    w: Result<(u64, Vec<u8>), SfsError>,
    r: Result<(u64, usize), SfsError>,
)
    requires
        header.wf(),
        call_ensures(HeaderSections::write_header_slot, (header, slot, data), w),
        call_ensures(HeaderSections::read_header_slot, (header, slot), r),
    ensures
        r is Ok <==> slot.pos() < header@.slots.len(),
        w is Ok <==> r is Ok && data@.len() == r->Ok_0.1,
        w is Ok ==> {
            &&& r->Ok_0.0 == w->Ok_0.0 + 2
            &&& w->Ok_0.1@.len() == data@.len() + 2
            &&& spells(w->Ok_0.1@, 0, 2, (data@.len() + 2) as nat)
            &&& w->Ok_0.1@.skip(2) == data@
        },
{
    lemma_powers();
    law_pow256(2);
    if w is Ok {
        let s = w->Ok_0.1@;
        let n = (data@.len() + 2) as nat;
        lemma_le_bytes_len(n, 2);
        law_le_round_trip(n, 2);
        assert(s.subrange(0, 2) =~= le_bytes(n, 2));
        law_spelt_number(s, 0, 2, n);
        assert(s.skip(2) =~= data@);
    }
}

/// A check of the start of a file has one line for each thing that is amiss, and none
/// where the file is as long as its header at least, and the letters, the version and the
/// length are those of the header.
pub proof fn law_call_header_verify(
    header: &HeaderSections,
    file_len: u64,
    prefix: &[u8],
    issues: Vec<String>,
    version: bool,
    length: bool,
    letters: bool,
    short: bool,
)
    requires
        prefix@.len() == 12,
        call_ensures(HeaderSections::verify, (header, file_len, prefix), issues),
        version <==> prefix@[9] == 0,
        length <==> spells(prefix@, 10, 2, header@.data_offset),
        letters <==> prefix@.take(9) == seq![115u8, 116, 114, 101, 97, 109, 95, 102, 115],
        short <==> file_len < header@.data_offset,
    ensures
        issues@.len() == (if version {
            0int
        } else {
            1
        }) + (if length {
            0int
        } else {
            1
        }) + (if letters {
            0int
        } else {
            1
        }) + (if short {
            1int
        } else {
            0
        }),
{
    law_spelt_number(prefix@, 10, 2, header@.data_offset);
    assert(prefix@.take(9) =~= prefix@.subrange(0, 9));
}

// ---------------------------------------------------------------------------
// Bytes
// ---------------------------------------------------------------------------

/// A number is read from its bytes, and appended as its bytes.
pub proof fn law_call_numbers_in_bytes(
    buf: &[u8],
    at: usize,
    w: usize,
    v: u64,
    out: &mut Vec<u8>,
    n: u64,
)
    requires
        w <= 8,
        at + w <= buf@.len(),
        call_ensures(get_le, (buf, at, w), v),
        call_ensures(push_le, (out, n, w), ()),
    ensures
        spells(buf@, at as int, w as nat, v as nat),
        final(out)@.len() == old(out)@.len() + w,
        final(out)@.take(old(out)@.len() as int) == old(out)@,
        (n as int) < pow(256, w as nat) ==> spells(
            final(out)@,
            old(out)@.len() as int,
            w as nat,
            n as nat,
        ),
{
    law_spelt_number(buf@, at as int, w as nat, v as nat);
    let a = old(out)@;
    let b = final(out)@;
    lemma_le_bytes_len(n as nat, w as nat);
    assert(b.take(a.len() as int) =~= a);
    if (n as int) < pow(256, w as nat) {
        assert forall|k: int| a.len() <= k < a.len() + w implies #[trigger] b[k] == byte_of(
            n as nat,
            (k - a.len()) as nat,
        ) by {
            law_le_bytes(n as nat, w as nat, k - a.len());
        }
    }
}

/// Bytes that are copied stand where they were put, or come out as they stood; all others
/// are as they were. Two runs of bytes are the same where they are as long and agree in
/// every place.
pub proof fn law_call_bytes_copied(
    dst: &mut [u8],
    at: usize,
    src: &[u8],
    from: usize,
    to: usize,
    out: Vec<u8>,
    other: &[u8],
    same: bool,
    n: usize,
    blank: Vec<u8>,
    i: int,
)
    requires
        at + src@.len() <= old(dst)@.len(),
        call_ensures(copy_into, (dst, at, src), ()),
        from <= to <= src@.len(),
        call_ensures(copy_range, (src, from, to), out),
        call_ensures(same_bytes, (src, other), same),
        call_ensures(zeros, (n,), blank),
    ensures
        final(dst)@.len() == old(dst)@.len(),
        at <= i < at + src@.len() ==> final(dst)@[i] == src@[i - at],
        0 <= i < old(dst)@.len() && !(at <= i < at + src@.len()) ==> final(dst)@[i] == old(
            dst,
        )@[i],
        out@.len() == to - from,
        0 <= i < to - from ==> out@[i] == src@[from + i],
        same <==> src@.len() == other@.len() && forall|k: int|
            0 <= k < src@.len() ==> #[trigger] src@[k] == other@[k],
        blank@.len() == n,
        0 <= i < n ==> blank@[i] == 0,
{
    if src@.len() == other@.len() && forall|k: int|
        0 <= k < src@.len() ==> #[trigger] src@[k] == other@[k] {
        assert(src@ =~= other@);
    }
}

} // verus!
