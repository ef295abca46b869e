//! The stream layer on top of a block layer.

use crate::block_layer::{
    claims_fit, same_make, same_store, sentinel, zero_bytes, BlockLayer,
};
use crate::compressed::piece_fits;
use crate::descriptor::{
    StreamDescriptor, DESCRIPTOR_SIZE, FREE_DESCRIPTOR_MARKER, STREAM_FLAG_COMPRESSED,
};
use crate::handles::{
    handle_view, has_writer, infos_ok, lemma_handle_closed, lemma_handle_opened,
    lemma_handle_updated, lemma_locks_mean, lemma_view_exclusive, locks_ok, readers_of, table_ok,
    BlockStreamHandle, HandleInfo,
};
use crate::locks::{law_lock_round_trip, lock_free, lock_full, lock_of, LockState, LockTable};
use crate::plain::{content, too_large};
use crate::pyramid::{ceil_div, is_place};
use crate::pyramid_io::{block_sentinel, fan_ok};
use crate::stream_audit::{
    all_fit_together, led_table, lemma_all_hold_up, lemma_layout_holds_up, measures, told_held,
    told_tree, try_listed, try_stream,
};
use crate::stream_check::{
    all_in, collect_listed, collect_stream, lemma_all_in_joined, lemma_listed_in, listed_blocks,
    listed_fit, read_record, read_table, told_blocks, told_fits, told_leaves, told_table,
    unchanged,
};
use crate::stream_claims::{lemma_stored_claims, lemma_stream_unique, lemma_told};
use crate::stream_layer::{
    all_used, can_open, empty_stream, lemma_more_issues, missing_text, orphan_text,
    tells_apart, writes, OpenState, StreamLayer, StreamState,
};
use crate::stream_ops::{
    in_tree, lemma_capacity, lemma_tree_held, make_of, no_tree, state_of, stream_free, stream_ok,
    stream_read, stream_reserve, stream_truncate, stream_write, tree_swapped, unit_of, Make, Tree,
};
use crate::stream_table::{
    all_owned, deserialize_header, in_table, is_l3_header, l3_header, l3_table,
    law_l3_header_of_bytes, law_l3_header_round_trip, layout_ok,
    lemma_layout_added, lemma_layout_removed, lemma_layout_stream, lemma_layout_table,
    read_descriptor, serialize_header, slot_count, slot_of, slot_set, write_descriptor, Held,
    L3_PAYLOAD_SIZE,
};
use crate::stream_tree::leaves;
use crate::types::{
    lemma_still_mentioned, mentions, text_num, CacheMode, HeaderSlotId, OpenMode, SfsError,
};
use std::collections::{HashMap, HashSet, VecDeque};
use vstd::arithmetic::power2::pow2;
use vstd::prelude::*;

verus! {

broadcast use vstd::std_specs::hash::group_hash_axioms;

/// The largest size of a compressed piece, as a power of two.
pub const MAX_COMPRESSED_BLOCK_SIZE_SHIFT: u8 = 30;

/// Streams that are linked together from the blocks of a block layer.
///
/// The descriptors of all streams stand in a table, which is itself a stream;
/// where the table lies, the layer's header slot says.
pub struct StreamsFromBlocks<L2: BlockLayer> {
    layer2: L2,
    /// Describes the table of streams.
    streams_descriptor: StreamDescriptor,
    /// The layer's own header slot.
    my_slot: HeaderSlotId,
    /// The size of a compressed piece as a power of two; zero where streams
    /// cannot be compressed.
    compressed_block_size_shift: u8,
    next_handle_id: u64,
    locks: LockTable,
    open_handles: HashMap<u64, HandleInfo>,
    /// The storage failed when a stream was closed.
    failed: bool,
    /// The blocks of the table.
    table_tree: Ghost<Tree>,
    /// The streams as they are.
    held: Ghost<Map<u64, Held>>,
    /// The calls that failed because a number ran out.
    exhausted: Ghost<nat>,
}

/// The streams of a layer.
pub open spec fn stream_view(blocks: Map<u64, Seq<u8>>, held: Map<u64, Held>, m: Make) -> Map<
    u64,
    StreamState,
> {
    Map::new(
        |id: u64| held.contains_key(id),
        |id: u64| state_of(blocks, held[id].desc, held[id].tree, m),
    )
}

proof fn lemma_fan_out(size: nat, width: nat)
    requires
        1 <= width,
        2 * width <= size,
    ensures
        size / width >= 2,
        (size / width) * width <= size,
{
    vstd::arithmetic::div_mod::lemma_fundamental_div_mod(size as int, width as int);
    assert(width * (size / width) == (size / width) * width) by (nonlinear_arith);
    assert(size / width >= 2) by (nonlinear_arith)
        requires
            size == width * (size / width) + size % width,
            0 <= size % width < width,
            2 * width <= size,
            1 <= width,
    ;
}

proof fn lemma_ids_finite(held: Map<u64, Held>, n: nat)
    ensures
        held.dom().filter(|id: u64| id < n).finite(),
    decreases n,
{
    let s = held.dom().filter(|id: u64| id < n);
    if n == 0 {
        assert(s =~= Set::<u64>::empty());
    } else {
        lemma_ids_finite(held, (n - 1) as nat);
        let less = held.dom().filter(|id: u64| id < n - 1);
        if n - 1 <= u64::MAX && held.contains_key((n - 1) as u64) {
            assert(s =~= less.insert((n - 1) as u64));
        } else {
            assert(s =~= less);
        }
    }
}

impl<L2: BlockLayer> StreamsFromBlocks<L2> {
    spec fn piece(&self) -> nat {
        pow2(self.compressed_block_size_shift as nat)
    }

    spec fn fan(&self) -> nat {
        self.layer2.bsize() / self.layer2.iwidth()
    }

    spec fn make(&self) -> Make {
        make_of(self.layer2, self.fan(), self.piece())
    }

    /// The bytes of the table.
    spec fn table(&self) -> Seq<u8> {
        state_of(
            self.layer2.blocks(),
            self.streams_descriptor,
            self.table_tree@,
            self.make(),
        ).data
    }

    /// The state is consistent.
    spec fn inv(&self) -> bool {
        &&& self.layer2.wf()
        &&& !self.failed
        &&& self.compressed_block_size_shift <= MAX_COMPRESSED_BLOCK_SIZE_SHIFT
        &&& self.my_slot.pos() == 0
        &&& self.streams_descriptor.flags == 0
        &&& self.layer2.slots().len() >= 1
        &&& self.layer2.slots()[0] == l3_header(
            self.streams_descriptor,
            self.compressed_block_size_shift,
        )
        &&& layout_ok(
            self.layer2.blocks(),
            self.streams_descriptor,
            self.table_tree@,
            self.held@,
            self.make(),
        )
        &&& table_ok(
            self.table(),
            self.held@,
            self.open_handles@,
            sentinel(self.layer2.iwidth()),
        )
        &&& infos_ok(self.open_handles@, self.held@, self.next_handle_id)
        &&& locks_ok(self.locks@, self.open_handles@)
    }

    /// What follows from the invariant for the sizes.
    proof fn lemma_sizes(&self)
        requires
            self.inv(),
        ensures
            fan_ok(self.layer2, self.fan() as u64),
            self.fan() <= u64::MAX,
            self.make() == make_of(self.layer2, (self.fan() as u64) as nat, self.piece()),
            1 <= self.piece() <= 0x4000_0000,
            1 <= self.layer2.bsize() <= 0x8000_0000,
            1 <= self.layer2.iwidth() <= 8,
            self.table().len() == self.streams_descriptor.size,
            !self.streams_descriptor.compressed(),
            sentinel(self.layer2.iwidth()) <= u64::MAX,
            self.layer2.slots()[0].len() == L3_PAYLOAD_SIZE,
    {
        law_l3_header_round_trip(self.streams_descriptor, self.compressed_block_size_shift);
        self.layer2.lemma_wf();
        lemma_fan_out(self.layer2.bsize(), self.layer2.iwidth());
        vstd::arithmetic::div_mod::lemma_div_is_ordered_by_denominator(
            self.layer2.bsize() as int,
            1,
            self.layer2.iwidth() as int,
        );
        lemma_piece_bounds(self.compressed_block_size_shift);
        lemma_capacity(
            self.layer2.blocks(),
            self.streams_descriptor,
            self.table_tree@,
            self.make(),
        );
        crate::bytes::lemma_pow256_values();
        crate::bytes::lemma_pow256_monotone(self.layer2.iwidth(), 8);
    }

    /// The table of streams as it is stored, as far as its data blocks reach.
    spec fn stored_table(&self) -> Seq<u8> {
        let blocks = self.layer2.blocks();
        let m = self.make();
        let td = self.streams_descriptor;
        told_table(blocks, told_leaves(blocks, td, m), td.size as nat, m.size)
    }

    /// What is stored is in order: the table can be read, what its descriptors
    /// tell is possible, and every block in use belongs to one stream.
    spec fn in_order(&self) -> bool {
        let blocks = self.layer2.blocks();
        let m = self.make();
        let td = self.streams_descriptor;
        let table = self.stored_table();
        &&& self.layer2.wf()
        &&& told_fits(blocks, td, m)
        &&& td.size <= told_leaves(blocks, td, m).len() * m.size
        &&& listed_fit(blocks, table, slot_count(table), m)
        &&& claims_fit(
            told_blocks(blocks, td, m) + listed_blocks(blocks, table, slot_count(table), m),
            blocks,
        )
    }

    /// The blocks of the table and of all streams, as they are stored.
    pub closed spec fn claimed_blocks(&self) -> Seq<u64> {
        let blocks = self.layer2.blocks();
        let m = self.make();
        let table = self.stored_table();
        told_blocks(blocks, self.streams_descriptor, m) + listed_blocks(
            blocks,
            table,
            slot_count(table),
            m,
        )
    }

    /// A consistent layer that no stream is open in for writing, and that takes no
    /// storage in vain, claims every block that is in use below, and each once.
    pub proof fn lemma_claimed(&self)
        requires
            self.wf(),
            self.tidy(),
            forall|h: BlockStreamHandle| #[trigger]
                self.handles().contains_key(h) ==> self.handles()[h].mode is Read,
        ensures
            claims_fit(self.claimed_blocks(), self.store().blocks()),
    {
        self.lemma_sizes();
        self.layer2.lemma_wf();
        lemma_fan_out(self.layer2.bsize(), self.layer2.iwidth());
        assert forall|id: u64| #[trigger] self.held@.contains_key(id) implies slot_of(
            self.table(),
            id as int,
        ) == self.held@[id].desc by {
            if has_writer(self.open_handles@, id) {
                let h = choose|h: u64| #[trigger]
                    self.open_handles@.contains_key(h) && self.open_handles@[h].stream_id == id
                        && self.open_handles@[h].mode is Write;
                let g = BlockStreamHandle(h);
                assert(self.handles().contains_key(g));
            }
        }
        lemma_stored_claims(
            self.layer2.blocks(),
            self.streams_descriptor,
            self.table_tree@,
            self.held@,
            self.make(),
        );
    }

    /// The block layer.
    pub closed spec fn store(&self) -> L2 {
        self.layer2
    }

    /// The descriptor of the table of streams.
    pub closed spec fn table_descriptor(&self) -> StreamDescriptor {
        self.streams_descriptor
    }

    /// The sizes by which the streams lie in the blocks.
    pub closed spec fn sizes(&self) -> Make {
        self.make()
    }

    /// What is stored is intact for some claims if and only if the block layer is
    /// consistent, the table can be read as a whole, what it and each of its descriptors
    /// tell is possible, no block is taken twice, every block in use is taken, and the
    /// claims are the numbers of the descriptors that are not free.
    pub proof fn law_intact_means(&self, claimed: Seq<u64>, table: Seq<u8>, taken: Seq<u64>)
        requires
            self.wf() || self.usable(),
            ({
                let leaves = told_leaves(
                    self.store().blocks(),
                    self.table_descriptor(),
                    self.sizes(),
                );
                let bytes = content(self.store().blocks(), leaves, self.sizes().size);
                &&& table == if self.table_descriptor().size <= bytes.len() {
                    bytes.take(self.table_descriptor().size as int)
                } else {
                    bytes
                }
                &&& taken == told_blocks(
                    self.store().blocks(),
                    self.table_descriptor(),
                    self.sizes(),
                ) + listed_blocks(
                    self.store().blocks(),
                    table,
                    (table.len() / 25) as nat,
                    self.sizes(),
                )
            }),
        ensures
            ({
                let blocks = self.store().blocks();
                let td = self.table_descriptor();
                let m = self.sizes();
                &&& m.size == self.store().bsize()
                &&& m.width == self.store().iwidth()
                &&& m.fan_out == self.store().bsize() / self.store().iwidth()
                &&& self.intact(claimed) <==> {
                    &&& self.store().wf()
                    &&& told_fits(blocks, td, m)
                    &&& td.size <= told_leaves(blocks, td, m).len() * m.size
                    &&& forall|i: int|
                        0 <= i < table.len() / 25 && !(#[trigger] slot_of(table, i)).free()
                            ==> told_fits(blocks, slot_of(table, i), m)
                    &&& forall|i: int, j: int| 0 <= i < j < taken.len() ==> taken[i] != taken[j]
                    &&& forall|b: u64| #[trigger] blocks.contains_key(b) <==> taken.contains(b)
                    &&& forall|id: u64| #[trigger]
                        claimed.contains(id) <==> id < table.len() / 25 && !slot_of(
                            table,
                            id as int,
                        ).free()
                }
            }),
    {
        let blocks = self.layer2.blocks();
        let m = self.make();
        let td = self.streams_descriptor;
        let leaves = told_leaves(blocks, td, m);
        assert(table =~= self.stored_table());
        assert(taken == self.claimed_blocks());
        if claims_fit(taken, blocks) {
            assert forall|b: u64| #[trigger] blocks.contains_key(b) <==> taken.contains(b) by {}
        }
        if (forall|i: int, j: int| 0 <= i < j < taken.len() ==> taken[i] != taken[j]) && (
        forall|b: u64| #[trigger] blocks.contains_key(b) <==> taken.contains(b)) {
            assert(taken.no_duplicates());
            assert forall|b: u64| #[trigger] taken.contains(b) <==> blocks.contains_key(b) by {}
        }
        assert forall|id: u64| in_table(table, id) <==> id < table.len() / 25 && !slot_of(
            table,
            id as int,
        ).free() by {}
    }

    /// A stream that is not compressed is stored where its descriptor in the table is not
    /// free and leads to enough data blocks. Its bytes are those of these blocks, one
    /// behind the other.
    pub proof fn law_stored_means(&self, table: Seq<u8>, id: u64, p: int)
        requires
            self.wf() || self.usable(),
            ({
                let leaves = told_leaves(
                    self.store().blocks(),
                    self.table_descriptor(),
                    self.sizes(),
                );
                let n = (leaves.len() * self.sizes().size) as int;
                let size = self.table_descriptor().size;
                &&& table.len() == if size <= n {
                    size as int
                } else {
                    n
                }
                &&& forall|q: int|
                    0 <= q < table.len() ==> #[trigger] table[q]
                        == self.store().blocks()[leaves[q / self.sizes().size as int]][q
                        % self.sizes().size as int]
            }),
        ensures
            ({
                let blocks = self.store().blocks();
                let m = self.sizes();
                let d = slot_of(table, id as int);
                let leaves = told_leaves(blocks, d, m);
                let there = self.stored().contains_key(id);
                let s = self.stored()[id];
                &&& there <==> {
                    &&& id < table.len() / 25
                    &&& d.top_block != u64::MAX
                    &&& d.flags as int % 2 == 0
                    &&& d.size <= leaves.len() * m.size
                }
                &&& there ==> !s.compressed && s.reserved == d.reserved && s.data.len() == d.size
                &&& there && 0 <= p < d.size ==> s.data[p] == blocks[leaves[p
                    / m.size as int]][p % m.size as int]
            }),
    {
        assert(table =~= self.stored_table());
    }

    /// What is in order can be read.
    proof fn lemma_in_order(&self, id: u64)
        requires
            self.in_order(),
        ensures
            all_in(
                told_blocks(self.layer2.blocks(), self.streams_descriptor, self.make()),
                self.layer2.blocks(),
            ),
            self.stored_table().len() == self.streams_descriptor.size,
            in_table(self.stored_table(), id) ==> {
                let d = slot_of(self.stored_table(), id as int);
                &&& told_fits(self.layer2.blocks(), d, self.make())
                &&& all_in(
                    told_blocks(self.layer2.blocks(), d, self.make()),
                    self.layer2.blocks(),
                )
            },
    {
        let blocks = self.layer2.blocks();
        let m = self.make();
        let td = self.streams_descriptor;
        let table = self.stored_table();
        let n = slot_count(table);
        lemma_claims_in(told_blocks(blocks, td, m) + listed_blocks(blocks, table, n, m), blocks);
        lemma_all_in_joined(
            told_blocks(blocks, td, m),
            listed_blocks(blocks, table, n, m),
            blocks,
        );
        if in_table(table, id) {
            lemma_listed_in(blocks, table, n, id as int, m);
        }
    }

    /// What the checks find of a stream that is in order.
    proof fn lemma_stored(&self, d: StreamDescriptor, t: Tree)
        requires
            self.inv(),
            stream_ok(self.layer2.blocks(), d, t, self.make()),
        ensures
            told_fits(self.layer2.blocks(), d, self.make()),
            told_leaves(self.layer2.blocks(), d, self.make()) == leaves(t.levels),
            all_in(told_blocks(self.layer2.blocks(), d, self.make()), self.layer2.blocks()),
    {
        let blocks = self.layer2.blocks();
        let m = self.make();
        self.lemma_sizes();
        self.layer2.lemma_wf();
        lemma_fan_out(self.layer2.bsize(), self.layer2.iwidth());
        lemma_told(blocks, d, t, m);
        lemma_tree_held(blocks, d, t, m);
        let s = told_blocks(blocks, d, m);
        assert forall|i: int| 0 <= i < s.len() implies blocks.contains_key(#[trigger] s[i]) by {
            assert(s.contains(s[i]));
            assert(in_tree(t, s[i]));
        }
    }

    fn fan_out(&self) -> (f: u64)
        requires
            self.layer2.wf() || self.layer2.usable(),
        ensures
            f == self.fan(),
    {
        proof {
            if self.layer2.wf() {
                self.layer2.lemma_wf();
            }
            self.layer2.lemma_usable();
        }
        self.layer2.block_size() as u64 / self.layer2.block_index_width() as u64
    }

    fn piece_size(&self) -> (size: usize)
        requires
            self.compressed_block_size_shift <= MAX_COMPRESSED_BLOCK_SIZE_SHIFT,
        ensures
            size == self.piece(),
            1 <= size <= 0x4000_0000,
    {
        let shift: u8 = self.compressed_block_size_shift;
        proof {
            lemma_piece_bounds(shift);
            vstd::bits::lemma_u32_shl_is_mul(1, shift as u32);
        }
        (1u32 << (shift as u32)) as usize
    }

    /// Makes a block store that holds nothing a store of streams: writes the header
    /// of a layer without streams.
    pub fn format_store(layer2: &mut L2, compressed_block_size_shift: u8) -> (r: Result<
        (),
        SfsError,
    >)
        requires
            old(layer2).wf(),
            old(layer2).slots().len() >= 1,
            old(layer2).slots()[0].len() == L3_PAYLOAD_SIZE,
        ensures
            final(layer2).bsize() == old(layer2).bsize(),
            final(layer2).iwidth() == old(layer2).iwidth(),
            final(layer2).faults() >= old(layer2).faults(),
            r is Ok <==> final(layer2).faults() == old(layer2).faults(),
            r is Ok ==> {
                &&& final(layer2).wf()
                &&& final(layer2).blocks() == old(layer2).blocks()
                &&& final(layer2).own_blocks() == old(layer2).own_blocks()
                &&& final(layer2).slots() == old(layer2).slots().update(
                    0,
                    l3_header(
                        StreamDescriptor { size: 0, top_block: 0, reserved: 0, flags: 0 },
                        compressed_block_size_shift,
                    ),
                )
            },
    {
        let slot: HeaderSlotId = layer2.header_slot_for_upper(0);
        let none: StreamDescriptor = StreamDescriptor {
            size: 0,
            top_block: 0,
            reserved: 0,
            flags: 0,
        };
        let payload: Vec<u8> = serialize_header(&none, compressed_block_size_shift);
        layer2.write_header_slot(slot, payload.as_slice())
    }

    /// Writes the layer's header.
    fn persist_l3_header(&mut self) -> (r: Result<(), SfsError>)
        requires
            old(self).layer2.wf(),
            old(self).my_slot.pos() == 0,
            old(self).layer2.slots().len() >= 1,
            old(self).layer2.slots()[0].len() == L3_PAYLOAD_SIZE,
        ensures
            final(self).layer2.bsize() == old(self).layer2.bsize(),
            final(self).layer2.iwidth() == old(self).layer2.iwidth(),
            final(self).layer2.faults() >= old(self).layer2.faults(),
            (r is Ok) == (final(self).layer2.faults() == old(self).layer2.faults()),
            final(self).streams_descriptor == old(self).streams_descriptor,
            final(self).my_slot == old(self).my_slot,
            final(self).compressed_block_size_shift == old(self).compressed_block_size_shift,
            final(self).next_handle_id == old(self).next_handle_id,
            final(self).locks == old(self).locks,
            final(self).open_handles == old(self).open_handles,
            final(self).table_tree == old(self).table_tree,
            final(self).held == old(self).held,
            final(self).exhausted == old(self).exhausted,
            final(self).failed == old(self).failed,
            r is Ok ==> {
                &&& final(self).layer2.wf()
                &&& final(self).layer2.blocks() == old(self).layer2.blocks()
                &&& final(self).layer2.own_blocks() == old(self).layer2.own_blocks()
                &&& final(self).layer2.slots() == old(self).layer2.slots().update(
                    0,
                    l3_header(
                        old(self).streams_descriptor,
                        old(self).compressed_block_size_shift,
                    ),
                )
            },
    {
        let payload: Vec<u8> = serialize_header(
            &self.streams_descriptor,
            self.compressed_block_size_shift,
        );
        self.layer2.write_header_slot(self.my_slot, payload.as_slice())
    }
}

impl<L2: BlockLayer> StreamsFromBlocks<L2> {
    /// The layer's measures and its header slots are the same.
    spec fn same_frame(a: Self, b: Self) -> bool {
        &&& b.layer2.bsize() == a.layer2.bsize()
        &&& b.layer2.iwidth() == a.layer2.iwidth()
        &&& b.my_slot == a.my_slot
        &&& b.compressed_block_size_shift == a.compressed_block_size_shift
        &&& b.failed == a.failed
    }

    /// A stream was changed through its writer.
    proof fn lemma_stream_changed(a: Self, b: Self, h: u64, new: Held)
        requires
            a.inv(),
            a.open_handles@.contains_key(h),
            a.open_handles@[h].mode is Write,
            Self::same_frame(a, b),
            same_make(a.layer2, b.layer2),
            b.streams_descriptor == a.streams_descriptor,
            b.table_tree == a.table_tree,
            b.next_handle_id == a.next_handle_id,
            b.locks@ == a.locks@,
            b.held@ == a.held@.insert(a.open_handles@[h].stream_id, new),
            b.open_handles@ == a.open_handles@.insert(
                h,
                HandleInfo {
                    stream_id: a.open_handles@[h].stream_id,
                    mode: a.open_handles@[h].mode,
                    cached_descriptor: new.desc,
                },
            ),
            tree_swapped(
                a.layer2.blocks(),
                b.layer2.blocks(),
                a.held@[a.open_handles@[h].stream_id].tree,
                new.tree,
            ),
            stream_ok(b.layer2.blocks(), new.desc, new.tree, a.make()),
        ensures
            b.inv(),
            handle_view(b.open_handles@) == handle_view(a.open_handles@),
            stream_view(b.layer2.blocks(), b.held@, b.make()) == stream_view(
                a.layer2.blocks(),
                a.held@,
                a.make(),
            ).insert(
                a.open_handles@[h].stream_id,
                state_of(b.layer2.blocks(), new.desc, new.tree, a.make()),
            ),
            all_owned(a.layer2.blocks(), a.table_tree@, a.held@) ==> all_owned(
                b.layer2.blocks(),
                b.table_tree@,
                b.held@,
            ),
    {
        let id = a.open_handles@[h].stream_id;
        let m = a.make();
        assert(b.make() == m);
        lemma_layout_stream(
            a.layer2.blocks(),
            b.layer2.blocks(),
            a.streams_descriptor,
            a.table_tree@,
            a.held@,
            id,
            new,
            m,
        );
        lemma_handle_updated(a.locks@, a.open_handles@, h, new.desc);
        assert(b.table() == a.table());
        assert(has_writer(a.open_handles@, id));
        assert(table_ok(b.table(), b.held@, b.open_handles@, sentinel(b.layer2.iwidth()))) by {
            assert forall|j: u64| #[trigger]
                b.held@.contains_key(j) && !has_writer(b.open_handles@, j) implies slot_of(
                b.table(),
                j as int,
            ) == b.held@[j].desc by {
                assert(has_writer(b.open_handles@, id));
                assert(a.held@.contains_key(j));
            }
            assert forall|j: u64| #[trigger] b.held@.contains_key(j) <==> in_table(b.table(), j) by {
                assert(a.held@.contains_key(j) <==> in_table(a.table(), j));
            }
        }
        assert(infos_ok(b.open_handles@, b.held@, b.next_handle_id)) by {
            assert forall|g: u64| #[trigger] b.open_handles@.contains_key(g) implies g
                < b.next_handle_id && b.held@.contains_key(b.open_handles@[g].stream_id)
                && b.open_handles@[g].cached_descriptor == b.held@[b.open_handles@[g].stream_id].desc by {
                assert(a.open_handles@.contains_key(g));
            }
        }
        assert(stream_view(b.layer2.blocks(), b.held@, b.make()) =~= stream_view(
            a.layer2.blocks(),
            a.held@,
            a.make(),
        ).insert(id, state_of(b.layer2.blocks(), new.desc, new.tree, m)));
    }
}

impl<L2: BlockLayer> StreamsFromBlocks<L2> {
    /// Nothing has changed but for faults and for what is cached.
    spec fn same_state(a: Self, b: Self) -> bool {
        &&& same_store(a.layer2, b.layer2)
        &&& b.streams_descriptor == a.streams_descriptor
        &&& b.my_slot == a.my_slot
        &&& b.compressed_block_size_shift == a.compressed_block_size_shift
        &&& b.next_handle_id == a.next_handle_id
        &&& b.locks@ == a.locks@
        &&& b.open_handles@ == a.open_handles@
        &&& b.table_tree == a.table_tree
        &&& b.held == a.held
        &&& b.exhausted == a.exhausted
        &&& b.failed == a.failed
    }

    /// Reads one descriptor of the table.
    fn read_slot(&mut self, stream_id: u64) -> (r: Result<StreamDescriptor, SfsError>)
        requires
            old(self).inv(),
        ensures
            final(self).inv(),
            Self::same_state(*old(self), *final(self)),
            L2::reads_always() ==> final(self).layer2.faults() == old(self).layer2.faults(),
            final(self).table() == old(self).table(),
            final(self).layer2.faults() >= old(self).layer2.faults(),
            r is Ok ==> final(self).layer2.faults() == old(self).layer2.faults(),
            final(self).layer2.faults() == old(self).layer2.faults() ==> {
                &&& r is Ok <==> stream_id < slot_count(old(self).table())
                &&& r matches Ok(d) ==> d == slot_of(old(self).table(), stream_id as int)
                &&& r matches Err(e) ==> e is NotFound
            },
    {
        proof {
            self.lemma_sizes();
        }
        let fan_out: u64 = self.fan_out();
        let piece_size: usize = self.piece_size();
        read_descriptor(
            &mut self.layer2,
            &self.streams_descriptor,
            stream_id,
            piece_size,
            fan_out,
            Ghost(self.table_tree@),
        )
    }

    /// Forgets what the owner's block cache holds.
    fn refresh(&mut self)
        requires
            old(self).inv(),
        ensures
            final(self).inv(),
            Self::same_state(*old(self), *final(self)),
            final(self).table() == old(self).table(),
            final(self).layer2.faults() == old(self).layer2.faults(),
            exists|layer2: &mut L2| #[trigger]
                call_ensures(L2::invalidate_block_cache, (layer2,), ()) && *layer2 == old(
                    self,
                ).layer2 && *final(layer2) == final(self).layer2,
    {
        self.layer2.invalidate_block_cache();
    }

    /// Writes one descriptor of the table, and the header.
    fn store_slot(&mut self, stream_id: u64, desc: &StreamDescriptor) -> (r: Result<(), SfsError>)
        requires
            old(self).layer2.wf(),
            old(self).compressed_block_size_shift <= MAX_COMPRESSED_BLOCK_SIZE_SHIFT,
            old(self).my_slot.pos() == 0,
            old(self).streams_descriptor.flags == 0,
            old(self).layer2.slots().len() >= 1,
            old(self).layer2.slots()[0].len() == L3_PAYLOAD_SIZE,
            layout_ok(
                old(self).layer2.blocks(),
                old(self).streams_descriptor,
                old(self).table_tree@,
                old(self).held@,
                old(self).make(),
            ),
            old(self).streams_descriptor.size % 25 == 0,
            25 * stream_id <= old(self).streams_descriptor.size,
            25 * stream_id + 25 <= u64::MAX,
        ensures
            Self::same_frame(*old(self), *final(self)),
            final(self).next_handle_id == old(self).next_handle_id,
            final(self).locks == old(self).locks,
            final(self).open_handles == old(self).open_handles,
            final(self).held == old(self).held,
            final(self).exhausted == old(self).exhausted,
            final(self).failed == old(self).failed,
            final(self).layer2.faults() >= old(self).layer2.faults(),
            r is Ok ==> final(self).layer2.faults() == old(self).layer2.faults(),
            final(self).layer2.faults() == old(self).layer2.faults() ==> {
                &&& r is Err <==> too_large(
                    old(self).streams_descriptor.reserved as nat,
                    (25 * stream_id + 25) as nat,
                    old(self).layer2.bsize(),
                )
                &&& 25 * stream_id < old(self).streams_descriptor.size ==> r is Ok
                &&& r matches Err(e) ==> e is IoError
            },
            r is Ok ==> {
                &&& final(self).layer2.wf()
                &&& final(self).layer2.own_blocks() == old(self).layer2.own_blocks()
                &&& final(self).streams_descriptor.flags == 0
                &&& final(self).layer2.slots() == old(self).layer2.slots().update(
                    0,
                    l3_header(
                        final(self).streams_descriptor,
                        final(self).compressed_block_size_shift,
                    ),
                )
                &&& layout_ok(
                    final(self).layer2.blocks(),
                    final(self).streams_descriptor,
                    final(self).table_tree@,
                    final(self).held@,
                    final(self).make(),
                )
                &&& slot_set(old(self).table(), final(self).table(), stream_id, *desc)
                &&& stream_view(
                    final(self).layer2.blocks(),
                    final(self).held@,
                    final(self).make(),
                ) == stream_view(old(self).layer2.blocks(), old(self).held@, old(self).make())
                &&& all_owned(old(self).layer2.blocks(), old(self).table_tree@, old(self).held@)
                    ==> all_owned(
                    final(self).layer2.blocks(),
                    final(self).table_tree@,
                    final(self).held@,
                )
            },
    {
        proof {
            self.layer2.lemma_wf();
            lemma_fan_out(self.layer2.bsize(), self.layer2.iwidth());
        }
        let fan_out: u64 = self.fan_out();
        let piece_size: usize = self.piece_size();
        let ghost a = *self;
        match write_descriptor(
            &mut self.layer2,
            &mut self.streams_descriptor,
            stream_id,
            desc,
            piece_size,
            fan_out,
            &mut self.table_tree,
        ) {
            Ok(_) => {},
            Err(e) => {
                return Err(e);
            },
        }
        proof {
            lemma_layout_table(
                a.layer2.blocks(),
                self.layer2.blocks(),
                a.streams_descriptor,
                a.table_tree@,
                self.streams_descriptor,
                self.table_tree@,
                a.held@,
                a.make(),
            );
            assert(stream_view(self.layer2.blocks(), self.held@, self.make()) =~= stream_view(
                a.layer2.blocks(),
                a.held@,
                a.make(),
            ));
        }
        self.persist_l3_header()
    }
}

impl<L2: BlockLayer> StreamsFromBlocks<L2> {
    /// The calls that failed in the block store.
    pub closed spec fn store_faults(&self) -> nat {
        self.layer2.faults()
    }

    /// The table of streams can take no further descriptor.
    pub closed spec fn table_full(&self) -> bool {
        let end = 25 * slot_count(self.table()) + 25;
        end > u64::MAX || too_large(
            self.streams_descriptor.reserved as nat,
            end as nat,
            self.layer2.bsize(),
        )
    }

    /// There is a number for one more handle of stream `id`, and the readers
    /// of the stream can still be counted.
    pub closed spec fn numbers_left(&self, id: u64, mode: OpenMode) -> bool {
        self.next_handle_id < u64::MAX && !lock_full(self.locks@, id, mode)
    }

    /// How many handles there are numbers for.
    pub closed spec fn handle_numbers(&self) -> nat {
        (u64::MAX - self.next_handle_id) as nat
    }

    /// There is a number for one more handle of a stream, and its readers can be counted,
    /// unless all numbers were given out or four billion handles are open.
    pub proof fn law_numbers_left(&self, id: u64, mode: OpenMode)
        requires
            self.wf(),
            self.handle_numbers() > 0,
            self.handles().dom().len() < u32::MAX,
        ensures
            self.numbers_left(id, mode),
    {
        let hs = self.open_handles@;
        let all = hs.dom();
        let g = |n: u64| BlockStreamHandle(n);
        let seen = self.handles().dom();
        assert(all.map(g) =~= seen) by {
            assert forall|h: BlockStreamHandle| #[trigger] seen.contains(h) implies all.map(
                g,
            ).contains(h) by {
                assert(all.contains(h.num()) && g(h.num()) == h);
            }
        }
        vstd::set_lib::lemma_map_size(all, seen, g);
        let readers = readers_of(hs, id);
        vstd::set_lib::lemma_len_subset(readers, all);
        assert(lock_of(self.locks@, id).readers == readers.len());
    }

    /// `handle` is open on a compressed stream.
    pub closed spec fn packs(&self, handle: BlockStreamHandle) -> bool {
        self.open_handles@.contains_key(handle.num())
            && self.open_handles@[handle.num()].cached_descriptor.compressed()
    }
}

impl<L2: BlockLayer> StreamsFromBlocks<L2> {
    /// `layer2` holds a table and streams in order.
    spec fn image(layer2: L2, tt: Tree, held: Map<u64, Held>) -> bool {
        let header = layer2.slots()[0];
        let td = l3_table(header);
        let m = make_of(
            layer2,
            layer2.bsize() / layer2.iwidth(),
            pow2(header[31] as nat),
        );
        &&& layer2.wf()
        &&& layer2.slots().len() >= 1
        &&& header.len() == L3_PAYLOAD_SIZE
        &&& is_l3_header(header)
        &&& header[31] <= MAX_COMPRESSED_BLOCK_SIZE_SHIFT
        &&& layout_ok(layer2.blocks(), td, tt, held, m)
        &&& table_ok(
            state_of(layer2.blocks(), td, tt, m).data,
            held,
            Map::<u64, HandleInfo>::empty(),
            sentinel(layer2.iwidth()),
        )
    }

    /// What `layer2` holds is in order.
    pub closed spec fn stored_ok(layer2: L2) -> bool {
        exists|tt: Tree, held: Map<u64, Held>| Self::image(layer2, tt, held)
    }

    /// The streams that `layer2` holds.
    pub closed spec fn stored_streams(layer2: L2) -> Map<u64, StreamState> {
        let (tt, held) = choose|tt: Tree, held: Map<u64, Held>| Self::image(layer2, tt, held);
        stream_view(
            layer2.blocks(),
            held,
            make_of(
                layer2,
                layer2.bsize() / layer2.iwidth(),
                pow2(layer2.slots()[0][31] as nat),
            ),
        )
    }

    /// Every block of `layer2` in use belongs to a stream that it holds, or to
    /// the table.
    pub closed spec fn stored_tidy(layer2: L2) -> bool {
        let (tt, held) = choose|tt: Tree, held: Map<u64, Held>| Self::image(layer2, tt, held);
        all_owned(layer2.blocks(), tt, held)
    }

    /// What is stored can be read in one way only.
    proof fn lemma_image_unique(
        layer2: L2,
        t1: Tree,
        h1: Map<u64, Held>,
        t2: Tree,
        h2: Map<u64, Held>,
    )
        requires
            Self::image(layer2, t1, h1),
            Self::image(layer2, t2, h2),
        ensures
            t1 == t2,
            h1 == h2,
    {
        let header = layer2.slots()[0];
        let td = l3_table(header);
        let blocks = layer2.blocks();
        let m = make_of(layer2, layer2.bsize() / layer2.iwidth(), pow2(header[31] as nat));
        layer2.lemma_wf();
        lemma_fan_out(layer2.bsize(), layer2.iwidth());
        lemma_piece_bounds(header[31]);
        lemma_stream_unique(blocks, td, t1, t2, m);
        let table = state_of(blocks, td, t1, m).data;
        let none = Map::<u64, HandleInfo>::empty();
        assert forall|id: u64| #[trigger] h1.contains_key(id) <==> h2.contains_key(id) by {
            assert(h1.contains_key(id) <==> in_table(table, id));
            assert(h2.contains_key(id) <==> in_table(table, id));
        }
        assert forall|id: u64| #[trigger] h1.contains_key(id) implies h1[id] == h2[id] by {
            assert(h2.contains_key(id));
            assert(!has_writer(none, id));
            assert(slot_of(table, id as int) == h1[id].desc);
            assert(slot_of(table, id as int) == h2[id].desc);
            lemma_stream_unique(blocks, h1[id].desc, h1[id].tree, h2[id].tree, m);
        }
        assert(h1 =~= h2);
    }

    /// Block stores that hold the same hold the same streams.
    pub proof fn law_same_store(a: L2, b: L2)
        requires
            a.wf(),
            b.wf(),
            a.blocks() == b.blocks(),
            a.slots() == b.slots(),
            a.bsize() == b.bsize(),
            a.iwidth() == b.iwidth(),
        ensures
            Self::stored_ok(a) == Self::stored_ok(b),
            Self::stored_ok(a) ==> Self::stored_streams(a) == Self::stored_streams(b)
                && Self::stored_tidy(a) == Self::stored_tidy(b),
    {
        assert forall|tt: Tree, held: Map<u64, Held>| Self::image(a, tt, held) == Self::image(
            b,
            tt,
            held,
        ) by {}
        if Self::stored_ok(a) {
            let (t1, h1) = choose|tt: Tree, held: Map<u64, Held>| Self::image(a, tt, held);
            let (t2, h2) = choose|tt: Tree, held: Map<u64, Held>| Self::image(b, tt, held);
            assert(Self::image(b, t1, h1));
            Self::lemma_image_unique(b, t1, h1, t2, h2);
        }
        if Self::stored_ok(b) {
            let (t2, h2) = choose|tt: Tree, held: Map<u64, Held>| Self::image(b, tt, held);
            assert(Self::image(a, t2, h2));
        }
    }

    /// Gives the block layer back. Where no stream is open for writing, it holds
    /// all streams as they are.
    pub fn into_layer(self) -> (layer2: L2)
        requires
            self.wf() || self.usable(),
        ensures
            layer2.wf() || layer2.usable(),
            self.wf() ==> layer2.wf(),
            layer2.slots() == self.slots(),
            layer2.bsize() == self.unit(false),
            layer2.iwidth() == self.iwidth(),
            self.first_slot() == 1,
            self.wf() ==> layer2.slots().len() >= 1 && is_l3_header(layer2.slots()[0])
                && layer2.slots()[0][31] <= MAX_COMPRESSED_BLOCK_SIZE_SHIFT,
            self.wf() ==> self.unit(true) == pow2(layer2.slots()[0][31] as nat)
                && self.compression() == (layer2.slots()[0][31] > 0),
            layer2.faults() == self.store_faults(),
            self.wf() && (forall|h: BlockStreamHandle| #[trigger]
                self.handles().contains_key(h) ==> self.handles()[h].mode is Read) ==> {
                &&& Self::stored_ok(layer2)
                &&& Self::stored_streams(layer2) == self.streams()
                &&& Self::stored_tidy(layer2) == self.tidy()
            },
    {
        proof {
            if self.wf() {
                law_l3_header_round_trip(
                    self.streams_descriptor,
                    self.compressed_block_size_shift,
                );
            }
            if self.wf() && (forall|h: BlockStreamHandle| #[trigger]
                self.handles().contains_key(h) ==> self.handles()[h].mode is Read) {
                self.lemma_sizes();
                law_l3_header_round_trip(
                    self.streams_descriptor,
                    self.compressed_block_size_shift,
                );
                assert forall|id: u64| #[trigger] self.held@.contains_key(id) implies slot_of(
                    self.table(),
                    id as int,
                ) == self.held@[id].desc by {
                    if has_writer(self.open_handles@, id) {
                        let h = choose|h: u64| #[trigger]
                            self.open_handles@.contains_key(h)
                                && self.open_handles@[h].stream_id == id
                                && self.open_handles@[h].mode is Write;
                        let g = BlockStreamHandle(h);
                        assert(self.handles().contains_key(g));
                    }
                }
                assert(Self::image(self.layer2, self.table_tree@, self.held@));
                let (tt, held) = choose|tt: Tree, held: Map<u64, Held>|
                    Self::image(self.layer2, tt, held);
                Self::lemma_image_unique(self.layer2, tt, held, self.table_tree@, self.held@);
            }
        }
        self.layer2
    }

    /// What opening the layer on `layer2` gives.
    pub open spec fn opened(layer2: L2, r: Result<Self, SfsError>) -> bool {
        &&& r is Ok <==> layer2.slots().len() >= 1 && is_l3_header(layer2.slots()[0])
            && layer2.slots()[0][31] <= MAX_COMPRESSED_BLOCK_SIZE_SHIFT
        &&& r matches Err(e) ==> e is IoError
        &&& r matches Ok(layer) ==> {
            &&& layer.usable()
            &&& layer.handles() == Map::<BlockStreamHandle, OpenState>::empty()
            &&& layer.slots() == layer2.slots()
            &&& layer.first_slot() == 1
            &&& layer.iwidth() == layer2.iwidth()
            &&& layer.unit(false) == layer2.bsize()
            &&& layer.unit(true) == pow2(layer2.slots()[0][31] as nat)
            &&& layer.compression() == (layer2.slots()[0][31] > 0)
            &&& layer.faults() == layer2.faults()
            &&& forall|id: u64, mode: OpenMode| #[trigger] layer.numbers_left(id, mode)
            &&& Self::stored_ok(layer2) ==> {
                &&& layer.wf()
                &&& layer.streams() == Self::stored_streams(layer2)
                &&& layer.tidy() == Self::stored_tidy(layer2)
            }
        }
    }

    /// The layer opened on `layer2` is consistent where what that holds is, and
    /// has the streams that it holds.
    pub fn open_on(layer2: L2) -> (r: Result<Self, SfsError>)
        requires
            layer2.wf() || layer2.usable(),
        ensures
            Self::opened(layer2, r),
    {
        proof {
            if layer2.wf() {
                layer2.lemma_wf();
            }
        }
        let my_slot: HeaderSlotId = layer2.header_slot_for_upper(0);
        let header: Vec<u8> = match layer2.read_header_slot(my_slot) {
            Ok(header) => header,
            Err(e) => {
                return Err(e);
            },
        };
        let (streams_descriptor, cbss) = match deserialize_header(header.as_slice()) {
            Ok(found) => found,
            Err(e) => {
                return Err(e);
            },
        };
        if cbss > MAX_COMPRESSED_BLOCK_SIZE_SHIFT {
            return Err(
                SfsError::IoError(
                    text_num("compressed block size shift ", cbss as u64, " is too large"),
                ),
            );
        }
        let ghost (tt, held) = choose|tt: Tree, held: Map<u64, Held>|
            Self::image(layer2, tt, held);
        let layer = StreamsFromBlocks {
            layer2,
            streams_descriptor,
            my_slot,
            compressed_block_size_shift: cbss,
            next_handle_id: 0,
            locks: LockTable::new(),
            open_handles: HashMap::new(),
            failed: false,
            table_tree: Ghost(tt),
            held: Ghost(held),
            exhausted: Ghost(0),
        };
        proof {
            assert(layer.open_handles@ =~= Map::<u64, HandleInfo>::empty());
            lemma_no_handles(layer.locks@, layer.open_handles@);
            assert(layer.handles() =~= Map::<BlockStreamHandle, OpenState>::empty());
            if Self::stored_ok(layer2) {
                assert(Self::image(layer2, tt, held));
                law_l3_header_of_bytes(header@);
            }
        }
        Ok(layer)
    }
}

impl<L2: BlockLayer> StreamsFromBlocks<L2> {
    /// What is in order fits together.
    proof fn lemma_measures(&self)
        requires
            self.in_order(),
            self.compressed_block_size_shift <= MAX_COMPRESSED_BLOCK_SIZE_SHIFT,
        ensures
            measures(self.layer2.blocks(), self.make()),
            all_fit_together(self.layer2.blocks(), self.streams_descriptor, self.make()),
            self.stored_table() == led_table(
                self.layer2.blocks(),
                self.streams_descriptor,
                self.make(),
            ),
    {
        self.layer2.lemma_wf();
        lemma_fan_out(self.layer2.bsize(), self.layer2.iwidth());
        lemma_piece_bounds(self.compressed_block_size_shift);
    }

    /// What is the same where neither the blocks nor the header have changed.
    proof fn lemma_same_seen(a: Self, b: Self)
        requires
            unchanged(a.layer2, b.layer2),
            b.streams_descriptor == a.streams_descriptor,
            b.compressed_block_size_shift == a.compressed_block_size_shift,
            b.open_handles@ == a.open_handles@,
        ensures
            b.usable() == a.usable(),
            b.iwidth() == a.iwidth(),
            b.first_slot() == a.first_slot(),
            forall|c: bool| b.unit(c) == a.unit(c),
            b.compression() == a.compression(),
            b.handles() == a.handles(),
            b.slots() == a.slots(),
            b.stored() == a.stored(),
            forall|claimed: Seq<u64>| #[trigger] b.intact(claimed) == a.intact(claimed),
            b.held == a.held ==> b.streams() == a.streams(),
            b.held == a.held && b.table_tree == a.table_tree ==> b.tidy() == a.tidy(),
    {
        assert(b.make() == a.make());
        assert(b.stored() =~= a.stored());
        assert(b.in_order() == a.in_order());
    }

    /// Follows every stream to its last block, where what is stored is in order and
    /// no stream is open. The layer is consistent where all of them hold up.
    fn audit(&mut self) -> (r: Result<bool, SfsError>)
        requires
            old(self).in_order(),
            old(self).compressed_block_size_shift <= MAX_COMPRESSED_BLOCK_SIZE_SHIFT,
            !old(self).failed,
            old(self).open_handles@ == Map::<u64, HandleInfo>::empty(),
        ensures
            unchanged(old(self).layer2, final(self).layer2),
            final(self).streams_descriptor == old(self).streams_descriptor,
            final(self).compressed_block_size_shift == old(self).compressed_block_size_shift,
            final(self).next_handle_id == old(self).next_handle_id,
            final(self).open_handles@ == old(self).open_handles@,
            final(self).exhausted == old(self).exhausted,
            final(self).failed == old(self).failed,
            r is Err ==> final(self).layer2.faults() > old(self).layer2.faults(),
            old(self).inv() ==> final(self).inv() && final(self).held == old(self).held
                && final(self).table_tree == old(self).table_tree,
            r == Ok::<bool, SfsError>(true) ==> {
                &&& final(self).inv()
                &&& all_owned(
                    final(self).layer2.blocks(),
                    final(self).table_tree@,
                    final(self).held@,
                )
                &&& final(self).layer2.faults() == old(self).layer2.faults()
                &&& final(self).locks@ == Map::<u64, LockState>::empty()
            },
            old(self).inv() && all_owned(
                old(self).layer2.blocks(),
                old(self).table_tree@,
                old(self).held@,
            ) && final(self).layer2.faults() == old(self).layer2.faults() ==> r == Ok::<
                bool,
                SfsError,
            >(true),
    {
        let ghost blocks = self.layer2.blocks();
        let ghost m = self.make();
        let ghost td = self.streams_descriptor;
        proof {
            self.lemma_measures();
            self.lemma_in_order(0);
            lemma_all_in_joined(
                told_blocks(blocks, td, m),
                listed_blocks(blocks, self.stored_table(), slot_count(self.stored_table()), m),
                blocks,
            );
            lemma_claims_in(self.claimed_blocks(), blocks);
            self.layer2.lemma_wf();
            if self.inv() {
                law_l3_header_round_trip(td, self.compressed_block_size_shift);
                if all_owned(blocks, self.table_tree@, self.held@) {
                    lemma_layout_holds_up(blocks, td, self.table_tree@, self.held@, m);
                }
            }
        }
        let my_slot: HeaderSlotId = self.layer2.header_slot_for_upper(0);
        let header: Vec<u8> = match self.layer2.read_header_slot(my_slot) {
            Ok(header) => header,
            Err(_) => {
                return Ok(false);
            },
        };
        if header.len() != L3_PAYLOAD_SIZE as usize {
            return Ok(false);
        }
        let (stored, cbss) = match deserialize_header(header.as_slice()) {
            Ok(found) => found,
            Err(_) => {
                return Ok(false);
            },
        };
        if stored != self.streams_descriptor || cbss != self.compressed_block_size_shift {
            return Ok(false);
        }
        let fan_out: u64 = self.fan_out();
        let piece_size: usize = self.piece_size();
        let mut issues: Vec<String> = Vec::new();
        let (_, row) = collect_stream(
            &mut self.layer2,
            &self.streams_descriptor,
            piece_size,
            fan_out,
            CacheMode::Bypass,
            "Streams-stream",
            &mut issues,
        );
        let table: Vec<u8> = read_table(
            &mut self.layer2,
            &row,
            self.streams_descriptor.size,
            &mut issues,
        );
        if issues.len() > 0 {
            return Ok(false);
        }
        assert(table@ == led_table(blocks, td, m));
        let none: u64 = block_sentinel(self.layer2.block_index_width());
        if table.len() % 25 != 0 || (table.len() / 25) as u64 > none {
            return Ok(false);
        }
        match try_stream(&mut self.layer2, &self.streams_descriptor, piece_size, fan_out) {
            Ok(true) => {},
            Ok(false) => {
                return Ok(false);
            },
            Err(e) => {
                return Err(e);
            },
        }
        match try_listed(&mut self.layer2, &table, piece_size, fan_out) {
            Ok(true) => {},
            Ok(false) => {
                return Ok(false);
            },
            Err(e) => {
                return Err(e);
            },
        }
        proof {
            lemma_all_hold_up(blocks, td, m);
            law_l3_header_of_bytes(header@);
        }
        let ghost tt = told_tree(blocks, td, m);
        let ghost held = told_held(blocks, table@, m);
        self.my_slot = my_slot;
        self.locks = LockTable::new();
        self.table_tree = Ghost(tt);
        self.held = Ghost(held);
        proof {
            lemma_no_handles(self.locks@, self.open_handles@);
            assert(Self::image(self.layer2, tt, held));
            if old(self).inv() {
                assert(Self::image(self.layer2, old(self).table_tree@, old(self).held@));
                Self::lemma_image_unique(
                    self.layer2,
                    tt,
                    held,
                    old(self).table_tree@,
                    old(self).held@,
                );
            }
        }
        Ok(true)
    }
}

impl<L2: BlockLayer> StreamLayer for StreamsFromBlocks<L2> {
    type Handle = BlockStreamHandle;

    closed spec fn streams(&self) -> Map<u64, StreamState> {
        stream_view(self.layer2.blocks(), self.held@, self.make())
    }

    closed spec fn handles(&self) -> Map<BlockStreamHandle, OpenState> {
        handle_view(self.open_handles@)
    }

    closed spec fn slots(&self) -> Seq<Seq<u8>> {
        self.layer2.slots()
    }

    closed spec fn first_slot(&self) -> nat {
        1
    }

    closed spec fn iwidth(&self) -> nat {
        self.layer2.iwidth()
    }

    closed spec fn unit(&self, compressed: bool) -> nat {
        unit_of(compressed, self.make())
    }

    closed spec fn compression(&self) -> bool {
        self.compressed_block_size_shift > 0
    }

    closed spec fn faults(&self) -> nat {
        self.layer2.faults() + self.exhausted@
    }

    open spec fn reads_always() -> bool {
        L2::reads_always()
    }

    closed spec fn wf(&self) -> bool {
        self.inv()
    }

    closed spec fn usable(&self) -> bool {
        self.layer2.usable() && self.compressed_block_size_shift <= MAX_COMPRESSED_BLOCK_SIZE_SHIFT
    }

    closed spec fn failed(&self) -> bool {
        self.failed
    }

    closed spec fn tidy(&self) -> bool {
        all_owned(self.layer2.blocks(), self.table_tree@, self.held@)
    }

    closed spec fn intact(&self, claimed: Seq<u64>) -> bool {
        &&& self.in_order()
        &&& forall|id: u64| #[trigger] claimed.contains(id) <==> in_table(self.stored_table(), id)
    }

    closed spec fn stored(&self) -> Map<u64, StreamState> {
        let blocks = self.layer2.blocks();
        let m = self.make();
        let table = self.stored_table();
        Map::new(
            |id: u64|
                {
                    let d = slot_of(table, id as int);
                    &&& in_table(table, id)
                    &&& !d.compressed()
                    &&& d.size <= told_leaves(blocks, d, m).len() * m.size
                },
            |id: u64|
                {
                    let d = slot_of(table, id as int);
                    StreamState {
                        data: told_table(
                            blocks,
                            told_leaves(blocks, d, m),
                            d.size as nat,
                            m.size,
                        ),
                        reserved: d.reserved as nat,
                        compressed: false,
                    }
                },
        )
    }

    proof fn lemma_stored_streams(&self) {
        let blocks = self.layer2.blocks();
        let m = self.make();
        let td = self.streams_descriptor;
        self.lemma_sizes();
        self.layer2.lemma_wf();
        self.lemma_stored(td, self.table_tree@);
        lemma_capacity(blocks, td, self.table_tree@, m);
        let table = self.stored_table();
        assert(table == self.table());
        assert forall|id: u64| #[trigger] self.held@.contains_key(id) implies {
            let d = slot_of(table, id as int);
            &&& d == self.held@[id].desc
            &&& !d.compressed() ==> {
                &&& d.size <= told_leaves(blocks, d, m).len() * m.size
                &&& told_table(blocks, told_leaves(blocks, d, m), d.size as nat, m.size)
                    == state_of(blocks, d, self.held@[id].tree, m).data
            }
        } by {
            if has_writer(self.open_handles@, id) {
                let h = choose|h: u64| #[trigger]
                    self.open_handles@.contains_key(h) && self.open_handles@[h].stream_id == id
                        && self.open_handles@[h].mode is Write;
                let g = BlockStreamHandle(h);
                assert(self.handles().contains_key(g));
            }
            let d = self.held@[id].desc;
            self.lemma_stored(d, self.held@[id].tree);
            lemma_capacity(blocks, d, self.held@[id].tree, m);
        }
        assert forall|id: u64| #[trigger]
            self.stored().contains_key(id) <==> self.streams().contains_key(id)
                && !self.streams()[id].compressed by {
            assert(self.held@.contains_key(id) <==> in_table(table, id));
        }
        assert forall|id: u64| #[trigger]
            self.stored().contains_key(id) implies self.stored()[id] == self.streams()[id] by {
            assert(self.held@.contains_key(id) <==> in_table(table, id));
        }
    }

    proof fn lemma_intact(&self, claimed: Seq<u64>) {
        self.lemma_sizes();
        self.layer2.lemma_wf();
        lemma_fan_out(self.layer2.bsize(), self.layer2.iwidth());
        assert forall|id: u64| #[trigger] self.held@.contains_key(id) implies slot_of(
            self.table(),
            id as int,
        ) == self.held@[id].desc by {
            if has_writer(self.open_handles@, id) {
                let h = choose|h: u64| #[trigger]
                    self.open_handles@.contains_key(h) && self.open_handles@[h].stream_id == id
                        && self.open_handles@[h].mode is Write;
                let g = BlockStreamHandle(h);
                assert(self.handles().contains_key(g));
            }
        }
        lemma_stored_claims(
            self.layer2.blocks(),
            self.streams_descriptor,
            self.table_tree@,
            self.held@,
            self.make(),
        );
        assert forall|id: u64| #[trigger] self.streams().contains_key(id) <==> in_table(
            self.table(),
            id,
        ) by {
            assert(self.held@.contains_key(id) <==> in_table(self.table(), id));
        }
    }

    fn peek_stream(&mut self, id: u64) -> (r: Result<Vec<u8>, SfsError>)
        ensures
            final(self).store_faults() == old(self).store_faults() ==> final(self).faults() == old(
                self,
            ).faults(),
    {
        let ghost blocks = self.layer2.blocks();
        let ghost m = self.make();
        let ghost td = self.streams_descriptor;
        proof {
            if self.inv() {
                self.lemma_sizes();
                self.layer2.lemma_wf();
            }
            self.layer2.lemma_usable();
            lemma_fan_out(self.layer2.bsize(), self.layer2.iwidth());
            if self.inv() {
                self.lemma_stored(td, self.table_tree@);
                lemma_capacity(blocks, td, self.table_tree@, m);
            }
            if self.in_order() {
                self.lemma_in_order(id);
            }
        }
        let fan_out: u64 = self.fan_out();
        let piece_size: usize = self.piece_size();
        if id >= self.streams_descriptor.size / DESCRIPTOR_SIZE {
            return Err(SfsError::NotFound(text_num("stream ", id, "")));
        }
        let mut issues: Vec<String> = Vec::new();
        let (_, row) = collect_stream(
            &mut self.layer2,
            &self.streams_descriptor,
            piece_size,
            fan_out,
            CacheMode::Shared,
            "Streams-stream",
            &mut issues,
        );
        if issues.len() > 0 {
            return Err(SfsError::IoError("the table of streams is damaged".to_owned()));
        }
        let record: Vec<u8> = match read_record(
            &mut self.layer2,
            &row,
            id * DESCRIPTOR_SIZE,
            &mut issues,
        ) {
            Some(record) => record,
            None => {
                return Err(SfsError::IoError("the table of streams is damaged".to_owned()));
            },
        };
        let d: StreamDescriptor = StreamDescriptor::from_bytes(record.as_slice());
        proof {
            if old(self).in_order() {
                let all = content(blocks, row@, m.size);
                assert(self.stored_table() == all.take(td.size as int));
                assert(self.stored_table().subrange(25 * id, 25 * id + 25) =~= record@);
                assert(d == slot_of(self.stored_table(), id as int));
            }
            if old(self).inv() {
                let all = content(blocks, row@, m.size);
                assert(self.table() == all.take(td.size as int));
                assert(self.table().subrange(25 * id, 25 * id + 25) =~= record@);
                assert(d == slot_of(self.table(), id as int));
                assert(self.held@.contains_key(id) <==> in_table(self.table(), id));
                if self.held@.contains_key(id) && can_open(
                    self.handles(),
                    id,
                    OpenMode::Read,
                ) {
                    lemma_locks_mean(self.locks@, self.open_handles@, id);
                    if has_writer(self.open_handles@, id) {
                        let h = choose|h: u64| #[trigger]
                            self.open_handles@.contains_key(h) && self.open_handles@[h].stream_id
                                == id && self.open_handles@[h].mode is Write;
                        let g = BlockStreamHandle(h);
                        assert(self.handles().contains_key(g));
                    }
                    assert(d == self.held@[id].desc);
                    self.lemma_stored(d, self.held@[id].tree);
                    lemma_capacity(blocks, d, self.held@[id].tree, m);
                }
            }
        }
        if d.is_free() {
            return Err(SfsError::NotFound(text_num("stream ", id, "")));
        }
        if d.is_compressed() {
            return Err(SfsError::IoError(text_num("stream ", id, " is compressed")));
        }
        let mut found: Vec<String> = Vec::new();
        let (_, leaves) = collect_stream(
            &mut self.layer2,
            &d,
            piece_size,
            fan_out,
            CacheMode::ThreadLocal,
            text_num("", id, "").as_str(),
            &mut found,
        );
        let data: Vec<u8> = read_table(&mut self.layer2, &leaves, d.size, &mut found);
        if found.len() > 0 || (data.len() as u64) < d.size {
            return Err(SfsError::IoError(text_num("stream ", id, " is damaged")));
        }
        Ok(data)
    }

    fn verify(&mut self, claimed_streams: &[u64]) -> (r: Result<Vec<String>, SfsError>)
        ensures
            final(self).store_faults() == old(self).store_faults() ==> final(self).faults() == old(
                self,
            ).faults(),
            final(self).faults() - old(self).faults() == final(self).store_faults() - old(
                self,
            ).store_faults(),
            forall|id: u64, mode: OpenMode| #[trigger]
                final(self).numbers_left(id, mode) == old(self).numbers_left(id, mode),
            old(self).wf() && old(self).tidy() && (forall|h: BlockStreamHandle| #[trigger]
                old(self).handles().contains_key(h) ==> old(self).handles()[h].mode is Read)
                && final(self).faults() == old(self).faults() ==> exists|
                below: &mut L2,
                blocks: &[u64],
                found: Result<Vec<String>, SfsError>,
            | #[trigger]
                call_ensures(L2::verify, (below, blocks), found) && blocks@ == old(
                    self,
                ).claimed_blocks(),
    {
        let ghost blocks = self.layer2.blocks();
        let ghost m = self.make();
        let ghost td = self.streams_descriptor;
        proof {
            if self.inv() {
                self.lemma_sizes();
                self.layer2.lemma_wf();
            }
            self.layer2.lemma_usable();
            lemma_fan_out(self.layer2.bsize(), self.layer2.iwidth());
            if self.inv() {
                self.lemma_stored(td, self.table_tree@);
                lemma_capacity(blocks, td, self.table_tree@, m);
            }
        }
        let fan_out: u64 = self.fan_out();
        let piece_size: usize = self.piece_size();
        let size: u64 = self.streams_descriptor.size;
        let mut issues: Vec<String> = Vec::new();
        let (mut all, row) = collect_stream(
            &mut self.layer2,
            &self.streams_descriptor,
            piece_size,
            fan_out,
            CacheMode::Shared,
            "Streams-stream",
            &mut issues,
        );
        let ghost tb = all@;
        let ghost n1 = issues@.len();
        let table: Vec<u8> = read_table(&mut self.layer2, &row, size, &mut issues);
        let ghost n2 = issues@.len();
        if (table.len() as u64) < size {
            issues.push(text_num("L3: the table of streams is too short: ", size, ""));
        }
        let ghost n3 = issues@.len();
        let (mut more, ids) = collect_listed(
            &mut self.layer2,
            &table,
            piece_size,
            fan_out,
            &mut issues,
        );
        let ghost lb = more@;
        all.append(&mut more);
        let ghost n4 = issues@.len();
        let mut unfit: Vec<String> = check_ids(claimed_streams, &ids);
        let ghost u = unfit@.len();
        let ghost first = issues@;
        let ghost apart = unfit@;
        let ghost mut last: Seq<String> = Seq::empty();
        issues.append(&mut unfit);
        proof {
            if old(self).inv() && old(self).tidy() && (forall|h: BlockStreamHandle| #[trigger]
                old(self).handles().contains_key(h) ==> old(self).handles()[h].mode is Read) {
                old(self).lemma_claimed();
                lemma_claims_in(old(self).claimed_blocks(), blocks);
                lemma_all_in_joined(
                    told_blocks(blocks, td, m),
                    listed_blocks(blocks, table@, slot_count(table@), m),
                    blocks,
                );
            }
        }
        match self.layer2.verify(all.as_slice()) {
            Ok(found) => {
                let mut found = found;
                proof {
                    last = found@;
                }
                issues.append(&mut found);
            },
            Err(e) => {
                return Err(e);
            },
        }
        proof {
            let table_s = told_table(blocks, told_leaves(blocks, td, m), size as nat, m.size);
            let tb_s = told_blocks(blocks, td, m);
            let lb_s = listed_blocks(blocks, table_s, slot_count(table_s), m);
            if old(self).inv() && self.layer2.faults() == old(self).layer2.faults() {
                assert(ids@.to_set() =~= old(self).streams().dom()) by {
                    assert forall|id: u64| #[trigger] ids@.to_set().contains(id) <==> old(
                        self,
                    ).streams().contains_key(id) by {
                        assert(ids@.contains(id) <==> in_table(table@, id));
                        assert(old(self).held@.contains_key(id) <==> in_table(
                            old(self).table(),
                            id,
                        ));
                    }
                }
                lemma_more_issues(
                    apart,
                    first,
                    last,
                    claimed_streams@,
                    old(self).streams().dom(),
                );
                assert(issues@ =~= first + apart + last);
            }
            if old(self).layer2.wf() && self.layer2.faults() == old(self).layer2.faults() {
                lemma_all_in_joined(tb, lb, blocks);
                lemma_all_in_joined(tb_s, lb_s, blocks);
                lemma_claims_in(tb + lb, blocks);
                lemma_claims_in(tb_s + lb_s, blocks);
                assert(content(blocks, told_leaves(blocks, td, m), m.size).len() == told_leaves(
                    blocks,
                    td,
                    m,
                ).len() * m.size);
            }
        }
        Ok(issues)
    }

    #[verifier::rlimit(40)]
    fn examine(&mut self, claimed_streams: &[u64]) -> (r: Result<bool, SfsError>)
        ensures
            final(self).store_faults() == old(self).store_faults() ==> final(self).faults() == old(
                self,
            ).faults(),
            r == Ok::<bool, SfsError>(true) ==> (forall|id: u64, mode: OpenMode|
                old(self).numbers_left(id, mode) ==> #[trigger] final(self).numbers_left(id, mode)),
    {
        let issues: Vec<String> = match self.verify(claimed_streams) {
            Ok(issues) => issues,
            Err(e) => {
                return Err(e);
            },
        };
        if issues.len() > 0 || self.failed || self.open_handles.len() > 0 {
            proof {
                if old(self).handles() == Map::<BlockStreamHandle, OpenState>::empty() {
                    lemma_none_open(self.open_handles@);
                }
            }
            return Ok(false);
        }
        proof {
            assert(self.open_handles@ =~= Map::<u64, HandleInfo>::empty());
            assert(self.intact(claimed_streams@));
        }
        let ghost checked = *self;
        let r: Result<bool, SfsError> = self.audit();
        proof {
            Self::lemma_same_seen(checked, *self);
            if r == Ok::<bool, SfsError>(true) {
                assert forall|id: u64, mode: OpenMode| old(self).numbers_left(
                    id,
                    mode,
                ) implies #[trigger] self.numbers_left(id, mode) by {
                    assert(checked.numbers_left(id, mode));
                    assert(lock_of(self.locks@, id).readers == 0);
                }
            }
        }
        r
    }

    proof fn lemma_usable(&self) {
        self.layer2.lemma_usable();
    }

    proof fn lemma_wf(&self) {
        self.lemma_sizes();
        self.layer2.lemma_wf();
        lemma_view_exclusive(self.open_handles@);
        lemma_ids_finite(self.held@, sentinel(self.layer2.iwidth()));
        assert(self.streams().dom() =~= self.held@.dom().filter(
            |id: u64| id < sentinel(self.layer2.iwidth()),
        )) by {
            assert forall|id: u64| #[trigger] self.held@.contains_key(id) implies id < sentinel(
                self.layer2.iwidth(),
            ) by {
                assert(in_table(self.table(), id));
            }
        }
        assert forall|id: u64| #[trigger] self.streams().contains_key(id) implies id < sentinel(
            self.iwidth(),
        ) && self.streams()[id].data.len() <= self.streams()[id].reserved <= u64::MAX
            && self.streams()[id].reserved % self.unit(self.streams()[id].compressed) == 0 by {
            assert(self.held@.contains_key(id));
            assert(in_table(self.table(), id));
            lemma_capacity(
                self.layer2.blocks(),
                self.held@[id].desc,
                self.held@[id].tree,
                self.make(),
            );
        }
    }

    fn create(
        path: &str,
        block_index_width: u8,
        block_size_shift: u8,
        compressed_block_size_shift: u8,
        slot_sizes: VecDeque<u16>,
    ) -> (r: Result<Self, SfsError>)
        ensures
            r matches Ok(layer) ==> !layer.table_full() && forall|id: u64, mode: OpenMode| #[trigger]
                layer.numbers_left(id, mode),
            compressed_block_size_shift > MAX_COMPRESSED_BLOCK_SIZE_SHIFT ==> {
                r matches Err(e) && e is IoError
            },
            compressed_block_size_shift <= MAX_COMPRESSED_BLOCK_SIZE_SHIFT ==> exists|
                sizes: VecDeque<u16>,
                made: Result<L2, SfsError>,
            |
                {
                    &&& sizes@ == seq![L3_PAYLOAD_SIZE] + slot_sizes@
                    &&& #[trigger] call_ensures(
                        L2::create,
                        (path, block_size_shift, block_index_width, sizes),
                        made,
                    )
                    &&& match made {
                        Ok(layer2) => exists|begun: &mut L2, done: Result<(), SfsError>|
                            {
                                &&& *begun == layer2
                                &&& #[trigger] call_ensures(
                                    Self::format_store,
                                    (begun, compressed_block_size_shift),
                                    done,
                                )
                                &&& match done {
                                    Ok(_) => r is Ok,
                                    Err(e) => r == Err::<Self, SfsError>(e),
                                }
                            },
                        Err(e) => r == Err::<Self, SfsError>(e),
                    }
                },
    {
        if compressed_block_size_shift > MAX_COMPRESSED_BLOCK_SIZE_SHIFT {
            return Err(
                SfsError::IoError(
                    text_num(
                        "compressed block size shift ",
                        compressed_block_size_shift as u64,
                        " is too large",
                    ),
                ),
            );
        }
        let ghost upper = slot_sizes@;
        let mut sizes: VecDeque<u16> = slot_sizes;
        sizes.push_front(L3_PAYLOAD_SIZE);
        let ghost all_sizes = sizes@;
        assert(all_sizes =~= seq![L3_PAYLOAD_SIZE] + upper);
        let mut layer2: L2 = match L2::create(path, block_size_shift, block_index_width, sizes) {
            Ok(layer2) => layer2,
            Err(e) => {
                return Err(e);
            },
        };
        proof {
            assert(layer2.slots()[0] =~= zero_bytes(all_sizes[0] as nat));
        }
        match Self::format_store(&mut layer2, compressed_block_size_shift) {
            Ok(_) => {},
            Err(e) => {
                return Err(e);
            },
        }
        let my_slot: HeaderSlotId = layer2.header_slot_for_upper(0);
        let layer: StreamsFromBlocks<L2> = StreamsFromBlocks {
            layer2,
            streams_descriptor: StreamDescriptor { size: 0, top_block: 0, reserved: 0, flags: 0 },
            my_slot,
            compressed_block_size_shift,
            next_handle_id: 0,
            locks: LockTable::new(),
            open_handles: HashMap::new(),
            failed: false,
            table_tree: Ghost(no_tree()),
            held: Ghost(Map::empty()),
            exhausted: Ghost(0),
        };
        proof {
            let m = layer.make();
            layer.layer2.lemma_wf();
            lemma_piece_bounds(compressed_block_size_shift);
            lemma_fresh_layer(layer.layer2.blocks(), m);
            assert(layer.open_handles@ =~= Map::<u64, HandleInfo>::empty());
            lemma_no_handles(layer.locks@, layer.open_handles@);
            assert(layer.table() =~= Seq::<u8>::empty());
            assert(layer.streams() =~= Map::<u64, StreamState>::empty());
            assert(layer.handles() =~= Map::<BlockStreamHandle, OpenState>::empty());
            let n = ceil_div(25, m.size);
            assert(n <= 25) by {
                vstd::arithmetic::div_mod::lemma_div_is_ordered_by_denominator(
                    24,
                    1,
                    m.size as int,
                );
            }
            assert(n * m.size <= 25 * 0x8000_0000) by (nonlinear_arith)
                requires
                    n <= 25,
                    m.size <= 0x8000_0000,
            ;
            assert forall|i: int| 0 <= i < upper.len() implies #[trigger] layer.slots()[1 + i]
                == zero_bytes(upper[i] as nat) by {
                assert(all_sizes[1 + i] == upper[i]);
            }
        }
        Ok(layer)
    }

    fn open(path: &str, mode: OpenMode) -> (r: Result<Self, SfsError>)
        ensures
            exists|found: Result<L2, SfsError>| #[trigger]
                call_ensures(L2::open, (path, mode), found) && match found {
                    Ok(layer2) => Self::opened(layer2, r),
                    Err(e) => r == Err::<Self, SfsError>(e),
                },
    {
        match L2::open(path, mode) {
            Ok(layer2) => Self::open_on(layer2),
            Err(e) => Err(e),
        }
    }

    fn block_index_width(&self) -> (width: u8) {
        proof {
            if self.inv() {
                self.layer2.lemma_wf();
            }
            self.layer2.lemma_usable();
        }
        self.layer2.block_index_width()
    }

    fn block_size_shift(&self) -> (shift: u8) {
        self.layer2.block_size_shift()
    }

    fn compressed_block_size_shift(&self) -> (shift: u8) {
        self.compressed_block_size_shift
    }

    fn create_stream(&mut self, compressed: bool) -> (r: Result<u64, SfsError>)
        ensures
            final(self).store_faults() == old(self).store_faults() && !old(self).table_full()
                ==> final(self).faults() == old(self).faults(),
    {
        if compressed && self.compressed_block_size_shift == 0 {
            return Err(
                SfsError::IoError("compression not configured for this filesystem".to_owned()),
            );
        }
        self.refresh();
        proof {
            self.lemma_sizes();
        }
        let ghost a = *self;
        let ghost limit = sentinel(self.layer2.iwidth());
        let num_slots: u64 = self.streams_descriptor.size / DESCRIPTOR_SIZE;
        let mut stream_id: u64 = 0;
        let mut found: bool = false;
        while stream_id < num_slots && !found
            invariant
                self.inv(),
                Self::same_state(a, *self),
                Self::same_state(*old(self), *self),
                self.table() == a.table(),
                self.layer2.faults() == old(self).layer2.faults(),
                a.inv(),
                num_slots == slot_count(a.table()),
                stream_id <= num_slots,
                found ==> stream_id < num_slots && slot_of(a.table(), stream_id as int).free(),
                forall|j: u64|
                    j < stream_id ==> !(#[trigger] slot_of(a.table(), j as int)).free(),
            decreases num_slots - stream_id + if found { 0int } else { 1int },
        {
            match self.read_slot(stream_id) {
                Ok(desc) => {
                    if desc.is_free() {
                        found = true;
                    } else {
                        stream_id = stream_id + 1;
                    }
                },
                Err(e) => {
                    return Err(e);
                },
            }
        }
        let width: u8 = self.layer2.block_index_width();
        proof {
            let table = a.table();
            assert(!a.held@.contains_key(stream_id)) by {
                assert(!in_table(table, stream_id));
            }
            assert forall|j: u64| j < stream_id implies #[trigger] a.streams().contains_key(j) by {
                assert(in_table(table, j));
                assert(a.held@.contains_key(j));
            }
            assert(all_used(a.streams(), limit) ==> stream_id >= limit) by {
                if all_used(a.streams(), limit) && stream_id < limit {
                    assert(a.streams().contains_key(stream_id));
                }
            }
        }
        if !found && stream_id >= block_sentinel(width) {
            return Err(
                SfsError::IoError(
                    text_num(
                        text_num(
                            text_num("stream ID overflow: ", stream_id, " >= sentinel ").as_str(),
                            block_sentinel(width),
                            " for block_index_width=",
                        ).as_str(),
                        width as u64,
                        "",
                    ),
                ),
            );
        }
        if stream_id > (u64::MAX - 25) / 25 {
            self.exhausted = Ghost(self.exhausted@ + 1);
            return Err(SfsError::IoError("the table of streams is full".to_owned()));
        }
        let flags: u8 = if compressed {
            STREAM_FLAG_COMPRESSED
        } else {
            0
        };
        let new_desc = StreamDescriptor { size: 0, top_block: 0, reserved: 0, flags };
        let ghost b = *self;
        match self.store_slot(stream_id, &new_desc) {
            Ok(_) => {},
            Err(e) => {
                self.exhausted = Ghost(self.exhausted@ + 1);
                return Err(e);
            },
        }
        let ghost new = Held { desc: new_desc, tree: no_tree() };
        proof {
            lemma_layout_added(
                self.layer2.blocks(),
                self.streams_descriptor,
                self.table_tree@,
                self.held@,
                stream_id,
                new,
                self.make(),
            );
        }
        self.held = Ghost(self.held@.insert(stream_id, new));
        proof {
            let t0 = b.table();
            let t1 = self.table();
            let m = self.make();
            assert forall|j: u64| #[trigger] self.held@.contains_key(j) <==> in_table(t1, j) by {
                assert(b.held@.contains_key(j) <==> in_table(t0, j));
            }
            assert forall|j: u64| #[trigger]
                self.held@.contains_key(j) && !has_writer(self.open_handles@, j) implies slot_of(
                t1,
                j as int,
            ) == self.held@[j].desc by {
                if j != stream_id {
                    assert(b.held@.contains_key(j));
                    assert(in_table(t0, j));
                }
            }
            assert forall|h: u64| #[trigger] self.open_handles@.contains_key(h) implies h
                < self.next_handle_id && self.held@.contains_key(self.open_handles@[h].stream_id)
                && self.open_handles@[h].cached_descriptor
                == self.held@[self.open_handles@[h].stream_id].desc by {
                assert(b.open_handles@.contains_key(h));
            }
            assert(self.inv());
            assert(self.streams() =~= old(self).streams().insert(
                stream_id,
                empty_stream(compressed),
            )) by {
                assert(state_of(self.layer2.blocks(), new_desc, no_tree(), m)
                    =~= empty_stream(compressed)) by {
                    assert(new_desc.compressed() == compressed);
                }
            }
            assert(self.slots().skip(1) =~= old(self).slots().skip(1));
        }
        Ok(stream_id)
    }

    fn stream_exists(&mut self, id: u64) -> (found: bool)
        ensures
            final(self).store_faults() == old(self).store_faults() ==> final(self).faults() == old(
                self,
            ).faults(),
    {
        self.refresh();
        match self.read_slot(id) {
            Ok(desc) => {
                proof {
                    assert(in_table(old(self).table(), id) <==> old(self).held@.contains_key(id));
                }
                !desc.is_free()
            },
            Err(_) => {
                proof {
                    assert(in_table(old(self).table(), id) <==> old(self).held@.contains_key(id));
                }
                false
            },
        }
    }

    fn stream_count(&mut self) -> (r: Result<u64, SfsError>)
        ensures
            final(self).store_faults() == old(self).store_faults() ==> final(self).faults() == old(
                self,
            ).faults(),
    {
        self.refresh();
        proof {
            self.lemma_sizes();
        }
        let ghost a = *self;
        let num_slots: u64 = self.streams_descriptor.size / DESCRIPTOR_SIZE;
        let mut count: u64 = 0;
        let mut i: u64 = 0;
        proof {
            assert(a.held@.dom().filter(|id: u64| id < 0) =~= Set::<u64>::empty());
        }
        while i < num_slots
            invariant
                self.inv(),
                Self::same_state(a, *self),
                Self::same_state(*old(self), *self),
                self.table() == a.table(),
                self.layer2.faults() == old(self).layer2.faults(),
                a.inv(),
                num_slots == slot_count(a.table()),
                i <= num_slots,
                count <= i,
                count == a.held@.dom().filter(|id: u64| id < i).len(),
                a.held@.dom().filter(|id: u64| id < i).finite(),
            decreases num_slots - i,
        {
            match self.read_slot(i) {
                Ok(desc) => {
                    proof {
                        assert(in_table(a.table(), i) <==> a.held@.contains_key(i));
                        let less = a.held@.dom().filter(|id: u64| id < i);
                        let more = a.held@.dom().filter(|id: u64| id < i + 1);
                        if a.held@.contains_key(i) {
                            assert(more =~= less.insert(i));
                        } else {
                            assert(more =~= less);
                        }
                    }
                    if !desc.is_free() {
                        count = count + 1;
                    }
                },
                Err(e) => {
                    return Err(e);
                },
            }
            i = i + 1;
        }
        proof {
            assert(a.held@.dom().filter(|id: u64| id < num_slots) =~= old(self).streams().dom()) by {
                assert forall|id: u64| #[trigger] a.held@.contains_key(id) implies id < num_slots by {
                    assert(in_table(a.table(), id));
                }
            }
        }
        Ok(count)
    }

    fn stream_ids(&mut self) -> (r: Result<Vec<u64>, SfsError>)
        ensures
            final(self).store_faults() == old(self).store_faults() ==> final(self).faults() == old(
                self,
            ).faults(),
    {
        self.refresh();
        proof {
            self.lemma_sizes();
        }
        let ghost a = *self;
        let num_slots: u64 = self.streams_descriptor.size / DESCRIPTOR_SIZE;
        let mut ids: Vec<u64> = Vec::new();
        let mut i: u64 = 0;
        while i < num_slots
            invariant
                self.inv(),
                Self::same_state(a, *self),
                Self::same_state(*old(self), *self),
                self.table() == a.table(),
                self.layer2.faults() == old(self).layer2.faults(),
                a.inv(),
                num_slots == slot_count(a.table()),
                i <= num_slots,
                forall|x: int| 0 <= x < ids@.len() ==> ids@[x] < i,
                forall|x: int, y: int| 0 <= x < y < ids@.len() ==> ids@[x] < ids@[y],
                forall|id: u64| #[trigger]
                    ids@.contains(id) <==> id < i && a.held@.contains_key(id),
            decreases num_slots - i,
        {
            match self.read_slot(i) {
                Ok(desc) => {
                    proof {
                        assert(in_table(a.table(), i) <==> a.held@.contains_key(i));
                    }
                    if !desc.is_free() {
                        let ghost before = ids@;
                        ids.push(i);
                        proof {
                            assert forall|id: u64| #[trigger]
                                ids@.contains(id) <==> id < i + 1 && a.held@.contains_key(id) by {
                                if before.contains(id) {
                                    let x = choose|x: int| 0 <= x < before.len() && before[x] == id;
                                    assert(ids@[x] == id);
                                }
                                if id == i {
                                    assert(ids@[before.len() as int] == id);
                                }
                                if ids@.contains(id) && id != i {
                                    let x = choose|x: int| 0 <= x < ids@.len() && ids@[x] == id;
                                    assert(before[x] == id);
                                }
                                assert(before.contains(id) <==> id < i && a.held@.contains_key(id));
                            }
                        }
                    }
                },
                Err(e) => {
                    return Err(e);
                },
            }
            i = i + 1;
        }
        proof {
            assert forall|id: u64| #[trigger] ids@.contains(id) <==> old(
                self,
            ).streams().contains_key(id) by {
                assert(in_table(a.table(), id) <==> a.held@.contains_key(id));
            }
        }
        Ok(ids)
    }

    fn open_stream(&mut self, id: u64, mode: OpenMode) -> (r: Result<BlockStreamHandle, SfsError>)
        ensures
            L2::reads_always() && old(self).numbers_left(id, mode) ==> final(self).faults() == old(
                self,
            ).faults(),
            final(self).store_faults() == old(self).store_faults() && old(self).numbers_left(id, mode)
                ==> final(self).faults() == old(self).faults(),
    {
        proof {
            self.lemma_sizes();
            lemma_locks_mean(self.locks@, self.open_handles@, id);
            assert(lock_free(self.locks@, id, mode) == can_open(self.handles(), id, mode));
            assert(self.held@.contains_key(id) <==> in_table(self.table(), id));
        }
        if id == u64::MAX {
            return Err(SfsError::InvalidPath("cannot open Streams stream directly".to_owned()));
        }
        let ghost locks0 = self.locks@;
        match self.locks.acquire_lock(id, mode) {
            Ok(_) => {},
            Err(e) => {
                if !matches!(e, SfsError::LockConflict(_)) {
                    self.exhausted = Ghost(self.exhausted@ + 1);
                }
                return Err(e);
            },
        }
        proof {
            assert(lock_of(locks0, id) == lock_of(locks0, id));
            law_lock_round_trip(locks0, id, mode);
        }
        self.layer2.invalidate_block_cache();
        let fan_out: u64 = self.fan_out();
        let piece_size: usize = self.piece_size();
        let desc: StreamDescriptor = match read_descriptor(
            &mut self.layer2,
            &self.streams_descriptor,
            id,
            piece_size,
            fan_out,
            Ghost(self.table_tree@),
        ) {
            Ok(desc) => desc,
            Err(e) => {
                self.locks.release_lock(id, mode);
                return Err(e);
            },
        };
        if desc.is_free() {
            self.locks.release_lock(id, mode);
            return Err(SfsError::NotFound(text_num("stream ", id, "")));
        }
        if self.next_handle_id == u64::MAX {
            self.locks.release_lock(id, mode);
            self.exhausted = Ghost(self.exhausted@ + 1);
            return Err(SfsError::IoError("no handle numbers left".to_owned()));
        }
        let handle_id: u64 = self.next_handle_id;
        self.next_handle_id = handle_id + 1;
        let info = HandleInfo { stream_id: id, mode, cached_descriptor: desc };
        let ghost hs0 = self.open_handles@;
        self.open_handles.insert(handle_id, info);
        proof {
            let hs1 = self.open_handles@;
            assert(hs1 =~= hs0.insert(handle_id, info));
            lemma_handle_opened(locks0, hs0, handle_id, info);
            assert(!has_writer(hs0, id)) by {
                assert(lock_of(locks0, id).has_writer == has_writer(hs0, id));
            }
            assert forall|j: u64| #[trigger]
                self.held@.contains_key(j) && !has_writer(hs1, j) implies slot_of(
                self.table(),
                j as int,
            ) == self.held@[j].desc by {
                if has_writer(hs0, j) {
                    assert(has_writer(hs1, j));
                }
            }
            assert forall|h: u64| #[trigger] hs1.contains_key(h) implies h < self.next_handle_id
                && self.held@.contains_key(hs1[h].stream_id) && hs1[h].cached_descriptor
                == self.held@[hs1[h].stream_id].desc by {
                if h != handle_id {
                    assert(hs0.contains_key(h));
                }
            }
            assert(!handle_view(hs0).contains_key(BlockStreamHandle(handle_id)));
        }
        Ok(BlockStreamHandle(handle_id))
    }

    fn close_stream(&mut self, handle: BlockStreamHandle) -> (r: Result<(), SfsError>)
        ensures
            final(self).store_faults() == old(self).store_faults() ==> final(self).faults() == old(
                self,
            ).faults(),
    {
        let info: HandleInfo = match self.open_handles.get(&handle.0) {
            Some(info) => *info,
            None => {
                proof {
                    assert(self.handles().remove(handle) =~= self.handles());
                }
                return Err(SfsError::NotFound("invalid stream handle".to_owned()));
            },
        };
        let ghost a = *self;
        self.open_handles.remove(&handle.0);
        proof {
            assert(self.open_handles@ =~= a.open_handles@.remove(handle.0));
            assert(handle == BlockStreamHandle(handle.0));
            assert(handle_view(self.open_handles@) =~= a.handles().remove(handle));
        }
        if self.failed {
            self.locks.release_lock(info.stream_id, info.mode);
            if matches!(info.mode, OpenMode::Write) {
                return Err(SfsError::IoError("the storage has failed".to_owned()));
            }
            return Ok(());
        }
        let ghost id = info.stream_id;
        proof {
            a.lemma_sizes();
            lemma_handle_closed(a.locks@, a.open_handles@, handle.0);
            assert(a.held@.contains_key(id));
            assert(in_table(a.table(), id));
        }
        if matches!(info.mode, OpenMode::Write) {
            self.layer2.invalidate_block_cache();
            match self.store_slot(info.stream_id, &info.cached_descriptor) {
                Ok(_) => {},
                Err(e) => {
                    self.failed = true;
                    return Err(e);
                },
            }
        }
        self.locks.release_lock(info.stream_id, info.mode);
        proof {
            let t0 = a.table();
            let t1 = self.table();
            assert(!a.held@[id].desc.free()) by {
                lemma_desc_not_free(a.layer2, a.held@[id], a.make());
            }
            assert forall|j: u64| #[trigger] self.held@.contains_key(j) <==> in_table(t1, j) by {
                assert(a.held@.contains_key(j) <==> in_table(t0, j));
            }
            assert forall|j: u64| #[trigger]
                self.held@.contains_key(j) && !has_writer(self.open_handles@, j) implies slot_of(
                t1,
                j as int,
            ) == self.held@[j].desc by {
                assert(in_table(t0, j));
                assert(has_writer(self.open_handles@, j) == (has_writer(a.open_handles@, j) && !(
                info.mode is Write && id == j)));
            }
            assert forall|h: u64| #[trigger] self.open_handles@.contains_key(h) implies h
                < self.next_handle_id && self.held@.contains_key(self.open_handles@[h].stream_id)
                && self.open_handles@[h].cached_descriptor
                == self.held@[self.open_handles@[h].stream_id].desc by {
                assert(a.open_handles@.contains_key(h));
            }
            assert(self.slots().skip(1) =~= old(self).slots().skip(1));
        }
        Ok(())
    }

    fn delete_stream(&mut self, id: u64) -> (r: Result<(), SfsError>)
        ensures
            final(self).store_faults() == old(self).store_faults() ==> final(self).faults() == old(
                self,
            ).faults(),
    {
        proof {
            self.lemma_sizes();
            lemma_locks_mean(self.locks@, self.open_handles@, id);
            assert(self.held@.contains_key(id) <==> in_table(self.table(), id));
        }
        if self.locks.is_locked(id) {
            return Err(SfsError::LockConflict(text_num("cannot delete open stream ", id, "")));
        }
        self.refresh();
        let ghost a = *self;
        let desc: StreamDescriptor = match self.read_slot(id) {
            Ok(desc) => desc,
            Err(e) => {
                return Err(e);
            },
        };
        if desc.is_free() {
            return Err(SfsError::NotFound(text_num("stream ", id, "")));
        }
        let fan_out: u64 = self.fan_out();
        let piece_size: usize = self.piece_size();
        proof {
            assert(!has_writer(a.open_handles@, id)) by {
                if has_writer(a.open_handles@, id) {
                    let h = choose|h: u64| #[trigger]
                        a.open_handles@.contains_key(h) && a.open_handles@[h].stream_id == id
                            && a.open_handles@[h].mode is Write;
                    assert(a.handles().contains_key(BlockStreamHandle(h)));
                }
            }
            assert(a.held@.contains_key(id));
        }
        match stream_free(
            &mut self.layer2,
            &desc,
            piece_size,
            fan_out,
            CacheMode::ThreadLocal,
            Ghost(self.held@[id].tree),
        ) {
            Ok(_) => {},
            Err(e) => {
                return Err(e);
            },
        }
        let ghost gone = Held { desc: StreamDescriptor::empty(0), tree: no_tree() };
        proof {
            assert(0 * a.make().size == 0) by (nonlinear_arith);
            lemma_layout_stream(
                a.layer2.blocks(),
                self.layer2.blocks(),
                a.streams_descriptor,
                a.table_tree@,
                a.held@,
                id,
                gone,
                a.make(),
            );
            lemma_layout_removed(
                self.layer2.blocks(),
                a.streams_descriptor,
                a.table_tree@,
                a.held@.insert(id, gone),
                id,
                a.make(),
            );
        }
        self.held = Ghost(a.held@.insert(id, gone).remove(id));
        let free_desc = StreamDescriptor {
            size: 0,
            top_block: FREE_DESCRIPTOR_MARKER,
            reserved: 0,
            flags: 0,
        };
        let ghost b = *self;
        proof {
            assert(b.table() == a.table());
            assert(stream_view(b.layer2.blocks(), b.held@, b.make()) =~= stream_view(
                a.layer2.blocks(),
                a.held@,
                a.make(),
            ).remove(id));
        }
        match self.store_slot(id, &free_desc) {
            Ok(_) => {},
            Err(e) => {
                return Err(e);
            },
        }
        proof {
            let t0 = a.table();
            let t1 = self.table();
            assert forall|j: u64| #[trigger] self.held@.contains_key(j) <==> in_table(t1, j) by {
                assert(a.held@.contains_key(j) <==> in_table(t0, j));
            }
            assert forall|j: u64| #[trigger]
                self.held@.contains_key(j) && !has_writer(self.open_handles@, j) implies slot_of(
                t1,
                j as int,
            ) == self.held@[j].desc by {
                assert(a.held@.contains_key(j));
                assert(in_table(t0, j));
            }
            assert forall|h: u64| #[trigger] self.open_handles@.contains_key(h) implies h
                < self.next_handle_id && self.held@.contains_key(self.open_handles@[h].stream_id)
                && self.open_handles@[h].cached_descriptor
                == self.held@[self.open_handles@[h].stream_id].desc by {
                assert(a.open_handles@.contains_key(h));
                assert(a.handles().contains_key(BlockStreamHandle(h)));
            }
            assert(self.slots().skip(1) =~= old(self).slots().skip(1));
        }
        Ok(())
    }

    fn read(&mut self, handle: &BlockStreamHandle, pos: u64, buf: &mut [u8]) -> (r: Result<
        usize,
        SfsError,
    >)
        ensures
            final(self).store_faults() == old(self).store_faults() ==> final(self).faults() == old(
                self,
            ).faults(),
    {
        let info: HandleInfo = match self.open_handles.get(&handle.0) {
            Some(info) => *info,
            None => {
                return Err(SfsError::NotFound("invalid stream handle".to_owned()));
            },
        };
        proof {
            self.lemma_sizes();
            assert(self.held@.contains_key(info.stream_id));
        }
        let fan_out: u64 = self.fan_out();
        let piece_size: usize = self.piece_size();
        stream_read(
            &mut self.layer2,
            &info.cached_descriptor,
            pos,
            buf,
            piece_size,
            fan_out,
            CacheMode::ThreadLocal,
            Ghost(self.held@[info.stream_id].tree),
        )
    }

    fn write(&mut self, handle: &BlockStreamHandle, pos: u64, buf: &[u8]) -> (r: Result<
        usize,
        SfsError,
    >)
        ensures
            final(self).store_faults() == old(self).store_faults() && (!old(self).packs(*handle)
                || piece_fits(old(self).unit(true), old(self).unit(false), old(self).iwidth()))
                ==> final(self).faults() == old(self).faults(),
    {
        let info: HandleInfo = match self.open_handles.get(&handle.0) {
            Some(info) => *info,
            None => {
                return Err(SfsError::NotFound("invalid stream handle".to_owned()));
            },
        };
        if !matches!(info.mode, OpenMode::Write) {
            return Err(SfsError::LockConflict("stream is not opened for writing".to_owned()));
        }
        let ghost a = *self;
        let ghost id = info.stream_id;
        proof {
            self.lemma_sizes();
            assert(self.held@.contains_key(id));
        }
        let fan_out: u64 = self.fan_out();
        let piece_size: usize = self.piece_size();
        let mut desc: StreamDescriptor = info.cached_descriptor;
        let mut tree: Ghost<Tree> = Ghost(self.held@[id].tree);
        let n: usize = match stream_write(
            &mut self.layer2,
            &mut desc,
            pos,
            buf,
            piece_size,
            fan_out,
            CacheMode::ThreadLocal,
            &mut tree,
        ) {
            Ok(n) => n,
            Err(e) => {
                let ghost unit = a.unit(info.cached_descriptor.compressed());
                let ghost large = buf@.len() > 0 && too_large(
                    info.cached_descriptor.reserved as nat,
                    (pos + buf@.len()) as nat,
                    unit,
                );
                self.exhausted = Ghost(
                    if large {
                        self.exhausted@
                    } else {
                        self.exhausted@ + 1
                    },
                );
                return Err(e);
            },
        };
        let ghost new = Held { desc, tree: tree@ };
        self.held = Ghost(self.held@.insert(id, new));
        self.open_handles.insert(
            handle.0,
            HandleInfo { stream_id: info.stream_id, mode: info.mode, cached_descriptor: desc },
        );
        proof {
            Self::lemma_stream_changed(a, *self, handle.0, new);
        }
        Ok(n)
    }

    fn stream_length(&self, handle: &BlockStreamHandle) -> (r: Result<u64, SfsError>) {
        match self.open_handles.get(&handle.0) {
            Some(info) => {
                proof {
                    self.lemma_sizes();
                    assert(self.held@.contains_key(info.stream_id));
                    lemma_capacity(
                        self.layer2.blocks(),
                        self.held@[info.stream_id].desc,
                        self.held@[info.stream_id].tree,
                        self.make(),
                    );
                }
                Ok(info.cached_descriptor.size)
            },
            None => Err(SfsError::NotFound("invalid stream handle".to_owned())),
        }
    }

    fn truncate(&mut self, handle: &BlockStreamHandle, new_len: u64) -> (r: Result<(), SfsError>)
        ensures
            final(self).store_faults() == old(self).store_faults() ==> final(self).faults() == old(
                self,
            ).faults(),
    {
        let info: HandleInfo = match self.open_handles.get(&handle.0) {
            Some(info) => *info,
            None => {
                return Err(SfsError::NotFound("invalid stream handle".to_owned()));
            },
        };
        if !matches!(info.mode, OpenMode::Write) {
            return Err(SfsError::LockConflict("stream is not opened for writing".to_owned()));
        }
        let ghost a = *self;
        let ghost id = info.stream_id;
        proof {
            self.lemma_sizes();
            assert(self.held@.contains_key(id));
        }
        let fan_out: u64 = self.fan_out();
        let piece_size: usize = self.piece_size();
        let mut desc: StreamDescriptor = info.cached_descriptor;
        let mut tree: Ghost<Tree> = Ghost(self.held@[id].tree);
        match stream_truncate(
            &mut self.layer2,
            &mut desc,
            new_len,
            piece_size,
            fan_out,
            CacheMode::ThreadLocal,
            &mut tree,
        ) {
            Ok(_) => {},
            Err(e) => {
                return Err(e);
            },
        }
        let ghost new = Held { desc, tree: tree@ };
        self.held = Ghost(self.held@.insert(id, new));
        self.open_handles.insert(
            handle.0,
            HandleInfo { stream_id: info.stream_id, mode: info.mode, cached_descriptor: desc },
        );
        proof {
            Self::lemma_stream_changed(a, *self, handle.0, new);
        }
        Ok(())
    }

    fn reserve(&mut self, handle: &BlockStreamHandle, n_bytes: u64) -> (r: Result<(), SfsError>)
        ensures
            final(self).store_faults() == old(self).store_faults() ==> final(self).faults() == old(
                self,
            ).faults(),
    {
        let info: HandleInfo = match self.open_handles.get(&handle.0) {
            Some(info) => *info,
            None => {
                return Err(SfsError::NotFound("invalid stream handle".to_owned()));
            },
        };
        if !matches!(info.mode, OpenMode::Write) {
            return Err(SfsError::LockConflict("stream is not opened for writing".to_owned()));
        }
        let ghost a = *self;
        let ghost id = info.stream_id;
        proof {
            self.lemma_sizes();
            assert(self.held@.contains_key(id));
            lemma_capacity(
                self.layer2.blocks(),
                self.held@[id].desc,
                self.held@[id].tree,
                self.make(),
            );
        }
        let fan_out: u64 = self.fan_out();
        let piece_size: usize = self.piece_size();
        let mut desc: StreamDescriptor = info.cached_descriptor;
        let mut tree: Ghost<Tree> = Ghost(self.held@[id].tree);
        match stream_reserve(
            &mut self.layer2,
            &mut desc,
            n_bytes,
            piece_size,
            fan_out,
            CacheMode::ThreadLocal,
            &mut tree,
        ) {
            Ok(_) => {},
            Err(e) => {
                return Err(e);
            },
        }
        let ghost new = Held { desc, tree: tree@ };
        self.held = Ghost(self.held@.insert(id, new));
        self.open_handles.insert(
            handle.0,
            HandleInfo { stream_id: info.stream_id, mode: info.mode, cached_descriptor: desc },
        );
        proof {
            Self::lemma_stream_changed(a, *self, handle.0, new);
        }
        Ok(())
    }

    fn stream_reserved(&self, handle: &BlockStreamHandle) -> (r: Result<u64, SfsError>) {
        match self.open_handles.get(&handle.0) {
            Some(info) => Ok(info.cached_descriptor.reserved),
            None => Err(SfsError::NotFound("invalid stream handle".to_owned())),
        }
    }

    fn is_stream_compressed(&self, handle: &BlockStreamHandle) -> (r: Result<bool, SfsError>) {
        match self.open_handles.get(&handle.0) {
            Some(info) => Ok(info.cached_descriptor.is_compressed()),
            None => Err(SfsError::NotFound("invalid stream handle".to_owned())),
        }
    }

    fn header_slot_for_upper(&self, index: u8) -> (slot: HeaderSlotId) {
        self.layer2.header_slot_for_upper(index + 1)
    }

    fn write_header_slot(&mut self, slot: HeaderSlotId, data: &[u8]) -> (r: Result<(), SfsError>)
        ensures
            final(self).store_faults() == old(self).store_faults() ==> final(self).faults() == old(
                self,
            ).faults(),
    {
        self.layer2.write_header_slot(slot, data)
    }

    fn read_header_slot(&self, slot: HeaderSlotId) -> (r: Result<Vec<u8>, SfsError>) {
        self.layer2.read_header_slot(slot)
    }
}

/// A stream that there is has no free descriptor.
proof fn lemma_desc_not_free<L2: BlockLayer>(layer2: L2, h: Held, m: Make)
    requires
        layer2.wf(),
        stream_ok(layer2.blocks(), h.desc, h.tree, m),
    ensures
        !h.desc.free(),
{
    let lv = h.tree.levels;
    if lv.len() > 0 {
        layer2.lemma_wf();
        crate::bytes::lemma_pow256_values();
        crate::bytes::lemma_pow256_monotone(layer2.iwidth(), 8);
        let d = lv.len() - 1;
        assert(lv[d].len() >= 1);
        assert(is_place(lv, d, 0));
        assert(layer2.blocks().contains_key(lv[d][0]));
    }
}

/// Claims that fit name blocks in use.
proof fn lemma_claims_in(claimed: Seq<u64>, blocks: Map<u64, Seq<u8>>)
    ensures
        claims_fit(claimed, blocks) ==> all_in(claimed, blocks),
{
    if claims_fit(claimed, blocks) {
        assert forall|i: int| 0 <= i < claimed.len() implies blocks.contains_key(
            #[trigger] claimed[i],
        ) by {
            assert(claimed.contains(claimed[i]));
        }
    }
}

/// Compares the streams that are claimed with those that there are. There is
/// something to report unless they are the same.
fn check_ids(claimed: &[u64], ids: &Vec<u64>) -> (issues: Vec<String>)
    ensures
        issues@.len() == 0 <==> forall|id: u64| #[trigger]
            claimed@.contains(id) <==> ids@.contains(id),
        tells_apart(issues@, claimed@, ids@.to_set()),
{
    let mut issues: Vec<String> = Vec::new();
    let claimed_set: HashSet<u64> = set_of(claimed);
    let active: HashSet<u64> = set_of(ids.as_slice());
    let count: usize = claimed.len();
    let mut i: usize = 0;
    while i < count
        invariant
            i <= count == claimed@.len(),
            forall|id: u64| #[trigger] active@.contains(id) <==> ids@.contains(id),
            issues@.len() == 0 <==> forall|j: int|
                0 <= j < i ==> ids@.contains(#[trigger] claimed@[j]),
            forall|j: int|
                0 <= j < i && !ids@.contains(#[trigger] claimed@[j]) ==> mentions(
                    issues@,
                    missing_text(claimed@[j]),
                ),
        decreases count - i,
    {
        let id: u64 = claimed[i];
        let ghost before = issues@;
        if !active.contains(&id) {
            issues.push(
                text_num("L3: stream ", id, " claimed by L4 but not found in stream descriptors"),
            );
        }
        proof {
            assert(issues@.subrange(0, before.len() as int) =~= before);
            lemma_still_mentioned(before, issues@);
            if !ids@.contains(id) {
                assert(issues@[before.len() as int]@ == missing_text(id));
            }
        }
        i = i + 1;
    }
    let mut k: usize = 0;
    while k < ids.len()
        invariant
            k <= ids@.len(),
            forall|id: u64| #[trigger] claimed_set@.contains(id) <==> claimed@.contains(id),
            issues@.len() == 0 <==> {
                &&& forall|j: int|
                    0 <= j < claimed@.len() ==> ids@.contains(#[trigger] claimed@[j])
                &&& forall|j: int| 0 <= j < k ==> claimed@.contains(#[trigger] ids@[j])
            },
            forall|j: int|
                0 <= j < claimed@.len() && !ids@.contains(#[trigger] claimed@[j]) ==> mentions(
                    issues@,
                    missing_text(claimed@[j]),
                ),
            forall|j: int|
                0 <= j < k && !claimed@.contains(#[trigger] ids@[j]) ==> mentions(
                    issues@,
                    orphan_text(ids@[j]),
                ),
        decreases ids@.len() - k,
    {
        let id: u64 = ids[k];
        let ghost before = issues@;
        if !claimed_set.contains(&id) {
            issues.push(
                text_num(
                    "L3: stream ",
                    id,
                    " exists in stream descriptors but is not claimed by L4 (orphaned stream)",
                ),
            );
        }
        proof {
            assert(issues@.subrange(0, before.len() as int) =~= before);
            lemma_still_mentioned(before, issues@);
            if !claimed@.contains(id) {
                assert(issues@[before.len() as int]@ == orphan_text(id));
            }
        }
        k = k + 1;
    }
    proof {
        assert(tells_apart(issues@, claimed@, ids@.to_set())) by {
            assert forall|id: u64| #[trigger]
                claimed@.contains(id) && !ids@.to_set().contains(id) implies mentions(
                issues@,
                missing_text(id),
            ) by {
                let j = choose|j: int| 0 <= j < claimed@.len() && claimed@[j] == id;
                assert(!ids@.contains(claimed@[j]));
            }
            assert forall|id: u64| #[trigger]
                ids@.to_set().contains(id) && !claimed@.contains(id) implies mentions(
                issues@,
                orphan_text(id),
            ) by {
                let j = choose|j: int| 0 <= j < ids@.len() && ids@[j] == id;
                assert(!claimed@.contains(ids@[j]));
            }
        }
        if issues@.len() == 0 {
            assert forall|id: u64| #[trigger] claimed@.contains(id) <==> ids@.contains(id) by {
                if claimed@.contains(id) {
                    let j = choose|j: int| 0 <= j < claimed@.len() && claimed@[j] == id;
                    assert(ids@.contains(claimed@[j]));
                }
                if ids@.contains(id) {
                    let j = choose|j: int| 0 <= j < ids@.len() && ids@[j] == id;
                    assert(claimed@.contains(ids@[j]));
                }
            }
        }
        if forall|id: u64| #[trigger] claimed@.contains(id) <==> ids@.contains(id) {
            assert forall|j: int| 0 <= j < claimed@.len() implies ids@.contains(
                #[trigger] claimed@[j],
            ) by {
                assert(claimed@.contains(claimed@[j]));
            }
            assert forall|j: int| 0 <= j < ids@.len() implies claimed@.contains(
                #[trigger] ids@[j],
            ) by {
                assert(ids@.contains(ids@[j]));
            }
        }
    }
    issues
}

/// The numbers of a list as a set.
fn set_of(numbers: &[u64]) -> (set: HashSet<u64>)
    ensures
        forall|id: u64| #[trigger] set@.contains(id) <==> numbers@.contains(id),
{
    let mut set: HashSet<u64> = HashSet::new();
    let count: usize = numbers.len();
    let mut i: usize = 0;
    while i < count
        invariant
            i <= count == numbers@.len(),
            forall|id: u64| #[trigger]
                set@.contains(id) <==> exists|j: int| 0 <= j < i && numbers@[j] == id,
        decreases count - i,
    {
        let _ = set.insert(numbers[i]);
        i = i + 1;
    }
    set
}

/// A layer without streams.
proof fn lemma_fresh_layer(blocks: Map<u64, Seq<u8>>, m: Make)
    requires
        m.size >= 1,
        m.piece >= 1,
    ensures
        layout_ok(
            blocks,
            StreamDescriptor::empty(0),
            no_tree(),
            Map::<u64, Held>::empty(),
            m,
        ),
{
    assert(0 * m.size == 0) by (nonlinear_arith);
}

proof fn lemma_no_handles(locks: Map<u64, LockState>, hs: Map<u64, HandleInfo>)
    requires
        locks == Map::<u64, LockState>::empty(),
        hs == Map::<u64, HandleInfo>::empty(),
    ensures
        locks_ok(locks, hs),
{
    assert forall|id: u64| (#[trigger] lock_of(locks, id)).readers == readers_of(hs, id).len() by {
        assert(readers_of(hs, id) =~= Set::<u64>::empty());
    }
}

/// Where the layers above see no handle, there is none.
proof fn lemma_none_open(hs: Map<u64, HandleInfo>)
    requires
        handle_view(hs) == Map::<BlockStreamHandle, OpenState>::empty(),
    ensures
        hs == Map::<u64, HandleInfo>::empty(),
{
    assert forall|h: u64| !(#[trigger] hs.contains_key(h)) by {
        assert(!handle_view(hs).contains_key(BlockStreamHandle(h)));
    }
    assert(hs =~= Map::<u64, HandleInfo>::empty());
}

proof fn lemma_piece_bounds(shift: u8)
    requires
        shift <= MAX_COMPRESSED_BLOCK_SIZE_SHIFT,
    ensures
        1 <= pow2(shift as nat) <= 0x4000_0000,
        pow2(30) == 0x4000_0000,
{
    vstd::arithmetic::power2::lemma2_to64();
    vstd::arithmetic::power2::lemma_pow2_pos(shift as nat);
    if shift < 30 {
        vstd::arithmetic::power2::lemma_pow2_strictly_increases(shift as nat, 30);
    }
}

} // verus!
