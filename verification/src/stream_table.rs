//! The table of streams: the stream that holds the descriptors of all others,
//! and the header that says where the table lies.

use crate::block_layer::{same_make, same_store, BlockLayer};
use crate::bytes::{
    get_le, law_le_bytes_of_value, law_le_round_trip, le_bytes, le_value, lemma_le_bytes_len,
    lemma_pow256_values, push_le, same_bytes,
};
use crate::descriptor::{law_descriptor_round_trip, StreamDescriptor, DESCRIPTOR_SIZE};
use crate::plain::too_large;
use crate::pyramid_io::fan_ok;
use crate::stream_layer::written;
use crate::stream_ops::{
    apart, in_tree, lemma_apart_frame, lemma_capacity, lemma_stream_frame, lemma_tree_held, make_of,
    no_tree, state_of, stream_ok, stream_read, stream_write, tree_swapped, Make, Tree,
};
use crate::types::{text_num, CacheMode, SfsError};
use vstd::prelude::*;

verus! {

// ---------------------------------------------------------------------------
// Header
// ---------------------------------------------------------------------------

/// The size of the header of the stream layer in bytes.
pub const L3_PAYLOAD_SIZE: u16 = 32;

/// The letters that the header starts with: "pyra" and two spaces.
pub open spec fn l3_identifier() -> Seq<u8> {
    seq![112u8, 121u8, 114u8, 97u8, 32u8, 32u8]
}

/// The version of the header.
pub const L3_VERSION: u8 = 2;

/// The bytes of the header.
pub open spec fn l3_header(table: StreamDescriptor, cbss: u8) -> Seq<u8> {
    l3_identifier() + seq![L3_VERSION] + le_bytes(table.size as nat, 8) + le_bytes(
        table.top_block as nat,
        8,
    ) + le_bytes(table.reserved as nat, 8) + seq![cbss]
}

/// The bytes are those of a header.
pub open spec fn is_l3_header(data: Seq<u8>) -> bool {
    &&& data.len() >= L3_PAYLOAD_SIZE
    &&& data.subrange(0, 6) == l3_identifier()
    &&& data[6] == L3_VERSION
}

/// The table that a header describes.
pub open spec fn l3_table(data: Seq<u8>) -> StreamDescriptor {
    StreamDescriptor {
        size: le_value(data.subrange(7, 15)) as u64,
        top_block: le_value(data.subrange(15, 23)) as u64,
        reserved: le_value(data.subrange(23, 31)) as u64,
        flags: 0,
    }
}

/// Writes the header down.
pub(crate) fn serialize_header(table: &StreamDescriptor, cbss: u8) -> (buf: Vec<u8>)
    ensures
        buf@ == l3_header(*table, cbss),
        buf@.len() == L3_PAYLOAD_SIZE,
{
    let mut buf: Vec<u8> = vec![112u8, 121u8, 114u8, 97u8, 32u8, 32u8];
    buf.push(L3_VERSION);
    push_le(&mut buf, table.size, 8);
    push_le(&mut buf, table.top_block, 8);
    push_le(&mut buf, table.reserved, 8);
    buf.push(cbss);
    proof {
        lemma_le_bytes_len(table.size as nat, 8);
        lemma_le_bytes_len(table.top_block as nat, 8);
        lemma_le_bytes_len(table.reserved as nat, 8);
        assert(buf@ =~= l3_header(*table, cbss));
    }
    buf
}

/// Reads a header: the table that it describes, and the size of a compressed
/// piece as a power of two.
pub(crate) fn deserialize_header(data: &[u8]) -> (r: Result<(StreamDescriptor, u8), SfsError>)
    ensures
        r is Ok <==> is_l3_header(data@),
        r matches Ok(h) ==> h.0 == l3_table(data@) && h.1 == data@[31],
        r matches Err(e) ==> e is IoError,
{
    if data.len() < 32 {
        return Err(SfsError::IoError(text_num("L3 payload too short: ", data.len() as u64, " < 32")));
    }
    let name: Vec<u8> = vec![112u8, 121u8, 114u8, 97u8, 32u8, 32u8];
    let found: Vec<u8> = crate::bytes::copy_range(data, 0, 6);
    if !same_bytes(found.as_slice(), name.as_slice()) {
        proof {
            assert(name@ =~= l3_identifier());
        }
        return Err(SfsError::IoError("expected L3 identifier 'pyra  '".to_owned()));
    }
    proof {
        assert(name@ =~= l3_identifier());
    }
    let version: u8 = data[6];
    if version != L3_VERSION {
        return Err(
            SfsError::IoError(
                text_num(
                    "unsupported L3 version: ",
                    version as u64,
                    " (expected 2; re-create the file)",
                ),
            ),
        );
    }
    Ok(
        (
            StreamDescriptor {
                size: get_le(data, 7, 8),
                top_block: get_le(data, 15, 8),
                reserved: get_le(data, 23, 8),
                flags: 0,
            },
            data[31],
        ),
    )
}

/// A header read back from its own bytes gives what was written.
pub proof fn law_l3_header_round_trip(table: StreamDescriptor, cbss: u8)
    requires
        table.flags == 0,
    ensures
        l3_header(table, cbss).len() == L3_PAYLOAD_SIZE,
        is_l3_header(l3_header(table, cbss)),
        l3_table(l3_header(table, cbss)) == table,
        l3_header(table, cbss)[31] == cbss,
{
    let h = l3_header(table, cbss);
    lemma_pow256_values();
    lemma_le_bytes_len(table.size as nat, 8);
    lemma_le_bytes_len(table.top_block as nat, 8);
    lemma_le_bytes_len(table.reserved as nat, 8);
    law_le_round_trip(table.size as nat, 8);
    law_le_round_trip(table.top_block as nat, 8);
    law_le_round_trip(table.reserved as nat, 8);
    assert(h.subrange(0, 6) =~= l3_identifier());
    assert(h.subrange(7, 15) =~= le_bytes(table.size as nat, 8));
    assert(h.subrange(15, 23) =~= le_bytes(table.top_block as nat, 8));
    assert(h.subrange(23, 31) =~= le_bytes(table.reserved as nat, 8));
}

/// A header written down again from what was read is the same header.
pub proof fn law_l3_header_of_bytes(data: Seq<u8>)
    requires
        data.len() == L3_PAYLOAD_SIZE,
        is_l3_header(data),
    ensures
        l3_header(l3_table(data), data[31]) == data,
{
    lemma_pow256_values();
    law_le_bytes_of_value(data.subrange(7, 15));
    law_le_bytes_of_value(data.subrange(15, 23));
    law_le_bytes_of_value(data.subrange(23, 31));
    assert(l3_header(l3_table(data), data[31]) =~= data);
}

// ---------------------------------------------------------------------------
// Table
// ---------------------------------------------------------------------------

/// The number of descriptors in the table.
pub open spec fn slot_count(table: Seq<u8>) -> nat {
    table.len() / DESCRIPTOR_SIZE as nat
}

/// Descriptor number `i` of the table.
pub open spec fn slot_of(table: Seq<u8>, i: int) -> StreamDescriptor {
    StreamDescriptor::decoding(table.subrange(25 * i, 25 * i + 25))
}

/// The table holds a stream under number `id`.
pub open spec fn in_table(table: Seq<u8>, id: u64) -> bool {
    id < slot_count(table) && !slot_of(table, id as int).free()
}

/// `t1` is `t0` with `d` as descriptor number `id`.
pub open spec fn slot_set(t0: Seq<u8>, t1: Seq<u8>, id: u64, d: StreamDescriptor) -> bool {
    &&& t1.len() % 25 == 0
    &&& slot_count(t1) == if id < slot_count(t0) {
        slot_count(t0) as int
    } else {
        id + 1
    }
    &&& slot_of(t1, id as int) == d
    &&& forall|j: int|
        0 <= j < slot_count(t0) && j != id ==> #[trigger] slot_of(t1, j) == slot_of(t0, j)
}

/// Reads descriptor number `stream_id` of the table.
pub(crate) fn read_descriptor<L2: BlockLayer>(
    layer2: &mut L2,
    streams_desc: &StreamDescriptor,
    stream_id: u64,
    piece_size: usize,
    fan_out: u64,
    Ghost(t): Ghost<Tree>,
) -> (r: Result<StreamDescriptor, SfsError>)
    requires
        fan_ok(*old(layer2), fan_out),
        1 <= piece_size <= 0x4000_0000,
        stream_ok(
            old(layer2).blocks(),
            *streams_desc,
            t,
            make_of(*old(layer2), fan_out as nat, piece_size as nat),
        ),
        streams_desc.size % 25 == 0,
    ensures
        same_store(*old(layer2), *final(layer2)),
        L2::reads_always() ==> final(layer2).faults() == old(layer2).faults(),
        final(layer2).faults() >= old(layer2).faults(),
        r is Ok ==> final(layer2).faults() == old(layer2).faults(),
        final(layer2).faults() == old(layer2).faults() ==> {
            let m = make_of(*old(layer2), fan_out as nat, piece_size as nat);
            let table = state_of(old(layer2).blocks(), *streams_desc, t, m).data;
            &&& table.len() == streams_desc.size
            &&& r is Ok <==> stream_id < slot_count(table)
            &&& r matches Ok(d) ==> d == slot_of(table, stream_id as int)
            &&& r matches Err(e) ==> e is NotFound
        },
{
    let ghost m = make_of(*layer2, fan_out as nat, piece_size as nat);
    proof {
        layer2.lemma_wf();
        lemma_capacity(layer2.blocks(), *streams_desc, t, m);
    }
    if stream_id >= streams_desc.size / DESCRIPTOR_SIZE {
        return Err(SfsError::NotFound(text_num("stream ", stream_id, "")));
    }
    let offset: u64 = stream_id * DESCRIPTOR_SIZE;
    let mut buf: Vec<u8> = vec![0u8; 25];
    match stream_read(
        layer2,
        streams_desc,
        offset,
        buf.as_mut_slice(),
        piece_size,
        fan_out,
        CacheMode::Shared,
        Ghost(t),
    ) {
        Ok(_) => {},
        Err(e) => {
            return Err(e);
        },
    }
    proof {
        let table = state_of(old(layer2).blocks(), *streams_desc, t, m).data;
        assert(buf@ =~= table.subrange(25 * stream_id, 25 * stream_id + 25));
    }
    Ok(StreamDescriptor::from_bytes(buf.as_slice()))
}

/// Writes descriptor number `stream_id` of the table, which may be the first
/// behind its end.
pub(crate) fn write_descriptor<L2: BlockLayer>(
    layer2: &mut L2,
    streams_desc: &mut StreamDescriptor,
    stream_id: u64,
    desc: &StreamDescriptor,
    piece_size: usize,
    fan_out: u64,
    tree: &mut Ghost<Tree>,
) -> (r: Result<(), SfsError>)
    requires
        fan_ok(*old(layer2), fan_out),
        1 <= piece_size <= 0x4000_0000,
        stream_ok(
            old(layer2).blocks(),
            *old(streams_desc),
            old(tree)@,
            make_of(*old(layer2), fan_out as nat, piece_size as nat),
        ),
        !old(streams_desc).compressed(),
        old(streams_desc).size % 25 == 0,
        25 * stream_id <= old(streams_desc).size,
        25 * stream_id + 25 <= u64::MAX,
    ensures
        final(layer2).bsize() == old(layer2).bsize(),
        final(layer2).iwidth() == old(layer2).iwidth(),
        final(layer2).faults() >= old(layer2).faults(),
        r is Ok ==> final(layer2).faults() == old(layer2).faults(),
        final(layer2).faults() == old(layer2).faults() ==> {
            &&& r is Err <==> too_large(
                old(streams_desc).reserved as nat,
                (25 * stream_id + 25) as nat,
                old(layer2).bsize(),
            )
            &&& 25 * stream_id < old(streams_desc).size ==> r is Ok
            &&& r matches Err(e) ==> e is IoError
        },
        r is Ok ==> {
            let m = make_of(*old(layer2), fan_out as nat, piece_size as nat);
            let t0 = state_of(old(layer2).blocks(), *old(streams_desc), old(tree)@, m).data;
            let t1 = state_of(final(layer2).blocks(), *final(streams_desc), final(tree)@, m).data;
            &&& same_make(*old(layer2), *final(layer2))
            &&& stream_ok(final(layer2).blocks(), *final(streams_desc), final(tree)@, m)
            &&& final(streams_desc).flags == old(streams_desc).flags
            &&& final(streams_desc).size == t1.len()
            &&& tree_swapped(
                old(layer2).blocks(),
                final(layer2).blocks(),
                old(tree)@,
                final(tree)@,
            )
            &&& slot_set(t0, t1, stream_id, *desc)
        },
{
    let ghost m = make_of(*layer2, fan_out as nat, piece_size as nat);
    let ghost b0 = layer2.blocks();
    let ghost d0 = *streams_desc;
    let ghost tr0 = tree@;
    proof {
        layer2.lemma_wf();
        lemma_capacity(b0, d0, tr0, m);
    }
    let offset: u64 = stream_id * DESCRIPTOR_SIZE;
    let buf: Vec<u8> = desc.to_bytes();
    match stream_write(
        layer2,
        streams_desc,
        offset,
        buf.as_slice(),
        piece_size,
        fan_out,
        CacheMode::Shared,
        tree,
    ) {
        Ok(_) => {},
        Err(e) => {
            return Err(e);
        },
    }
    proof {
        let t0 = state_of(b0, d0, tr0, m).data;
        let t1 = state_of(layer2.blocks(), *streams_desc, tree@, m).data;
        lemma_capacity(layer2.blocks(), *streams_desc, tree@, m);
        law_descriptor_round_trip(*desc);
        assert(written(t0, t1, 25 * stream_id, buf@));
        assert(t1.subrange(25 * stream_id, 25 * stream_id + 25) =~= buf@);
        assert forall|j: int| 0 <= j < slot_count(t0) && j != stream_id implies #[trigger] slot_of(
            t1,
            j,
        ) == slot_of(t0, j) by {
            assert(t1.subrange(25 * j, 25 * j + 25) =~= t0.subrange(25 * j, 25 * j + 25));
        }
    }
    Ok(())
}

// ---------------------------------------------------------------------------
// Layout
// ---------------------------------------------------------------------------

/// A stream of the layer: its descriptor as its writer sees it, and its blocks.
pub struct Held {
    pub desc: StreamDescriptor,
    pub tree: Tree,
}

/// The table and the streams lie in blocks of their own.
pub open spec fn layout_ok(
    blocks: Map<u64, Seq<u8>>,
    td: StreamDescriptor,
    tt: Tree,
    held: Map<u64, Held>,
    m: Make,
) -> bool {
    &&& m.size >= 1
    &&& m.piece >= 1
    &&& stream_ok(blocks, td, tt, m)
    &&& forall|id: u64| #[trigger]
        held.contains_key(id) ==> stream_ok(blocks, held[id].desc, held[id].tree, m)
    &&& forall|id: u64| #[trigger] held.contains_key(id) ==> apart(tt, held[id].tree)
    &&& forall|i: u64, j: u64| #[trigger]
        held.contains_key(i) && #[trigger] held.contains_key(j) && i != j ==> apart(
            held[i].tree,
            held[j].tree,
        )
}

/// Some stream, or the table, has block `b`.
pub open spec fn owned(tt: Tree, held: Map<u64, Held>, b: u64) -> bool {
    in_tree(tt, b) || exists|id: u64| #[trigger] held.contains_key(id) && in_tree(held[id].tree, b)
}

/// Every block in use belongs to some stream or to the table.
pub open spec fn all_owned(blocks: Map<u64, Seq<u8>>, tt: Tree, held: Map<u64, Held>) -> bool {
    forall|b: u64| #[trigger] blocks.contains_key(b) ==> owned(tt, held, b)
}

/// One stream was changed.
pub proof fn lemma_layout_stream(
    b0: Map<u64, Seq<u8>>,
    b1: Map<u64, Seq<u8>>,
    td: StreamDescriptor,
    tt: Tree,
    held: Map<u64, Held>,
    id: u64,
    new: Held,
    m: Make,
)
    requires
        layout_ok(b0, td, tt, held, m),
        held.contains_key(id),
        tree_swapped(b0, b1, held[id].tree, new.tree),
        stream_ok(b1, new.desc, new.tree, m),
    ensures
        layout_ok(b1, td, tt, held.insert(id, new), m),
        state_of(b1, td, tt, m) == state_of(b0, td, tt, m),
        forall|j: u64| #[trigger]
            held.contains_key(j) && j != id ==> state_of(b1, held[j].desc, held[j].tree, m)
                == state_of(b0, held[j].desc, held[j].tree, m),
        all_owned(b0, tt, held) ==> all_owned(b1, tt, held.insert(id, new)),
{
    let t0 = held[id].tree;
    let h1 = held.insert(id, new);
    lemma_tree_held(b0, td, tt, m);
    assert(apart(t0, tt)) by {
        lemma_apart_sym(tt, t0);
    }
    lemma_apart_frame(b0, b1, t0, new.tree, tt);
    lemma_apart_sym(new.tree, tt);
    lemma_stream_frame(b0, b1, td, tt, m);
    assert forall|j: u64| #[trigger] held.contains_key(j) && j != id implies stream_ok(
        b1,
        held[j].desc,
        held[j].tree,
        m,
    ) && state_of(b1, held[j].desc, held[j].tree, m) == state_of(
        b0,
        held[j].desc,
        held[j].tree,
        m,
    ) && apart(new.tree, held[j].tree) && apart(held[j].tree, new.tree) by {
        lemma_tree_held(b0, held[j].desc, held[j].tree, m);
        assert(held.contains_key(id));
        lemma_apart_frame(b0, b1, t0, new.tree, held[j].tree);
        lemma_stream_frame(b0, b1, held[j].desc, held[j].tree, m);
        lemma_apart_sym(new.tree, held[j].tree);
    }
    assert forall|j: u64| #[trigger] h1.contains_key(j) implies stream_ok(
        b1,
        h1[j].desc,
        h1[j].tree,
        m,
    ) && apart(tt, h1[j].tree) by {
        if j != id {
            assert(held.contains_key(j));
        }
    }
    assert forall|i: u64, j: u64| #[trigger]
        h1.contains_key(i) && #[trigger] h1.contains_key(j) && i != j implies apart(
        h1[i].tree,
        h1[j].tree,
    ) by {
        if i == id {
            assert(held.contains_key(j));
        } else if j == id {
            assert(held.contains_key(i));
        } else {
            assert(held.contains_key(i) && held.contains_key(j));
        }
    }
    if all_owned(b0, tt, held) {
        assert forall|b: u64| #[trigger] b1.contains_key(b) implies owned(tt, h1, b) by {
            if in_tree(new.tree, b) {
                assert(h1.contains_key(id) && in_tree(h1[id].tree, b));
            } else {
                assert(b0.contains_key(b) && !in_tree(t0, b));
                assert(owned(tt, held, b));
                if !in_tree(tt, b) {
                    let j = choose|j: u64| #[trigger]
                        held.contains_key(j) && in_tree(held[j].tree, b);
                    assert(h1.contains_key(j) && in_tree(h1[j].tree, b));
                }
            }
        }
    }
}

pub proof fn lemma_apart_sym(t: Tree, u: Tree)
    requires
        apart(t, u),
    ensures
        apart(u, t),
{
    assert forall|b: u64| !(#[trigger] in_tree(u, b) && in_tree(t, b)) by {
        if in_tree(t, b) && in_tree(u, b) {
        }
    }
}

/// The table was changed.
pub proof fn lemma_layout_table(
    b0: Map<u64, Seq<u8>>,
    b1: Map<u64, Seq<u8>>,
    td0: StreamDescriptor,
    tt0: Tree,
    td1: StreamDescriptor,
    tt1: Tree,
    held: Map<u64, Held>,
    m: Make,
)
    requires
        layout_ok(b0, td0, tt0, held, m),
        tree_swapped(b0, b1, tt0, tt1),
        stream_ok(b1, td1, tt1, m),
    ensures
        layout_ok(b1, td1, tt1, held, m),
        forall|j: u64| #[trigger]
            held.contains_key(j) ==> state_of(b1, held[j].desc, held[j].tree, m) == state_of(
                b0,
                held[j].desc,
                held[j].tree,
                m,
            ),
        all_owned(b0, tt0, held) ==> all_owned(b1, tt1, held),
{
    assert forall|j: u64| #[trigger] held.contains_key(j) implies stream_ok(
        b1,
        held[j].desc,
        held[j].tree,
        m,
    ) && state_of(b1, held[j].desc, held[j].tree, m) == state_of(
        b0,
        held[j].desc,
        held[j].tree,
        m,
    ) && apart(tt1, held[j].tree) by {
        lemma_tree_held(b0, held[j].desc, held[j].tree, m);
        lemma_apart_frame(b0, b1, tt0, tt1, held[j].tree);
        lemma_stream_frame(b0, b1, held[j].desc, held[j].tree, m);
    }
    if all_owned(b0, tt0, held) {
        assert forall|b: u64| #[trigger] b1.contains_key(b) implies owned(tt1, held, b) by {
            if !in_tree(tt1, b) {
                assert(b0.contains_key(b) && !in_tree(tt0, b));
                assert(owned(tt0, held, b));
            }
        }
    }
}

/// An empty stream was added.
pub proof fn lemma_layout_added(
    blocks: Map<u64, Seq<u8>>,
    td: StreamDescriptor,
    tt: Tree,
    held: Map<u64, Held>,
    id: u64,
    new: Held,
    m: Make,
)
    requires
        layout_ok(blocks, td, tt, held, m),
        !held.contains_key(id),
        new.tree == no_tree(),
        new.desc == StreamDescriptor::empty(new.desc.flags),
    ensures
        layout_ok(blocks, td, tt, held.insert(id, new), m),
        all_owned(blocks, tt, held) ==> all_owned(blocks, tt, held.insert(id, new)),
{
    let h1 = held.insert(id, new);
    assert forall|b: u64| !#[trigger] in_tree(no_tree(), b) by {}
    assert(0 * m.size == 0 && 0 * m.piece == 0) by (nonlinear_arith);
    assert(stream_ok(blocks, new.desc, new.tree, m));
    assert forall|j: u64| #[trigger] h1.contains_key(j) implies stream_ok(
        blocks,
        h1[j].desc,
        h1[j].tree,
        m,
    ) && apart(tt, h1[j].tree) by {
        if j != id {
            assert(held.contains_key(j));
        }
    }
    assert forall|i: u64, j: u64| #[trigger]
        h1.contains_key(i) && #[trigger] h1.contains_key(j) && i != j implies apart(
        h1[i].tree,
        h1[j].tree,
    ) by {
        if i != id && j != id {
            assert(held.contains_key(i) && held.contains_key(j));
        }
    }
    if all_owned(blocks, tt, held) {
        assert forall|b: u64| #[trigger] blocks.contains_key(b) implies owned(tt, h1, b) by {
            assert(owned(tt, held, b));
            if !in_tree(tt, b) {
                let j = choose|j: u64| #[trigger] held.contains_key(j) && in_tree(held[j].tree, b);
                assert(h1.contains_key(j) && in_tree(h1[j].tree, b));
            }
        }
    }
}

/// A stream without blocks was removed.
pub proof fn lemma_layout_removed(
    blocks: Map<u64, Seq<u8>>,
    td: StreamDescriptor,
    tt: Tree,
    held: Map<u64, Held>,
    id: u64,
    m: Make,
)
    requires
        layout_ok(blocks, td, tt, held, m),
        held.contains_key(id),
        held[id].tree == no_tree(),
    ensures
        layout_ok(blocks, td, tt, held.remove(id), m),
        all_owned(blocks, tt, held) ==> all_owned(blocks, tt, held.remove(id)),
{
    let h1 = held.remove(id);
    assert forall|b: u64| !#[trigger] in_tree(no_tree(), b) by {}
    assert forall|j: u64| #[trigger] h1.contains_key(j) implies held.contains_key(j) by {}
    if all_owned(blocks, tt, held) {
        assert forall|b: u64| #[trigger] blocks.contains_key(b) implies owned(tt, h1, b) by {
            assert(owned(tt, held, b));
            if !in_tree(tt, b) {
                let j = choose|j: u64| #[trigger] held.contains_key(j) && in_tree(held[j].tree, b);
                assert(h1.contains_key(j) && in_tree(h1[j].tree, b));
            }
        }
    }
}

} // verus!
