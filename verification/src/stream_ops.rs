//! One stream, whether it is stored compressed or not.

use crate::block_layer::{same_make, same_store, BlockLayer};
use crate::bytes::{after_read, read_count};
use crate::compressed::{piece_fits, piece_ok};
use crate::compressed_cut::{deallocate_compressed_tree, pyramid_truncate_compressed};
use crate::compressed_stream::{
    describes_packed, has_any, lemma_piece_frame, pyramid_read_compressed,
    pyramid_reserve_compressed, pyramid_write_compressed, swapped, unpacked_content,
};
use crate::descriptor::StreamDescriptor;
use crate::plain::{
    content, deallocate_tree, lemma_position_in_run, pyramid_read, pyramid_reserve,
    pyramid_truncate, pyramid_write, too_large,
};
use crate::pyramid::{
    ceil_div, has_block, is_place, lemma_depth_unique, lemma_level_count, lemma_tree_frame,
    replaced,
};
use crate::pyramid_io::{data_blocks_needed, fan_ok, pyramid_depth};
use crate::stream_layer::{cut, cut_len, grown_capacity, written, StreamState};
use crate::stream_tree::{
    describes, leaves, lemma_ceil_covers, lemma_ceil_exact, lemma_ceil_monotone,
};
use crate::types::{CacheMode, SfsError};
use vstd::prelude::*;

verus! {

/// The blocks of a stream: its pyramid, and the blocks of its pieces where it
/// is compressed.
#[verifier::ext_equal]
pub struct Tree {
    pub levels: Seq<Seq<u64>>,
    pub phys: Seq<Seq<u64>>,
}

/// The measures that the streams of one layer share.
pub struct Make {
    /// The size of a block.
    pub size: nat,
    /// The size of a compressed piece.
    pub piece: nat,
    /// The number of block indices in a redirector.
    pub fan_out: nat,
    /// The number of bytes of a block index.
    pub width: nat,
}

/// No blocks.
pub open spec fn no_tree() -> Tree {
    Tree { levels: Seq::empty(), phys: Seq::empty() }
}

/// `b` is a block of the stream.
pub open spec fn in_tree(t: Tree, b: u64) -> bool {
    has_any(t.levels, t.phys, b)
}

/// The two streams share no block.
pub open spec fn apart(t: Tree, u: Tree) -> bool {
    forall|b: u64| !(#[trigger] in_tree(t, b) && in_tree(u, b))
}

/// All blocks of the stream are in use.
pub open spec fn tree_held(blocks: Map<u64, Seq<u8>>, t: Tree) -> bool {
    forall|b: u64| #[trigger] in_tree(t, b) ==> blocks.contains_key(b)
}

/// `d` describes a stream with the blocks of `t`.
pub open spec fn stream_ok(blocks: Map<u64, Seq<u8>>, d: StreamDescriptor, t: Tree, m: Make) -> bool {
    if d.compressed() {
        describes_packed(blocks, d, t.levels, t.phys, m.size, m.piece, m.fan_out, m.width)
    } else {
        describes(blocks, d, t.levels, m.size, m.fan_out, m.width) && t.phys == Seq::<
            Seq<u64>,
        >::empty()
    }
}

/// The bytes of a stream, to the end of its capacity.
pub open spec fn capacity_content(
    blocks: Map<u64, Seq<u8>>,
    compressed: bool,
    t: Tree,
    m: Make,
) -> Seq<u8> {
    if compressed {
        unpacked_content(blocks, t.levels, t.phys, m.size, m.piece)
    } else {
        content(blocks, leaves(t.levels), m.size)
    }
}

/// The number of bytes by which the capacity grows.
pub open spec fn unit_of(compressed: bool, m: Make) -> nat {
    if compressed {
        m.piece
    } else {
        m.size
    }
}

/// What a stream is.
pub open spec fn state_of(
    blocks: Map<u64, Seq<u8>>,
    d: StreamDescriptor,
    t: Tree,
    m: Make,
) -> StreamState {
    StreamState {
        data: capacity_content(blocks, d.compressed(), t, m).take(d.size as int),
        reserved: d.reserved as nat,
        compressed: d.compressed(),
    }
}

/// Outside the stream nothing has changed.
pub open spec fn tree_swapped(
    b0: Map<u64, Seq<u8>>,
    b1: Map<u64, Seq<u8>>,
    t0: Tree,
    t1: Tree,
) -> bool {
    swapped(b0, b1, t0.levels, t0.phys, t1.levels, t1.phys)
}

/// The measures of a layer above `layer2`.
pub open spec fn make_of<L2: BlockLayer>(layer2: L2, fan_out: nat, piece: nat) -> Make {
    Make { size: layer2.bsize(), piece, fan_out, width: layer2.iwidth() }
}

pub proof fn lemma_tree_held(blocks: Map<u64, Seq<u8>>, d: StreamDescriptor, t: Tree, m: Make)
    requires
        stream_ok(blocks, d, t, m),
    ensures
        tree_held(blocks, t),
{
    assert forall|b: u64| #[trigger] in_tree(t, b) implies blocks.contains_key(b) by {
        if has_block(t.levels, b) {
            let (l, i) = choose|l: int, i: int|
                is_place(t.levels, l, i) && #[trigger] t.levels[l][i] == b;
            assert(blocks.contains_key(t.levels[l][i]));
        } else {
            let (l, i) = choose|l: int, i: int|
                is_place(t.phys, l, i) && #[trigger] t.phys[l][i] == b;
            assert(blocks.contains_key(t.phys[l][i]));
        }
    }
}

/// A stream stays what it is when its blocks do.
pub proof fn lemma_stream_frame(
    b0: Map<u64, Seq<u8>>,
    b1: Map<u64, Seq<u8>>,
    d: StreamDescriptor,
    t: Tree,
    m: Make,
)
    requires
        m.size >= 1,
        m.piece >= 1,
        stream_ok(b0, d, t, m),
        forall|b: u64| #[trigger] in_tree(t, b) ==> b1.contains_key(b) && b1[b] == b0[b],
    ensures
        stream_ok(b1, d, t, m),
        capacity_content(b1, d.compressed(), t, m) == capacity_content(b0, d.compressed(), t, m),
        state_of(b1, d, t, m) == state_of(b0, d, t, m),
{
    let lv = t.levels;
    assert forall|l: int, i: int| is_place(lv, l, i) implies b1.contains_key(#[trigger] lv[l][i])
        && b1[lv[l][i]] == b0[lv[l][i]] by {
        assert(has_block(lv, lv[l][i]));
        assert(in_tree(t, lv[l][i]));
    }
    if lv.len() > 0 {
        lemma_tree_frame(b0, b1, lv, m.fan_out, m.width);
    }
    let n = leaves(lv).len();
    assert forall|i: int| 0 <= i < n implies b1[#[trigger] leaves(lv)[i]] == b0[leaves(lv)[i]] by {
        assert(is_place(lv, 0, i));
        assert(lv[0][i] == leaves(lv)[i]);
    }
    if d.compressed() {
        let ph = t.phys;
        assert forall|l: int, i: int| is_place(ph, l, i) implies b1.contains_key(
            #[trigger] ph[l][i],
        ) && b1[ph[l][i]] == b0[ph[l][i]] by {
            assert(has_block(ph, ph[l][i]));
            assert(in_tree(t, ph[l][i]));
        }
        assert forall|i: int| 0 <= i < ph.len() implies #[trigger] piece_ok(
            b1,
            leaves(lv)[i],
            ph[i],
            m.size,
            m.width,
            m.piece,
        ) && crate::compressed::piece(b1, leaves(lv)[i], ph[i], m.size, m.piece)
            == crate::compressed::piece(b0, leaves(lv)[i], ph[i], m.size, m.piece) by {
            assert(piece_ok(b0, leaves(lv)[i], ph[i], m.size, m.width, m.piece));
            assert forall|j: int| 0 <= j < ph[i].len() implies b1[#[trigger] ph[i][j]]
                == b0[ph[i][j]] by {
                assert(is_place(ph, i, j));
            }
            lemma_piece_frame(b0, b1, leaves(lv)[i], ph[i], m.size, m.width, m.piece);
        }
        let c1 = unpacked_content(b1, lv, ph, m.size, m.piece);
        let c0 = unpacked_content(b0, lv, ph, m.size, m.piece);
        assert forall|p: int| 0 <= p < n * m.piece implies c1[p] == c0[p] by {
            lemma_position_in_run(p, n as int, m.piece as int);
            let i = p / (m.piece as int);
            assert(piece_ok(b1, leaves(lv)[i], ph[i], m.size, m.width, m.piece));
        }
        assert(c1 =~= c0);
    } else {
        let c1 = content(b1, leaves(lv), m.size);
        let c0 = content(b0, leaves(lv), m.size);
        assert forall|p: int| 0 <= p < n * m.size implies c1[p] == c0[p] by {
            lemma_position_in_run(p, n as int, m.size as int);
        }
        assert(c1 =~= c0);
    }
}

/// What a change to one stream leaves of another.
pub proof fn lemma_apart_frame(
    b0: Map<u64, Seq<u8>>,
    b1: Map<u64, Seq<u8>>,
    t0: Tree,
    t1: Tree,
    u: Tree,
)
    requires
        tree_swapped(b0, b1, t0, t1),
        tree_held(b0, u),
        apart(t0, u),
    ensures
        apart(t1, u),
        forall|b: u64| #[trigger] in_tree(u, b) ==> b1.contains_key(b) && b1[b] == b0[b],
{
    assert forall|b: u64| #[trigger] in_tree(u, b) implies b1.contains_key(b) && b1[b] == b0[b]
        && !in_tree(t1, b) by {
        assert(b0.contains_key(b));
        assert(!in_tree(t0, b)) by {
            if in_tree(t0, b) {
                assert(in_tree(t0, b) && in_tree(u, b));
            }
        }
        assert(!has_any(t1.levels, t1.phys, b));
        assert(b1.contains_key(b));
    }
    assert forall|b: u64| !(#[trigger] in_tree(t1, b) && in_tree(u, b)) by {
        if in_tree(u, b) {
            assert(!in_tree(t1, b));
        }
    }
}

/// An exchange of one pyramid for another is one of streams without pieces.
pub proof fn lemma_replaced_swapped(
    b0: Map<u64, Seq<u8>>,
    b1: Map<u64, Seq<u8>>,
    lv0: Seq<Seq<u64>>,
    lv1: Seq<Seq<u64>>,
)
    requires
        replaced(b0, b1, lv0, lv1),
    ensures
        swapped(b0, b1, lv0, Seq::<Seq<u64>>::empty(), lv1, Seq::<Seq<u64>>::empty()),
{
    let e = Seq::<Seq<u64>>::empty();
    assert forall|b: u64| !#[trigger] has_block(e, b) by {}
    assert forall|b: u64| #[trigger] b1.contains_key(b) <==> (b0.contains_key(b) && !has_any(
        lv0,
        e,
        b,
    )) || has_any(lv1, e, b) by {
        assert(!has_block(e, b));
    }
    assert forall|b: u64| b0.contains_key(b) && !has_any(lv0, e, b) implies !#[trigger] has_any(
        lv1,
        e,
        b,
    ) by {
        assert(!has_block(e, b));
        assert(!has_block(lv1, b));
    }
    assert forall|b: u64| b0.contains_key(b) && !has_any(lv0, e, b) implies #[trigger] b1[b]
        == b0[b] by {
        assert(!has_block(e, b));
    }
}

/// Nothing at all has changed.
pub proof fn lemma_tree_swapped_refl(b0: Map<u64, Seq<u8>>, t: Tree)
    requires
        tree_held(b0, t),
    ensures
        tree_swapped(b0, b0, t, t),
{
    assert forall|b: u64| #[trigger] b0.contains_key(b) <==> (b0.contains_key(b) && !has_any(
        t.levels,
        t.phys,
        b,
    )) || has_any(t.levels, t.phys, b) by {
        if in_tree(t, b) {
        }
    }
}

/// The length of the content is the capacity.
pub proof fn lemma_capacity(blocks: Map<u64, Seq<u8>>, d: StreamDescriptor, t: Tree, m: Make)
    requires
        m.size >= 1,
        m.piece >= 1,
        stream_ok(blocks, d, t, m),
    ensures
        capacity_content(blocks, d.compressed(), t, m).len() == d.reserved,
        d.size <= d.reserved,
        d.reserved as nat % unit_of(d.compressed(), m) == 0,
{
    let unit = unit_of(d.compressed(), m);
    let n = leaves(t.levels).len();
    assert(d.reserved == n * unit);
    assert((n * unit) % unit == 0) by (nonlinear_arith)
        requires
            unit >= 1,
    ;
}

/// Reads from a stream.
pub(crate) fn stream_read<L2: BlockLayer>(
    layer2: &mut L2,
    descriptor: &StreamDescriptor,
    pos: u64,
    buf: &mut [u8],
    piece_size: usize,
    fan_out: u64,
    cache: CacheMode,
    Ghost(t): Ghost<Tree>,
) -> (r: Result<usize, SfsError>)
    requires
        fan_ok(*old(layer2), fan_out),
        1 <= piece_size <= 0x4000_0000,
        stream_ok(
            old(layer2).blocks(),
            *descriptor,
            t,
            make_of(*old(layer2), fan_out as nat, piece_size as nat),
        ),
    ensures
        same_store(*old(layer2), *final(layer2)),
        L2::reads_always() ==> final(layer2).faults() == old(layer2).faults(),
        final(layer2).faults() >= old(layer2).faults(),
        (r is Ok) == (final(layer2).faults() == old(layer2).faults()),
        final(buf)@.len() == old(buf)@.len(),
        r matches Ok(n) ==> {
            let m = make_of(*old(layer2), fan_out as nat, piece_size as nat);
            let data = state_of(old(layer2).blocks(), *descriptor, t, m).data;
            &&& n == read_count(data.len() as int, pos as int, old(buf)@.len() as int)
            &&& final(buf)@ == after_read(data, pos as int, old(buf)@)
        },
{
    proof {
        layer2.lemma_wf();
        lemma_capacity(
            layer2.blocks(),
            *descriptor,
            t,
            make_of(*layer2, fan_out as nat, piece_size as nat),
        );
    }
    if descriptor.is_compressed() {
        pyramid_read_compressed(
            layer2,
            descriptor,
            pos,
            buf,
            piece_size,
            fan_out,
            cache,
            Ghost(t.levels),
            Ghost(t.phys),
        )
    } else {
        pyramid_read(layer2, descriptor, pos, buf, fan_out, cache, Ghost(t.levels))
    }
}

/// Writes to a stream. A compressed stream can fail without a fault of the
/// store: a piece can turn out too long for its redirector.
pub(crate) fn stream_write<L2: BlockLayer>(
    layer2: &mut L2,
    descriptor: &mut StreamDescriptor,
    pos: u64,
    buf: &[u8],
    piece_size: usize,
    fan_out: u64,
    cache: CacheMode,
    tree: &mut Ghost<Tree>,
) -> (r: Result<usize, SfsError>)
    requires
        fan_ok(*old(layer2), fan_out),
        1 <= piece_size <= 0x4000_0000,
        stream_ok(
            old(layer2).blocks(),
            *old(descriptor),
            old(tree)@,
            make_of(*old(layer2), fan_out as nat, piece_size as nat),
        ),
        pos + buf@.len() <= u64::MAX,
    ensures
        final(layer2).bsize() == old(layer2).bsize(),
        final(layer2).iwidth() == old(layer2).iwidth(),
        final(layer2).faults() >= old(layer2).faults(),
        r is Ok ==> final(layer2).faults() == old(layer2).faults(),
        final(layer2).faults() == old(layer2).faults() ==> {
            let m = make_of(*old(layer2), fan_out as nat, piece_size as nat);
            let large = buf@.len() > 0 && too_large(
                old(descriptor).reserved as nat,
                (pos + buf@.len()) as nat,
                unit_of(old(descriptor).compressed(), m),
            );
            &&& large ==> {
                &&& r is Err
                &&& same_store(*old(layer2), *final(layer2))
                &&& *final(descriptor) == *old(descriptor)
                &&& final(tree)@ == old(tree)@
            }
            &&& r matches Err(e) ==> e is IoError && (large || (old(descriptor).compressed()
                && !piece_fits(piece_size as nat, old(layer2).bsize(), old(layer2).iwidth())))
        },
        r matches Ok(n) ==> {
            let m = make_of(*old(layer2), fan_out as nat, piece_size as nat);
            let end = (pos + buf@.len()) as nat;
            let s0 = state_of(old(layer2).blocks(), *old(descriptor), old(tree)@, m);
            let s1 = state_of(final(layer2).blocks(), *final(descriptor), final(tree)@, m);
            &&& n == buf@.len()
            &&& same_make(*old(layer2), *final(layer2))
            &&& stream_ok(final(layer2).blocks(), *final(descriptor), final(tree)@, m)
            &&& final(descriptor).flags == old(descriptor).flags
            &&& tree_swapped(
                old(layer2).blocks(),
                final(layer2).blocks(),
                old(tree)@,
                final(tree)@,
            )
            &&& written(s0.data, s1.data, pos as int, buf@)
            &&& s1.reserved == if buf@.len() == 0 {
                s0.reserved
            } else {
                grown_capacity(s0.reserved, end, unit_of(s0.compressed, m))
            }
        },
{
    let ghost m = make_of(*layer2, fan_out as nat, piece_size as nat);
    let ghost b0 = layer2.blocks();
    let ghost t0 = tree@;
    let ghost d0 = *descriptor;
    proof {
        layer2.lemma_wf();
        lemma_capacity(b0, d0, t0, m);
    }
    let mut levels: Ghost<Seq<Seq<u64>>> = Ghost(tree@.levels);
    let r = if descriptor.is_compressed() {
        let mut phys: Ghost<Seq<Seq<u64>>> = Ghost(tree@.phys);
        let r = pyramid_write_compressed(
            layer2,
            descriptor,
            pos,
            buf,
            piece_size,
            fan_out,
            cache,
            &mut levels,
            &mut phys,
        );
        proof {
            *tree = Ghost(Tree { levels: levels@, phys: phys@ });
        }
        r
    } else {
        let r = pyramid_write(layer2, descriptor, pos, buf, fan_out, cache, &mut levels);
        proof {
            *tree = Ghost(Tree { levels: levels@, phys: Seq::empty() });
            if r is Ok {
                lemma_replaced_swapped(b0, layer2.blocks(), t0.levels, levels@);
            }
        }
        r
    };
    proof {
        let d1 = *descriptor;
        let t1 = tree@;
        let b1 = layer2.blocks();
        assert(t1.levels =~= levels@);
        if r is Ok {
            assert(d1.compressed() == d0.compressed());
            lemma_capacity(b1, d1, t1, m);
            lemma_ceil_covers((pos + buf@.len()) as nat, unit_of(d0.compressed(), m));
        } else if layer2.faults() == old(layer2).faults() && buf@.len() > 0 && too_large(
            d0.reserved as nat,
            (pos + buf@.len()) as nat,
            unit_of(d0.compressed(), m),
        ) {
            assert(t1 =~= t0);
        }
    }
    r
}

/// Makes room in a stream.
pub(crate) fn stream_reserve<L2: BlockLayer>(
    layer2: &mut L2,
    descriptor: &mut StreamDescriptor,
    n_bytes: u64,
    piece_size: usize,
    fan_out: u64,
    cache: CacheMode,
    tree: &mut Ghost<Tree>,
) -> (r: Result<(), SfsError>)
    requires
        fan_ok(*old(layer2), fan_out),
        1 <= piece_size <= 0x4000_0000,
        stream_ok(
            old(layer2).blocks(),
            *old(descriptor),
            old(tree)@,
            make_of(*old(layer2), fan_out as nat, piece_size as nat),
        ),
    ensures
        final(layer2).bsize() == old(layer2).bsize(),
        final(layer2).iwidth() == old(layer2).iwidth(),
        final(layer2).faults() >= old(layer2).faults(),
        r is Ok ==> final(layer2).faults() == old(layer2).faults(),
        final(layer2).faults() == old(layer2).faults() ==> {
            let m = make_of(*old(layer2), fan_out as nat, piece_size as nat);
            &&& same_make(*old(layer2), *final(layer2))
            &&& r is Err <==> n_bytes < old(descriptor).size || too_large(
                old(descriptor).reserved as nat,
                n_bytes as nat,
                unit_of(old(descriptor).compressed(), m),
            )
            &&& r matches Err(e) ==> e is IoError && final(layer2).blocks() == old(layer2).blocks()
                && *final(descriptor) == *old(descriptor) && final(tree)@ == old(tree)@
        },
        r is Ok ==> {
            let m = make_of(*old(layer2), fan_out as nat, piece_size as nat);
            let s0 = state_of(old(layer2).blocks(), *old(descriptor), old(tree)@, m);
            let s1 = state_of(final(layer2).blocks(), *final(descriptor), final(tree)@, m);
            &&& stream_ok(final(layer2).blocks(), *final(descriptor), final(tree)@, m)
            &&& final(descriptor).flags == old(descriptor).flags
            &&& tree_swapped(
                old(layer2).blocks(),
                final(layer2).blocks(),
                old(tree)@,
                final(tree)@,
            )
            &&& s1.data == s0.data
            &&& s1.reserved == grown_capacity(
                s0.reserved,
                n_bytes as nat,
                unit_of(s0.compressed, m),
            )
        },
{
    let ghost m = make_of(*layer2, fan_out as nat, piece_size as nat);
    let ghost b0 = layer2.blocks();
    let ghost t0 = tree@;
    let ghost d0 = *descriptor;
    proof {
        layer2.lemma_wf();
        lemma_capacity(b0, d0, t0, m);
    }
    let mut levels: Ghost<Seq<Seq<u64>>> = Ghost(tree@.levels);
    let r = if descriptor.is_compressed() {
        let mut phys: Ghost<Seq<Seq<u64>>> = Ghost(tree@.phys);
        let r = pyramid_reserve_compressed(
            layer2,
            descriptor,
            n_bytes,
            piece_size,
            fan_out,
            cache,
            &mut levels,
            &mut phys,
        );
        proof {
            *tree = Ghost(Tree { levels: levels@, phys: phys@ });
        }
        r
    } else {
        let r = pyramid_reserve(layer2, descriptor, n_bytes, fan_out, cache, &mut levels);
        proof {
            *tree = Ghost(Tree { levels: levels@, phys: Seq::empty() });
            if r is Ok {
                lemma_replaced_swapped(b0, layer2.blocks(), t0.levels, levels@);
            }
        }
        r
    };
    proof {
        let t1 = tree@;
        let b1 = layer2.blocks();
        if r is Ok {
            lemma_capacity(b1, *descriptor, t1, m);
            assert(state_of(b1, *descriptor, t1, m).data =~= state_of(b0, d0, t0, m).data);
        } else if layer2.faults() == old(layer2).faults() {
            assert(t1 =~= t0);
        }
    }
    r
}

/// Cuts a stream down.
pub(crate) fn stream_truncate<L2: BlockLayer>(
    layer2: &mut L2,
    descriptor: &mut StreamDescriptor,
    new_len: u64,
    piece_size: usize,
    fan_out: u64,
    cache: CacheMode,
    tree: &mut Ghost<Tree>,
) -> (r: Result<(), SfsError>)
    requires
        fan_ok(*old(layer2), fan_out),
        1 <= piece_size <= 0x4000_0000,
        stream_ok(
            old(layer2).blocks(),
            *old(descriptor),
            old(tree)@,
            make_of(*old(layer2), fan_out as nat, piece_size as nat),
        ),
    ensures
        final(layer2).bsize() == old(layer2).bsize(),
        final(layer2).iwidth() == old(layer2).iwidth(),
        final(layer2).faults() >= old(layer2).faults(),
        (r is Ok) == (final(layer2).faults() == old(layer2).faults()),
        r is Ok ==> {
            let m = make_of(*old(layer2), fan_out as nat, piece_size as nat);
            let s0 = state_of(old(layer2).blocks(), *old(descriptor), old(tree)@, m);
            let s1 = state_of(final(layer2).blocks(), *final(descriptor), final(tree)@, m);
            &&& same_make(*old(layer2), *final(layer2))
            &&& stream_ok(final(layer2).blocks(), *final(descriptor), final(tree)@, m)
            &&& final(descriptor).flags == old(descriptor).flags
            &&& tree_swapped(
                old(layer2).blocks(),
                final(layer2).blocks(),
                old(tree)@,
                final(tree)@,
            )
            &&& s1 == cut(s0, new_len as nat, unit_of(s0.compressed, m))
        },
{
    let ghost m = make_of(*layer2, fan_out as nat, piece_size as nat);
    let ghost b0 = layer2.blocks();
    let ghost t0 = tree@;
    let ghost d0 = *descriptor;
    proof {
        layer2.lemma_wf();
        lemma_capacity(b0, d0, t0, m);
    }
    let mut levels: Ghost<Seq<Seq<u64>>> = Ghost(tree@.levels);
    let r = if descriptor.is_compressed() {
        let mut phys: Ghost<Seq<Seq<u64>>> = Ghost(tree@.phys);
        let r = pyramid_truncate_compressed(
            layer2,
            descriptor,
            new_len,
            piece_size,
            fan_out,
            cache,
            &mut levels,
            &mut phys,
        );
        proof {
            *tree = Ghost(Tree { levels: levels@, phys: phys@ });
        }
        r
    } else {
        let r = pyramid_truncate(layer2, descriptor, new_len, fan_out, cache, &mut levels);
        proof {
            *tree = Ghost(Tree { levels: levels@, phys: Seq::empty() });
            if r is Ok {
                lemma_replaced_swapped(b0, layer2.blocks(), t0.levels, levels@);
            }
        }
        r
    };
    proof {
        let t1 = tree@;
        let b1 = layer2.blocks();
        if r is Ok {
            let s0 = state_of(b0, d0, t0, m);
            let s1 = state_of(b1, *descriptor, t1, m);
            lemma_capacity(b1, *descriptor, t1, m);
            let unit = unit_of(d0.compressed(), m);
            let len = cut_len(d0.size as nat, new_len as nat);
            let n0 = leaves(t0.levels).len();
            let n1 = ceil_div(len, unit);
            lemma_ceil_covers(len, unit);
            lemma_ceil_exact(n0, unit);
            lemma_ceil_monotone(len, d0.reserved as nat, unit);
            assert(n1 * unit <= n0 * unit) by (nonlinear_arith)
                requires
                    n1 <= n0,
            ;
            assert(s1.data =~= s0.data.take(len as int));
        }
    }
    r
}

/// Gives all blocks of a stream back.
pub(crate) fn stream_free<L2: BlockLayer>(
    layer2: &mut L2,
    descriptor: &StreamDescriptor,
    piece_size: usize,
    fan_out: u64,
    cache: CacheMode,
    Ghost(t): Ghost<Tree>,
) -> (r: Result<(), SfsError>)
    requires
        fan_ok(*old(layer2), fan_out),
        1 <= piece_size <= 0x4000_0000,
        stream_ok(
            old(layer2).blocks(),
            *descriptor,
            t,
            make_of(*old(layer2), fan_out as nat, piece_size as nat),
        ),
    ensures
        final(layer2).bsize() == old(layer2).bsize(),
        final(layer2).iwidth() == old(layer2).iwidth(),
        final(layer2).faults() >= old(layer2).faults(),
        (r is Ok) == (final(layer2).faults() == old(layer2).faults()),
        r is Ok ==> {
            &&& same_make(*old(layer2), *final(layer2))
            &&& tree_swapped(old(layer2).blocks(), final(layer2).blocks(), t, no_tree())
        },
{
    let ghost m = make_of(*layer2, fan_out as nat, piece_size as nat);
    let ghost b0 = layer2.blocks();
    proof {
        layer2.lemma_wf();
        lemma_tree_held(b0, *descriptor, t, m);
        lemma_ceil_exact(leaves(t.levels).len(), unit_of(descriptor.compressed(), m));
    }
    if descriptor.reserved == 0 {
        proof {
            assert(leaves(t.levels).len() == 0);
            assert(t.levels.len() == 0);
            assert(t.levels =~= Seq::<Seq<u64>>::empty());
            assert(t.phys =~= Seq::<Seq<u64>>::empty());
            assert(t =~= no_tree());
            lemma_tree_swapped_refl(b0, t);
        }
        return Ok(());
    }
    let unit: usize = if descriptor.is_compressed() {
        piece_size
    } else {
        layer2.block_size()
    };
    let units: u64 = data_blocks_needed(descriptor.reserved, unit);
    let depth: u32 = pyramid_depth(units, fan_out);
    proof {
        assert(t.levels.len() > 0);
        lemma_depth_unique(units as nat, fan_out as nat, depth as nat, (t.levels.len() - 1) as nat);
        lemma_level_count(units as nat, fan_out as nat, 0);
    }
    if descriptor.is_compressed() {
        deallocate_compressed_tree(
            layer2,
            descriptor.top_block,
            depth,
            fan_out,
            cache,
            Ghost(t.levels),
            Ghost(t.phys),
            Ghost(piece_size as nat),
        )
    } else {
        let r = deallocate_tree(
            layer2,
            descriptor.top_block,
            depth,
            fan_out,
            cache,
            Ghost(t.levels),
            Ghost(units as nat),
        );
        proof {
            if r is Ok {
                lemma_replaced_swapped(
                    b0,
                    layer2.blocks(),
                    t.levels,
                    Seq::<Seq<u64>>::empty(),
                );
            }
        }
        r
    }
}

} // verus!
