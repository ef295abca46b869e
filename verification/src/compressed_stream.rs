//! Reading, writing and cutting compressed streams.

use crate::block_layer::{same_make, same_store, zero_bytes, BlockLayer};
use crate::bytes::{after_read, copy_into, copy_range, le_value, overlay, read_count};
use crate::compressed::{
    decompress_cblock, lemma_piece_fits, packed_bytes, packed_len, piece, piece_fits, piece_ok,
    read_comp_redir, redir_ok, restored, store_cblock, zero_filled, CompRedir,
};
use crate::descriptor::StreamDescriptor;
use crate::lz4::unpacks_to;
use crate::plain::{
    content, find_run, leaf_ok, lemma_position, lemma_position_in_run, padded, too_large,
    LeafCache,
};
use crate::pyramid::{
    ceil_div, distinct, has_block, held, is_depth, is_place, is_pyramid, lemma_depth_unique,
    lemma_div_mod, lemma_level_count, lemma_mul_div, lemma_tree_frame,
};
use crate::pyramid_io::{data_blocks_needed, fan_ok, pyramid_depth};
use crate::stream_tree::{
    describes, extend_pyramid, extended, leaves, lemma_ceil_covers, lemma_ceil_exact,
    lemma_ceil_monotone,
};
use crate::types::{text_num, CacheMode, SfsError};
use vstd::prelude::*;

verus! {

/// The pieces of a compressed stream lie in the blocks `phys`, a row of blocks
/// for every compression redirector, apart from each other and from the
/// pyramid.
pub open spec fn pieces_ok(
    blocks: Map<u64, Seq<u8>>,
    levels: Seq<Seq<u64>>,
    phys: Seq<Seq<u64>>,
    size: nat,
    w: nat,
    unit: nat,
) -> bool {
    &&& phys.len() == leaves(levels).len()
    &&& distinct(phys)
    &&& held(blocks, phys)
    &&& forall|i: int, j: int| is_place(phys, i, j) ==> !has_block(levels, #[trigger] phys[i][j])
    &&& forall|i: int|
        0 <= i < phys.len() ==> #[trigger] piece_ok(
            blocks,
            leaves(levels)[i],
            phys[i],
            size,
            w,
            unit,
        )
}

/// The bytes of a compressed stream, to the end of its capacity.
pub open spec fn unpacked_content(
    blocks: Map<u64, Seq<u8>>,
    levels: Seq<Seq<u64>>,
    phys: Seq<Seq<u64>>,
    size: nat,
    unit: nat,
) -> Seq<u8> {
    Seq::new(
        leaves(levels).len() * unit,
        |p: int|
            piece(
                blocks,
                leaves(levels)[p / unit as int],
                phys[p / unit as int],
                size,
                unit,
            )[p % unit as int],
    )
}

/// `b` is a block of the compressed stream.
pub open spec fn has_any(levels: Seq<Seq<u64>>, phys: Seq<Seq<u64>>, b: u64) -> bool {
    has_block(levels, b) || has_block(phys, b)
}

/// Outside the compressed stream nothing has changed, and the blocks in use
/// are those of before with the new blocks of the stream in place of the old.
pub open spec fn swapped(
    b0: Map<u64, Seq<u8>>,
    b1: Map<u64, Seq<u8>>,
    lv0: Seq<Seq<u64>>,
    ph0: Seq<Seq<u64>>,
    lv1: Seq<Seq<u64>>,
    ph1: Seq<Seq<u64>>,
) -> bool {
    &&& forall|b: u64| #[trigger]
        b1.contains_key(b) <==> (b0.contains_key(b) && !has_any(lv0, ph0, b)) || has_any(
            lv1,
            ph1,
            b,
        )
    &&& forall|b: u64|
        b0.contains_key(b) && !has_any(lv0, ph0, b) ==> !#[trigger] has_any(lv1, ph1, b)
    &&& forall|b: u64|
        b0.contains_key(b) && !has_any(lv0, ph0, b) ==> #[trigger] b1[b] == b0[b]
}

/// A compressed stream: its descriptor, its pyramid and its pieces.
pub open spec fn describes_packed(
    blocks: Map<u64, Seq<u8>>,
    d: StreamDescriptor,
    levels: Seq<Seq<u64>>,
    phys: Seq<Seq<u64>>,
    size: nat,
    unit: nat,
    f: nat,
    w: nat,
) -> bool {
    &&& describes(blocks, d, levels, unit, f, w)
    &&& pieces_ok(blocks, levels, phys, size, w, unit)
}

/// A piece stays what it is when its redirector and its blocks do.
pub proof fn lemma_piece_frame(
    b0: Map<u64, Seq<u8>>,
    b1: Map<u64, Seq<u8>>,
    redir: u64,
    phys: Seq<u64>,
    size: nat,
    w: nat,
    unit: nat,
)
    requires
        size >= 1,
        b1[redir] == b0[redir],
        forall|j: int| 0 <= j < phys.len() ==> b1[#[trigger] phys[j]] == b0[phys[j]],
    ensures
        piece_ok(b1, redir, phys, size, w, unit) == piece_ok(b0, redir, phys, size, w, unit),
        piece(b1, redir, phys, size, unit) == piece(b0, redir, phys, size, unit),
        packed_bytes(b1, redir, phys, size) == packed_bytes(b0, redir, phys, size),
{
    assert(content(b1, phys, size) =~= content(b0, phys, size)) by {
        assert forall|p: int| 0 <= p < phys.len() * size implies content(b1, phys, size)[p]
            == content(b0, phys, size)[p] by {
            lemma_position_in_run(p, phys.len() as int, size as int);
            assert(b1[phys[p / size as int]] == b0[phys[p / size as int]]);
        }
    }
}

/// A stretch of the stream that lies in one piece.
proof fn lemma_unpacked_at(
    blocks: Map<u64, Seq<u8>>,
    levels: Seq<Seq<u64>>,
    phys: Seq<Seq<u64>>,
    size: nat,
    unit: nat,
    idx: int,
    q: int,
)
    requires
        unit >= 1,
        0 <= idx < leaves(levels).len(),
        0 <= q < unit,
    ensures
        0 <= idx * unit + q < unpacked_content(blocks, levels, phys, size, unit).len(),
        unpacked_content(blocks, levels, phys, size, unit)[idx * unit + q] == piece(
            blocks,
            leaves(levels)[idx],
            phys[idx],
            size,
            unit,
        )[q],
{
    lemma_mul_div(idx, q, unit as int);
    let n = leaves(levels).len() as int;
    assert(idx * unit + unit <= n * unit) by (nonlinear_arith)
        requires
            idx + 1 <= n,
            unit >= 1,
    ;
}

/// Reads bytes of a compressed stream from `pos` on, up to the end of the
/// stream.
pub(crate) fn pyramid_read_compressed<L2: BlockLayer>(
    layer2: &mut L2,
    descriptor: &StreamDescriptor,
    pos: u64,
    buf: &mut [u8],
    unit: usize,
    fan_out: u64,
    cache: CacheMode,
    Ghost(levels): Ghost<Seq<Seq<u64>>>,
    Ghost(phys): Ghost<Seq<Seq<u64>>>,
) -> (r: Result<usize, SfsError>)
    requires
        fan_ok(*old(layer2), fan_out),
        1 <= unit <= 0x4000_0000,
        describes_packed(
            old(layer2).blocks(),
            *descriptor,
            levels,
            phys,
            old(layer2).bsize(),
            unit as nat,
            fan_out as nat,
            old(layer2).iwidth(),
        ),
    ensures
        same_store(*old(layer2), *final(layer2)),
        L2::reads_always() ==> final(layer2).faults() == old(layer2).faults(),
        final(layer2).faults() >= old(layer2).faults(),
        (r is Ok) == (final(layer2).faults() == old(layer2).faults()),
        final(buf)@.len() == old(buf)@.len(),
        r matches Ok(n) ==> {
            let data = unpacked_content(
                old(layer2).blocks(),
                levels,
                phys,
                old(layer2).bsize(),
                unit as nat,
            ).take(descriptor.size as int);
            &&& n == read_count(descriptor.size as int, pos as int, old(buf)@.len() as int)
            &&& final(buf)@ == after_read(data, pos as int, old(buf)@)
        },
{
    let ghost f = fan_out as nat;
    let ghost w = layer2.iwidth();
    let ghost size = layer2.bsize();
    let ghost u = unit as int;
    let ghost b0 = layer2.blocks();
    let ghost data = unpacked_content(b0, levels, phys, size, unit as nat);
    proof {
        layer2.lemma_wf();
        lemma_ceil_exact(leaves(levels).len(), unit as nat);
    }
    if pos >= descriptor.size {
        proof {
            assert(buf@ =~= after_read(data.take(descriptor.size as int), pos as int, buf@));
        }
        return Ok(0);
    }
    let available: u64 = descriptor.size - pos;
    let to_read: usize = if (buf.len() as u64) < available {
        buf.len()
    } else {
        available as usize
    };
    let num_pieces: u64 = data_blocks_needed(descriptor.reserved, unit);
    let depth: u32 = pyramid_depth(num_pieces, fan_out);
    let ghost n = num_pieces as nat;
    proof {
        assert(levels.len() > 0);
        lemma_depth_unique(n, f, depth as nat, (levels.len() - 1) as nat);
        lemma_level_count(n, f, 0);
    }
    let mut leaf_cache: LeafCache = LeafCache {
        valid: false,
        leaf: 0,
        buf: vec![0u8; layer2.block_size()],
    };
    let mut bytes_read: usize = 0;
    while bytes_read < to_read
        invariant
            fan_ok(*layer2, fan_out),
            same_store(*old(layer2), *layer2),
            layer2.faults() == old(layer2).faults(),
            f == fan_out,
            w == layer2.iwidth(),
            size == layer2.bsize(),
            unit == u,
            1 <= unit <= 0x4000_0000,
            b0 == layer2.blocks(),
            data == unpacked_content(b0, levels, phys, size, unit as nat),
            n == num_pieces,
            levels.len() == depth + 1,
            is_pyramid(b0, levels, n, f, w),
            is_depth(n, f, depth as nat),
            leaves(levels) == levels[0],
            levels[0].len() == n,
            pieces_ok(b0, levels, phys, size, w, unit as nat),
            descriptor.top_block == levels[depth as int][0],
            descriptor.size <= descriptor.reserved,
            descriptor.reserved == n * u,
            leaf_ok(leaf_cache, b0, levels, size),
            buf@.len() == old(buf)@.len(),
            bytes_read <= to_read <= buf@.len(),
            pos + to_read <= descriptor.size,
            forall|i: int| 0 <= i < bytes_read ==> #[trigger] buf@[i] == data[pos + i],
            forall|i: int| bytes_read <= i < buf@.len() ==> #[trigger] buf@[i] == old(buf)@[i],
        decreases to_read - bytes_read,
    {
        let current: u64 = pos + bytes_read as u64;
        let idx: u64 = current / (unit as u64);
        let off: usize = (current % (unit as u64)) as usize;
        proof {
            layer2.lemma_wf();
            lemma_position_in_run(current as int, n as int, u);
            lemma_div_mod(current as int, u);
        }
        let (redir_block, _run) = match find_run(
            layer2,
            descriptor.top_block,
            idx,
            num_pieces,
            depth,
            fan_out,
            cache,
            &mut leaf_cache,
            Ghost(levels),
        ) {
            Ok(found) => found,
            Err(e) => {
                return Err(e);
            },
        };
        proof {
            assert(levels[0][idx + 0] == redir_block);
            assert(is_place(levels, 0, idx as int));
            assert(b0.contains_key(levels[0][idx as int]));
            assert(piece_ok(b0, leaves(levels)[idx as int], phys[idx as int], size, w, unit as nat));
            assert forall|j: int| 0 <= j < phys[idx as int].len() implies b0.contains_key(
                #[trigger] phys[idx as int][j],
            ) by {
                assert(is_place(phys, idx as int, j));
            }
        }
        let redir: CompRedir = match read_comp_redir(
            layer2,
            redir_block,
            cache,
            Ghost(phys[idx as int]),
        ) {
            Ok(redir) => redir,
            Err(e) => {
                return Err(e);
            },
        };
        let unpacked: Vec<u8> = match decompress_cblock(layer2, &redir, unit, cache) {
            Ok(unpacked) => unpacked,
            Err(e) => {
                return Err(e);
            },
        };
        let left: usize = to_read - bytes_read;
        let chunk: usize = if left < unit - off {
            left
        } else {
            unit - off
        };
        let part: Vec<u8> = copy_range(unpacked.as_slice(), off, off + chunk);
        let ghost before = buf@;
        copy_into(buf, bytes_read, part.as_slice());
        proof {
            assert forall|i: int| 0 <= i < bytes_read + chunk implies #[trigger] buf@[i]
                == data[pos + i] by {
                if i < bytes_read {
                    assert(buf@[i] == before[i]);
                } else {
                    let q = off + (i - bytes_read);
                    assert(buf@[i] == part@[i - bytes_read]);
                    assert(part@[i - bytes_read] == unpacked@[q]);
                    lemma_unpacked_at(b0, levels, phys, size, unit as nat, idx as int, q);
                    assert(pos + i == idx * u + q);
                }
            }
            assert forall|i: int| bytes_read + chunk <= i < buf@.len() implies #[trigger] buf@[i]
                == old(buf)@[i] by {
                assert(buf@[i] == before[i]);
            }
        }
        bytes_read = bytes_read + chunk;
    }
    proof {
        assert(buf@ =~= after_read(data.take(descriptor.size as int), pos as int, old(buf)@));
    }
    Ok(bytes_read)
}

/// A block of zeros is a compression redirector without a piece.
proof fn lemma_zero_redir(size: nat, w: nat)
    requires
        size >= 4,
    ensures
        packed_len(zero_bytes(size)) == 0,
        redir_ok(zero_bytes(size), Seq::empty(), size, w),
{
    let head = zero_bytes(size).subrange(0, 4);
    assert(head.len() == 4 && head[0] == 0 && head[1] == 0 && head[2] == 0 && head[3] == 0);
    reveal_with_fuel(le_value, 5);
    assert(head.skip(1)[0] == head[1]);
    assert(head.skip(1).skip(1)[0] == head[2]);
    assert(head.skip(1).skip(1).skip(1)[0] == head[3]);
    assert(head.skip(1).skip(1).skip(1).skip(1).len() == 0);
    assert(le_value(head) == 0);
    assert(0 * w == 0) by (nonlinear_arith);
}

/// `n` pieces of which nothing is packed yet.
pub open spec fn no_pieces(n: nat) -> Seq<Seq<u64>> {
    Seq::new(n, |i: int| Seq::<u64>::empty())
}

proof fn lemma_pieces_extended(
    b0: Map<u64, Seq<u8>>,
    b1: Map<u64, Seq<u8>>,
    lv0: Seq<Seq<u64>>,
    lv1: Seq<Seq<u64>>,
    ph0: Seq<Seq<u64>>,
    added: Seq<u64>,
    size: nat,
    w: nat,
    unit: nat,
)
    requires
        size >= 4,
        unit >= 1,
        pieces_ok(b0, lv0, ph0, size, w, unit),
        extended(b0, b1, lv0, lv1, added),
        forall|i: int| 0 <= i < added.len() ==> b1[#[trigger] added[i]] == zero_bytes(size),
    ensures
        ({
            let ph1 = ph0 + no_pieces(added.len());
            &&& pieces_ok(b1, lv1, ph1, size, w, unit)
            &&& unpacked_content(b1, lv1, ph1, size, unit) == unpacked_content(
                b0,
                lv0,
                ph0,
                size,
                unit,
            ) + zero_bytes(added.len() * unit)
            &&& swapped(b0, b1, lv0, ph0, lv1, ph1)
        }),
{
    let ph1 = ph0 + no_pieces(added.len());
    let n = ph0.len() as int;
    let d0 = leaves(lv0);
    let d1 = leaves(lv1);
    lemma_zero_redir(size, w);
    assert forall|i: int, j: int| is_place(ph1, i, j) implies is_place(ph0, i, j)
        && #[trigger] ph1[i][j] == ph0[i][j] by {
        if i >= n {
            assert(ph1[i] == Seq::<u64>::empty());
        }
    }
    assert forall|b: u64| #[trigger] has_block(ph1, b) == has_block(ph0, b) by {
        if has_block(ph1, b) {
            let (i, j) = choose|i: int, j: int| is_place(ph1, i, j) && #[trigger] ph1[i][j] == b;
            assert(is_place(ph0, i, j) && ph0[i][j] == b);
        }
        if has_block(ph0, b) {
            let (i, j) = choose|i: int, j: int| is_place(ph0, i, j) && #[trigger] ph0[i][j] == b;
            assert(is_place(ph1, i, j) && ph1[i][j] == b);
        }
    }
    assert forall|i: int, j: int| is_place(ph0, i, j) implies b1.contains_key(
        #[trigger] ph0[i][j],
    ) && b1[ph0[i][j]] == b0[ph0[i][j]] && !has_block(lv1, ph0[i][j]) by {
        let b = ph0[i][j];
        assert(b0.contains_key(b) && !has_block(lv0, b));
        assert(!has_block(lv1, b));
        assert(b1[b] == b0[b]);
    }
    assert(held(b1, ph1)) by {
        assert forall|i: int, j: int| is_place(ph1, i, j) implies b1.contains_key(
            #[trigger] ph1[i][j],
        ) by {
            assert(is_place(ph0, i, j) && ph1[i][j] == ph0[i][j]);
        }
    }
    assert(distinct(ph1)) by {
        assert forall|l: int, i: int, m: int, j: int|
            #![trigger ph1[l][i], ph1[m][j]]
            is_place(ph1, l, i) && is_place(ph1, m, j) && ph1[l][i] == ph1[m][j] implies l == m && i
            == j by {
            assert(is_place(ph0, l, i) && ph0[l][i] == ph1[l][i]);
            assert(is_place(ph0, m, j) && ph0[m][j] == ph1[m][j]);
        }
    }
    assert forall|i: int, j: int| is_place(ph1, i, j) implies !has_block(lv1, #[trigger] ph1[i][j]) by {
        assert(is_place(ph0, i, j) && ph1[i][j] == ph0[i][j]);
    }
    assert forall|i: int| 0 <= i < ph1.len() implies #[trigger] piece_ok(
        b1,
        d1[i],
        ph1[i],
        size,
        w,
        unit,
    ) && piece(b1, d1[i], ph1[i], size, unit) == (if i < n {
        piece(b0, d0[i], ph0[i], size, unit)
    } else {
        zero_bytes(unit)
    }) by {
        if i < n {
            assert(piece_ok(b0, d0[i], ph0[i], size, w, unit));
            assert(b1[leaves(lv0)[i]] == b0[leaves(lv0)[i]]);
            assert forall|j: int| 0 <= j < ph0[i].len() implies b1[#[trigger] ph0[i][j]]
                == b0[ph0[i][j]] by {
                assert(is_place(ph0, i, j));
            }
            lemma_piece_frame(b0, b1, d0[i], ph0[i], size, w, unit);
            assert(d1[i] == d0[i] && ph1[i] == ph0[i]);
        } else {
            assert(d1[i] == added[i - n]);
            assert(ph1[i] == Seq::<u64>::empty());
        }
    }
    let c0 = unpacked_content(b0, lv0, ph0, size, unit);
    let c1 = unpacked_content(b1, lv1, ph1, size, unit);
    let m = d1.len() as int;
    assert(m * unit == n * unit + added.len() * unit) by (nonlinear_arith)
        requires
            m == n + added.len(),
    ;
    assert forall|p: int| 0 <= p < c1.len() implies c1[p] == (c0 + zero_bytes(
        added.len() * unit,
    ))[p] by {
        lemma_position_in_run(p, m, unit as int);
        let i = p / (unit as int);
        assert(piece_ok(b1, d1[i], ph1[i], size, w, unit));
        if p < n * unit {
            lemma_position_in_run(p, n, unit as int);
        } else {
            lemma_position(n, p - n * unit, unit as int);
            assert(i >= n);
        }
    }
    assert(c1 =~= c0 + zero_bytes(added.len() * unit));
    assert(swapped(b0, b1, lv0, ph0, lv1, ph1)) by {
        assert forall|b: u64| #[trigger] has_any(lv1, ph1, b) == (has_block(lv1, b) || has_block(
            ph0,
            b,
        )) by {
            assert(has_block(ph1, b) == has_block(ph0, b));
        }
        assert forall|b: u64| #[trigger] has_block(ph0, b) implies b0.contains_key(b) && !has_block(
            lv0,
            b,
        ) by {
            let (i, j) = choose|i: int, j: int| is_place(ph0, i, j) && #[trigger] ph0[i][j] == b;
            assert(b0.contains_key(ph0[i][j]));
        }
        assert forall|b: u64| #[trigger] b1.contains_key(b) <==> (b0.contains_key(b) && !has_any(
            lv0,
            ph0,
            b,
        )) || has_any(lv1, ph1, b) by {
            assert(has_any(lv1, ph1, b) == (has_block(lv1, b) || has_block(ph0, b)));
            assert(has_block(ph0, b) || !has_block(ph0, b));
        }
        assert forall|b: u64| b0.contains_key(b) && !has_any(lv0, ph0, b) implies !#[trigger] has_any(
            lv1,
            ph1,
            b,
        ) by {
            assert(!has_block(lv1, b));
        }
    }
}

/// Makes room for at least `n_bytes` bytes in a compressed stream, without
/// changing its length.
pub(crate) fn pyramid_reserve_compressed<L2: BlockLayer>(
    layer2: &mut L2,
    descriptor: &mut StreamDescriptor,
    n_bytes: u64,
    unit: usize,
    fan_out: u64,
    cache: CacheMode,
    tree: &mut Ghost<Seq<Seq<u64>>>,
    phys: &mut Ghost<Seq<Seq<u64>>>,
) -> (r: Result<(), SfsError>)
    requires
        fan_ok(*old(layer2), fan_out),
        1 <= unit <= 0x4000_0000,
        describes_packed(
            old(layer2).blocks(),
            *old(descriptor),
            old(tree)@,
            old(phys)@,
            old(layer2).bsize(),
            unit as nat,
            fan_out as nat,
            old(layer2).iwidth(),
        ),
    ensures
        final(layer2).bsize() == old(layer2).bsize(),
        final(layer2).iwidth() == old(layer2).iwidth(),
        final(layer2).faults() >= old(layer2).faults(),
        r is Ok ==> final(layer2).faults() == old(layer2).faults(),
        final(layer2).faults() == old(layer2).faults() ==> {
            &&& same_make(*old(layer2), *final(layer2))
            &&& r is Err <==> n_bytes < old(descriptor).size || too_large(
                old(descriptor).reserved as nat,
                n_bytes as nat,
                unit as nat,
            )
            &&& r matches Err(e) ==> e is IoError && final(layer2).blocks() == old(layer2).blocks()
                && *final(descriptor) == *old(descriptor) && final(tree)@ == old(tree)@
                && final(phys)@ == old(phys)@
        },
        r is Ok ==> {
            let size = old(layer2).bsize();
            &&& describes_packed(
                final(layer2).blocks(),
                *final(descriptor),
                final(tree)@,
                final(phys)@,
                size,
                unit as nat,
                fan_out as nat,
                old(layer2).iwidth(),
            )
            &&& final(descriptor).size == old(descriptor).size
            &&& final(descriptor).flags == old(descriptor).flags
            &&& final(descriptor).reserved == (if n_bytes <= old(descriptor).reserved {
                old(descriptor).reserved as nat
            } else {
                ceil_div(n_bytes as nat, unit as nat) * unit as nat
            })
            &&& unpacked_content(
                final(layer2).blocks(),
                final(tree)@,
                final(phys)@,
                size,
                unit as nat,
            ) == padded(
                unpacked_content(
                    old(layer2).blocks(),
                    old(tree)@,
                    old(phys)@,
                    size,
                    unit as nat,
                ),
                n_bytes as nat,
                unit as nat,
            )
            &&& swapped(
                old(layer2).blocks(),
                final(layer2).blocks(),
                old(tree)@,
                old(phys)@,
                final(tree)@,
                final(phys)@,
            )
        },
{
    let ghost f = fan_out as nat;
    let ghost w = layer2.iwidth();
    let ghost size = layer2.bsize();
    let ghost u = unit as nat;
    let ghost b0 = layer2.blocks();
    let ghost lv0 = tree@;
    let ghost ph0 = phys@;
    proof {
        layer2.lemma_wf();
    }
    if n_bytes < descriptor.size {
        let text: String = text_num("cannot reserve ", n_bytes, " bytes: stream size is already ");
        return Err(SfsError::IoError(text_num(text.as_str(), descriptor.size, "")));
    }
    if n_bytes <= descriptor.reserved {
        proof {
            lemma_swapped_refl(b0, lv0, ph0);
        }
        return Ok(());
    }
    let target: u64 = data_blocks_needed(n_bytes, unit);
    let current: u64 = data_blocks_needed(descriptor.reserved, unit);
    proof {
        lemma_ceil_exact(leaves(lv0).len(), u);
        lemma_ceil_covers(n_bytes as nat, u);
        assert(current < target) by {
            lemma_ceil_monotone((descriptor.reserved + 1) as nat, n_bytes as nat, u);
            lemma_position(current as int, 0, u as int);
        }
    }
    let reserved: u64 = match target.checked_mul(unit as u64) {
        Some(reserved) => reserved,
        None => {
            return Err(SfsError::IoError(text_num("cannot reserve ", n_bytes, " bytes")));
        },
    };
    let top_block: u64 = descriptor.top_block;
    match extend_pyramid(layer2, top_block, current, target, fan_out, cache, tree) {
        Ok((top, added)) => {
            descriptor.top_block = top;
            descriptor.reserved = reserved;
            proof {
                let b1 = layer2.blocks();
                lemma_pieces_extended(b0, b1, lv0, tree@, ph0, added@, size, w, u);
                let had = old(descriptor).reserved as int;
                assert(added@.len() * u == reserved - had) by (nonlinear_arith)
                    requires
                        added@.len() == target - current,
                        reserved == target * u,
                        had == current * u,
                ;
                lemma_level_count(target as nat, f, 0);
                *phys = Ghost(ph0 + no_pieces(added@.len()));
            }
            Ok(())
        },
        Err(e) => Err(e),
    }
}

pub proof fn lemma_swapped_refl(b: Map<u64, Seq<u8>>, lv: Seq<Seq<u64>>, ph: Seq<Seq<u64>>)
    requires
        held(b, lv),
        held(b, ph),
    ensures
        swapped(b, b, lv, ph, lv, ph),
{
    assert forall|x: u64| #[trigger] has_any(lv, ph, x) implies b.contains_key(x) by {
        if has_block(lv, x) {
            let (l, i) = choose|l: int, i: int| is_place(lv, l, i) && #[trigger] lv[l][i] == x;
            assert(b.contains_key(lv[l][i]));
        } else {
            let (l, i) = choose|l: int, i: int| is_place(ph, l, i) && #[trigger] ph[l][i] == x;
            assert(b.contains_key(ph[l][i]));
        }
    }
}

/// Two changes of a compressed stream, one after the other.
pub proof fn lemma_swapped_twice(
    b0: Map<u64, Seq<u8>>,
    b1: Map<u64, Seq<u8>>,
    b2: Map<u64, Seq<u8>>,
    lv0: Seq<Seq<u64>>,
    ph0: Seq<Seq<u64>>,
    lv1: Seq<Seq<u64>>,
    ph1: Seq<Seq<u64>>,
    lv2: Seq<Seq<u64>>,
    ph2: Seq<Seq<u64>>,
)
    requires
        swapped(b0, b1, lv0, ph0, lv1, ph1),
        swapped(b1, b2, lv1, ph1, lv2, ph2),
    ensures
        swapped(b0, b2, lv0, ph0, lv2, ph2),
{
    assert forall|b: u64| #[trigger] b2.contains_key(b) <==> (b0.contains_key(b) && !has_any(
        lv0,
        ph0,
        b,
    )) || has_any(lv2, ph2, b) by {
        assert(b1.contains_key(b) || !b1.contains_key(b));
        assert(has_any(lv1, ph1, b) || !has_any(lv1, ph1, b));
    }
    assert forall|b: u64|
        #![trigger has_any(lv2, ph2, b)]
        #![trigger b2[b]]
        b0.contains_key(b) && !has_any(lv0, ph0, b) implies !has_any(lv2, ph2, b) && b2[b] == b0[b] by {
        assert(!has_any(lv1, ph1, b));
        assert(b1[b] == b0[b]);
        assert(b1.contains_key(b));
    }
}

/// `c` with zeros from position `from` up to position `to`.
pub open spec fn wiped(c: Seq<u8>, from: int, to: int) -> Seq<u8> {
    Seq::new(
        c.len(),
        |p: int|
            if from <= p < to {
                0u8
            } else {
                c[p]
            },
    )
}

/// One piece stored anew, in a compressed stream.
proof fn lemma_piece_stored(
    b1: Map<u64, Seq<u8>>,
    b2: Map<u64, Seq<u8>>,
    lv: Seq<Seq<u64>>,
    ph1: Seq<Seq<u64>>,
    idx: int,
    qs: Seq<u64>,
    data: Seq<u8>,
    n: nat,
    f: nat,
    w: nat,
    size: nat,
    unit: nat,
)
    requires
        size >= 4,
        unit >= 1,
        lv.len() >= 1,
        is_pyramid(b1, lv, n, f, w),
        pieces_ok(b1, lv, ph1, size, w, unit),
        0 <= idx < ph1.len(),
        restored(b1, b2, lv[0][idx], ph1[idx], qs),
        redir_ok(b2[lv[0][idx]], qs, size, w),
        packed_len(b2[lv[0][idx]]) > 0,
        unpacks_to(packed_bytes(b2, lv[0][idx], qs, size), data),
        data.len() <= unit,
    ensures
        is_pyramid(b2, lv, n, f, w),
        pieces_ok(b2, lv, ph1.update(idx, qs), size, w, unit),
        swapped(b1, b2, lv, ph1, lv, ph1.update(idx, qs)),
        unpacked_content(b2, lv, ph1.update(idx, qs), size, unit).len() == ph1.len() * unit,
        forall|p: int|
            0 <= p < ph1.len() * unit ==> #[trigger] unpacked_content(
                b2,
                lv,
                ph1.update(idx, qs),
                size,
                unit,
            )[p] == (if p / unit as int == idx {
                zero_filled(data, unit)[p % unit as int]
            } else {
                unpacked_content(b1, lv, ph1, size, unit)[p]
            }),
        forall|l: int, i: int|
            1 <= l && is_place(lv, l, i) ==> b2[#[trigger] lv[l][i]] == b1[lv[l][i]],
{
    let ps = ph1[idx];
    let redir = lv[0][idx];
    let ph2 = ph1.update(idx, qs);
    assert(is_place(lv, 0, idx));
    assert(b1.contains_key(lv[0][idx]));
    // What stands at another place than the stored piece keeps its bytes.
    assert forall|l: int, i: int| is_place(lv, l, i) implies b2.contains_key(#[trigger] lv[l][i])
        && !qs.contains(lv[l][i]) && (lv[l][i] != redir ==> b2[lv[l][i]] == b1[lv[l][i]]) by {
        let b = lv[l][i];
        assert(b1.contains_key(b));
        if ps.contains(b) {
            let j = choose|j: int| 0 <= j < ps.len() && ps[j] == b;
            assert(is_place(ph1, idx, j) && ph1[idx][j] == b);
            assert(has_block(lv, b));
        }
        assert(!qs.contains(b));
    }
    assert forall|l: int, i: int| 1 <= l && is_place(lv, l, i) implies b2[#[trigger] lv[l][i]]
        == b1[lv[l][i]] by {
        assert(lv[l][i] != lv[0][idx]);
    }
    lemma_tree_frame(b1, b2, lv, f, w);
    assert forall|i: int, j: int| is_place(ph1, i, j) && i != idx implies b2.contains_key(
        #[trigger] ph1[i][j],
    ) && !qs.contains(ph1[i][j]) && b2[ph1[i][j]] == b1[ph1[i][j]] by {
        let b = ph1[i][j];
        assert(b1.contains_key(b));
        if ps.contains(b) {
            let k = choose|k: int| 0 <= k < ps.len() && ps[k] == b;
            assert(is_place(ph1, idx, k) && ph1[idx][k] == ph1[i][j]);
            assert(false);
        }
        assert(!qs.contains(b));
        assert(b != redir) by {
            assert(!has_block(lv, ph1[i][j]));
        }
    }
    assert forall|k: int| 0 <= k < qs.len() implies b2.contains_key(#[trigger] qs[k]) && !has_block(
        lv,
        qs[k],
    ) by {
        let b = qs[k];
        assert(qs.contains(b));
        if has_block(lv, b) {
            let (l, i) = choose|l: int, i: int| is_place(lv, l, i) && #[trigger] lv[l][i] == b;
            assert(!qs.contains(lv[l][i]));
        }
    }
    assert(held(b2, ph2)) by {
        assert forall|i: int, j: int| is_place(ph2, i, j) implies b2.contains_key(
            #[trigger] ph2[i][j],
        ) by {
            if i == idx {
                assert(ph2[i][j] == qs[j]);
            } else {
                assert(is_place(ph1, i, j) && ph2[i][j] == ph1[i][j]);
            }
        }
    }
    assert forall|i: int, j: int| is_place(ph2, i, j) implies !has_block(lv, #[trigger] ph2[i][j]) by {
        if i == idx {
            assert(ph2[i][j] == qs[j]);
        } else {
            assert(is_place(ph1, i, j) && ph2[i][j] == ph1[i][j]);
        }
    }
    assert(distinct(ph2)) by {
        assert forall|l: int, i: int, m: int, j: int|
            #![trigger ph2[l][i], ph2[m][j]]
            is_place(ph2, l, i) && is_place(ph2, m, j) && ph2[l][i] == ph2[m][j] implies l == m && i
            == j by {
            if l != idx {
                assert(is_place(ph1, l, i) && ph2[l][i] == ph1[l][i]);
            } else {
                assert(ph2[l][i] == qs[i] && qs.contains(qs[i]));
            }
            if m != idx {
                assert(is_place(ph1, m, j) && ph2[m][j] == ph1[m][j]);
            } else {
                assert(ph2[m][j] == qs[j] && qs.contains(qs[j]));
            }
        }
    }
    assert forall|i: int| 0 <= i < ph2.len() implies #[trigger] piece_ok(
        b2,
        lv[0][i],
        ph2[i],
        size,
        w,
        unit,
    ) && piece(b2, lv[0][i], ph2[i], size, unit) == (if i == idx {
        zero_filled(data, unit)
    } else {
        piece(b1, lv[0][i], ph1[i], size, unit)
    }) by {
        if i != idx {
            assert(piece_ok(b1, leaves(lv)[i], ph1[i], size, w, unit));
            assert(is_place(lv, 0, i));
            assert(lv[0][i] != redir);
            assert forall|j: int| 0 <= j < ph1[i].len() implies b2[#[trigger] ph1[i][j]]
                == b1[ph1[i][j]] by {
                assert(is_place(ph1, i, j));
            }
            lemma_piece_frame(b1, b2, lv[0][i], ph1[i], size, w, unit);
        }
    }
    let c2 = unpacked_content(b2, lv, ph2, size, unit);
    let c1 = unpacked_content(b1, lv, ph1, size, unit);
    assert forall|p: int| 0 <= p < ph1.len() * unit implies #[trigger] c2[p] == (if p / unit as int
        == idx {
        zero_filled(data, unit)[p % unit as int]
    } else {
        c1[p]
    }) by {
        lemma_position_in_run(p, ph1.len() as int, unit as int);
        let i = p / (unit as int);
        assert(piece_ok(b2, lv[0][i], ph2[i], size, w, unit));
    }
    assert(swapped(b1, b2, lv, ph1, lv, ph2)) by {
        assert forall|b: u64| #[trigger] has_block(ph2, b) implies qs.contains(b) || (has_block(
            ph1,
            b,
        ) && !ps.contains(b)) by {
            let (i, j) = choose|i: int, j: int| is_place(ph2, i, j) && #[trigger] ph2[i][j] == b;
            if i == idx {
                assert(qs[j] == b);
            } else {
                assert(is_place(ph1, i, j) && ph1[i][j] == b);
                if ps.contains(b) {
                    let k = choose|k: int| 0 <= k < ps.len() && ps[k] == b;
                    assert(is_place(ph1, idx, k) && ph1[idx][k] == ph1[i][j]);
                }
            }
        }
        assert forall|b: u64| #[trigger] qs.contains(b) implies has_block(ph2, b) by {
            let j = choose|j: int| 0 <= j < qs.len() && qs[j] == b;
            assert(is_place(ph2, idx, j) && ph2[idx][j] == b);
        }
        assert forall|b: u64| #[trigger] ps.contains(b) implies has_block(ph1, b) by {
            let j = choose|j: int| 0 <= j < ps.len() && ps[j] == b;
            assert(is_place(ph1, idx, j) && ph1[idx][j] == b);
        }
        assert forall|b: u64| #[trigger] has_block(ph1, b) && !ps.contains(b) implies has_block(
            ph2,
            b,
        ) by {
            let (i, j) = choose|i: int, j: int| is_place(ph1, i, j) && #[trigger] ph1[i][j] == b;
            if i == idx {
                assert(ps[j] == b);
            }
            assert(is_place(ph2, i, j) && ph2[i][j] == b);
        }
        assert forall|b: u64| #[trigger] has_any(lv, ph1, b) implies b1.contains_key(b) by {
            if has_block(lv, b) {
                let (l, i) = choose|l: int, i: int| is_place(lv, l, i) && #[trigger] lv[l][i] == b;
                assert(b1.contains_key(lv[l][i]));
            } else {
                let (l, i) = choose|l: int, i: int|
                    is_place(ph1, l, i) && #[trigger] ph1[l][i] == b;
                assert(b1.contains_key(ph1[l][i]));
            }
        }
        assert forall|b: u64| #[trigger] has_block(lv, b) implies !ps.contains(b) && !qs.contains(b) by {
            let (l, i) = choose|l: int, i: int| is_place(lv, l, i) && #[trigger] lv[l][i] == b;
            assert(!qs.contains(lv[l][i]));
            if ps.contains(b) {
                let j = choose|j: int| 0 <= j < ps.len() && ps[j] == b;
                assert(is_place(ph1, idx, j) && ph1[idx][j] == b);
            }
        }
        assert forall|b: u64| #[trigger] b2.contains_key(b) <==> (b1.contains_key(b) && !has_any(
            lv,
            ph1,
            b,
        )) || has_any(lv, ph2, b) by {
            assert(has_any(lv, ph1, b) || !has_any(lv, ph1, b));
            assert(has_block(ph2, b) || !has_block(ph2, b));
            assert(has_block(ph1, b) || !has_block(ph1, b));
            assert(ps.contains(b) || !ps.contains(b));
            assert(qs.contains(b) || !qs.contains(b));
            assert(has_block(lv, b) || !has_block(lv, b));
        }
        assert forall|b: u64|
            #![trigger has_any(lv, ph2, b)]
            #![trigger b2[b]]
            b1.contains_key(b) && !has_any(lv, ph1, b) implies !has_any(lv, ph2, b) && b2[b]
            == b1[b] by {
            assert(!ps.contains(b));
            assert(!qs.contains(b));
            assert(!has_block(ph2, b));
            assert(b != redir) by {
                assert(is_place(lv, 0, idx) && lv[0][idx] == redir);
            }
        }
    }
}

/// The bytes of a stream after the first `k` bytes of `buf` were written at
/// `pos`, piece by piece. Where a piece ends behind the end of the stream, its
/// bytes there are zero.
spec fn written_so_far(
    c: Seq<u8>,
    pos: int,
    buf: Seq<u8>,
    k: int,
    stream_end: int,
    unit: nat,
) -> Seq<u8> {
    if k == 0 {
        c
    } else {
        overlay(
            wiped(c, stream_end, (ceil_div((pos + k) as nat, unit) * unit) as int),
            pos,
            buf.take(k),
        )
    }
}

/// One more piece written.
proof fn lemma_written_step(
    c: Seq<u8>,
    c1: Seq<u8>,
    c2: Seq<u8>,
    pos: int,
    buf: Seq<u8>,
    k: int,
    chunk: int,
    stream_end: int,
    unit: nat,
    idx: int,
    off: int,
    extent: int,
    old_piece: Seq<u8>,
    new_piece: Seq<u8>,
)
    requires
        unit >= 1,
        0 <= pos,
        0 <= k,
        1 <= chunk,
        k + chunk <= buf.len(),
        pos + buf.len() <= stream_end <= c.len(),
        pos + buf.len() <= c.len(),
        0 <= idx,
        0 <= off,
        off + chunk <= unit,
        off + chunk == unit || k + chunk == buf.len(),
        pos + k == idx * unit + off,
        idx * unit + unit <= c.len(),
        extent == (if idx * unit + unit <= stream_end {
            unit as int
        } else {
            stream_end - idx * unit
        }),
        k > 0 ==> off == 0,
        old_piece.len() == unit,
        new_piece == overlay(old_piece, off, buf.subrange(k, k + chunk)),
        c1 == written_so_far(c, pos, buf, k, stream_end, unit),
        c2.len() == c.len(),
        forall|q: int| 0 <= q < unit ==> #[trigger] old_piece[q] == c1[idx * unit + q],
        forall|p: int|
            0 <= p < c.len() ==> #[trigger] c2[p] == (if p / unit as int == idx {
                zero_filled(new_piece.take(extent), unit)[p % unit as int]
            } else {
                c1[p]
            }),
    ensures
        c2 == written_so_far(c, pos, buf, k + chunk, stream_end, unit),
{
    let goal = written_so_far(c, pos, buf, k + chunk, stream_end, unit);
    // The pieces touched end with piece `idx`; before it the stream goes on.
    lemma_mul_div(idx, off + chunk - 1, unit as int);
    assert(ceil_div((pos + k + chunk) as nat, unit) == idx + 1);
    let end = (idx + 1) * unit;
    assert(end == idx * unit + unit) by (nonlinear_arith)
        requires
            end == (idx + 1) * unit,
    ;
    if k > 0 {
        // `pos + k` is the start of the piece.
        assert(ceil_div((pos + k) as nat, unit) == idx) by {
            assert(pos + k == idx * unit);
            lemma_ceil_exact(idx as nat, unit);
        }
    }
    assert forall|p: int| 0 <= p < c.len() implies c2[p] == goal[p] by {
        lemma_position_in_run(p, c.len() as int, 1);
        lemma_div_mod(p, unit as int);
        let i = p / (unit as int);
        let q = p % (unit as int);
        if i == idx {
            assert(p == idx * unit + q);
            assert(old_piece[q] == c1[idx * unit + q]);
            if q < extent {
                assert(zero_filled(new_piece.take(extent), unit)[q] == new_piece[q]);
                if off <= q < off + chunk {
                    assert(new_piece[q] == buf[k + q - off]);
                }
            }
        } else if i < idx {
            assert(p < idx * unit) by {
                assert((i + 1) * unit <= idx * unit) by (nonlinear_arith)
                    requires
                        i + 1 <= idx,
                        unit >= 1,
                ;
                assert((i + 1) * unit == i * unit + unit) by (nonlinear_arith);
            }
        } else {
            assert(p >= idx * unit + unit) by {
                assert(i * unit >= (idx + 1) * unit) by (nonlinear_arith)
                    requires
                        i >= idx + 1,
                        unit >= 1,
                ;
            }
        }
    }
    assert(c2 =~= goal);
}

/// Writes bytes to a compressed stream from `pos` on, with more capacity where
/// it needs some. Every piece that the bytes fall into is unpacked, changed
/// and packed again.
pub(crate) fn pyramid_write_compressed<L2: BlockLayer>(
    layer2: &mut L2,
    descriptor: &mut StreamDescriptor,
    pos: u64,
    buf: &[u8],
    unit: usize,
    fan_out: u64,
    cache: CacheMode,
    tree: &mut Ghost<Seq<Seq<u64>>>,
    phys: &mut Ghost<Seq<Seq<u64>>>,
) -> (r: Result<usize, SfsError>)
    requires
        fan_ok(*old(layer2), fan_out),
        1 <= unit <= 0x4000_0000,
        describes_packed(
            old(layer2).blocks(),
            *old(descriptor),
            old(tree)@,
            old(phys)@,
            old(layer2).bsize(),
            unit as nat,
            fan_out as nat,
            old(layer2).iwidth(),
        ),
        pos + buf@.len() <= u64::MAX,
    ensures
        final(layer2).bsize() == old(layer2).bsize(),
        final(layer2).iwidth() == old(layer2).iwidth(),
        final(layer2).faults() >= old(layer2).faults(),
        r is Ok ==> final(layer2).faults() == old(layer2).faults(),
        final(layer2).faults() == old(layer2).faults() && r is Err ==> {
            &&& r->Err_0 is IoError
            &&& buf@.len() > 0
            &&& too_large(
                old(descriptor).reserved as nat,
                (pos + buf@.len()) as nat,
                unit as nat,
            ) || !piece_fits(unit as nat, old(layer2).bsize(), old(layer2).iwidth())
        },
        final(layer2).faults() == old(layer2).faults() && buf@.len() > 0 && too_large(
            old(descriptor).reserved as nat,
            (pos + buf@.len()) as nat,
            unit as nat,
        ) ==> {
            &&& r is Err
            &&& same_store(*old(layer2), *final(layer2))
            &&& *final(descriptor) == *old(descriptor)
            &&& final(tree)@ == old(tree)@
            &&& final(phys)@ == old(phys)@
        },
        r matches Ok(n) ==> {
            let size = old(layer2).bsize();
            let u = unit as nat;
            let end = (pos + buf@.len()) as nat;
            &&& n == buf@.len()
            &&& same_make(*old(layer2), *final(layer2))
            &&& describes_packed(
                final(layer2).blocks(),
                *final(descriptor),
                final(tree)@,
                final(phys)@,
                size,
                u,
                fan_out as nat,
                old(layer2).iwidth(),
            )
            &&& final(descriptor).flags == old(descriptor).flags
            &&& swapped(
                old(layer2).blocks(),
                final(layer2).blocks(),
                old(tree)@,
                old(phys)@,
                final(tree)@,
                final(phys)@,
            )
            &&& buf@.len() == 0 ==> {
                &&& *final(descriptor) == *old(descriptor)
                &&& final(tree)@ == old(tree)@
                &&& final(phys)@ == old(phys)@
                &&& final(layer2).blocks() == old(layer2).blocks()
            }
            &&& buf@.len() > 0 ==> {
                &&& final(descriptor).size == (if end > old(descriptor).size {
                    end
                } else {
                    old(descriptor).size as nat
                })
                &&& unpacked_content(
                    final(layer2).blocks(),
                    final(tree)@,
                    final(phys)@,
                    size,
                    u,
                ) == overlay(
                    wiped(
                        padded(
                            unpacked_content(
                                old(layer2).blocks(),
                                old(tree)@,
                                old(phys)@,
                                size,
                                u,
                            ),
                            end,
                            u,
                        ),
                        final(descriptor).size as int,
                        (ceil_div(end, u) * u) as int,
                    ),
                    pos as int,
                    buf@,
                )
            }
        },
{
    let ghost f = fan_out as nat;
    let ghost w = layer2.iwidth();
    let ghost size = layer2.bsize();
    let ghost u = unit as nat;
    let ghost b0 = layer2.blocks();
    let ghost lv0 = tree@;
    let ghost ph0 = phys@;
    let ghost c0 = unpacked_content(b0, lv0, ph0, size, u);
    proof {
        layer2.lemma_wf();
        lemma_ceil_exact(leaves(lv0).len(), u);
    }
    if buf.len() == 0 {
        proof {
            lemma_swapped_refl(b0, lv0, ph0);
        }
        return Ok(0);
    }
    let total: usize = buf.len();
    let end_pos: u64 = pos + total as u64;
    let old_size: u64 = descriptor.size;
    let stream_end: u64 = if end_pos > old_size {
        end_pos
    } else {
        old_size
    };
    match pyramid_reserve_compressed(
        layer2,
        descriptor,
        stream_end,
        unit,
        fan_out,
        cache,
        tree,
        phys,
    ) {
        Ok(_) => {},
        Err(e) => {
            return Err(e);
        },
    }
    let ghost lv = tree@;
    let ghost br = layer2.blocks();
    let ghost phr = phys@;
    let ghost cr = unpacked_content(br, lv, phr, size, u);
    let num_pieces: u64 = data_blocks_needed(descriptor.reserved, unit);
    let depth: u32 = pyramid_depth(num_pieces, fan_out);
    let ghost n = num_pieces as nat;
    proof {
        lemma_ceil_exact(leaves(lv).len(), u);
        lemma_ceil_covers(stream_end as nat, u);
        assert(lv.len() > 0);
        lemma_depth_unique(n, f, depth as nat, (lv.len() - 1) as nat);
        lemma_level_count(n, f, 0);
        assert(padded(c0, stream_end as nat, u) == padded(c0, end_pos as nat, u));
        assert(padded(c0, stream_end as nat, u) == cr);
    }
    let mut leaf_cache: LeafCache = LeafCache {
        valid: false,
        leaf: 0,
        buf: vec![0u8; layer2.block_size()],
    };
    let top_block: u64 = descriptor.top_block;
    let mut bytes_written: usize = 0;
    while bytes_written < total
        invariant
            fan_ok(*layer2, fan_out),
            same_make(*old(layer2), *layer2),
            layer2.faults() == old(layer2).faults(),
            f == fan_out,
            w == layer2.iwidth(),
            size == layer2.bsize(),
            unit == u,
            1 <= unit <= 0x4000_0000,
            b0 == old(layer2).blocks(),
            lv0 == old(tree)@,
            ph0 == old(phys)@,
            tree@ == lv,
            cr.len() == n * u,
            n == num_pieces,
            lv.len() == depth + 1,
            leaves(lv) == lv[0],
            lv[0].len() == n,
            is_pyramid(layer2.blocks(), lv, n, f, w),
            is_depth(n, f, depth as nat),
            pieces_ok(layer2.blocks(), lv, phys@, size, w, u),
            swapped(b0, layer2.blocks(), lv0, ph0, lv, phys@),
            top_block == lv[depth as int][0],
            descriptor.reserved == n * u,
            leaf_ok(leaf_cache, layer2.blocks(), lv, size),
            total == buf@.len(),
            total > 0,
            bytes_written <= total,
            end_pos == pos + total,
            stream_end == (if end_pos > old_size {
                end_pos
            } else {
                old_size
            }),
            stream_end <= descriptor.reserved,
            !too_large(
                old(descriptor).reserved as nat,
                end_pos as nat,
                u,
            ),
            bytes_written < total && bytes_written > 0 ==> (pos + bytes_written) % u as int == 0,
            unpacked_content(layer2.blocks(), lv, phys@, size, u) == written_so_far(
                cr,
                pos as int,
                buf@,
                bytes_written as int,
                stream_end as int,
                u,
            ),
        decreases total - bytes_written,
    {
        let current: u64 = pos + bytes_written as u64;
        let idx: u64 = current / (unit as u64);
        let off: usize = (current % (unit as u64)) as usize;
        let ghost b1 = layer2.blocks();
        let ghost ph1 = phys@;
        let ghost c1 = unpacked_content(b1, lv, ph1, size, u);
        proof {
            layer2.lemma_wf();
            lemma_position_in_run(current as int, n as int, u as int);
            lemma_div_mod(current as int, u as int);
            assert(idx * u + u <= n * u) by (nonlinear_arith)
                requires
                    idx + 1 <= n,
            ;
        }
        let (redir_block, _run) = match find_run(
            layer2,
            top_block,
            idx,
            num_pieces,
            depth,
            fan_out,
            cache,
            &mut leaf_cache,
            Ghost(lv),
        ) {
            Ok(found) => found,
            Err(e) => {
                return Err(e);
            },
        };
        proof {
            assert(lv[0][idx + 0] == redir_block);
            assert(is_place(lv, 0, idx as int));
            assert(b1.contains_key(lv[0][idx as int]));
            assert(piece_ok(b1, leaves(lv)[idx as int], ph1[idx as int], size, w, u));
            assert forall|j: int| 0 <= j < ph1[idx as int].len() implies b1.contains_key(
                #[trigger] ph1[idx as int][j],
            ) by {
                assert(is_place(ph1, idx as int, j));
            }
        }
        let old_redir: CompRedir = match read_comp_redir(
            layer2,
            redir_block,
            cache,
            Ghost(ph1[idx as int]),
        ) {
            Ok(redir) => redir,
            Err(e) => {
                return Err(e);
            },
        };
        let mut piece_buf: Vec<u8> = match decompress_cblock(layer2, &old_redir, unit, cache) {
            Ok(unpacked) => unpacked,
            Err(e) => {
                return Err(e);
            },
        };
        let ghost old_piece = piece_buf@;
        let left: usize = total - bytes_written;
        let chunk: usize = if left < unit - off {
            left
        } else {
            unit - off
        };
        let part: Vec<u8> = copy_range(buf, bytes_written, bytes_written + chunk);
        copy_into(piece_buf.as_mut_slice(), off, part.as_slice());
        let piece_start: u64 = idx * (unit as u64);
        let extent: usize = if piece_start + unit as u64 <= stream_end {
            unit
        } else {
            (stream_end - piece_start) as usize
        };
        let data: Vec<u8> = copy_range(piece_buf.as_slice(), 0, extent);
        proof {
            assert(data@ =~= piece_buf@.take(extent as int));
            let ps = ph1[idx as int];
            assert(ps.no_duplicates()) by {
                assert forall|x: int, y: int|
                    0 <= x < ps.len() && 0 <= y < ps.len() && x != y implies ps[x] != ps[y] by {
                    assert(is_place(ph1, idx as int, x) && is_place(ph1, idx as int, y));
                    assert(ph1[idx as int][x] != ph1[idx as int][y]);
                }
            }
            if ps.contains(redir_block) {
                let j = choose|j: int| 0 <= j < ps.len() && ps[j] == redir_block;
                assert(is_place(ph1, idx as int, j));
                assert(!has_block(lv, ph1[idx as int][j]));
                assert(has_block(lv, redir_block));
                assert(false);
            }
        }
        proof {
            if piece_fits(u, size, w) {
                lemma_piece_fits(data@.len(), u, size, w);
            }
        }
        match store_cblock(layer2, redir_block, &old_redir, data.as_slice(), cache) {
            Ok(stored) => {
                proof {
                    let b2 = layer2.blocks();
                    let qs = stored@;
                    lemma_piece_stored(
                        b1,
                        b2,
                        lv,
                        ph1,
                        idx as int,
                        qs,
                        data@,
                        n,
                        f,
                        w,
                        size,
                        u,
                    );
                    let ph2 = ph1.update(idx as int, qs);
                    lemma_swapped_twice(b0, b1, b2, lv0, ph0, lv, ph1, lv, ph2);
                    if leaf_cache.valid {
                        assert(is_place(lv, 1, leaf_cache.leaf as int));
                        assert(b2[lv[1][leaf_cache.leaf as int]] == b1[lv[1][leaf_cache.leaf as int]]);
                    }
                    assert forall|q: int| 0 <= q < u implies #[trigger] old_piece[q] == c1[idx * u
                        + q] by {
                        lemma_unpacked_at(b1, lv, ph1, size, u, idx as int, q);
                    }
                    lemma_written_step(
                        cr,
                        c1,
                        unpacked_content(b2, lv, ph2, size, u),
                        pos as int,
                        buf@,
                        bytes_written as int,
                        chunk as int,
                        stream_end as int,
                        u,
                        idx as int,
                        off as int,
                        extent as int,
                        old_piece,
                        piece_buf@,
                    );
                    if bytes_written + chunk < total {
                        assert(off + chunk == unit);
                        assert((idx + 1) * u == idx * u + u) by (nonlinear_arith);
                        lemma_mul_div(idx + 1, 0, u as int);
                    }
                    *phys = Ghost(ph2);
                }
            },
            Err(e) => {
                return Err(e);
            },
        }
        bytes_written = bytes_written + chunk;
    }
    descriptor.size = stream_end;
    proof {
        assert(buf@.take(total as int) =~= buf@);
    }
    Ok(bytes_written)
}

} // verus!
