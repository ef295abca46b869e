//! Cutting and removing compressed streams.

use crate::block_layer::{same_make, same_store, BlockLayer};
use crate::compressed::{piece, piece_ok, read_comp_redir, CompRedir};
use crate::compressed_stream::{
    describes_packed, has_any, lemma_piece_frame, lemma_swapped_refl, pieces_ok, swapped,
    unpacked_content,
};
use crate::descriptor::StreamDescriptor;
use crate::plain::lemma_position_in_run;
use crate::pyramid::{
    ceil_div, distinct, has_block, held, is_depth, is_place, is_pyramid, is_redirector,
    lemma_depth_unique, lemma_level_count, lemma_powf_one, lemma_shrunk_place, lemma_shrunk_refl,
    lemma_shrunk_twice, lemma_tree_frame, powf, shrunk,
};
use crate::pyramid_io::{data_blocks_needed, fan_ok, pyramid_depth};
use crate::pyramid_shrink::unlink_last_leaf;
use crate::stream_layer::cut_len;
use crate::stream_tree::{
    collapse_depth, collect_tree_blocks_for_dealloc, flat, leaves, leaves_from, lemma_ceil_covers,
    lemma_ceil_exact, lemma_ceil_monotone, lemma_depth_monotone, lemma_flat_contains,
    lemma_flat_no_duplicates, lemma_leaf_not_redirector, lemma_not_redirector,
};
use crate::types::{CacheMode, SfsError};
use vstd::prelude::*;

verus! {

/// Gives back all blocks of a compressed stream: the pyramid and the blocks of
/// the pieces.
pub(crate) fn deallocate_compressed_tree<L2: BlockLayer>(
    layer2: &mut L2,
    top_block: u64,
    depth: u32,
    fan_out: u64,
    cache: CacheMode,
    Ghost(levels): Ghost<Seq<Seq<u64>>>,
    Ghost(phys): Ghost<Seq<Seq<u64>>>,
    Ghost(unit): Ghost<nat>,
) -> (r: Result<(), SfsError>)
    requires
        fan_ok(*old(layer2), fan_out),
        levels.len() == depth + 1,
        is_pyramid(
            old(layer2).blocks(),
            levels,
            levels[0].len(),
            fan_out as nat,
            old(layer2).iwidth(),
        ),
        top_block == levels[depth as int][0],
        pieces_ok(
            old(layer2).blocks(),
            levels,
            phys,
            old(layer2).bsize(),
            old(layer2).iwidth(),
            unit,
        ),
    ensures
        final(layer2).bsize() == old(layer2).bsize(),
        final(layer2).iwidth() == old(layer2).iwidth(),
        final(layer2).faults() >= old(layer2).faults(),
        (r is Ok) == (final(layer2).faults() == old(layer2).faults()),
        r is Ok ==> {
            &&& same_make(*old(layer2), *final(layer2))
            &&& swapped(
                old(layer2).blocks(),
                final(layer2).blocks(),
                levels,
                phys,
                Seq::<Seq<u64>>::empty(),
                Seq::<Seq<u64>>::empty(),
            )
        },
{
    let ghost b0 = layer2.blocks();
    let ghost n = levels[0].len();
    let ghost size = layer2.bsize();
    let ghost w = layer2.iwidth();
    let (mut blocks, mut bottom) = match collect_tree_blocks_for_dealloc(
        layer2,
        top_block,
        depth,
        fan_out,
        cache,
        Ghost(levels),
        Ghost(n),
    ) {
        Ok(found) => found,
        Err(e) => {
            return Err(e);
        },
    };
    let mut extra: Vec<u64> = Vec::new();
    let mut i: usize = bottom.len();
    proof {
        assert(phys.take(i as int) =~= phys);
        assert(extra@ + flat(phys.take(i as int)) =~= flat(phys));
    }
    while i > 0
        invariant
            layer2.wf(),
            same_store(*old(layer2), *layer2),
            layer2.faults() == old(layer2).faults(),
            b0 == layer2.blocks(),
            size == layer2.bsize(),
            w == layer2.iwidth(),
            levels.len() >= 1,
            bottom@ == levels[0],
            leaves(levels) == levels[0],
            held(b0, levels),
            pieces_ok(b0, levels, phys, size, w, unit),
            i <= bottom@.len() == phys.len(),
            extra@ + flat(phys.take(i as int)) == flat(phys),
        decreases i,
    {
        i = i - 1;
        proof {
            assert(is_place(levels, 0, i as int));
            assert(b0.contains_key(levels[0][i as int]));
            assert(piece_ok(b0, leaves(levels)[i as int], phys[i as int], size, w, unit));
        }
        let redir: CompRedir = match read_comp_redir(
            layer2,
            bottom[i],
            cache,
            Ghost(phys[i as int]),
        ) {
            Ok(redir) => redir,
            Err(e) => {
                return Err(e);
            },
        };
        let ghost before = extra@;
        let mut row: Vec<u64> = redir.data_blocks;
        extra.append(&mut row);
        proof {
            let part = phys.take(i + 1);
            assert(part.drop_last() =~= phys.take(i as int));
            assert(part.last() == phys[i as int]);
            assert(before + (phys[i as int] + flat(phys.take(i as int))) =~= extra@ + flat(
                phys.take(i as int),
            ));
        }
    }
    proof {
        assert(phys.take(0) =~= Seq::<Seq<u64>>::empty());
        assert(extra@ + flat(phys.take(0)) =~= extra@);
    }
    blocks.append(&mut bottom);
    blocks.append(&mut extra);
    let ghost all = flat(levels) + flat(phys);
    proof {
        assert(blocks@ =~= all);
        lemma_flat_no_duplicates(levels);
        lemma_flat_no_duplicates(phys);
        assert forall|b: u64| #[trigger] flat(levels).contains(b) == has_block(levels, b) by {
            lemma_flat_contains(levels, b);
        }
        assert forall|b: u64| #[trigger] flat(phys).contains(b) == has_block(phys, b) by {
            lemma_flat_contains(phys, b);
        }
        assert forall|b: u64| #[trigger] has_block(phys, b) implies !has_block(levels, b) by {
            let (l, j) = choose|l: int, j: int| is_place(phys, l, j) && #[trigger] phys[l][j] == b;
            assert(!has_block(levels, phys[l][j]));
        }
        assert forall|b: u64| #[trigger] all.contains(b) == has_any(levels, phys, b) by {
            if all.contains(b) {
                let k = choose|k: int| 0 <= k < all.len() && all[k] == b;
                if k < flat(levels).len() {
                    assert(flat(levels)[k] == b);
                    assert(flat(levels).contains(b));
                } else {
                    assert(flat(phys)[k - flat(levels).len()] == b);
                    assert(flat(phys).contains(b));
                }
            }
            if has_block(levels, b) {
                assert(flat(levels).contains(b));
                let k = choose|k: int| 0 <= k < flat(levels).len() && flat(levels)[k] == b;
                assert(all[k] == b);
            }
            if has_block(phys, b) {
                assert(flat(phys).contains(b));
                let k = choose|k: int| 0 <= k < flat(phys).len() && flat(phys)[k] == b;
                assert(all[flat(levels).len() + k] == b);
            }
        }
        assert(all.no_duplicates()) by {
            let t = flat(levels).len() as int;
            assert forall|x: int, y: int|
                0 <= x < all.len() && 0 <= y < all.len() && x != y implies all[x] != all[y] by {
                if x < t && y < t {
                    assert(flat(levels)[x] != flat(levels)[y]);
                } else if x >= t && y >= t {
                    assert(flat(phys)[x - t] != flat(phys)[y - t]);
                } else {
                    let a = if x < t { x } else { y };
                    let c = if x < t { y } else { x };
                    assert(flat(levels).contains(flat(levels)[a]));
                    assert(flat(phys).contains(flat(phys)[c - t]));
                    assert(has_block(levels, all[a]));
                    assert(has_block(phys, all[c]));
                }
            }
        }
        assert forall|k: int| 0 <= k < all.len() implies layer2.blocks().contains_key(
            #[trigger] all[k],
        ) by {
            let b = all[k];
            assert(all.contains(b));
            if has_block(levels, b) {
                let (l, j) = choose|l: int, j: int|
                    is_place(levels, l, j) && #[trigger] levels[l][j] == b;
                assert(b0.contains_key(levels[l][j]));
            } else {
                let (l, j) = choose|l: int, j: int|
                    is_place(phys, l, j) && #[trigger] phys[l][j] == b;
                assert(b0.contains_key(phys[l][j]));
            }
        }
        layer2.lemma_wf();
    }
    let r = layer2.deallocate_blocks(&mut blocks);
    proof {
        if r is Ok {
            let b1 = layer2.blocks();
            let none = Seq::<Seq<u64>>::empty();
            assert forall|b: u64| !#[trigger] has_any(none, none, b) by {}
            assert forall|b: u64| #[trigger] b1.contains_key(b) <==> b0.contains_key(b) && !has_any(
                levels,
                phys,
                b,
            ) by {
                assert(all.contains(b) == has_any(levels, phys, b));
            }
            assert forall|b: u64| b0.contains_key(b) && !has_any(levels, phys, b) implies
                #[trigger] b1[b] == b0[b] by {
                assert(all.contains(b) == has_any(levels, phys, b));
            }
        }
    }
    r
}

/// The blocks of the pieces from number `keep` on.
pub open spec fn rows_from(phys: Seq<Seq<u64>>, keep: int) -> Set<u64> {
    Set::new(
        |b: u64|
            exists|i: int, j: int| keep <= i && is_place(phys, i, j) && #[trigger] phys[i][j] == b,
    )
}

/// Everything that goes with the pieces from number `keep` on.
pub open spec fn pieces_from(levels: Seq<Seq<u64>>, phys: Seq<Seq<u64>>, keep: int) -> Set<u64> {
    leaves_from(levels, keep).union(rows_from(phys, keep))
}

/// A compressed stream that lost its pieces from number `keep` on.
proof fn lemma_shrunk_swapped(
    b0: Map<u64, Seq<u8>>,
    b1: Map<u64, Seq<u8>>,
    lv0: Seq<Seq<u64>>,
    ph0: Seq<Seq<u64>>,
    lv1: Seq<Seq<u64>>,
    keep: int,
    size: nat,
    w: nat,
    unit: nat,
)
    requires
        size >= 1,
        unit >= 1,
        lv1.len() >= 1,
        lv0.len() >= 1,
        held(b0, lv0),
        distinct(lv0),
        pieces_ok(b0, lv0, ph0, size, w, unit),
        0 <= keep <= lv0[0].len(),
        shrunk(b0, b1, lv0, lv1, pieces_from(lv0, ph0, keep)),
        lv1[0] == lv0[0].take(keep),
    ensures
        pieces_ok(b1, lv1, ph0.take(keep), size, w, unit),
        swapped(b0, b1, lv0, ph0, lv1, ph0.take(keep)),
        unpacked_content(b1, lv1, ph0.take(keep), size, unit) == unpacked_content(
            b0,
            lv0,
            ph0,
            size,
            unit,
        ).take(keep * unit),
{
    let ph1 = ph0.take(keep);
    let gone = pieces_from(lv0, ph0, keep);
    // What is gone, and what stays.
    assert forall|b: u64| #[trigger] has_block(ph0, b) implies b0.contains_key(b) && !has_block(
        lv0,
        b,
    ) && !is_redirector(lv0, b) by {
        let (i, j) = choose|i: int, j: int| is_place(ph0, i, j) && #[trigger] ph0[i][j] == b;
        assert(b0.contains_key(ph0[i][j]));
        assert(!has_block(lv0, ph0[i][j]));
        lemma_not_redirector(lv0, b);
    }
    assert forall|i: int, j: int| is_place(ph0, i, j) && i < keep implies !gone.contains(
        #[trigger] ph0[i][j],
    ) && b1.contains_key(ph0[i][j]) && b1[ph0[i][j]] == b0[ph0[i][j]] by {
        let b = ph0[i][j];
        assert(has_block(ph0, b));
        if rows_from(ph0, keep).contains(b) {
            let (x, y) = choose|x: int, y: int|
                keep <= x && is_place(ph0, x, y) && #[trigger] ph0[x][y] == b;
            assert(ph0[x][y] == ph0[i][j]);
        }
        if leaves_from(lv0, keep).contains(b) {
            let x = choose|x: int| keep <= x < lv0[0].len() && #[trigger] lv0[0][x] == b;
            assert(is_place(lv0, 0, x) && has_block(lv0, b));
        }
    }
    assert forall|i: int| 0 <= i < keep implies !gone.contains(#[trigger] lv0[0][i])
        && b1.contains_key(lv0[0][i]) && b1[lv0[0][i]] == b0[lv0[0][i]] by {
        let b = lv0[0][i];
        assert(is_place(lv0, 0, i));
        assert(has_block(lv0, b));
        assert(b0.contains_key(b));
        lemma_leaf_not_redirector(lv0, i);
        if leaves_from(lv0, keep).contains(b) {
            let x = choose|x: int| keep <= x < lv0[0].len() && #[trigger] lv0[0][x] == b;
            assert(is_place(lv0, 0, x));
            assert(lv0[0][x] == lv0[0][i]);
        }
        if rows_from(ph0, keep).contains(b) {
            let (x, y) = choose|x: int, y: int|
                keep <= x && is_place(ph0, x, y) && #[trigger] ph0[x][y] == b;
            assert(!has_block(lv0, ph0[x][y]));
        }
    }
    assert forall|i: int, j: int| is_place(ph1, i, j) implies is_place(ph0, i, j)
        && #[trigger] ph1[i][j] == ph0[i][j] && i < keep by {
        assert(ph1[i] == ph0[i]);
    }
    assert forall|b: u64| #[trigger] has_block(lv1, b) implies has_block(lv0, b) by {
        let (l, j) = choose|l: int, j: int| is_place(lv1, l, j) && #[trigger] lv1[l][j] == b;
        lemma_shrunk_place(lv0, lv1, l, j);
        assert(lv0[l][j] == b);
    }
    assert(held(b1, ph1)) by {
        assert forall|i: int, j: int| is_place(ph1, i, j) implies b1.contains_key(
            #[trigger] ph1[i][j],
        ) by {
            assert(ph1[i][j] == ph0[i][j]);
        }
    }
    assert(distinct(ph1)) by {
        assert forall|l: int, i: int, m: int, j: int|
            #![trigger ph1[l][i], ph1[m][j]]
            is_place(ph1, l, i) && is_place(ph1, m, j) && ph1[l][i] == ph1[m][j] implies l == m && i
            == j by {
            assert(ph0[l][i] == ph1[l][i] && ph0[m][j] == ph1[m][j]);
        }
    }
    assert forall|i: int, j: int| is_place(ph1, i, j) implies !has_block(lv1, #[trigger] ph1[i][j]) by {
        assert(ph1[i][j] == ph0[i][j]);
        assert(!has_block(lv0, ph0[i][j]));
    }
    assert forall|i: int| 0 <= i < keep implies #[trigger] piece_ok(
        b1,
        lv1[0][i],
        ph1[i],
        size,
        w,
        unit,
    ) && piece(b1, lv1[0][i], ph1[i], size, unit) == piece(b0, lv0[0][i], ph0[i], size, unit) by {
        assert(piece_ok(b0, leaves(lv0)[i], ph0[i], size, w, unit));
        assert(b1[lv0[0][i]] == b0[lv0[0][i]]);
        assert forall|j: int| 0 <= j < ph0[i].len() implies b1[#[trigger] ph0[i][j]]
            == b0[ph0[i][j]] by {
            assert(is_place(ph0, i, j));
        }
        lemma_piece_frame(b0, b1, lv0[0][i], ph0[i], size, w, unit);
        assert(lv1[0][i] == lv0[0][i]);
        assert(ph1[i] == ph0[i]);
    }
    let c1 = unpacked_content(b1, lv1, ph1, size, unit);
    let c0 = unpacked_content(b0, lv0, ph0, size, unit);
    assert(keep * unit <= lv0[0].len() * unit) by (nonlinear_arith)
        requires
            keep <= lv0[0].len(),
            unit >= 1,
    ;
    assert(0 <= keep * unit) by (nonlinear_arith)
        requires
            0 <= keep,
            unit >= 1,
    ;
    assert forall|p: int| 0 <= p < keep * unit implies c1[p] == c0[p] by {
        lemma_position_in_run(p, keep, unit as int);
        let i = p / (unit as int);
        assert(piece_ok(b1, lv1[0][i], ph1[i], size, w, unit));
    }
    assert(c1 =~= c0.take(keep * unit));
    assert(swapped(b0, b1, lv0, ph0, lv1, ph1)) by {
        assert forall|b: u64| #[trigger] has_any(lv1, ph1, b) implies b1.contains_key(b) && has_any(
            lv0,
            ph0,
            b,
        ) by {
            if has_block(ph1, b) {
                let (i, j) = choose|i: int, j: int|
                    is_place(ph1, i, j) && #[trigger] ph1[i][j] == b;
                assert(ph0[i][j] == b);
            } else {
                let (l, j) = choose|l: int, j: int|
                    is_place(lv1, l, j) && #[trigger] lv1[l][j] == b;
                lemma_shrunk_place(lv0, lv1, l, j);
                assert(lv0[l][j] == b);
                if l == 0 {
                    assert(b1.contains_key(lv0[0][j]));
                } else {
                    assert(is_redirector(lv1, b));
                    assert(b0.contains_key(lv0[l][j]));
                    assert(is_redirector(lv0, b));
                    if gone.contains(b) {
                        if leaves_from(lv0, keep).contains(b) {
                            let x = choose|x: int|
                                keep <= x < lv0[0].len() && #[trigger] lv0[0][x] == b;
                            lemma_leaf_not_redirector(lv0, x);
                        } else {
                            let (x, y) = choose|x: int, y: int|
                                keep <= x && is_place(ph0, x, y) && #[trigger] ph0[x][y] == b;
                            assert(has_block(ph0, b));
                        }
                        assert(false);
                    }
                }
            }
        }
        assert forall|b: u64| #[trigger] b1.contains_key(b) <==> (b0.contains_key(b) && !has_any(
            lv0,
            ph0,
            b,
        )) || has_any(lv1, ph1, b) by {
            if b1.contains_key(b) && has_any(lv0, ph0, b) && !has_any(lv1, ph1, b) {
                if has_block(ph0, b) {
                    let (i, j) = choose|i: int, j: int|
                        is_place(ph0, i, j) && #[trigger] ph0[i][j] == b;
                    if i < keep {
                        assert(ph1[i][j] == b && is_place(ph1, i, j));
                    } else {
                        assert(rows_from(ph0, keep).contains(b));
                    }
                } else {
                    let (l, j) = choose|l: int, j: int|
                        is_place(lv0, l, j) && #[trigger] lv0[l][j] == b;
                    if l >= 1 {
                        assert(is_redirector(lv0, b));
                        let (m, k) = choose|m: int, k: int|
                            1 <= m && is_place(lv1, m, k) && #[trigger] lv1[m][k] == b;
                        assert(has_block(lv1, b));
                    } else if j < keep {
                        assert(lv1[0][j] == b && is_place(lv1, 0, j));
                    } else {
                        assert(leaves_from(lv0, keep).contains(b));
                    }
                }
                assert(false);
            }
            if b0.contains_key(b) && !has_any(lv0, ph0, b) {
                lemma_not_redirector(lv0, b);
                if gone.contains(b) {
                    if leaves_from(lv0, keep).contains(b) {
                        let x = choose|x: int|
                            keep <= x < lv0[0].len() && #[trigger] lv0[0][x] == b;
                        assert(is_place(lv0, 0, x) && has_block(lv0, b));
                    } else {
                        let (x, y) = choose|x: int, y: int|
                            keep <= x && is_place(ph0, x, y) && #[trigger] ph0[x][y] == b;
                        assert(has_block(ph0, b));
                    }
                    assert(false);
                }
            }
        }
        assert forall|b: u64| b0.contains_key(b) && !has_any(lv0, ph0, b) implies #[trigger] b1[b]
            == b0[b] by {
            lemma_not_redirector(lv0, b);
            assert(b1.contains_key(b));
        }
    }
}

/// Gives back the pieces from number `keep` on, last one first, with their
/// redirectors and every redirector of the pyramid that becomes empty.
fn deallocate_excess_compressed_blocks<L2: BlockLayer>(
    layer2: &mut L2,
    top_block: u64,
    depth: u32,
    keep: u64,
    total: u64,
    fan_out: u64,
    cache: CacheMode,
    tree: &mut Ghost<Seq<Seq<u64>>>,
    Ghost(phys): Ghost<Seq<Seq<u64>>>,
    Ghost(unit): Ghost<nat>,
) -> (r: Result<(), SfsError>)
    requires
        fan_ok(*old(layer2), fan_out),
        is_pyramid(
            old(layer2).blocks(),
            old(tree)@,
            total as nat,
            fan_out as nat,
            old(layer2).iwidth(),
        ),
        is_depth(total as nat, fan_out as nat, depth as nat),
        old(tree)@.len() == depth + 1,
        top_block == old(tree)@[depth as int][0],
        1 <= keep <= total,
        pieces_ok(
            old(layer2).blocks(),
            old(tree)@,
            phys,
            old(layer2).bsize(),
            old(layer2).iwidth(),
            unit,
        ),
    ensures
        final(layer2).bsize() == old(layer2).bsize(),
        final(layer2).iwidth() == old(layer2).iwidth(),
        final(layer2).faults() >= old(layer2).faults(),
        (r is Ok) == (final(layer2).faults() == old(layer2).faults()),
        r is Ok ==> {
            let lv = final(tree)@;
            &&& same_make(*old(layer2), *final(layer2))
            &&& is_pyramid(
                final(layer2).blocks(),
                lv,
                keep as nat,
                fan_out as nat,
                old(layer2).iwidth(),
            )
            &&& lv.len() == depth + 1
            &&& lv[depth as int][0] == top_block
            &&& lv[0] == old(tree)@[0].take(keep as int)
            &&& shrunk(
                old(layer2).blocks(),
                final(layer2).blocks(),
                old(tree)@,
                lv,
                pieces_from(old(tree)@, phys, keep as int),
            )
        },
{
    let ghost f = fan_out as nat;
    let ghost w = layer2.iwidth();
    let ghost size = layer2.bsize();
    let ghost b0 = layer2.blocks();
    let ghost lv0 = tree@;
    proof {
        lemma_shrunk_refl(b0, lv0);
        lemma_powf_one(f);
        lemma_level_count(total as nat, f, 0);
        assert(lv0[0].take(total as int) =~= lv0[0]);
        assert(pieces_from(lv0, phys, total as int) =~= Set::<u64>::empty());
    }
    let mut n: u64 = total;
    while n > keep
        invariant
            fan_ok(*layer2, fan_out),
            same_make(*old(layer2), *layer2),
            layer2.faults() == old(layer2).faults(),
            f == fan_out,
            w == layer2.iwidth(),
            size == layer2.bsize(),
            b0 == old(layer2).blocks(),
            lv0 == old(tree)@,
            is_pyramid(b0, lv0, total as nat, f, w),
            pieces_ok(b0, lv0, phys, size, w, unit),
            leaves(lv0) == lv0[0],
            lv0[0].len() == total,
            is_depth(total as nat, f, depth as nat),
            1 <= keep <= n <= total,
            is_pyramid(layer2.blocks(), tree@, n as nat, f, w),
            tree@.len() == lv0.len() == depth + 1,
            tree@[depth as int][0] == top_block,
            tree@[0] == lv0[0].take(n as int),
            powf(f, 0) == 1,
            shrunk(b0, layer2.blocks(), lv0, tree@, pieces_from(lv0, phys, n as int)),
        decreases n,
    {
        let ghost lv1 = tree@;
        let ghost b1 = layer2.blocks();
        let ghost row = phys[n - 1];
        let ghost gone = pieces_from(lv0, phys, n as int);
        let redir_block: u64 = match unlink_last_leaf(
            layer2,
            top_block,
            n,
            depth,
            fan_out,
            cache,
            tree,
        ) {
            Ok(leaf) => leaf,
            Err(e) => {
                return Err(e);
            },
        };
        let ghost lv2 = tree@;
        let ghost b2 = layer2.blocks();
        proof {
            lemma_shrunk_twice(b0, b1, b2, lv0, lv1, lv2, gone, Set::empty());
            assert(gone.union(Set::empty()) =~= gone);
            assert(redir_block == lv1[0][n - 1]);
            assert(redir_block == lv0[0][n - 1]);
            assert(is_place(lv0, 0, n - 1));
            assert(b0.contains_key(lv0[0][n - 1]));
            lemma_leaf_not_redirector(lv0, n - 1);
            assert(has_block(lv0, redir_block));
            assert(!gone.contains(redir_block)) by {
                if leaves_from(lv0, n as int).contains(redir_block) {
                    let x = choose|x: int|
                        n <= x < lv0[0].len() && #[trigger] lv0[0][x] == redir_block;
                    assert(is_place(lv0, 0, x));
                    assert(lv0[0][x] == lv0[0][n - 1]);
                }
                if rows_from(phys, n as int).contains(redir_block) {
                    let (x, y) = choose|x: int, y: int|
                        n <= x && is_place(phys, x, y) && #[trigger] phys[x][y] == redir_block;
                    assert(!has_block(lv0, phys[x][y]));
                }
            }
            assert(b2.contains_key(redir_block) && b2[redir_block] == b0[redir_block]);
            assert(piece_ok(b0, leaves(lv0)[n - 1], phys[n - 1], size, w, unit));
            assert forall|j: int| 0 <= j < row.len() implies b2.contains_key(#[trigger] row[j])
                && row[j] != redir_block && !has_block(lv0, row[j]) by {
                let b = row[j];
                assert(is_place(phys, n - 1, j) && phys[n - 1][j] == b);
                assert(!has_block(lv0, phys[n - 1][j]));
                assert(b0.contains_key(phys[n - 1][j]));
                lemma_not_redirector(lv0, b);
                if leaves_from(lv0, n as int).contains(b) {
                    let x = choose|x: int| n <= x < lv0[0].len() && #[trigger] lv0[0][x] == b;
                    assert(is_place(lv0, 0, x) && has_block(lv0, b));
                }
                if rows_from(phys, n as int).contains(b) {
                    let (x, y) = choose|x: int, y: int|
                        n <= x && is_place(phys, x, y) && #[trigger] phys[x][y] == b;
                    assert(phys[x][y] == phys[n - 1][j]);
                }
                assert(!gone.contains(b));
            }
        }
        let redir: CompRedir = match read_comp_redir(layer2, redir_block, cache, Ghost(row)) {
            Ok(redir) => redir,
            Err(e) => {
                return Err(e);
            },
        };
        let mut to_dealloc: Vec<u64> = redir.data_blocks;
        to_dealloc.push(redir_block);
        let ghost list = row.push(redir_block);
        proof {
            assert(to_dealloc@ == list);
            assert(list.no_duplicates()) by {
                assert forall|x: int, y: int|
                    0 <= x < list.len() && 0 <= y < list.len() && x != y implies list[x] != list[y] by {
                    if x < row.len() && y < row.len() {
                        assert(is_place(phys, n - 1, x) && is_place(phys, n - 1, y));
                        assert(phys[n - 1][x] != phys[n - 1][y]);
                    } else if x < row.len() {
                        assert(row[x] != redir_block);
                    } else {
                        assert(row[y] != redir_block);
                    }
                }
            }
            assert forall|k: int| 0 <= k < list.len() implies layer2.blocks().contains_key(
                #[trigger] list[k],
            ) by {
                if k < row.len() {
                    assert(list[k] == row[k]);
                }
            }
            layer2.lemma_wf();
        }
        match layer2.deallocate_blocks(&mut to_dealloc) {
            Ok(_) => {},
            Err(e) => {
                return Err(e);
            },
        }
        proof {
            let b3 = layer2.blocks();
            let one = Set::new(|b: u64| list.contains(b));
            assert forall|b: u64| #[trigger] list.contains(b) == (b == redir_block || row.contains(b)) by {
                if list.contains(b) {
                    let k = choose|k: int| 0 <= k < list.len() && list[k] == b;
                    if k < row.len() {
                        assert(row[k] == b);
                    }
                }
                if b == redir_block {
                    assert(list[row.len() as int] == b);
                }
                if row.contains(b) {
                    let k = choose|k: int| 0 <= k < row.len() && row[k] == b;
                    assert(list[k] == b);
                }
            }
            assert forall|l: int, i: int| is_place(lv2, l, i) implies !list.contains(
                #[trigger] lv2[l][i],
            ) by {
                let b = lv2[l][i];
                lemma_shrunk_place(lv1, lv2, l, i);
                lemma_shrunk_place(lv0, lv1, l, i);
                assert(lv0[l][i] == b);
                if b == redir_block {
                    assert(lv0[l][i] == lv0[0][n - 1]);
                    assert(false);
                }
                if row.contains(b) {
                    let k = choose|k: int| 0 <= k < row.len() && row[k] == b;
                    assert(!has_block(lv0, row[k]));
                    assert(has_block(lv0, b));
                }
            }
            assert forall|l: int, i: int| is_place(lv2, l, i) implies b3.contains_key(
                #[trigger] lv2[l][i],
            ) && b3[lv2[l][i]] == b2[lv2[l][i]] by {
                assert(b2.contains_key(lv2[l][i]));
                assert(!list.contains(lv2[l][i]));
            }
            lemma_tree_frame(b2, b3, lv2, f, w);
            assert(shrunk(b2, b3, lv2, lv2, one)) by {
                lemma_shrunk_refl(b2, lv2);
                assert forall|b: u64| #[trigger] b3.contains_key(b) <==> b2.contains_key(b)
                    && !one.contains(b) by {
                    assert(list.contains(b) || !list.contains(b));
                }
            }
            lemma_shrunk_twice(b0, b2, b3, lv0, lv2, lv2, gone, one);
            assert forall|b: u64| gone.union(one).contains(b) == pieces_from(
                lv0,
                phys,
                n - 1,
            ).contains(b) by {
                assert(list.contains(b) == (b == redir_block || row.contains(b)));
                if b == redir_block {
                    assert(lv0[0][n - 1] == b);
                    assert(leaves_from(lv0, n - 1).contains(b));
                }
                if row.contains(b) {
                    let k = choose|k: int| 0 <= k < row.len() && row[k] == b;
                    assert(is_place(phys, n - 1, k) && phys[n - 1][k] == b);
                    assert(rows_from(phys, n - 1).contains(b));
                }
                if leaves_from(lv0, n as int).contains(b) {
                    let x = choose|x: int| n <= x < lv0[0].len() && #[trigger] lv0[0][x] == b;
                    assert(leaves_from(lv0, n - 1).contains(b));
                }
                if rows_from(phys, n as int).contains(b) {
                    let (x, y) = choose|x: int, y: int|
                        n <= x && is_place(phys, x, y) && #[trigger] phys[x][y] == b;
                    assert(rows_from(phys, n - 1).contains(b));
                }
                if leaves_from(lv0, n - 1).contains(b) && b != redir_block {
                    let x = choose|x: int| n - 1 <= x < lv0[0].len() && #[trigger] lv0[0][x] == b;
                    assert(x != n - 1);
                    assert(leaves_from(lv0, n as int).contains(b));
                }
                if rows_from(phys, n - 1).contains(b) && !row.contains(b) {
                    let (x, y) = choose|x: int, y: int|
                        n - 1 <= x && is_place(phys, x, y) && #[trigger] phys[x][y] == b;
                    if x == n - 1 {
                        assert(row[y] == b);
                    }
                    assert(rows_from(phys, n as int).contains(b));
                }
            }
            assert(gone.union(one) =~= pieces_from(lv0, phys, n - 1));
            assert(lv2[0] =~= lv0[0].take(n - 1));
        }
        n = n - 1;
    }
    Ok(())
}

/// Cuts a compressed stream down to `new_len` bytes and gives back what it no
/// longer needs, what was reserved included.
pub(crate) fn pyramid_truncate_compressed<L2: BlockLayer>(
    layer2: &mut L2,
    descriptor: &mut StreamDescriptor,
    new_len: u64,
    unit: usize,
    fan_out: u64,
    cache: CacheMode,
    tree: &mut Ghost<Seq<Seq<u64>>>,
    phys: &mut Ghost<Seq<Seq<u64>>>,
) -> (r: Result<(), SfsError>)
    requires
        fan_ok(*old(layer2), fan_out),
        1 <= unit <= 0x4000_0000,
        describes_packed(
            old(layer2).blocks(),
            *old(descriptor),
            old(tree)@,
            old(phys)@,
            old(layer2).bsize(),
            unit as nat,
            fan_out as nat,
            old(layer2).iwidth(),
        ),
    ensures
        final(layer2).bsize() == old(layer2).bsize(),
        final(layer2).iwidth() == old(layer2).iwidth(),
        final(layer2).faults() >= old(layer2).faults(),
        (r is Ok) == (final(layer2).faults() == old(layer2).faults()),
        r is Ok ==> {
            let size = old(layer2).bsize();
            let u = unit as nat;
            &&& same_make(*old(layer2), *final(layer2))
            &&& describes_packed(
                final(layer2).blocks(),
                *final(descriptor),
                final(tree)@,
                final(phys)@,
                size,
                u,
                fan_out as nat,
                old(layer2).iwidth(),
            )
            &&& final(descriptor).flags == old(descriptor).flags
            &&& swapped(
                old(layer2).blocks(),
                final(layer2).blocks(),
                old(tree)@,
                old(phys)@,
                final(tree)@,
                final(phys)@,
            )
            &&& final(descriptor).size == cut_len(old(descriptor).size as nat, new_len as nat)
            &&& final(descriptor).reserved == ceil_div(final(descriptor).size as nat, u) * u
            &&& unpacked_content(
                final(layer2).blocks(),
                final(tree)@,
                final(phys)@,
                size,
                u,
            ) == unpacked_content(
                old(layer2).blocks(),
                old(tree)@,
                old(phys)@,
                size,
                u,
            ).take(final(descriptor).reserved as int)
        },
{
    let ghost f = fan_out as nat;
    let ghost w = layer2.iwidth();
    let ghost size = layer2.bsize();
    let ghost u = unit as nat;
    let ghost b0 = layer2.blocks();
    let ghost lv0 = tree@;
    let ghost ph0 = phys@;
    let ghost c0 = unpacked_content(b0, lv0, ph0, size, u);
    proof {
        layer2.lemma_wf();
        lemma_ceil_exact(leaves(lv0).len(), u);
    }
    if descriptor.reserved == 0 {
        proof {
            lemma_swapped_refl(b0, lv0, ph0);
            assert(0 * u == 0) by (nonlinear_arith);
            assert(leaves(lv0).len() == 0);
            assert(c0 =~= c0.take(0));
        }
        return Ok(());
    }
    let new_len: u64 = if new_len > descriptor.size {
        descriptor.size
    } else {
        new_len
    };
    let top_block: u64 = descriptor.top_block;
    let old_pieces: u64 = data_blocks_needed(descriptor.reserved, unit);
    let old_depth: u32 = pyramid_depth(old_pieces, fan_out);
    let ghost n = old_pieces as nat;
    proof {
        assert(lv0.len() > 0);
        lemma_depth_unique(n, f, old_depth as nat, (lv0.len() - 1) as nat);
        lemma_level_count(n, f, 0);
    }
    if new_len == 0 {
        match deallocate_compressed_tree(
            layer2,
            top_block,
            old_depth,
            fan_out,
            cache,
            Ghost(lv0),
            Ghost(ph0),
            Ghost(u),
        ) {
            Ok(_) => {},
            Err(e) => {
                return Err(e);
            },
        }
        descriptor.size = 0;
        descriptor.top_block = 0;
        descriptor.reserved = 0;
        proof {
            *tree = Ghost(Seq::<Seq<u64>>::empty());
            *phys = Ghost(Seq::<Seq<u64>>::empty());
            assert(0 * u == 0) by (nonlinear_arith);
            assert(unpacked_content(layer2.blocks(), tree@, phys@, size, u) =~= c0.take(0));
        }
        return Ok(());
    }
    let new_pieces: u64 = data_blocks_needed(new_len, unit);
    let new_depth: u32 = pyramid_depth(new_pieces, fan_out);
    proof {
        lemma_ceil_covers(new_len as nat, u);
        lemma_ceil_monotone(new_len as nat, descriptor.reserved as nat, u);
        lemma_depth_monotone(new_pieces as nat, n, f, new_depth as nat, old_depth as nat);
        assert(new_pieces * u <= n * u) by (nonlinear_arith)
            requires
                new_pieces <= n,
        ;
    }
    match deallocate_excess_compressed_blocks(
        layer2,
        top_block,
        old_depth,
        new_pieces,
        old_pieces,
        fan_out,
        cache,
        tree,
        Ghost(ph0),
        Ghost(u),
    ) {
        Ok(_) => {},
        Err(e) => {
            return Err(e);
        },
    }
    let ghost b1 = layer2.blocks();
    let ghost lv1 = tree@;
    match collapse_depth(
        layer2,
        top_block,
        old_depth,
        new_depth,
        fan_out,
        cache,
        tree,
        Ghost(new_pieces as nat),
    ) {
        Ok(top) => {
            descriptor.top_block = top;
        },
        Err(e) => {
            return Err(e);
        },
    }
    descriptor.size = new_len;
    descriptor.reserved = new_pieces * (unit as u64);
    proof {
        let b2 = layer2.blocks();
        let lv2 = tree@;
        let keep = new_pieces as int;
        let gone = pieces_from(lv0, ph0, keep);
        lemma_shrunk_twice(b0, b1, b2, lv0, lv1, lv2, gone, Set::empty());
        assert(gone.union(Set::empty()) =~= gone);
        lemma_shrunk_swapped(b0, b2, lv0, ph0, lv2, keep, size, w, u);
        lemma_level_count(new_pieces as nat, f, 0);
        *phys = Ghost(ph0.take(keep));
    }
    Ok(())
}

} // verus!
