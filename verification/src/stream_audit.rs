//! Whether what is stored holds up as streams: every redirector names blocks up to
//! some slot and none behind it, every pyramid has the height and the data blocks
//! that its descriptor tells, and every compressed piece can be unpacked.

use crate::block_layer::{claims_fit, sentinel, BlockLayer};
use crate::bytes::{copy_range, get_le, lemma_pow256_monotone, lemma_pow256_values};
use crate::compressed::{packed_bytes, packed_ptr, piece_ok, read_comp_redir, read_packed, redir_ok};
use crate::compressed_stream::pieces_ok;
use crate::descriptor::StreamDescriptor;
use crate::handles::{has_writer, table_ok, HandleInfo};
use crate::lz4::{lz4_unpack, told_length};
use crate::pyramid::{
    ceil_div, child_index, distinct, held, index_at, is_depth, is_place, is_pyramid, level_count,
    lemma_depth_unique, lemma_level_count, lemma_mul_div, lemma_slot_range, linked, node_ok, shaped,
};
use crate::pyramid_io::{block_sentinel, data_blocks_needed, pyramid_depth};
use crate::stream_check::{
    all_fit, all_in, below, children_upto, depth_of, lemma_all_in_joined, lemma_listed_in,
    listed_blocks, listed_fit, piece_blocks, redir_blocks, row_at, rows, told_blocks, told_capacity,
    told_depth, told_fits, told_leaves, told_table, unchanged,
};
use crate::stream_claims::{
    enumerates, lemma_joined_contains, lemma_pieces, lemma_rows, lemma_stored_claims, lemma_told,
};
use crate::stream_ops::{apart, in_tree, no_tree, state_of, stream_ok, unit_of, Make, Tree};
use crate::stream_table::{
    all_owned, in_table, layout_ok, owned, slot_count, slot_of, Held,
};
use crate::stream_tree::{
    describes, flat, leaves, lemma_ceil_covers, lemma_ceil_exact, lemma_flat_contains,
};
use crate::types::{CacheMode, SfsError};
use vstd::prelude::*;

verus! {

// ---------------------------------------------------------------------------
// Redirectors
// ---------------------------------------------------------------------------

/// The first `c` of the `f` slots of a redirector name blocks, and the others none.
pub open spec fn full_to(block: Seq<u8>, c: nat, f: nat, w: nat) -> bool {
    &&& c <= f
    &&& forall|k: int|
        0 <= k < f ==> (#[trigger] index_at(block, k, w) == sentinel(w) <==> k >= c)
}

/// The redirectors of a row name `n` blocks: all of them are full but for the last,
/// which names at least one.
pub open spec fn filled(blocks: Map<u64, Seq<u8>>, row: Seq<u64>, n: nat, f: nat, w: nat) -> bool {
    &&& row.len() >= 1
    &&& (row.len() - 1) * f < n <= row.len() * f
    &&& forall|i: int| 0 <= i < row.len() - 1 ==> full_to(blocks[#[trigger] row[i]], f, f, w)
    &&& full_to(blocks[row.last()], (n - (row.len() - 1) * f) as nat, f, w)
}

proof fn lemma_children_full(block: Seq<u8>, c: nat, f: nat, w: nat, k: nat)
    requires
        full_to(block, c, f, w),
        k <= f,
    ensures
        children_upto(block, k, w) == Seq::new(
            if k < c {
                k
            } else {
                c
            },
            |j: int| index_at(block, j, w) as u64,
        ),
    decreases k,
{
    let all = Seq::new(
        if k < c {
            k
        } else {
            c
        },
        |j: int| index_at(block, j, w) as u64,
    );
    if k == 0 {
        assert(children_upto(block, k, w) =~= all);
    } else {
        lemma_children_full(block, c, f, w, (k - 1) as nat);
        assert(index_at(block, k - 1, w) == sentinel(w) <==> k - 1 >= c);
        assert(children_upto(block, k, w) =~= all);
    }
}

/// What the first redirectors of a row name.
proof fn lemma_below_filled(
    blocks: Map<u64, Seq<u8>>,
    row: Seq<u64>,
    n: nat,
    f: nat,
    w: nat,
    i: int,
)
    requires
        filled(blocks, row, n, f, w),
        f >= 2,
        0 <= i <= row.len(),
    ensures
        ({
            let found = below(blocks, row.take(i), f, w);
            &&& found.len() == if i < row.len() {
                i * f
            } else {
                n as int
            }
            &&& forall|p: int|
                0 <= p < found.len() ==> #[trigger] found[p] == index_at(
                    blocks[row[p / f as int]],
                    p % f as int,
                    w,
                ) as u64
        }),
    decreases i,
{
    let found = below(blocks, row.take(i), f, w);
    if i == 0 {
        assert(0 * f == 0) by (nonlinear_arith);
        assert(found =~= Seq::<u64>::empty());
    } else {
        lemma_below_filled(blocks, row, n, f, w, i - 1);
        let part = row.take(i);
        assert(part.drop_last() =~= row.take(i - 1));
        assert(part.last() == row[i - 1]);
        let before = below(blocks, row.take(i - 1), f, w);
        assert(i * f == (i - 1) * f + f) by (nonlinear_arith);
        let c = if i < row.len() {
            f
        } else {
            (n - (row.len() - 1) * f) as nat
        };
        lemma_children_full(blocks[row[i - 1]], c, f, w, f);
        let more = children_upto(blocks[row[i - 1]], f, w);
        assert(more.len() == c);
        assert(found == before + more);
        assert forall|p: int| 0 <= p < found.len() implies #[trigger] found[p] == index_at(
            blocks[row[p / f as int]],
            p % f as int,
            w,
        ) as u64 by {
            if p < before.len() {
                assert(found[p] == before[p]);
            } else {
                lemma_mul_div(i - 1, p - (i - 1) * f, f as int);
                assert((i - 1) * f + (p - (i - 1) * f) == p);
            }
        }
    }
}

// ---------------------------------------------------------------------------
// Pyramids
// ---------------------------------------------------------------------------

/// The rows from a top block down to `depth` steps are linked as those of a pyramid.
pub open spec fn well_linked(blocks: Map<u64, Seq<u8>>, top: u64, depth: nat, f: nat, w: nat) -> bool
    decreases depth,
{
    if depth == 0 {
        true
    } else {
        &&& well_linked(blocks, top, (depth - 1) as nat, f, w)
        &&& filled(
            blocks,
            row_at(blocks, top, (depth - 1) as nat, f, w),
            row_at(blocks, top, depth, f, w).len(),
            f,
            w,
        )
    }
}

/// The rows that are reached from a top block, the last one first.
pub open spec fn told_levels(
    blocks: Map<u64, Seq<u8>>,
    top: u64,
    depth: nat,
    f: nat,
    w: nat,
) -> Seq<Seq<u64>> {
    Seq::new(depth + 1, |l: int| row_at(blocks, top, (depth - l) as nat, f, w))
}

proof fn lemma_linked_at(blocks: Map<u64, Seq<u8>>, top: u64, depth: nat, f: nat, w: nat, d: nat)
    requires
        well_linked(blocks, top, depth, f, w),
        d < depth,
    ensures
        filled(
            blocks,
            row_at(blocks, top, d, f, w),
            row_at(blocks, top, d + 1, f, w).len(),
            f,
            w,
        ),
    decreases depth,
{
    if d + 1 < depth {
        lemma_linked_at(blocks, top, (depth - 1) as nat, f, w, d);
    }
}

/// The rows are the levels, put one behind the other.
proof fn lemma_rows_flat(blocks: Map<u64, Seq<u8>>, top: u64, depth: nat, f: nat, w: nat, d: nat)
    requires
        d <= depth,
    ensures
        ({
            let levels = told_levels(blocks, top, depth, f, w);
            rows(blocks, top, d, f, w) + flat(levels.take(depth - d)) == flat(levels)
        }),
    decreases d,
{
    let levels = told_levels(blocks, top, depth, f, w);
    let l = depth - d;
    if d == 0 {
        assert(levels.drop_last() =~= levels.take(l));
        assert(levels.last() =~= seq![top]);
    } else {
        lemma_rows_flat(blocks, top, depth, f, w, (d - 1) as nat);
        let part = levels.take(l + 1);
        assert(part.drop_last() =~= levels.take(l));
        assert(part.last() == row_at(blocks, top, d, f, w));
        let before = rows(blocks, top, (d - 1) as nat, f, w);
        assert(before + (levels[l] + flat(levels.take(l))) =~= (before + levels[l]) + flat(
            levels.take(l),
        ));
    }
}

/// Where no block stands twice in all levels together, it stands at one place.
proof fn lemma_flat_distinct(levels: Seq<Seq<u64>>)
    requires
        flat(levels).no_duplicates(),
    ensures
        distinct(levels),
    decreases levels.len(),
{
    if levels.len() > 0 {
        let less = levels.drop_last();
        let d = levels.len() - 1;
        let all = flat(levels);
        let t = levels[d].len() as int;
        assert forall|i: int, j: int| 0 <= i < j < flat(less).len() implies flat(less)[i]
            != flat(less)[j] by {
            assert(all[t + i] != all[t + j]);
        }
        lemma_flat_distinct(less);
        assert forall|l: int, i: int, m: int, j: int|
            #![trigger levels[l][i], levels[m][j]]
            is_place(levels, l, i) && is_place(levels, m, j) && levels[l][i] == levels[m][j] implies l
            == m && i == j by {
            if l < d && m < d {
                assert(less[l][i] == less[m][j]);
                assert(is_place(less, l, i) && is_place(less, m, j));
            } else if l == d && m == d {
                assert(all[i] == all[j]);
            } else {
                let (x, y, z) = if l == d {
                    (i, m, j)
                } else {
                    (j, l, i)
                };
                let b = levels[d][x];
                assert(is_place(less, y, z) && less[y][z] == b);
                lemma_flat_contains(less, b);
                let k = choose|k: int| 0 <= k < flat(less).len() && flat(less)[k] == b;
                assert(all[x] == b && all[t + k] == b);
            }
        }
    }
}

/// The number of blocks of each level.
proof fn lemma_level_len(
    blocks: Map<u64, Seq<u8>>,
    top: u64,
    depth: nat,
    n: nat,
    f: nat,
    w: nat,
    l: nat,
)
    requires
        well_linked(blocks, top, depth, f, w),
        f >= 2,
        n >= 1,
        n == row_at(blocks, top, depth, f, w).len(),
        l <= depth,
    ensures
        told_levels(blocks, top, depth, f, w)[l as int].len() == level_count(n, f, l),
    decreases l,
{
    lemma_level_count(n, f, 0);
    if l > 0 {
        lemma_level_len(blocks, top, depth, n, f, w, (l - 1) as nat);
        lemma_linked_at(blocks, top, depth, f, w, (depth - l) as nat);
        lemma_level_count(n, f, (l - 1) as nat);
        let c = level_count(n, f, (l - 1) as nat) as int;
        let r = row_at(blocks, top, (depth - l) as nat, f, w).len() as int;
        assert(r * f == (r - 1) * f + f) by (nonlinear_arith);
        lemma_mul_div(r - 1, c - 1 - (r - 1) * f, f as int);
        assert((r - 1) * f + (c - 1 - (r - 1) * f) == c - 1);
    }
}

/// Rows that are linked as those of a pyramid, with blocks in use that do not stand
/// there twice, are a pyramid.
proof fn lemma_pyramid_told(
    blocks: Map<u64, Seq<u8>>,
    top: u64,
    depth: nat,
    n: nat,
    f: nat,
    w: nat,
)
    requires
        well_linked(blocks, top, depth, f, w),
        f >= 2,
        1 <= w <= 8,
        n >= 1,
        n == row_at(blocks, top, depth, f, w).len(),
        is_depth(n, f, depth),
        rows(blocks, top, depth, f, w).no_duplicates(),
        all_in(rows(blocks, top, depth, f, w), blocks),
        forall|b: u64| #[trigger]
            blocks.contains_key(b) ==> blocks[b].len() >= f * w,
    ensures
        is_pyramid(blocks, told_levels(blocks, top, depth, f, w), n, f, w),
        flat(told_levels(blocks, top, depth, f, w)) == rows(blocks, top, depth, f, w),
{
    let levels = told_levels(blocks, top, depth, f, w);
    lemma_rows_flat(blocks, top, depth, f, w, depth);
    assert(levels.take(0) =~= Seq::<Seq<u64>>::empty());
    assert(rows(blocks, top, depth, f, w) + flat(levels.take(0)) =~= rows(
        blocks,
        top,
        depth,
        f,
        w,
    ));
    lemma_flat_distinct(levels);
    assert(shaped(levels, n, f)) by {
        assert forall|l: int| 0 <= l < levels.len() implies (#[trigger] levels[l]).len()
            == level_count(n, f, l as nat) by {
            lemma_level_len(blocks, top, depth, n, f, w, l as nat);
        }
    }
    assert forall|l: int, i: int| is_place(levels, l, i) implies blocks.contains_key(
        #[trigger] levels[l][i],
    ) by {
        let b = levels[l][i];
        lemma_flat_contains(levels, b);
        let k = choose|k: int| 0 <= k < flat(levels).len() && flat(levels)[k] == b;
        assert(rows(blocks, top, depth, f, w)[k] == b);
    }
    assert forall|l: int, i: int|
        1 <= l && is_place(levels, l, i) implies #[trigger] node_ok(blocks, levels, l, i, f, w) by {
        let row = levels[l];
        let next = levels[l - 1];
        lemma_linked_at(blocks, top, depth, f, w, (depth - l) as nat);
        assert(filled(blocks, row, next.len(), f, w));
        lemma_below_filled(blocks, row, next.len(), f, w, row.len() as int);
        assert(row.take(row.len() as int) =~= row);
        assert(next == below(blocks, row, f, w));
        let block = blocks[row[i]];
        assert(i * f >= 0) by (nonlinear_arith)
            requires
                i >= 0,
        ;
        assert forall|k: int| 0 <= k < f implies #[trigger] index_at(block, k, w) == child_index(
            levels,
            l,
            i,
            k,
            f,
            w,
        ) by {
            lemma_mul_div(i, k, f as int);
            lemma_slot_range(k, w as int, f as int, block.len() as int);
            lemma_pow256_values();
            lemma_pow256_monotone(w, 8);
            crate::bytes::law_le_bytes_of_value(block.subrange(k * w, k * w + w));
            if i < row.len() - 1 {
                assert(full_to(blocks[row[i]], f, f, w));
                assert((i + 1) * f == i * f + f) by (nonlinear_arith);
                assert((i + 1) * f <= (row.len() - 1) * f) by (nonlinear_arith)
                    requires
                        i + 1 <= row.len() - 1,
                ;
            }
            if i * f + k < next.len() {
                assert(next[i * f + k] == index_at(block, k, w) as u64);
            }
        }
    }
}

/// The rows of a pyramid are linked.
proof fn lemma_pyramid_linked(
    blocks: Map<u64, Seq<u8>>,
    levels: Seq<Seq<u64>>,
    n: nat,
    f: nat,
    w: nat,
    d: nat,
)
    requires
        is_pyramid(blocks, levels, n, f, w),
        f >= 2,
        d < levels.len(),
        forall|b: u64| #[trigger] blocks.contains_key(b) ==> b < sentinel(w),
    ensures
        well_linked(blocks, levels[levels.len() - 1][0], d, f, w),
    decreases d,
{
    if d > 0 {
        lemma_pyramid_linked(blocks, levels, n, f, w, (d - 1) as nat);
        lemma_rows(blocks, levels, n, f, w, (d - 1) as nat);
        lemma_rows(blocks, levels, n, f, w, d);
        let l = levels.len() - d;
        let row = levels[l];
        let next = levels[l - 1];
        lemma_level_count(n, f, (l - 1) as nat);
        lemma_level_count(n, f, l as nat);
        assert(row.len() == level_count(n, f, l as nat));
        assert(next.len() == level_count(n, f, (l - 1) as nat));
        let q = (next.len() - 1) / f as int;
        crate::pyramid::lemma_div_mod(next.len() - 1, f as int);
        assert(row.len() == q + 1);
        assert((q + 1) * f == q * f + f) by (nonlinear_arith);
        assert forall|i: int, k: int|
            0 <= i < row.len() && 0 <= k < f implies (#[trigger] index_at(blocks[row[i]], k, w)
            == sentinel(w) <==> i * f + k >= next.len()) by {
            assert(is_place(levels, l, i));
            assert(node_ok(blocks, levels, l, i, f, w));
            assert(index_at(blocks[levels[l][i]], k, w) == child_index(levels, l, i, k, f, w));
            assert(i * f >= 0) by (nonlinear_arith)
                requires
                    i >= 0,
            ;
            if i * f + k < next.len() {
                assert(is_place(levels, l - 1, i * f + k));
                assert(blocks.contains_key(levels[l - 1][i * f + k]));
            }
        }
        assert forall|i: int| 0 <= i < row.len() - 1 implies full_to(
            blocks[#[trigger] row[i]],
            f,
            f,
            w,
        ) by {
            assert((i + 1) * f == i * f + f) by (nonlinear_arith);
            assert((i + 1) * f <= q * f) by (nonlinear_arith)
                requires
                    i + 1 <= q,
            ;
            assert forall|k: int| 0 <= k < f implies (#[trigger] index_at(blocks[row[i]], k, w)
                == sentinel(w) <==> k >= f) by {
                assert(i * f + k < next.len());
            }
        }
        assert(full_to(blocks[row.last()], (next.len() - q * f) as nat, f, w)) by {
            assert forall|k: int| 0 <= k < f implies (#[trigger] index_at(blocks[row.last()], k, w)
                == sentinel(w) <==> k >= next.len() - q * f) by {
                assert(row[q] == row.last());
                assert(index_at(blocks[row[q]], k, w) == sentinel(w) <==> q * f + k >= next.len());
            }
        }
    }
}

// ---------------------------------------------------------------------------
// Streams
// ---------------------------------------------------------------------------

/// The blocks that the compression redirectors of a row name, each for itself.
pub open spec fn told_phys(blocks: Map<u64, Seq<u8>>, row: Seq<u64>, size: nat, w: nat) -> Seq<
    Seq<u64>,
> {
    Seq::new(row.len(), |i: int| redir_blocks(blocks[row[i]], size, w))
}

/// The blocks of a stream, as a descriptor leads to them.
pub open spec fn told_tree(blocks: Map<u64, Seq<u8>>, d: StreamDescriptor, m: Make) -> Tree {
    if told_capacity(d) == 0 {
        no_tree()
    } else {
        Tree {
            levels: told_levels(blocks, d.top_block, told_depth(d, m), m.fan_out, m.width),
            phys: if d.compressed() {
                told_phys(blocks, told_leaves(blocks, d, m), m.size, m.width)
            } else {
                Seq::empty()
            },
        }
    }
}

/// What a descriptor tells holds up: its capacity is that of its data blocks, its
/// pyramid is linked throughout, and its pieces can be unpacked.
pub open spec fn holds_up(blocks: Map<u64, Seq<u8>>, d: StreamDescriptor, m: Make) -> bool {
    let unit = unit_of(d.compressed(), m);
    let n = ceil_div(d.reserved as nat, unit);
    let row = told_leaves(blocks, d, m);
    &&& d.reserved == n * unit
    &&& n > 0 ==> {
        &&& well_linked(blocks, d.top_block, told_depth(d, m), m.fan_out, m.width)
        &&& row.len() == n
    }
    &&& d.compressed() ==> all_unpack(blocks, row, m.size, m.width, m.piece)
}

/// The pieces of a row of compression redirectors can be unpacked.
pub open spec fn all_unpack(
    blocks: Map<u64, Seq<u8>>,
    row: Seq<u64>,
    size: nat,
    w: nat,
    unit: nat,
) -> bool {
    forall|i: int|
        0 <= i < row.len() ==> piece_ok(
            blocks,
            #[trigger] row[i],
            redir_blocks(blocks[row[i]], size, w),
            size,
            w,
            unit,
        )
}

/// What is known of the blocks of a store and of the measures of its streams.
pub open spec fn measures(blocks: Map<u64, Seq<u8>>, m: Make) -> bool {
    &&& m.size >= 1
    &&& m.piece >= 1
    &&& m.fan_out >= 2
    &&& 1 <= m.width <= 8
    &&& m.fan_out * m.width <= m.size
    &&& forall|b: u64| #[trigger]
        blocks.contains_key(b) ==> b < sentinel(m.width) && blocks[b].len() == m.size
}

/// A descriptor whose tale holds up, and whose blocks are in use and none of them
/// twice, describes a stream.
pub proof fn lemma_holds_up(blocks: Map<u64, Seq<u8>>, d: StreamDescriptor, m: Make)
    requires
        measures(blocks, m),
        told_fits(blocks, d, m),
        holds_up(blocks, d, m),
        told_blocks(blocks, d, m).no_duplicates(),
        all_in(told_blocks(blocks, d, m), blocks),
    ensures
        stream_ok(blocks, d, told_tree(blocks, d, m), m),
{
    let t = told_tree(blocks, d, m);
    let unit = unit_of(d.compressed(), m);
    let f = m.fan_out;
    let w = m.width;
    let row = told_leaves(blocks, d, m);
    if told_capacity(d) == 0 {
        assert(leaves(t.levels).len() == 0);
        assert(0 * unit == 0) by (nonlinear_arith);
        if d.compressed() {
            assert(pieces_ok(blocks, t.levels, t.phys, m.size, w, unit));
        }
    } else {
        let n = ceil_div(d.reserved as nat, unit);
        let depth = told_depth(d, m);
        let top = d.top_block;
        let all = told_blocks(blocks, d, m);
        let r = rows(blocks, top, depth, f, w);
        lemma_some_depth(n, f);
        assert(is_depth(n, f, depth));
        assert forall|i: int, j: int| 0 <= i < j < r.len() implies r[i] != r[j] by {
            assert(all[i] == r[i] && all[j] == r[j]);
        }
        assert forall|i: int| 0 <= i < r.len() implies blocks.contains_key(#[trigger] r[i]) by {
            assert(all[i] == r[i]);
        }
        lemma_pyramid_told(blocks, top, depth, n, f, w);
        assert(leaves(t.levels) == row);
        assert(t.levels[t.levels.len() - 1] =~= seq![top]);
        assert(describes(blocks, d, t.levels, unit, f, w));
        if d.compressed() {
            let phys = t.phys;
            assert forall|i: int| 0 <= i < phys.len() implies redir_ok(
                blocks[#[trigger] row[i]],
                phys[i],
                m.size,
                w,
            ) by {
                assert(piece_ok(blocks, row[i], phys[i], m.size, w, m.piece));
            }
            lemma_pieces(blocks, row, phys, m.size, w);
            let c = flat(phys);
            assert(all == r + c);
            assert forall|i: int, j: int| 0 <= i < j < c.len() implies c[i] != c[j] by {
                assert(all[r.len() + i] == c[i] && all[r.len() + j] == c[j]);
            }
            lemma_flat_distinct(phys);
            assert forall|i: int, j: int| is_place(phys, i, j) implies blocks.contains_key(
                #[trigger] phys[i][j],
            ) && !crate::pyramid::has_block(t.levels, phys[i][j]) by {
                let b = phys[i][j];
                lemma_flat_contains(phys, b);
                lemma_flat_contains(t.levels, b);
                let k = choose|k: int| 0 <= k < c.len() && c[k] == b;
                assert(all[r.len() + k] == b);
                if r.contains(b) {
                    let x = choose|x: int| 0 <= x < r.len() && r[x] == b;
                    assert(all[x] == b);
                }
            }
            assert(pieces_ok(blocks, t.levels, phys, m.size, w, unit));
        }
    }
}

/// There is a depth for every number of data blocks.
proof fn lemma_some_depth(n: nat, f: nat)
    requires
        f >= 2,
    ensures
        is_depth(n, f, depth_of(n, f)),
{
    lemma_depth_below(n, f, n);
}

proof fn lemma_depth_below(n: nat, f: nat, d: nat)
    requires
        f >= 2,
        n <= crate::pyramid::powf(f, d) || d == n,
    ensures
        exists|x: nat| is_depth(n, f, x),
    decreases d,
{
    if d == n {
        crate::pyramid::lemma_powf_grows(f, n);
    }
    if d > 0 && n <= crate::pyramid::powf(f, (d - 1) as nat) {
        lemma_depth_below(n, f, (d - 1) as nat);
    } else {
        assert(is_depth(n, f, d));
    }
}

/// What describes a stream holds up.
pub proof fn lemma_stream_holds_up(
    blocks: Map<u64, Seq<u8>>,
    d: StreamDescriptor,
    t: Tree,
    m: Make,
)
    requires
        measures(blocks, m),
        stream_ok(blocks, d, t, m),
    ensures
        holds_up(blocks, d, m),
{
    let unit = unit_of(d.compressed(), m);
    let f = m.fan_out;
    let w = m.width;
    lemma_told(blocks, d, t, m);
    let n = leaves(t.levels).len();
    lemma_ceil_exact(n, unit);
    let row = told_leaves(blocks, d, m);
    if t.levels.len() > 0 {
        let depth = (t.levels.len() - 1) as nat;
        lemma_depth_unique(n, f, depth, depth_of(n, f));
        lemma_pyramid_linked(blocks, t.levels, n, f, w, depth);
    }
    if d.compressed() {
        assert forall|i: int| 0 <= i < row.len() implies piece_ok(
            blocks,
            #[trigger] row[i],
            redir_blocks(blocks[row[i]], m.size, w),
            m.size,
            w,
            m.piece,
        ) by {
            assert(piece_ok(blocks, leaves(t.levels)[i], t.phys[i], m.size, w, m.piece));
            assert(redir_ok(blocks[row[i]], t.phys[i], m.size, w));
            assert(redir_blocks(blocks[row[i]], m.size, w) =~= t.phys[i]);
        }
    }
}

// ---------------------------------------------------------------------------
// Looking at what is stored
// ---------------------------------------------------------------------------

/// How many slots of a redirector name blocks, where none that does stands behind
/// one that does not.
fn count_slots(buf: &Vec<u8>, fan_out: u64, width: usize, none: u64) -> (r: Option<u64>)
    requires
        1 <= width <= 8,
        fan_out * width <= buf@.len() <= 0x8000_0000,
        none == sentinel(width as nat),
    ensures
        match r {
            Some(c) => full_to(buf@, c as nat, fan_out as nat, width as nat),
            None => forall|c: nat| !full_to(buf@, c, fan_out as nat, width as nat),
        },
{
    let ghost f = fan_out as nat;
    let ghost w = width as nat;
    let mut count: u64 = 0;
    let mut slot: u64 = 0;
    while slot < fan_out
        invariant
            count <= slot <= fan_out,
            f == fan_out,
            w == width,
            1 <= width <= 8,
            fan_out * width <= buf@.len() <= 0x8000_0000,
            none == sentinel(w),
            forall|k: int|
                0 <= k < slot ==> (#[trigger] index_at(buf@, k, w) == sentinel(w) <==> k >= count),
        decreases fan_out - slot,
    {
        proof {
            lemma_slot_range(slot as int, w as int, f as int, buf@.len() as int);
        }
        let child: u64 = get_le(buf.as_slice(), (slot * (width as u64)) as usize, width);
        assert(child == index_at(buf@, slot as int, w));
        if child != none {
            if count < slot {
                proof {
                    assert(index_at(buf@, count as int, w) == sentinel(w));
                    assert forall|c: nat| !full_to(buf@, c, f, w) by {
                        if full_to(buf@, c, f, w) {
                            assert(index_at(buf@, count as int, w) == sentinel(w) <==> count >= c);
                            assert(index_at(buf@, slot as int, w) == sentinel(w) <==> slot >= c);
                        }
                    }
                }
                return None;
            }
            count = count + 1;
        }
        slot = slot + 1;
    }
    Some(count)
}

/// Reads a whole block that is in use.
fn read_all<L2: BlockLayer>(layer2: &mut L2, block: u64) -> (r: Result<Vec<u8>, SfsError>)
    requires
        old(layer2).wf(),
        old(layer2).blocks().contains_key(block),
    ensures
        unchanged(*old(layer2), *final(layer2)),
        (r is Ok) == (final(layer2).faults() == old(layer2).faults()),
        r matches Ok(buf) ==> buf@ == old(layer2).blocks()[block],
{
    proof {
        layer2.lemma_wf();
    }
    let size: usize = layer2.block_size();
    let mut buf: Vec<u8> = vec![0u8; size];
    match layer2.read_block(block, 0, buf.as_mut_slice(), CacheMode::Bypass) {
        Ok(_) => {
            proof {
                let b = old(layer2).blocks()[block];
                assert(b.subrange(0, size as int) =~= b);
            }
            Ok(buf)
        },
        Err(e) => Err(e),
    }
}

/// Follows the redirectors of a row, where they are filled.
fn follow_row<L2: BlockLayer>(layer2: &mut L2, row: &Vec<u64>, fan_out: u64) -> (r: Result<
    Option<Vec<u64>>,
    SfsError,
>)
    requires
        old(layer2).wf(),
        fan_out >= 2,
        fan_out * old(layer2).iwidth() <= old(layer2).bsize(),
        all_in(row@, old(layer2).blocks()),
        row@.len() >= 1,
    ensures
        unchanged(*old(layer2), *final(layer2)),
        (r is Ok) == (final(layer2).faults() == old(layer2).faults()),
        ({
            let blocks = old(layer2).blocks();
            let f = fan_out as nat;
            let w = old(layer2).iwidth();
            &&& r matches Ok(Some(next)) ==> next@ == below(blocks, row@, f, w) && filled(
                blocks,
                row@,
                next@.len(),
                f,
                w,
            )
            &&& r matches Ok(None) ==> forall|n: nat| !filled(blocks, row@, n, f, w)
        }),
{
    let ghost blocks = layer2.blocks();
    let ghost f = fan_out as nat;
    let ghost w = layer2.iwidth();
    proof {
        layer2.lemma_wf();
    }
    let width: usize = layer2.block_index_width() as usize;
    let none: u64 = block_sentinel(layer2.block_index_width());
    let mut next: Vec<u64> = Vec::new();
    let len: usize = row.len();
    let mut i: usize = 0;
    proof {
        assert(row@.take(0) =~= Seq::<u64>::empty());
        assert(0 * f == 0) by (nonlinear_arith);
    }
    while i < len
        invariant
            i <= len == row@.len(),
            len >= 1,
            layer2.wf(),
            unchanged(*old(layer2), *layer2),
            layer2.faults() == old(layer2).faults(),
            blocks == layer2.blocks(),
            blocks == old(layer2).blocks(),
            w == layer2.iwidth(),
            1 <= width == w <= 8,
            f == fan_out,
            f >= 2,
            f * w <= layer2.bsize() <= 0x8000_0000,
            forall|b: u64| #[trigger]
                blocks.contains_key(b) ==> blocks[b].len() == layer2.bsize(),
            none == sentinel(w),
            all_in(row@, blocks),
            next@ == below(blocks, row@.take(i as int), f, w),
            forall|j: int|
                0 <= j < i && j < len - 1 ==> full_to(blocks[#[trigger] row@[j]], f, f, w),
            i < len ==> next@.len() == i * f,
            i == len ==> filled(blocks, row@, next@.len(), f, w),
        decreases len - i,
    {
        assert(blocks.contains_key(row@[i as int]));
        let buf: Vec<u8> = match read_all(layer2, row[i]) {
            Ok(buf) => buf,
            Err(e) => {
                return Err(e);
            },
        };
        let count: u64 = match count_slots(&buf, fan_out, width, none) {
            Some(count) => count,
            None => {
                proof {
                    assert forall|n: nat| !filled(blocks, row@, n, f, w) by {
                        if filled(blocks, row@, n, f, w) {
                            if i < len - 1 {
                                assert(full_to(blocks[row@[i as int]], f, f, w));
                            } else {
                                assert(row@.last() == row@[i as int]);
                            }
                        }
                    }
                }
                return Ok(None);
            },
        };
        let last: bool = i + 1 == len;
        if (!last && count < fan_out) || count == 0 {
            proof {
                assert forall|n: nat| !filled(blocks, row@, n, f, w) by {
                    if filled(blocks, row@, n, f, w) {
                        if i < len - 1 {
                            assert(full_to(blocks[row@[i as int]], f, f, w));
                            assert(index_at(buf@, count as int, w) == sentinel(w) <==> count
                                >= f);
                            assert(index_at(buf@, count as int, w) == sentinel(w) <==> count
                                >= count);
                        } else {
                            assert(row@.last() == row@[i as int]);
                            let c = (n - (row@.len() - 1) * f) as nat;
                            assert(index_at(buf@, 0, w) == sentinel(w) <==> 0 >= c);
                            assert(index_at(buf@, 0, w) == sentinel(w) <==> 0 >= count);
                        }
                    }
                }
            }
            return Ok(None);
        }
        let ghost before = next@;
        let mut slot: u64 = 0;
        while slot < count
            invariant
                slot <= count <= fan_out,
                f == fan_out,
                1 <= width == w <= 8,
                f * w <= buf@.len() <= 0x8000_0000,
                next@ == before + Seq::new(slot as nat, |j: int| index_at(buf@, j, w) as u64),
            decreases count - slot,
        {
            proof {
                lemma_slot_range(slot as int, w as int, f as int, buf@.len() as int);
            }
            let child: u64 = get_le(buf.as_slice(), (slot * (width as u64)) as usize, width);
            next.push(child);
            slot = slot + 1;
            proof {
                assert(next@ =~= before + Seq::new(
                    slot as nat,
                    |j: int| index_at(buf@, j, w) as u64,
                ));
            }
        }
        proof {
            lemma_children_full(buf@, count as nat, f, w, f);
            let part = row@.take(i + 1);
            assert(part.drop_last() =~= row@.take(i as int));
            assert(part.last() == row@[i as int]);
            assert((i + 1) * f == i * f + f) by (nonlinear_arith);
            if last {
                assert(part =~= row@);
                assert(row@.last() == row@[i as int]);
            }
        }
        i = i + 1;
    }
    proof {
        assert(row@.take(len as int) =~= row@);
    }
    Ok(Some(next))
}

/// Whether the pieces of a row of compression redirectors can be unpacked.
fn try_pieces<L2: BlockLayer>(layer2: &mut L2, row: &Vec<u64>, piece_size: usize) -> (r: Result<
    bool,
    SfsError,
>)
    requires
        old(layer2).wf(),
        1 <= piece_size <= 0x4000_0000,
        all_in(row@, old(layer2).blocks()),
        all_fit(old(layer2).blocks(), row@, old(layer2).bsize(), old(layer2).iwidth()),
        all_in(
            piece_blocks(old(layer2).blocks(), row@, old(layer2).bsize(), old(layer2).iwidth()),
            old(layer2).blocks(),
        ),
    ensures
        unchanged(*old(layer2), *final(layer2)),
        (r is Ok) == (final(layer2).faults() == old(layer2).faults()),
        r matches Ok(good) ==> good == all_unpack(
            old(layer2).blocks(),
            row@,
            old(layer2).bsize(),
            old(layer2).iwidth(),
            piece_size as nat,
        ),
{
    let ghost blocks = layer2.blocks();
    let ghost size = layer2.bsize();
    let ghost w = layer2.iwidth();
    let ghost unit = piece_size as nat;
    proof {
        layer2.lemma_wf();
    }
    let mut i: usize = 0;
    while i < row.len()
        invariant
            i <= row@.len(),
            layer2.wf(),
            unchanged(*old(layer2), *layer2),
            layer2.faults() == old(layer2).faults(),
            blocks == layer2.blocks(),
            size == layer2.bsize(),
            w == layer2.iwidth(),
            1 <= w <= 8,
            size >= 1,
            unit == piece_size,
            1 <= piece_size <= 0x4000_0000,
            forall|b: u64| #[trigger] blocks.contains_key(b) ==> blocks[b].len() == size,
            all_in(row@, blocks),
            all_fit(blocks, row@, size, w),
            all_in(piece_blocks(blocks, row@, size, w), blocks),
            forall|j: int|
                0 <= j < i ==> piece_ok(
                    blocks,
                    #[trigger] row@[j],
                    redir_blocks(blocks[row@[j]], size, w),
                    size,
                    w,
                    unit,
                ),
        decreases row@.len() - i,
    {
        let block: u64 = row[i];
        let ghost phys = redir_blocks(blocks[block], size, w);
        proof {
            layer2.lemma_wf();
            assert(blocks.contains_key(row@[i as int]));
            lemma_redir_told(blocks[block], size, w);
            lemma_piece_in(blocks, row@, size, w, i as int);
        }
        let redir = match read_comp_redir(layer2, block, CacheMode::Bypass, Ghost(phys)) {
            Ok(redir) => redir,
            Err(e) => {
                proof {
                    layer2.lemma_wf();
                }
                return Err(e);
            },
        };
        proof {
            layer2.lemma_wf();
        }
        if redir.compressed_length > 0 {
            let packed: Vec<u8> = match read_packed(layer2, &redir, CacheMode::Bypass) {
                Ok(packed) => packed,
                Err(e) => {
                    proof {
                        layer2.lemma_wf();
                    }
                    return Err(e);
                },
            };
            proof {
                layer2.lemma_wf();
            }
            assert(packed@ == packed_bytes(blocks, block, phys, size));
            let mut good: bool = packed.len() >= 4;
            if good {
                let told: u64 = get_le(packed.as_slice(), 0, 4);
                assert(told == told_length(packed@));
                good = told <= piece_size as u64;
                if good {
                    match lz4_unpack(packed.as_slice()) {
                        Ok(data) => {
                            good = data.len() as u64 == told;
                        },
                        Err(_) => {
                            good = false;
                        },
                    }
                }
            }
            if !good {
                proof {
                    assert(!piece_ok(
                        blocks,
                        row@[i as int],
                        redir_blocks(blocks[row@[i as int]], size, w),
                        size,
                        w,
                        unit,
                    ));
                }
                return Ok(false);
            }
        }
        i = i + 1;
    }
    Ok(true)
}

/// A compression redirector with room for what it must name is one.
proof fn lemma_redir_told(redir: Seq<u8>, size: nat, w: nat)
    requires
        redir.len() == size,
        1 <= w <= 8,
        crate::stream_check::redir_fits(redir, size, w),
    ensures
        redir_ok(redir, redir_blocks(redir, size, w), size, w),
{
    let phys = redir_blocks(redir, size, w);
    assert forall|i: int| 0 <= i < phys.len() implies #[trigger] packed_ptr(redir, i, w)
        == phys[i] by {
        lemma_slot_range(i, w as int, phys.len() as int, (phys.len() * w) as int);
        lemma_pow256_values();
        lemma_pow256_monotone(w, 8);
        crate::bytes::law_le_bytes_of_value(redir.subrange(4 + i * w, 4 + i * w + w));
    }
}

/// The blocks that one redirector of a row names are among those that all name.
proof fn lemma_piece_in(blocks: Map<u64, Seq<u8>>, row: Seq<u64>, size: nat, w: nat, i: int)
    requires
        0 <= i < row.len(),
        all_in(piece_blocks(blocks, row, size, w), blocks),
    ensures
        all_in(redir_blocks(blocks[row[i]], size, w), blocks),
    decreases row.len(),
{
    let first = redir_blocks(blocks[row.last()], size, w);
    let rest = piece_blocks(blocks, row.drop_last(), size, w);
    let all = piece_blocks(blocks, row, size, w);
    if i == row.len() - 1 {
        assert forall|j: int| 0 <= j < first.len() implies blocks.contains_key(
            #[trigger] first[j],
        ) by {
            assert(all[j] == first[j]);
        }
    } else {
        assert forall|j: int| 0 <= j < rest.len() implies blocks.contains_key(
            #[trigger] rest[j],
        ) by {
            assert(all[first.len() + j] == rest[j]);
        }
        lemma_piece_in(blocks, row.drop_last(), size, w, i);
    }
}

/// Every row that is reached is part of all of them.
proof fn lemma_row_in(blocks: Map<u64, Seq<u8>>, top: u64, depth: nat, f: nat, w: nat, d: nat)
    requires
        d <= depth,
        all_in(rows(blocks, top, depth, f, w), blocks),
    ensures
        all_in(row_at(blocks, top, d, f, w), blocks),
    decreases depth,
{
    if depth == 0 {
        assert(rows(blocks, top, 0, f, w)[0] == top);
    } else {
        let before = rows(blocks, top, (depth - 1) as nat, f, w);
        let last = row_at(blocks, top, depth, f, w);
        lemma_all_in_joined(before, last, blocks);
        if d < depth {
            lemma_row_in(blocks, top, (depth - 1) as nat, f, w, d);
        }
    }
}

/// Whether what a descriptor tells holds up.
pub(crate) fn try_stream<L2: BlockLayer>(
    layer2: &mut L2,
    d: &StreamDescriptor,
    piece_size: usize,
    fan_out: u64,
) -> (r: Result<bool, SfsError>)
    requires
        old(layer2).wf(),
        fan_out >= 2,
        fan_out * old(layer2).iwidth() <= old(layer2).bsize(),
        1 <= piece_size <= 0x4000_0000,
        ({
            let m = Make {
                size: old(layer2).bsize(),
                piece: piece_size as nat,
                fan_out: fan_out as nat,
                width: old(layer2).iwidth(),
            };
            &&& told_fits(old(layer2).blocks(), *d, m)
            &&& all_in(told_blocks(old(layer2).blocks(), *d, m), old(layer2).blocks())
        }),
    ensures
        unchanged(*old(layer2), *final(layer2)),
        (r is Ok) == (final(layer2).faults() == old(layer2).faults()),
        r matches Ok(good) ==> good == holds_up(
            old(layer2).blocks(),
            *d,
            Make {
                size: old(layer2).bsize(),
                piece: piece_size as nat,
                fan_out: fan_out as nat,
                width: old(layer2).iwidth(),
            },
        ),
{
    let ghost blocks = layer2.blocks();
    let ghost w = layer2.iwidth();
    let ghost f = fan_out as nat;
    let ghost m = Make {
        size: layer2.bsize(),
        piece: piece_size as nat,
        fan_out: f,
        width: w,
    };
    proof {
        layer2.lemma_wf();
    }
    let compressed: bool = d.is_compressed();
    let unit: usize = if compressed {
        piece_size
    } else {
        layer2.block_size()
    };
    let count: u64 = data_blocks_needed(d.reserved, unit);
    proof {
        lemma_ceil_covers(d.reserved as nat, unit as nat);
        if d.reserved == count * unit {
        } else {
            assert(d.reserved % (unit as u64) != 0) by {
                if d.reserved % (unit as u64) == 0 {
                    let k = (d.reserved / (unit as u64)) as nat;
                    vstd::arithmetic::div_mod::lemma_fundamental_div_mod(
                        d.reserved as int,
                        unit as int,
                    );
                    assert(d.reserved == k * unit) by (nonlinear_arith)
                        requires
                            d.reserved == (unit as int) * (k as int) + 0,
                    ;
                    lemma_ceil_exact(k, unit as nat);
                }
            }
        }
        if d.reserved == count * unit {
            assert(d.reserved % (unit as u64) == 0) by {
                vstd::arithmetic::div_mod::lemma_mod_multiples_basic(count as int, unit as int);
            }
        }
    }
    if d.reserved % (unit as u64) != 0 {
        return Ok(false);
    }
    if count == 0 {
        assert(d.reserved == 0) by (nonlinear_arith)
            requires
                d.reserved == count * unit,
                count == 0,
        ;
        return Ok(true);
    }
    let depth: u32 = pyramid_depth(count, fan_out);
    proof {
        assert(d.reserved > 0) by {
            if d.reserved == 0 {
                lemma_ceil_exact(0, unit as nat);
            }
        }
        lemma_depth_unique(count as nat, f, depth as nat, depth_of(count as nat, f));
        lemma_all_in_joined(
            rows(blocks, d.top_block, depth as nat, f, w),
            piece_blocks(blocks, told_leaves(blocks, *d, m), m.size, w),
            blocks,
        );
        lemma_row_in(blocks, d.top_block, depth as nat, f, w, 0);
    }
    let mut row: Vec<u64> = Vec::new();
    row.push(d.top_block);
    assert(row@ =~= seq![d.top_block]);
    let mut step: u32 = 0;
    while step < depth
        invariant
            step <= depth,
            layer2.wf(),
            unchanged(*old(layer2), *layer2),
            layer2.faults() == old(layer2).faults(),
            blocks == layer2.blocks(),
            w == layer2.iwidth(),
            f == fan_out,
            f >= 2,
            f * w <= layer2.bsize(),
            all_in(rows(blocks, d.top_block, depth as nat, f, w), blocks),
            row@ == row_at(blocks, d.top_block, step as nat, f, w),
            row@.len() >= 1,
            well_linked(blocks, d.top_block, step as nat, f, w),
            m.fan_out == f,
            m.width == w,
            count > 0,
            count == ceil_div(d.reserved as nat, unit_of(d.compressed(), m)),
            told_depth(*d, m) == depth,
            m == (Make {
                size: old(layer2).bsize(),
                piece: piece_size as nat,
                fan_out: fan_out as nat,
                width: old(layer2).iwidth(),
            }),
            blocks == old(layer2).blocks(),
        decreases depth - step,
    {
        proof {
            lemma_row_in(blocks, d.top_block, depth as nat, f, w, step as nat);
        }
        match follow_row(layer2, &row, fan_out) {
            Ok(Some(next)) => {
                proof {
                    assert(next@.len() > 0) by (nonlinear_arith)
                        requires
                            (row@.len() - 1) * f < next@.len(),
                            row@.len() >= 1,
                            f >= 2,
                    ;
                }
                row = next;
            },
            Ok(None) => {
                proof {
                    if holds_up(blocks, *d, m) {
                        lemma_linked_at(blocks, d.top_block, depth as nat, f, w, step as nat);
                    }
                }
                return Ok(false);
            },
            Err(e) => {
                return Err(e);
            },
        }
        step = step + 1;
    }
    if row.len() as u64 != count {
        return Ok(false);
    }
    if compressed {
        proof {
            lemma_row_in(blocks, d.top_block, depth as nat, f, w, depth as nat);
        }
        try_pieces(layer2, &row, piece_size)
    } else {
        Ok(true)
    }
}

// ---------------------------------------------------------------------------
// All streams of a table
// ---------------------------------------------------------------------------

/// The table that a descriptor leads to.
pub open spec fn led_table(blocks: Map<u64, Seq<u8>>, td: StreamDescriptor, m: Make) -> Seq<u8> {
    told_table(blocks, told_leaves(blocks, td, m), td.size as nat, m.size)
}

/// What the first `k` descriptors of a table tell holds up.
pub open spec fn listed_hold_up(
    blocks: Map<u64, Seq<u8>>,
    table: Seq<u8>,
    k: nat,
    m: Make,
) -> bool {
    forall|i: int|
        0 <= i < k && !(#[trigger] slot_of(table, i)).free() ==> holds_up(
            blocks,
            slot_of(table, i),
            m,
        )
}

/// The table and all streams hold up, and the table has a number for each.
pub open spec fn all_hold_up(blocks: Map<u64, Seq<u8>>, td: StreamDescriptor, m: Make) -> bool {
    let table = led_table(blocks, td, m);
    &&& holds_up(blocks, td, m)
    &&& table.len() % 25 == 0
    &&& slot_count(table) <= sentinel(m.width)
    &&& listed_hold_up(blocks, table, slot_count(table), m)
}

/// What the descriptors tell is possible, and every block in use belongs to one of
/// them.
pub open spec fn all_fit_together(
    blocks: Map<u64, Seq<u8>>,
    td: StreamDescriptor,
    m: Make,
) -> bool {
    let table = led_table(blocks, td, m);
    &&& told_fits(blocks, td, m)
    &&& td.size <= told_leaves(blocks, td, m).len() * m.size
    &&& listed_fit(blocks, table, slot_count(table), m)
    &&& claims_fit(
        told_blocks(blocks, td, m) + listed_blocks(blocks, table, slot_count(table), m),
        blocks,
    )
}

/// The streams that a table leads to.
pub open spec fn told_held(blocks: Map<u64, Seq<u8>>, table: Seq<u8>, m: Make) -> Map<u64, Held> {
    Map::new(
        |id: u64| in_table(table, id),
        |id: u64|
            Held {
                desc: slot_of(table, id as int),
                tree: told_tree(blocks, slot_of(table, id as int), m),
            },
    )
}

proof fn lemma_joined_parts(a: Seq<u64>, c: Seq<u64>)
    requires
        (a + c).no_duplicates(),
    ensures
        a.no_duplicates(),
        c.no_duplicates(),
        forall|b: u64| #[trigger] a.contains(b) ==> !c.contains(b),
{
    let all = a + c;
    assert forall|i: int, j: int| 0 <= i < j < a.len() implies a[i] != a[j] by {
        assert(all[i] != all[j]);
    }
    assert forall|i: int, j: int| 0 <= i < j < c.len() implies c[i] != c[j] by {
        assert(all[a.len() + i] != all[a.len() + j]);
    }
    assert forall|b: u64| #[trigger] a.contains(b) implies !c.contains(b) by {
        if c.contains(b) {
            let i = choose|i: int| 0 <= i < a.len() && a[i] == b;
            let j = choose|j: int| 0 <= j < c.len() && c[j] == b;
            assert(all[i] == all[a.len() + j]);
        }
    }
}

/// A stream of the table has blocks of its own.
proof fn lemma_listed_part(blocks: Map<u64, Seq<u8>>, table: Seq<u8>, k: nat, m: Make, i: int)
    requires
        0 <= i < k,
        !slot_of(table, i).free(),
        listed_blocks(blocks, table, k, m).no_duplicates(),
    ensures
        told_blocks(blocks, slot_of(table, i), m).no_duplicates(),
        forall|b: u64| #[trigger]
            told_blocks(blocks, slot_of(table, i), m).contains(b) ==> listed_blocks(
                blocks,
                table,
                k,
                m,
            ).contains(b),
    decreases k,
{
    let before = listed_blocks(blocks, table, (k - 1) as nat, m);
    let d = slot_of(table, k - 1);
    if !d.free() {
        lemma_joined_parts(before, told_blocks(blocks, d, m));
        lemma_joined_contains(before, told_blocks(blocks, d, m));
    }
    if i < k - 1 {
        lemma_listed_part(blocks, table, (k - 1) as nat, m, i);
    }
}

proof fn lemma_listed_apart(
    blocks: Map<u64, Seq<u8>>,
    table: Seq<u8>,
    k: nat,
    m: Make,
    i: int,
    j: int,
)
    requires
        0 <= i < j < k,
        !slot_of(table, i).free(),
        !slot_of(table, j).free(),
        listed_blocks(blocks, table, k, m).no_duplicates(),
    ensures
        forall|b: u64| #[trigger]
            told_blocks(blocks, slot_of(table, i), m).contains(b) ==> !told_blocks(
                blocks,
                slot_of(table, j),
                m,
            ).contains(b),
    decreases k,
{
    let before = listed_blocks(blocks, table, (k - 1) as nat, m);
    let d = slot_of(table, k - 1);
    if !d.free() {
        lemma_joined_parts(before, told_blocks(blocks, d, m));
    }
    if j < k - 1 {
        lemma_listed_apart(blocks, table, (k - 1) as nat, m, i, j);
    } else {
        lemma_listed_part(blocks, table, (k - 1) as nat, m, i);
    }
}

/// The stream of the table that a block belongs to.
proof fn lemma_listed_owner(
    blocks: Map<u64, Seq<u8>>,
    table: Seq<u8>,
    k: nat,
    m: Make,
    b: u64,
) -> (i: int)
    requires
        listed_blocks(blocks, table, k, m).contains(b),
    ensures
        0 <= i < k,
        !slot_of(table, i).free(),
        told_blocks(blocks, slot_of(table, i), m).contains(b),
    decreases k,
{
    if k == 0 {
        0
    } else {
        let before = listed_blocks(blocks, table, (k - 1) as nat, m);
        let d = slot_of(table, k - 1);
        lemma_joined_contains(before, told_blocks(blocks, d, m));
        if !d.free() && told_blocks(blocks, d, m).contains(b) {
            k - 1
        } else {
            lemma_listed_owner(blocks, table, (k - 1) as nat, m, b)
        }
    }
}

/// What fits together and holds up is a table with its streams, and they have
/// every block in use.
pub proof fn lemma_all_hold_up(blocks: Map<u64, Seq<u8>>, td: StreamDescriptor, m: Make)
    requires
        measures(blocks, m),
        !td.compressed(),
        all_fit_together(blocks, td, m),
        all_hold_up(blocks, td, m),
    ensures
        ({
            let table = led_table(blocks, td, m);
            let tt = told_tree(blocks, td, m);
            let held = told_held(blocks, table, m);
            &&& layout_ok(blocks, td, tt, held, m)
            &&& state_of(blocks, td, tt, m).data == table
            &&& table_ok(table, held, Map::<u64, HandleInfo>::empty(), sentinel(m.width))
            &&& all_owned(blocks, tt, held)
        }),
{
    let table = led_table(blocks, td, m);
    let n = slot_count(table);
    let tt = told_tree(blocks, td, m);
    let held = told_held(blocks, table, m);
    let a = told_blocks(blocks, td, m);
    let c = listed_blocks(blocks, table, n, m);
    lemma_joined_parts(a, c);
    lemma_joined_contains(a, c);
    assert forall|i: int| 0 <= i < a.len() implies blocks.contains_key(#[trigger] a[i]) by {
        assert(a.contains(a[i]));
        assert((a + c).contains(a[i]));
    }
    lemma_holds_up(blocks, td, m);
    lemma_told(blocks, td, tt, m);
    assert forall|id: u64| #[trigger] held.contains_key(id) implies stream_ok(
        blocks,
        held[id].desc,
        held[id].tree,
        m,
    ) && enumerates(told_blocks(blocks, held[id].desc, m), held[id].tree) && (forall|b: u64|
        #[trigger]
        told_blocks(blocks, held[id].desc, m).contains(b) ==> c.contains(b)) by {
        let d = slot_of(table, id as int);
        let s = told_blocks(blocks, d, m);
        lemma_listed_part(blocks, table, n, m, id as int);
        assert forall|i: int| 0 <= i < s.len() implies blocks.contains_key(#[trigger] s[i]) by {
            assert(s.contains(s[i]));
            assert((a + c).contains(s[i]));
        }
        lemma_holds_up(blocks, d, m);
        lemma_told(blocks, d, held[id].tree, m);
    }
    assert forall|id: u64| #[trigger] held.contains_key(id) implies apart(tt, held[id].tree) by {
        assert forall|b: u64| !(#[trigger] in_tree(tt, b) && in_tree(held[id].tree, b)) by {
            if in_tree(tt, b) && in_tree(held[id].tree, b) {
                assert(a.contains(b));
                assert(told_blocks(blocks, held[id].desc, m).contains(b));
            }
        }
    }
    assert forall|i: u64, j: u64| #[trigger]
        held.contains_key(i) && #[trigger] held.contains_key(j) && i != j implies apart(
        held[i].tree,
        held[j].tree,
    ) by {
        if i < j {
            lemma_listed_apart(blocks, table, n, m, i as int, j as int);
        } else {
            lemma_listed_apart(blocks, table, n, m, j as int, i as int);
        }
        assert forall|b: u64| !(#[trigger] in_tree(held[i].tree, b) && in_tree(
            held[j].tree,
            b,
        )) by {
            if in_tree(held[i].tree, b) && in_tree(held[j].tree, b) {
                assert(told_blocks(blocks, held[i].desc, m).contains(b));
                assert(told_blocks(blocks, held[j].desc, m).contains(b));
            }
        }
    }
    assert forall|b: u64| #[trigger] blocks.contains_key(b) implies owned(tt, held, b) by {
        assert((a + c).contains(b));
        if a.contains(b) {
            assert(in_tree(tt, b));
        } else {
            let i = lemma_listed_owner(blocks, table, n, m, b);
            lemma_pow256_values();
            lemma_pow256_monotone(m.width, 8);
            let id = i as u64;
            assert(held.contains_key(id));
            assert(in_tree(held[id].tree, b));
        }
    }
}

/// A table with its streams holds up.
pub proof fn lemma_layout_holds_up(
    blocks: Map<u64, Seq<u8>>,
    td: StreamDescriptor,
    tt: Tree,
    held: Map<u64, Held>,
    m: Make,
)
    requires
        measures(blocks, m),
        !td.compressed(),
        layout_ok(blocks, td, tt, held, m),
        table_ok(
            state_of(blocks, td, tt, m).data,
            held,
            Map::<u64, HandleInfo>::empty(),
            sentinel(m.width),
        ),
        all_owned(blocks, tt, held),
    ensures
        all_fit_together(blocks, td, m),
        all_hold_up(blocks, td, m),
        led_table(blocks, td, m) == state_of(blocks, td, tt, m).data,
{
    let table = state_of(blocks, td, tt, m).data;
    assert forall|id: u64| #[trigger] held.contains_key(id) implies slot_of(table, id as int)
        == held[id].desc by {
        assert(!has_writer(Map::<u64, HandleInfo>::empty(), id));
    }
    lemma_stored_claims(blocks, td, tt, held, m);
    lemma_stream_holds_up(blocks, td, tt, m);
    let n = slot_count(table);
    lemma_pow256_values();
    lemma_pow256_monotone(m.width, 8);
    assert forall|i: int| 0 <= i < n && !(#[trigger] slot_of(table, i)).free() implies holds_up(
        blocks,
        slot_of(table, i),
        m,
    ) by {
        let id = i as u64;
        assert(in_table(table, id));
        assert(held.contains_key(id));
        lemma_stream_holds_up(blocks, held[id].desc, held[id].tree, m);
    }
}

/// Whether what the descriptors of a table tell holds up.
pub(crate) fn try_listed<L2: BlockLayer>(
    layer2: &mut L2,
    table: &Vec<u8>,
    piece_size: usize,
    fan_out: u64,
) -> (r: Result<bool, SfsError>)
    requires
        old(layer2).wf(),
        fan_out >= 2,
        fan_out * old(layer2).iwidth() <= old(layer2).bsize(),
        1 <= piece_size <= 0x4000_0000,
        ({
            let blocks = old(layer2).blocks();
            let m = Make {
                size: old(layer2).bsize(),
                piece: piece_size as nat,
                fan_out: fan_out as nat,
                width: old(layer2).iwidth(),
            };
            let n = slot_count(table@);
            &&& listed_fit(blocks, table@, n, m)
            &&& all_in(listed_blocks(blocks, table@, n, m), blocks)
        }),
    ensures
        unchanged(*old(layer2), *final(layer2)),
        (r is Ok) == (final(layer2).faults() == old(layer2).faults()),
        r matches Ok(good) ==> good == listed_hold_up(
            old(layer2).blocks(),
            table@,
            slot_count(table@),
            Make {
                size: old(layer2).bsize(),
                piece: piece_size as nat,
                fan_out: fan_out as nat,
                width: old(layer2).iwidth(),
            },
        ),
{
    let ghost blocks = layer2.blocks();
    let ghost m = Make {
        size: layer2.bsize(),
        piece: piece_size as nat,
        fan_out: fan_out as nat,
        width: layer2.iwidth(),
    };
    let count: usize = table.len() / 25;
    let mut i: usize = 0;
    while i < count
        invariant
            i <= count == slot_count(table@),
            count * 25 <= table@.len(),
            table@.len() == table.len(),
            layer2.wf(),
            unchanged(*old(layer2), *layer2),
            layer2.faults() == old(layer2).faults(),
            fan_out >= 2,
            fan_out * layer2.iwidth() <= layer2.bsize(),
            1 <= piece_size <= 0x4000_0000,
            blocks == layer2.blocks(),
            m == (Make {
                size: layer2.bsize(),
                piece: piece_size as nat,
                fan_out: fan_out as nat,
                width: layer2.iwidth(),
            }),
            listed_fit(blocks, table@, count as nat, m),
            all_in(listed_blocks(blocks, table@, count as nat, m), blocks),
            listed_hold_up(blocks, table@, i as nat, m),
        decreases count - i,
    {
        let record: Vec<u8> = copy_range(table.as_slice(), 25 * i, 25 * i + 25);
        let d: StreamDescriptor = StreamDescriptor::from_bytes(record.as_slice());
        assert(d == slot_of(table@, i as int));
        if !d.is_free() {
            proof {
                lemma_listed_in(blocks, table@, count as nat, i as int, m);
            }
            match try_stream(layer2, &d, piece_size, fan_out) {
                Ok(true) => {},
                Ok(false) => {
                    return Ok(false);
                },
                Err(e) => {
                    return Err(e);
                },
            }
        }
        i = i + 1;
    }
    Ok(true)
}

} // verus!
