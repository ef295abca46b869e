//! What the checks find of streams that are in order: every block of theirs,
//! and each of them once.

use crate::block_layer::{claims_fit, sentinel};
use crate::compressed::{piece_ok, redir_ok};
use crate::descriptor::StreamDescriptor;
use crate::pyramid::{
    child_index, has_block, index_at, is_place, is_pyramid, level_count, lemma_depth_unique,
    lemma_level_fits, lemma_top_is_alone, node_ok,
};
use crate::stream_check::{
    all_fit, below, children_upto, depth_of, listed_blocks, listed_fit, piece_blocks, redir_blocks,
    row_at, rows, told_blocks, told_fits, told_leaves, told_table,
};
use crate::stream_ops::{apart, in_tree, lemma_capacity, state_of, stream_ok, unit_of, Make, Tree};
use crate::stream_table::{all_owned, in_table, layout_ok, owned, slot_count, slot_of, Held};
use crate::stream_tree::{
    flat, leaves, lemma_ceil_exact, lemma_flat_contains, lemma_flat_no_duplicates,
};
use vstd::prelude::*;

verus! {

/// The blocks of `t`, each of them once.
pub open spec fn enumerates(s: Seq<u64>, t: Tree) -> bool {
    &&& s.no_duplicates()
    &&& forall|b: u64| #[trigger] s.contains(b) <==> in_tree(t, b)
}

proof fn lemma_children(
    blocks: Map<u64, Seq<u8>>,
    levels: Seq<Seq<u64>>,
    n: nat,
    f: nat,
    w: nat,
    l: int,
    i: int,
    k: nat,
)
    requires
        is_pyramid(blocks, levels, n, f, w),
        1 <= l < levels.len(),
        0 <= i < levels[l].len(),
        0 <= i * f,
        k <= f,
        forall|b: u64| #[trigger] blocks.contains_key(b) ==> b < sentinel(w),
    ensures
        ({
            let row = levels[l - 1];
            let from = if i * f < row.len() {
                i * f
            } else {
                row.len() as int
            };
            let to = if i * f + k < row.len() {
                i * f + k
            } else {
                row.len() as int
            };
            children_upto(blocks[levels[l][i]], k, w) == row.subrange(from, to)
        }),
    decreases k,
{
    let row = levels[l - 1];
    let block = blocks[levels[l][i]];
    if k == 0 {
        assert(children_upto(block, k, w) =~= Seq::<u64>::empty());
    } else {
        lemma_children(blocks, levels, n, f, w, l, i, (k - 1) as nat);
        assert(is_place(levels, l, i));
        assert(node_ok(blocks, levels, l, i, f, w));
        assert(index_at(block, k - 1, w) == child_index(levels, l, i, k - 1, f, w));
        let c = i * f + (k - 1);
        if c < row.len() {
            assert(is_place(levels, l - 1, c));
            assert(blocks.contains_key(levels[l - 1][c]));
            assert(children_upto(block, k, w) =~= row.subrange(i * f, c + 1));
        }
    }
}

proof fn lemma_below(
    blocks: Map<u64, Seq<u8>>,
    levels: Seq<Seq<u64>>,
    n: nat,
    f: nat,
    w: nat,
    l: int,
    i: int,
)
    requires
        is_pyramid(blocks, levels, n, f, w),
        f >= 2,
        1 <= l < levels.len(),
        0 <= i <= levels[l].len(),
        forall|b: u64| #[trigger] blocks.contains_key(b) ==> b < sentinel(w),
    ensures
        below(blocks, levels[l].take(i), f, w) == levels[l - 1].take(
            if i * f < levels[l - 1].len() {
                i * f
            } else {
                levels[l - 1].len() as int
            },
        ),
    decreases i,
{
    let row = levels[l - 1];
    if i == 0 {
        assert(0 * f == 0) by (nonlinear_arith);
        assert(below(blocks, levels[l].take(i), f, w) =~= row.take(0));
    } else {
        lemma_below(blocks, levels, n, f, w, l, i - 1);
        let part = levels[l].take(i);
        assert(part.drop_last() =~= levels[l].take(i - 1));
        assert(part.last() == levels[l][i - 1]);
        assert((i - 1) * f >= 0) by (nonlinear_arith)
            requires
                i >= 1,
                f >= 0,
        ;
        assert(i * f == (i - 1) * f + f) by (nonlinear_arith);
        lemma_children(blocks, levels, n, f, w, l, i - 1, f);
        assert(below(blocks, part, f, w) =~= row.take(
            if i * f < row.len() {
                i * f
            } else {
                row.len() as int
            },
        ));
    }
}

/// The rows that are reached from the top of a pyramid are its levels.
pub proof fn lemma_rows(
    blocks: Map<u64, Seq<u8>>,
    levels: Seq<Seq<u64>>,
    n: nat,
    f: nat,
    w: nat,
    d: nat,
)
    requires
        is_pyramid(blocks, levels, n, f, w),
        f >= 2,
        d < levels.len(),
        forall|b: u64| #[trigger] blocks.contains_key(b) ==> b < sentinel(w),
    ensures
        ({
            let top = levels[levels.len() - 1][0];
            let l = levels.len() - 1 - d;
            &&& row_at(blocks, top, d, f, w) == levels[l]
            &&& rows(blocks, top, d, f, w) + flat(levels.take(l)) == flat(levels)
        }),
    decreases d,
{
    let top = levels[levels.len() - 1][0];
    let l = levels.len() - 1 - d;
    if d == 0 {
        lemma_top_is_alone(n, f, (levels.len() - 1) as nat);
        assert(levels[l].len() == level_count(n, f, l as nat));
        assert(levels[l] =~= seq![top]);
        assert(levels.drop_last() =~= levels.take(l));
        assert(levels.last() == levels[l]);
    } else {
        lemma_rows(blocks, levels, n, f, w, (d - 1) as nat);
        let row = levels[l + 1];
        lemma_below(blocks, levels, n, f, w, l + 1, row.len() as int);
        assert(row.take(row.len() as int) =~= row);
        lemma_level_fits(n, f, l as nat);
        assert(levels[l + 1].len() == level_count(n, f, (l + 1) as nat));
        assert(levels[l].len() == level_count(n, f, l as nat));
        assert(levels[l].take(levels[l].len() as int) =~= levels[l]);
        if row.len() * f < levels[l].len() {
            assert(false);
        }
        assert(below(blocks, row, f, w) == levels[l]);
        let part = levels.take(l + 1);
        assert(part.drop_last() =~= levels.take(l));
        assert(part.last() == levels[l]);
        let before = rows(blocks, top, (d - 1) as nat, f, w);
        assert(before + (levels[l] + flat(levels.take(l))) =~= (before + levels[l]) + flat(
            levels.take(l),
        ));
    }
}

pub proof fn lemma_pieces(
    blocks: Map<u64, Seq<u8>>,
    row: Seq<u64>,
    phys: Seq<Seq<u64>>,
    size: nat,
    w: nat,
)
    requires
        row.len() == phys.len(),
        forall|i: int|
            0 <= i < phys.len() ==> redir_ok(blocks[#[trigger] row[i]], phys[i], size, w),
    ensures
        piece_blocks(blocks, row, size, w) == flat(phys),
        all_fit(blocks, row, size, w),
    decreases row.len(),
{
    if row.len() > 0 {
        let n = row.len() - 1;
        assert forall|i: int| 0 <= i < n implies redir_ok(
            blocks[#[trigger] row.drop_last()[i]],
            phys.drop_last()[i],
            size,
            w,
        ) by {
            assert(row.drop_last()[i] == row[i]);
        }
        lemma_pieces(blocks, row.drop_last(), phys.drop_last(), size, w);
        assert(redir_ok(blocks[row[n]], phys[n], size, w));
        assert(redir_blocks(blocks[row.last()], size, w) =~= phys.last());
    }
}

/// A descriptor that describes a stream leads to all blocks of the stream, and to
/// each of them once.
pub proof fn lemma_told(blocks: Map<u64, Seq<u8>>, d: StreamDescriptor, t: Tree, m: Make)
    requires
        stream_ok(blocks, d, t, m),
        m.size >= 1,
        m.piece >= 1,
        m.fan_out >= 2,
        forall|b: u64| #[trigger] blocks.contains_key(b) ==> b < sentinel(m.width),
    ensures
        enumerates(told_blocks(blocks, d, m), t),
        told_leaves(blocks, d, m) == leaves(t.levels),
        told_fits(blocks, d, m),
{
    let lv = t.levels;
    let f = m.fan_out;
    let w = m.width;
    let unit = unit_of(d.compressed(), m);
    let n = leaves(lv).len();
    lemma_ceil_exact(n, unit);
    lemma_flat_contains_all(t);
    if lv.len() == 0 {
        assert(d.reserved == 0) by {
            assert(0 * unit == 0) by (nonlinear_arith);
        }
        if d.compressed() {
            assert(t.phys.len() == 0);
        }
        assert(told_leaves(blocks, d, m) =~= leaves(lv));
        assert(flat(lv) =~= Seq::<u64>::empty());
        assert(flat(t.phys) =~= Seq::<u64>::empty());
        assert forall|b: u64| !#[trigger] in_tree(t, b) by {
            assert(flat(lv).contains(b) || flat(t.phys).contains(b) <==> in_tree(t, b));
        }
    } else {
        let depth = (lv.len() - 1) as nat;
        lemma_depth_unique(n, f, depth, depth_of(n, f));
        assert(n >= 1);
        lemma_rows(blocks, lv, n, f, w, depth);
        assert(lv.take(0) =~= Seq::<Seq<u64>>::empty());
        assert(rows(blocks, d.top_block, depth, f, w) + flat(lv.take(0)) =~= rows(
            blocks,
            d.top_block,
            depth,
            f,
            w,
        ));
        lemma_flat_no_duplicates(lv);
        if d.compressed() {
            let row = lv[0];
            assert forall|i: int| 0 <= i < t.phys.len() implies redir_ok(
                blocks[#[trigger] row[i]],
                t.phys[i],
                m.size,
                w,
            ) by {
                assert(piece_ok(blocks, leaves(lv)[i], t.phys[i], m.size, w, m.piece));
            }
            lemma_pieces(blocks, row, t.phys, m.size, w);
            lemma_flat_no_duplicates(t.phys);
            let a = flat(lv);
            let c = flat(t.phys);
            let all = a + c;
            assert forall|i: int, j: int| 0 <= i < j < all.len() implies all[i] != all[j] by {
                if j < a.len() {
                    assert(a[i] != a[j]);
                } else if i >= a.len() {
                    assert(c[i - a.len()] != c[j - a.len()]);
                } else {
                    let b = all[j];
                    assert(c.contains(c[j - a.len()]));
                    lemma_flat_contains(t.phys, b);
                    let (x, y) = choose|x: int, y: int|
                        is_place(t.phys, x, y) && #[trigger] t.phys[x][y] == b;
                    assert(!has_block(lv, t.phys[x][y]));
                    assert(a.contains(a[i]));
                    lemma_flat_contains(lv, a[i]);
                }
            }
            lemma_joined_contains(a, c);
        } else {
            assert(flat(t.phys) =~= Seq::<u64>::empty());
            lemma_joined_contains(flat(lv), flat(t.phys));
        }
    }
}

/// A descriptor describes one stream at most: the blocks of a stream are told by
/// its descriptor and by what the blocks hold.
pub proof fn lemma_stream_unique(
    blocks: Map<u64, Seq<u8>>,
    d: StreamDescriptor,
    t: Tree,
    u: Tree,
    m: Make,
)
    requires
        stream_ok(blocks, d, t, m),
        stream_ok(blocks, d, u, m),
        m.size >= 1,
        m.piece >= 1,
        m.fan_out >= 2,
        forall|b: u64| #[trigger] blocks.contains_key(b) ==> b < sentinel(m.width),
    ensures
        t == u,
{
    lemma_told(blocks, d, t, m);
    lemma_told(blocks, d, u, m);
    let f = m.fan_out;
    let w = m.width;
    let n = leaves(t.levels).len();
    if t.levels.len() > 0 && u.levels.len() > 0 {
        let depth = (t.levels.len() - 1) as nat;
        lemma_depth_unique(n, f, depth, (u.levels.len() - 1) as nat);
        assert forall|l: int| 0 <= l < t.levels.len() implies t.levels[l] == u.levels[l] by {
            lemma_rows(blocks, t.levels, n, f, w, (depth - l) as nat);
            lemma_rows(blocks, u.levels, n, f, w, (depth - l) as nat);
        }
    } else if t.levels.len() > 0 {
        assert(leaves(t.levels).len() == 0);
    } else if u.levels.len() > 0 {
        assert(leaves(u.levels).len() == 0);
    }
    assert(t.levels =~= u.levels);
    if d.compressed() {
        let row = leaves(t.levels);
        assert forall|i: int| 0 <= i < t.phys.len() implies t.phys[i] == u.phys[i] by {
            assert(piece_ok(blocks, row[i], t.phys[i], m.size, w, m.piece));
            assert(piece_ok(blocks, row[i], u.phys[i], m.size, w, m.piece));
            assert forall|j: int| 0 <= j < t.phys[i].len() implies t.phys[i][j]
                == u.phys[i][j] by {
                assert(crate::compressed::packed_ptr(blocks[row[i]], j, w) == t.phys[i][j]);
                assert(crate::compressed::packed_ptr(blocks[row[i]], j, w) == u.phys[i][j]);
            }
            assert(t.phys[i] =~= u.phys[i]);
        }
    }
    assert(t.phys =~= u.phys);
}

proof fn lemma_flat_contains_all(t: Tree)
    ensures
        forall|b: u64| #[trigger]
            in_tree(t, b) <==> flat(t.levels).contains(b) || flat(t.phys).contains(b),
{
    assert forall|b: u64| #[trigger]
        in_tree(t, b) <==> flat(t.levels).contains(b) || flat(t.phys).contains(b) by {
        lemma_flat_contains(t.levels, b);
        lemma_flat_contains(t.phys, b);
    }
}

pub proof fn lemma_joined_contains(a: Seq<u64>, c: Seq<u64>)
    ensures
        forall|b: u64| #[trigger] (a + c).contains(b) <==> a.contains(b) || c.contains(b),
{
    assert forall|b: u64| #[trigger] (a + c).contains(b) <==> a.contains(b) || c.contains(b) by {
        let all = a + c;
        if a.contains(b) {
            let i = choose|i: int| 0 <= i < a.len() && a[i] == b;
            assert(all[i] == b);
        }
        if c.contains(b) {
            let i = choose|i: int| 0 <= i < c.len() && c[i] == b;
            assert(all[a.len() + i] == b);
        }
        if all.contains(b) {
            let i = choose|i: int| 0 <= i < all.len() && all[i] == b;
            if i < a.len() {
                assert(a[i] == b);
            } else {
                assert(c[i - a.len()] == b);
            }
        }
    }
}

proof fn lemma_joined_apart(a: Seq<u64>, c: Seq<u64>)
    requires
        a.no_duplicates(),
        c.no_duplicates(),
        forall|b: u64| #[trigger] a.contains(b) ==> !c.contains(b),
    ensures
        (a + c).no_duplicates(),
{
    let all = a + c;
    assert forall|i: int, j: int| 0 <= i < j < all.len() implies all[i] != all[j] by {
        if j < a.len() {
            assert(a[i] != a[j]);
        } else if i >= a.len() {
            assert(c[i - a.len()] != c[j - a.len()]);
        } else {
            assert(a.contains(a[i]));
            assert(c.contains(c[j - a.len()]));
        }
    }
}

/// Some stream with a number below `k` has block `b`.
pub open spec fn owned_below(held: Map<u64, Held>, k: nat, b: u64) -> bool {
    exists|id: u64| #[trigger] held.contains_key(id) && id < k && in_tree(held[id].tree, b)
}

/// The first `k` descriptors of a table that is in order lead to all blocks of
/// their streams, and to each of them once.
proof fn lemma_listed(
    blocks: Map<u64, Seq<u8>>,
    td: StreamDescriptor,
    tt: Tree,
    held: Map<u64, Held>,
    table: Seq<u8>,
    k: nat,
    m: Make,
)
    requires
        layout_ok(blocks, td, tt, held, m),
        m.fan_out >= 2,
        forall|b: u64| #[trigger] blocks.contains_key(b) ==> b < sentinel(m.width),
        k <= slot_count(table) <= u64::MAX,
        forall|id: u64| #[trigger] held.contains_key(id) <==> in_table(table, id),
        forall|id: u64| #[trigger]
            held.contains_key(id) ==> slot_of(table, id as int) == held[id].desc,
    ensures
        listed_blocks(blocks, table, k, m).no_duplicates(),
        listed_fit(blocks, table, k, m),
        forall|b: u64| #[trigger]
            listed_blocks(blocks, table, k, m).contains(b) <==> owned_below(held, k, b),
    decreases k,
{
    if k > 0 {
        let j = (k - 1) as nat;
        let id = j as u64;
        lemma_listed(blocks, td, tt, held, table, j, m);
        let before = listed_blocks(blocks, table, j, m);
        let d = slot_of(table, j as int);
        assert(held.contains_key(id) <==> in_table(table, id));
        if d.free() {
            assert forall|b: u64| #[trigger] owned_below(held, k, b) == owned_below(
                held,
                j,
                b,
            ) by {
                if owned_below(held, k, b) {
                    let x = choose|x: u64| #[trigger]
                        held.contains_key(x) && x < k && in_tree(held[x].tree, b);
                    assert(held.contains_key(x) && x < j && in_tree(held[x].tree, b));
                }
                if owned_below(held, j, b) {
                    let x = choose|x: u64| #[trigger]
                        held.contains_key(x) && x < j && in_tree(held[x].tree, b);
                    assert(held.contains_key(x) && x < k && in_tree(held[x].tree, b));
                }
            }
        } else {
            let t = held[id].tree;
            lemma_told(blocks, d, t, m);
            let more = told_blocks(blocks, d, m);
            assert forall|b: u64| #[trigger] before.contains(b) implies !more.contains(b) by {
                assert(owned_below(held, j, b));
                let x = choose|x: u64| #[trigger]
                    held.contains_key(x) && x < j && in_tree(held[x].tree, b);
                assert(held.contains_key(x) && held.contains_key(id));
                assert(apart(held[x].tree, t));
            }
            lemma_joined_apart(before, more);
            lemma_joined_contains(before, more);
            assert forall|b: u64| #[trigger]
                listed_blocks(blocks, table, k, m).contains(b) <==> owned_below(held, k, b) by {
                if owned_below(held, k, b) {
                    let x = choose|x: u64| #[trigger]
                        held.contains_key(x) && x < k && in_tree(held[x].tree, b);
                    if x < j {
                        assert(held.contains_key(x) && x < j && in_tree(held[x].tree, b));
                        assert(owned_below(held, j, b));
                    }
                }
                if before.contains(b) {
                    assert(owned_below(held, j, b));
                    let x = choose|x: u64| #[trigger]
                        held.contains_key(x) && x < j && in_tree(held[x].tree, b);
                    assert(held.contains_key(x) && x < k && in_tree(held[x].tree, b));
                }
                if more.contains(b) {
                    assert(held.contains_key(id) && id < k && in_tree(held[id].tree, b));
                }
            }
        }
    }
}

/// What is stored in order: the table, read by its blocks, and the claims of all
/// streams, which fit the blocks in use where every one of them has an owner.
pub proof fn lemma_stored_claims(
    blocks: Map<u64, Seq<u8>>,
    td: StreamDescriptor,
    tt: Tree,
    held: Map<u64, Held>,
    m: Make,
)
    requires
        layout_ok(blocks, td, tt, held, m),
        m.fan_out >= 2,
        !td.compressed(),
        forall|b: u64| #[trigger] blocks.contains_key(b) ==> b < sentinel(m.width),
        ({
            let table = state_of(blocks, td, tt, m).data;
            &&& forall|id: u64| #[trigger] held.contains_key(id) <==> in_table(table, id)
            &&& forall|id: u64| #[trigger]
                held.contains_key(id) ==> slot_of(table, id as int) == held[id].desc
        }),
        all_owned(blocks, tt, held),
    ensures
        ({
            let table = state_of(blocks, td, tt, m).data;
            let row = told_leaves(blocks, td, m);
            &&& told_fits(blocks, td, m)
            &&& td.size <= row.len() * m.size
            &&& told_table(blocks, row, td.size as nat, m.size) == table
            &&& listed_fit(blocks, table, slot_count(table), m)
            &&& claims_fit(
                told_blocks(blocks, td, m) + listed_blocks(blocks, table, slot_count(table), m),
                blocks,
            )
        }),
{
    let table = state_of(blocks, td, tt, m).data;
    lemma_told(blocks, td, tt, m);
    lemma_capacity(blocks, td, tt, m);
    let row = told_leaves(blocks, td, m);
    let n = slot_count(table);
    lemma_listed(blocks, td, tt, held, table, n, m);
    let a = told_blocks(blocks, td, m);
    let c = listed_blocks(blocks, table, n, m);
    assert forall|b: u64| #[trigger] a.contains(b) implies !c.contains(b) by {
        if c.contains(b) {
            assert(owned_below(held, n, b));
            let x = choose|x: u64| #[trigger]
                held.contains_key(x) && x < n && in_tree(held[x].tree, b);
            assert(apart(tt, held[x].tree));
            assert(in_tree(tt, b));
        }
    }
    lemma_joined_apart(a, c);
    lemma_joined_contains(a, c);
    crate::stream_ops::lemma_tree_held(blocks, td, tt, m);
    assert forall|b: u64| #[trigger] (a + c).contains(b) <==> blocks.contains_key(b) by {
        if blocks.contains_key(b) {
            assert(owned(tt, held, b));
            if !in_tree(tt, b) {
                let x = choose|x: u64| #[trigger]
                    held.contains_key(x) && in_tree(held[x].tree, b);
                assert(in_table(table, x));
                assert(held.contains_key(x) && x < n && in_tree(held[x].tree, b));
                assert(owned_below(held, n, b));
            }
        }
        if a.contains(b) {
            assert(in_tree(tt, b));
        }
        if c.contains(b) {
            assert(owned_below(held, n, b));
            let x = choose|x: u64| #[trigger]
                held.contains_key(x) && x < n && in_tree(held[x].tree, b);
            crate::stream_ops::lemma_tree_held(blocks, held[x].desc, held[x].tree, m);
        }
    }
}

} // verus!
