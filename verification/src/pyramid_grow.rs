//! Growing a pyramid.

use crate::block_layer::{same_make, sentinel, BlockLayer};
use crate::bytes::{lemma_pow256_monotone, pow256, push_le};
use crate::pyramid::{
    grown, has_block, index_at, index_bytes, is_place, is_pyramid, is_redirector, lemma_add_top,
    lemma_ancestor_step, lemma_append_children, lemma_div_mod, lemma_grown_redirector,
    lemma_grown_refl, lemma_grown_twice, lemma_index_bytes_len, lemma_index_write_many,
    lemma_level_count, lemma_level_fits, lemma_mul_div, lemma_powf_monotone, lemma_powf_pos,
    lemma_same_ancestors, lemma_top_is_alone, level_count, node_ok, powf, tree_ok, child_index,
};
use crate::pyramid_io::{
    block_sentinel, fan_ok, fill_sentinel, power, read_block_index, write_block_index,
};
use crate::types::{CacheMode, SfsError};
use vstd::prelude::*;

verus! {

/// Puts redirectors on top of a pyramid until it has `to_depth` levels of
/// them. Gives the new top block.
pub(crate) fn grow_depth<L2: BlockLayer>(
    layer2: &mut L2,
    top_block: u64,
    from_depth: u32,
    to_depth: u32,
    fan_out: u64,
    cache: CacheMode,
    tree: &mut Ghost<Seq<Seq<u64>>>,
    Ghost(n): Ghost<nat>,
) -> (r: Result<u64, SfsError>)
    requires
        fan_ok(*old(layer2), fan_out),
        is_pyramid(old(layer2).blocks(), old(tree)@, n, fan_out as nat, old(layer2).iwidth()),
        old(tree)@.len() == from_depth + 1,
        top_block == old(tree)@[from_depth as int][0],
        from_depth <= to_depth,
    ensures
        final(layer2).bsize() == old(layer2).bsize(),
        final(layer2).iwidth() == old(layer2).iwidth(),
        final(layer2).faults() >= old(layer2).faults(),
        (r is Ok) == (final(layer2).faults() == old(layer2).faults()),
        r matches Ok(top) ==> {
            let lv = final(tree)@;
            &&& same_make(*old(layer2), *final(layer2))
            &&& is_pyramid(final(layer2).blocks(), lv, n, fan_out as nat, old(layer2).iwidth())
            &&& lv.len() == to_depth + 1
            &&& top == lv[to_depth as int][0]
            &&& lv[0] == old(tree)@[0]
            &&& grown(old(layer2).blocks(), final(layer2).blocks(), old(tree)@, lv)
        },
{
    let ghost f = fan_out as nat;
    let ghost w = layer2.iwidth();
    let ghost b0 = layer2.blocks();
    let ghost lv0 = tree@;
    proof {
        lemma_grown_refl(b0, lv0);
        lemma_top_is_alone(n, f, from_depth as nat);
    }
    let mut current_top: u64 = top_block;
    let mut depth: u32 = from_depth;
    while depth < to_depth
        invariant
            fan_ok(*layer2, fan_out),
            same_make(*old(layer2), *layer2),
            layer2.faults() == old(layer2).faults(),
            f == fan_out,
            w == layer2.iwidth(),
            b0 == old(layer2).blocks(),
            lv0 == old(tree)@,
            lv0.len() >= 1,
            from_depth <= depth <= to_depth,
            is_pyramid(layer2.blocks(), tree@, n, f, w),
            tree@.len() == depth + 1,
            tree@[depth as int].len() == 1,
            current_top == tree@[depth as int][0],
            tree@[0] == lv0[0],
            grown(b0, layer2.blocks(), lv0, tree@),
        decreases to_depth - depth,
    {
        let ghost b1 = layer2.blocks();
        let ghost lv1 = tree@;
        proof {
            layer2.lemma_wf();
            assert(is_place(lv1, depth as int, 0));
            assert(b1.contains_key(lv1[depth as int][0]));
            lemma_pow256_monotone(0, w);
            assert(0 * w == 0) by (nonlinear_arith);
        }
        let new_redirector: u64 = match layer2.allocate_block() {
            Ok(b) => b,
            Err(e) => {
                return Err(e);
            },
        };
        match fill_sentinel(layer2, new_redirector, fan_out, cache) {
            Ok(_) => {},
            Err(e) => {
                return Err(e);
            },
        }
        match write_block_index(layer2, new_redirector, 0, current_top, fan_out, cache) {
            Ok(_) => {},
            Err(e) => {
                return Err(e);
            },
        }
        proof {
            let b2 = layer2.blocks();
            assert(!has_block(lv1, new_redirector)) by {
                if has_block(lv1, new_redirector) {
                    let (l, i) = choose|l: int, i: int|
                        is_place(lv1, l, i) && #[trigger] lv1[l][i] == new_redirector;
                    assert(b1.contains_key(lv1[l][i]));
                }
            }
            lemma_add_top(b1, b2, lv1, new_redirector, f, w);
            let lv2 = lv1.push(seq![new_redirector]);
            lemma_level_count(n, f, 0);
            lemma_powf_monotone(f, depth as nat, (depth + 1) as nat);
            lemma_top_is_alone(n, f, (depth + 1) as nat);
            assert forall|l: int| 0 <= l < lv2.len() implies (#[trigger] lv2[l]).len()
                == level_count(n, f, l as nat) by {
                if l < lv1.len() {
                    assert(lv2[l] == lv1[l]);
                }
            }
            assert(lv2[depth + 1][0] == new_redirector);
            assert(grown(b1, b2, lv1, lv2)) by {
                assert forall|l: int| 0 <= l < lv1.len() implies (#[trigger] lv1[l]).len()
                    <= lv2[l].len() && lv2[l].take(lv1[l].len() as int) == lv1[l] by {
                    assert(lv2[l].take(lv1[l].len() as int) =~= lv1[l]);
                }
                assert forall|b: u64| #[trigger] b2.contains_key(b) <==> b1.contains_key(b)
                    || is_redirector(lv2, b) by {
                    if is_redirector(lv2, b) {
                        let (l, i) = choose|l: int, i: int|
                            1 <= l && is_place(lv2, l, i) && #[trigger] lv2[l][i] == b;
                        if l < lv1.len() {
                            assert(is_place(lv1, l, i) && lv1[l][i] == b);
                        }
                    }
                    if b == new_redirector {
                        assert(is_place(lv2, depth + 1, 0) && lv2[depth + 1][0] == b);
                    }
                }
            }
            lemma_grown_twice(b0, b1, b2, lv0, lv1, lv2);
            *tree = Ghost(lv2);
        }
        current_top = new_redirector;
        depth = depth + 1;
    }
    Ok(current_top)
}

/// Hangs a new redirector, all of its slots unused, under the redirector
/// `parent` of level `level + 1`, behind the last one of level `level`.
fn append_redirector<L2: BlockLayer>(
    layer2: &mut L2,
    parent: u64,
    slot: u64,
    Ghost(level): Ghost<int>,
    fan_out: u64,
    cache: CacheMode,
    tree: &mut Ghost<Seq<Seq<u64>>>,
) -> (r: Result<u64, SfsError>)
    requires
        fan_ok(*old(layer2), fan_out),
        tree_ok(old(layer2).blocks(), old(tree)@, fan_out as nat, old(layer2).iwidth()),
        1 <= level < old(tree)@.len() - 1,
        ({
            let lv = old(tree)@;
            let f = fan_out as nat;
            &&& lv[level].len() / f < lv[level + 1].len()
            &&& parent == lv[level + 1][(lv[level].len() / f) as int]
            &&& slot == lv[level].len() % f
            &&& lv[level - 1].len() <= lv[level].len() * f
        }),
    ensures
        final(layer2).bsize() == old(layer2).bsize(),
        final(layer2).iwidth() == old(layer2).iwidth(),
        final(layer2).faults() >= old(layer2).faults(),
        (r is Ok) == (final(layer2).faults() == old(layer2).faults()),
        r matches Ok(child) ==> {
            let lv = final(tree)@;
            &&& same_make(*old(layer2), *final(layer2))
            &&& tree_ok(final(layer2).blocks(), lv, fan_out as nat, old(layer2).iwidth())
            &&& lv == old(tree)@.update(level, old(tree)@[level].push(child))
            &&& grown(old(layer2).blocks(), final(layer2).blocks(), old(tree)@, lv)
        },
{
    let ghost f = fan_out as nat;
    let ghost w = layer2.iwidth();
    let ghost b0 = layer2.blocks();
    let ghost lv0 = tree@;
    let ghost p = (lv0[level].len() / f) as int;
    proof {
        layer2.lemma_wf();
        lemma_pow256_monotone(0, w);
        lemma_div_mod(lv0[level].len() as int, f as int);
        assert(is_place(lv0, level + 1, p));
        assert(b0.contains_key(lv0[level + 1][p]));
    }
    let child: u64 = match layer2.allocate_block() {
        Ok(b) => b,
        Err(e) => {
            return Err(e);
        },
    };
    proof {
        layer2.lemma_wf();
        assert(layer2.blocks().contains_key(child));
    }
    match fill_sentinel(layer2, child, fan_out, cache) {
        Ok(_) => {},
        Err(e) => {
            return Err(e);
        },
    }
    let ghost b1 = layer2.blocks();
    match write_block_index(layer2, parent, slot, child, fan_out, cache) {
        Ok(_) => {},
        Err(e) => {
            return Err(e);
        },
    }
    proof {
        let b2 = layer2.blocks();
        assert(!has_block(lv0, child)) by {
            if has_block(lv0, child) {
                let (l, i) = choose|l: int, i: int|
                    is_place(lv0, l, i) && #[trigger] lv0[l][i] == child;
                assert(b0.contains_key(lv0[l][i]));
            }
        }
        let children = seq![child];
        let lv1 = lv0.update(level, lv0[level].push(child));
        assert(lv0[level] + children =~= lv0[level].push(child));
        assert(children.contains(child)) by {
            assert(children[0] == child);
        }
        lemma_append_children(b0, b2, lv0, level, children, f, w);
        assert(grown(b0, b2, lv0, lv1)) by {
            assert forall|l: int| 0 <= l < lv0.len() implies (#[trigger] lv0[l]).len()
                <= lv1[l].len() && lv1[l].take(lv0[l].len() as int) == lv0[l] by {
                assert(lv1[l].take(lv0[l].len() as int) =~= lv0[l]);
            }
            assert forall|b: u64| #[trigger] b2.contains_key(b) <==> b0.contains_key(b)
                || is_redirector(lv1, b) by {
                if is_redirector(lv1, b) {
                    let (l, i) = choose|l: int, i: int|
                        1 <= l && is_place(lv1, l, i) && #[trigger] lv1[l][i] == b;
                    if l != level || i < lv0[level].len() {
                        assert(is_place(lv0, l, i) && lv0[l][i] == b);
                    }
                }
                if b == child {
                    let i = lv0[level].len() as int;
                    assert(is_place(lv1, level, i) && lv1[level][i] == b);
                }
            }
            assert forall|b: u64| b0.contains_key(b) && !is_redirector(lv0, b) implies
                #[trigger] b2[b] == b0[b] by {
                assert(b != parent) by {
                    assert(is_place(lv0, level + 1, p) && lv0[level + 1][p] == parent);
                }
            }
        }
        *tree = Ghost(lv1);
    }
    Ok(child)
}

/// Hangs `new_blocks` into a pyramid as the data blocks from
/// `starting_data_block_idx` on, with the redirectors that they need. The
/// indices under one redirector are written at once.
pub(crate) fn batch_fill_leaf_redirectors<L2: BlockLayer>(
    layer2: &mut L2,
    top_block: u64,
    new_blocks: &Vec<u64>,
    starting_data_block_idx: u64,
    fan_out: u64,
    depth: u32,
    cache: CacheMode,
    tree: &mut Ghost<Seq<Seq<u64>>>,
) -> (r: Result<(), SfsError>)
    requires
        fan_ok(*old(layer2), fan_out),
        is_pyramid(
            old(layer2).blocks(),
            old(tree)@,
            starting_data_block_idx as nat,
            fan_out as nat,
            old(layer2).iwidth(),
        ),
        old(tree)@.len() == depth + 1,
        depth >= 1,
        top_block == old(tree)@[depth as int][0],
        starting_data_block_idx + new_blocks@.len() <= powf(fan_out as nat, depth as nat),
        starting_data_block_idx + new_blocks@.len() <= u64::MAX,
        powf(fan_out as nat, (depth - 1) as nat) <= u64::MAX,
        new_blocks@.no_duplicates(),
        forall|i: int|
            0 <= i < new_blocks@.len() ==> old(layer2).blocks().contains_key(
                #[trigger] new_blocks@[i],
            ) && !has_block(old(tree)@, new_blocks@[i]),
    ensures
        final(layer2).bsize() == old(layer2).bsize(),
        final(layer2).iwidth() == old(layer2).iwidth(),
        final(layer2).faults() >= old(layer2).faults(),
        (r is Ok) == (final(layer2).faults() == old(layer2).faults()),
        r is Ok ==> {
            let lv = final(tree)@;
            &&& same_make(*old(layer2), *final(layer2))
            &&& is_pyramid(
                final(layer2).blocks(),
                lv,
                (starting_data_block_idx + new_blocks@.len()) as nat,
                fan_out as nat,
                old(layer2).iwidth(),
            )
            &&& lv.len() == depth + 1
            &&& lv[depth as int][0] == top_block
            &&& lv[0] == old(tree)@[0] + new_blocks@
            &&& grown(old(layer2).blocks(), final(layer2).blocks(), old(tree)@, lv)
        },
{
    let ghost f = fan_out as nat;
    let ghost w = layer2.iwidth();
    let ghost b0 = layer2.blocks();
    let ghost lv0 = tree@;
    let total: usize = new_blocks.len();
    proof {
        layer2.lemma_wf();
        lemma_grown_refl(b0, lv0);
        assert(lv0[0] + new_blocks@.take(0) =~= lv0[0]);
    }
    let width: usize = layer2.block_index_width() as usize;
    let sentinel_index: u64 = block_sentinel(width as u8);
    let mut i: usize = 0;
    while i < total
        invariant
            fan_ok(*layer2, fan_out),
            same_make(*old(layer2), *layer2),
            layer2.faults() == old(layer2).faults(),
            f == fan_out,
            w == layer2.iwidth() == width,
            1 <= w <= 8,
            b0 == old(layer2).blocks(),
            lv0 == old(tree)@,
            i <= total == new_blocks@.len(),
            sentinel_index == sentinel(w),
            is_pyramid(layer2.blocks(), tree@, (starting_data_block_idx + i) as nat, f, w),
            is_pyramid(b0, lv0, starting_data_block_idx as nat, f, w),
            lv0.len() == tree@.len() == depth + 1,
            depth >= 1,
            tree@[depth as int][0] == top_block,
            starting_data_block_idx + total <= powf(f, depth as nat),
            starting_data_block_idx + total <= u64::MAX,
            powf(f, (depth - 1) as nat) <= u64::MAX,
            new_blocks@.no_duplicates(),
            forall|j: int|
                0 <= j < total ==> b0.contains_key(#[trigger] new_blocks@[j]) && !has_block(
                    lv0,
                    new_blocks@[j],
                ),
            tree@[0] == lv0[0] + new_blocks@.take(i as int),
            grown(b0, layer2.blocks(), lv0, tree@),
        decreases total - i,
    {
        let idx: u64 = starting_data_block_idx + i as u64;
        let mut current_block: u64 = top_block;
        let mut remaining: u64 = idx;
        let mut level: u32 = depth;
        let ghost n = idx as nat;
        proof {
            lemma_powf_pos(f, depth as nat);
            lemma_top_is_alone(n, f, depth as nat);
            lemma_top_is_alone(n + 1, f, depth as nat);
            let p = powf(f, depth as nat) as int;
            let x = n as int;
            assert(x / p == 0 && x % p == x) by (nonlinear_arith)
                requires
                    0 <= x < p,
            ;
            assert(tree@[depth as int].len() == 1);
        }
        while level > 1
            invariant
                fan_ok(*layer2, fan_out),
                same_make(*old(layer2), *layer2),
                layer2.faults() == old(layer2).faults(),
                f == fan_out,
                w == layer2.iwidth(),
                b0 == old(layer2).blocks(),
                lv0 == old(tree)@,
                sentinel_index == sentinel(w),
                1 <= level <= depth,
                n == idx,
                n >= 1,
                n + 1 <= powf(f, depth as nat),
                powf(f, (depth - 1) as nat) <= u64::MAX,
                lv0.len() == tree@.len() == depth + 1,
                tree@[depth as int][0] == top_block,
                tree_ok(layer2.blocks(), tree@, f, w),
                forall|l: int|
                    0 <= l < level ==> (#[trigger] tree@[l]).len() == level_count(n, f, l as nat),
                forall|l: int|
                    level <= l <= depth ==> (#[trigger] tree@[l]).len() == level_count(
                        n + 1,
                        f,
                        l as nat,
                    ),
                tree@[0] == lv0[0] + new_blocks@.take(i as int),
                grown(b0, layer2.blocks(), lv0, tree@),
                n / powf(f, level as nat) < tree@[level as int].len(),
                current_block == tree@[level as int][(n / powf(f, level as nat)) as int],
                remaining == n % powf(f, level as nat),
            decreases level,
        {
            level = level - 1;
            let ghost l = level as nat;
            let ghost lv = tree@;
            let ghost c = (n / powf(f, l)) as int;
            let ghost up = (n / powf(f, l + 1)) as int;
            proof {
                layer2.lemma_wf();
                lemma_powf_monotone(f, l, (depth - 1) as nat);
                lemma_powf_pos(f, l);
                lemma_ancestor_step(f, n, l);
                lemma_level_count(n, f, l);
                lemma_level_count(n + 1, f, l);
                lemma_div_mod(c, f as int);
                assert(lv[level as int].len() == level_count(n, f, l));
                // The ancestor is the last block of the level or the one behind it.
                vstd::arithmetic::div_mod::lemma_div_is_ordered(
                    n - 1,
                    n as int,
                    powf(f, l) as int,
                );
                lemma_next_quotient(n, powf(f, l));
                assert(is_place(lv, level + 1, up));
                assert(node_ok(layer2.blocks(), lv, level + 1, up, f, w));
                assert(layer2.blocks().contains_key(lv[level + 1][up]));
            }
            let span: u64 = power(fan_out, level);
            let slot: u64 = remaining / span;
            remaining = remaining % span;
            proof {
                assert(slot == c % (f as int));
                assert(index_at(layer2.blocks()[lv[level + 1][up]], slot as int, w)
                    == child_index(lv, level + 1, up, slot as int, f, w));
                assert(up * f + slot == c);
                if c < lv[level as int].len() {
                    assert(is_place(lv, level as int, c));
                    assert(layer2.blocks().contains_key(lv[level as int][c]));
                }
            }
            let mut child: u64 = match read_block_index(
                layer2,
                current_block,
                slot,
                fan_out,
                cache,
            ) {
                Ok(child) => child,
                Err(e) => {
                    return Err(e);
                },
            };
            if child == sentinel_index {
                let ghost b1 = layer2.blocks();
                proof {
                    assert(c == lv[level as int].len());
                    lemma_level_fits(n, f, (l - 1) as nat);
                    assert(lv[level - 1].len() == level_count(n, f, (l - 1) as nat));
                }
                child = match append_redirector(
                    layer2,
                    current_block,
                    slot,
                    Ghost(level as int),
                    fan_out,
                    cache,
                    tree,
                ) {
                    Ok(child) => child,
                    Err(e) => {
                        return Err(e);
                    },
                };
                proof {
                    lemma_grown_twice(b0, b1, layer2.blocks(), lv0, lv, tree@);
                }
            }
            current_block = child;
        }
        proof {
            crate::pyramid::lemma_powf_one(f);
            lemma_div_mod(n as int, f as int);
        }
        let start_slot: usize = remaining as usize;
        let slots_available: u64 = fan_out - remaining;
        let left: usize = total - i;
        let batch: usize = if (left as u64) < slots_available {
            left
        } else {
            slots_available as usize
        };
        let ghost lv = tree@;
        let ghost b1 = layer2.blocks();
        let ghost leaf = (n / f) as int;
        proof {
            layer2.lemma_wf();
            crate::pyramid::lemma_powf_one(f);
            lemma_level_count(n, f, 0);
            lemma_div_mod(n as int, f as int);
            assert(lv[0].len() == n);
            assert(is_place(lv, 1, leaf));
            assert(b1.contains_key(lv[1][leaf]));
            lemma_pow256_monotone(0, w);
            assert(fan_out <= fan_out * w) by (nonlinear_arith)
                requires
                    w >= 1,
            ;
        }
        let mut buf: Vec<u8> = Vec::new();
        let mut j: usize = 0;
        proof {
            assert(buf@ =~= index_bytes(new_blocks@.subrange(i as int, i as int), w));
        }
        while j < batch
            invariant
                j <= batch,
                i + batch <= total == new_blocks@.len(),
                width == w,
                1 <= w <= 8,
                buf@ == index_bytes(new_blocks@.subrange(i as int, i + j), w),
            decreases batch - j,
        {
            push_le(&mut buf, new_blocks[i + j], width);
            proof {
                let row = new_blocks@.subrange(i as int, i + j + 1);
                assert(row.drop_last() =~= new_blocks@.subrange(i as int, i + j));
                assert(row.last() == new_blocks@[i + j]);
            }
            j = j + 1;
        }
        let ghost children = new_blocks@.subrange(i as int, i + batch);
        proof {
            assert forall|k: int| 0 <= k < children.len() implies (#[trigger] children[k])
                < pow256(w) && b1.contains_key(children[k]) && !has_block(lv, children[k])
                && b0.contains_key(children[k]) && !is_redirector(lv, children[k]) by {
                let b = new_blocks@[i + k];
                assert(children[k] == b);
                assert(b0.contains_key(b) && !has_block(lv0, b));
                assert(b1.contains_key(b));
                lemma_grown_redirector(b0, b1, lv0, lv, b);
                if is_redirector(lv, b) {
                    let (x, y) = choose|x: int, y: int|
                        1 <= x && is_place(lv0, x, y) && #[trigger] lv0[x][y] == b;
                    assert(has_block(lv0, b));
                }
                if has_block(lv, b) {
                    let (x, y) = choose|x: int, y: int|
                        is_place(lv, x, y) && #[trigger] lv[x][y] == b;
                    if x == 0 {
                        if y < lv0[0].len() {
                            assert(is_place(lv0, 0, y) && lv0[0][y] == b);
                        } else {
                            assert(new_blocks@[y - lv0[0].len()] == b);
                        }
                    } else {
                        assert(is_redirector(lv, b));
                    }
                    assert(false);
                }
            }
            lemma_index_bytes_len(children, w);
            lemma_index_write_many(
                b1[current_block],
                start_slot as int,
                children,
                w,
                f,
            );
        }
        let offset: usize = start_slot * width;
        match layer2.write_block(current_block, offset, buf.as_slice(), cache) {
            Ok(_) => {},
            Err(e) => {
                return Err(e);
            },
        }
        proof {
            let b2 = layer2.blocks();
            let lv2 = lv.update(0, lv[0] + children);
            assert(!children.contains(current_block)) by {
                if children.contains(current_block) {
                    let k = choose|k: int| 0 <= k < children.len() && children[k] == current_block;
                    assert(is_redirector(lv, children[k])) by {
                        assert(is_place(lv, 1, leaf) && lv[1][leaf] == current_block);
                    }
                }
            }
            lemma_append_children(b1, b2, lv, 0, children, f, w);
            let last = (n + batch - 1) as nat;
            lemma_mul_div(leaf, start_slot + batch - 1, f as int);
            assert(last / f == n / f);
            assert forall|l: int| 0 <= l < lv2.len() implies (#[trigger] lv2[l]).len()
                == level_count(n + batch as nat, f, l as nat) by {
                if l == 0 {
                    lemma_level_count(n + batch as nat, f, 0);
                } else {
                    lemma_same_ancestors(last, n, f, l as nat);
                    assert(lv2[l] == lv[l]);
                }
            }
            assert(grown(b1, b2, lv, lv2)) by {
                assert forall|l: int| 0 <= l < lv.len() implies (#[trigger] lv[l]).len()
                    <= lv2[l].len() && lv2[l].take(lv[l].len() as int) == lv[l] by {
                    assert(lv2[l].take(lv[l].len() as int) =~= lv[l]);
                }
                assert forall|b: u64| #[trigger] is_redirector(lv2, b) implies b1.contains_key(
                    b,
                ) by {
                    let (x, y) = choose|x: int, y: int|
                        1 <= x && is_place(lv2, x, y) && #[trigger] lv2[x][y] == b;
                    assert(is_place(lv, x, y) && lv[x][y] == b);
                }
                assert forall|b: u64| b1.contains_key(b) && !is_redirector(lv, b) implies
                    #[trigger] b2[b] == b1[b] by {
                    assert(b != current_block) by {
                        assert(is_place(lv, 1, leaf) && lv[1][leaf] == current_block);
                    }
                }
            }
            lemma_grown_twice(b0, b1, b2, lv0, lv, lv2);
            assert(lv[0] + children =~= lv0[0] + new_blocks@.take(i + batch));
            *tree = Ghost(lv2);
        }
        i = i + batch;
    }
    proof {
        assert(new_blocks@.take(total as int) =~= new_blocks@);
    }
    Ok(())
}

/// The quotient of `n` is that of `n - 1` or one more.
proof fn lemma_next_quotient(n: nat, p: nat)
    requires
        n >= 1,
        p >= 1,
    ensures
        n / p <= (n - 1) as nat / p + 1,
{
    let q = (n - 1) / p as int;
    lemma_div_mod(n - 1, p as int);
    assert(n < p * (q + 2)) by (nonlinear_arith)
        requires
            n - 1 == q * p + (n - 1) % (p as int),
            (n - 1) % (p as int) < p,
            p >= 1,
    ;
    vstd::arithmetic::div_mod::lemma_multiply_divide_lt(n as int, p as int, q + 2);
}

} // verus!
