//! Shrinking a pyramid.

use crate::block_layer::{same_make, same_store, sentinel, BlockLayer};
use crate::bytes::lemma_pow256_monotone;
use crate::pyramid::{
    child_index, index_at, is_place, is_pyramid, is_redirector, lemma_ancestor_step, lemma_div_mod,
    lemma_level_count, lemma_level_fits, lemma_mul_div, lemma_powf_monotone, lemma_powf_one,
    lemma_powf_pos, lemma_remove_last, lemma_same_above, lemma_shrunk_refl, lemma_shrunk_twice,
    lemma_top_is_alone, level_count, node_ok, powf, shrunk, tree_ok,
};
use crate::pyramid_io::{
    block_sentinel, fan_ok, lemma_ancestor_bound, power, read_block_index, write_block_index,
};
use crate::types::{CacheMode, SfsError};
use vstd::prelude::*;

verus! {

/// Whether every slot of a redirector is unused.
pub(crate) fn is_redirector_empty<L2: BlockLayer>(
    layer2: &mut L2,
    block: u64,
    fan_out: u64,
    cache: CacheMode,
) -> (r: Result<bool, SfsError>)
    requires
        fan_ok(*old(layer2), fan_out),
        old(layer2).blocks().contains_key(block),
    ensures
        same_store(*old(layer2), *final(layer2)),
        L2::reads_always() ==> final(layer2).faults() == old(layer2).faults(),
        final(layer2).faults() >= old(layer2).faults(),
        (r is Ok) == (final(layer2).faults() == old(layer2).faults()),
        r matches Ok(empty) ==> empty == (forall|k: int|
            0 <= k < fan_out ==> #[trigger] index_at(
                old(layer2).blocks()[block],
                k,
                old(layer2).iwidth(),
            ) == sentinel(old(layer2).iwidth())),
{
    proof {
        layer2.lemma_wf();
    }
    let sentinel_index: u64 = block_sentinel(layer2.block_index_width());
    let mut slot: u64 = 0;
    while slot < fan_out
        invariant
            fan_ok(*layer2, fan_out),
            same_store(*old(layer2), *layer2),
            layer2.faults() == old(layer2).faults(),
            layer2.blocks().contains_key(block),
            sentinel_index == sentinel(layer2.iwidth()),
            slot <= fan_out,
            forall|k: int|
                0 <= k < slot ==> #[trigger] index_at(layer2.blocks()[block], k, layer2.iwidth())
                    == sentinel_index,
        decreases fan_out - slot,
    {
        match read_block_index(layer2, block, slot, fan_out, cache) {
            Ok(child) => {
                if child != sentinel_index {
                    return Ok(false);
                }
            },
            Err(e) => {
                return Err(e);
            },
        }
        slot = slot + 1;
    }
    Ok(true)
}

/// Takes the last data block out of a pyramid of at least two, and gives back
/// every redirector that has become empty on the way up. The data block itself
/// stays in use; it is handed to the caller.
pub(crate) fn unlink_last_leaf<L2: BlockLayer>(
    layer2: &mut L2,
    top_block: u64,
    num_data_blocks: u64,
    depth: u32,
    fan_out: u64,
    cache: CacheMode,
    tree: &mut Ghost<Seq<Seq<u64>>>,
) -> (r: Result<u64, SfsError>)
    requires
        fan_ok(*old(layer2), fan_out),
        is_pyramid(
            old(layer2).blocks(),
            old(tree)@,
            num_data_blocks as nat,
            fan_out as nat,
            old(layer2).iwidth(),
        ),
        old(tree)@.len() == depth + 1,
        depth >= 1,
        num_data_blocks >= 2,
        top_block == old(tree)@[depth as int][0],
        powf(fan_out as nat, (depth - 1) as nat) <= u64::MAX,
    ensures
        final(layer2).bsize() == old(layer2).bsize(),
        final(layer2).iwidth() == old(layer2).iwidth(),
        final(layer2).faults() >= old(layer2).faults(),
        (r is Ok) == (final(layer2).faults() == old(layer2).faults()),
        r matches Ok(leaf) ==> {
            let lv = final(tree)@;
            &&& same_make(*old(layer2), *final(layer2))
            &&& is_pyramid(
                final(layer2).blocks(),
                lv,
                (num_data_blocks - 1) as nat,
                fan_out as nat,
                old(layer2).iwidth(),
            )
            &&& lv.len() == depth + 1
            &&& lv[depth as int][0] == top_block
            &&& leaf == old(tree)@[0][num_data_blocks - 1]
            &&& lv[0] == old(tree)@[0].drop_last()
            &&& shrunk(
                old(layer2).blocks(),
                final(layer2).blocks(),
                old(tree)@,
                lv,
                Set::empty(),
            )
        },
{
    let ghost f = fan_out as nat;
    let ghost w = layer2.iwidth();
    let ghost b0 = layer2.blocks();
    let ghost lv0 = tree@;
    let ghost n = num_data_blocks as nat;
    let ghost d = (n - 1) as nat;
    let data_block_idx: u64 = num_data_blocks - 1;
    proof {
        layer2.lemma_wf();
        lemma_powf_pos(f, depth as nat);
        lemma_top_is_alone(n, f, depth as nat);
        let p = powf(f, depth as nat) as int;
        let x = d as int;
        assert(x / p == 0 && x % p == x) by (nonlinear_arith)
            requires
                0 <= x < p,
        ;
        lemma_level_count(n, f, 0);
    }
    let sentinel_index: u64 = block_sentinel(layer2.block_index_width());
    // The way down: the redirectors from the top, with the slot taken in each.
    let mut path: Vec<(u64, u64)> = Vec::new();
    let mut current_block: u64 = top_block;
    let mut remaining: u64 = data_block_idx;
    let mut level: u32 = depth;
    while level > 0
        invariant
            fan_ok(*layer2, fan_out),
            same_store(*old(layer2), *layer2),
            layer2.faults() == old(layer2).faults(),
            f == fan_out,
            w == layer2.iwidth(),
            b0 == layer2.blocks(),
            lv0 == old(tree)@,
            tree@ == lv0,
            is_pyramid(b0, lv0, n, f, w),
            lv0.len() == depth + 1,
            depth >= 1,
            n >= 2,
            d == n - 1,
            n <= u64::MAX,
            powf(f, (depth - 1) as nat) <= u64::MAX,
            level <= depth,
            path@.len() == depth - level,
            d / powf(f, level as nat) < lv0[level as int].len(),
            current_block == lv0[level as int][(d / powf(f, level as nat)) as int],
            remaining == d % powf(f, level as nat),
            forall|j: int|
                0 <= j < path@.len() ==> (#[trigger] path@[j]).0 == lv0[depth - j][(d / powf(
                    f,
                    (depth - j) as nat,
                )) as int] && path@[j].1 == (d / powf(f, (depth - j - 1) as nat)) % f,
        decreases level,
    {
        level = level - 1;
        let ghost l = level as nat;
        proof {
            layer2.lemma_wf();
            lemma_powf_monotone(f, l, (depth - 1) as nat);
            lemma_powf_pos(f, l);
            lemma_ancestor_step(f, d, l);
            lemma_ancestor_bound(n, d, f, l);
            lemma_div_mod((d / powf(f, l)) as int, f as int);
            assert(lv0[level as int].len() == level_count(n, f, l));
        }
        let span: u64 = power(fan_out, level);
        let slot: u64 = remaining / span;
        remaining = remaining % span;
        proof {
            let i = (d / powf(f, l + 1)) as int;
            let c = (d / powf(f, l)) as int;
            assert(slot == c % (f as int));
            assert(is_place(lv0, level + 1, i));
            assert(node_ok(b0, lv0, level + 1, i, f, w));
            assert(index_at(b0[lv0[level + 1][i]], slot as int, w) == child_index(
                lv0,
                level + 1,
                i,
                slot as int,
                f,
                w,
            ));
            assert(i * f + slot == c);
            assert(is_place(lv0, level as int, c));
            assert(b0.contains_key(lv0[level as int][c]));
            assert(b0.contains_key(lv0[level + 1][i]));
        }
        path.push((current_block, slot));
        current_block = match read_block_index(layer2, current_block, slot, fan_out, cache) {
            Ok(child) => child,
            Err(e) => {
                return Err(e);
            },
        };
    }
    let leaf: u64 = current_block;
    proof {
        lemma_powf_one(f);
        assert(d / 1 == d);
        lemma_shrunk_refl(b0, lv0);
    }
    // The way up: clear the slot, and go on while the redirector is empty.
    let mut up: u32 = 0;
    let mut clearing: bool = true;
    while clearing
        invariant
            fan_ok(*layer2, fan_out),
            same_make(*old(layer2), *layer2),
            layer2.faults() == old(layer2).faults(),
            f == fan_out,
            w == layer2.iwidth(),
            b0 == old(layer2).blocks(),
            lv0 == old(tree)@,
            is_pyramid(b0, lv0, n, f, w),
            tree_ok(layer2.blocks(), tree@, f, w),
            shrunk(b0, layer2.blocks(), lv0, tree@, Set::empty()),
            lv0.len() == tree@.len() == depth + 1,
            depth >= 1,
            n >= 2,
            d == n - 1,
            sentinel_index == sentinel(w),
            path@.len() == depth,
            forall|j: int|
                0 <= j < path@.len() ==> (#[trigger] path@[j]).0 == lv0[depth - j][(d / powf(
                    f,
                    (depth - j) as nat,
                )) as int] && path@[j].1 == (d / powf(f, (depth - j - 1) as nat)) % f,
            up <= depth,
            leaf == lv0[0][d as int],
            up >= 1 ==> tree@[0] == lv0[0].drop_last(),
            clearing ==> up < depth,
            forall|l: int|
                0 <= l < up ==> (#[trigger] tree@[l]).len() == level_count((n - 1) as nat, f, l as nat),
            forall|l: int|
                up <= l <= depth ==> #[trigger] tree@[l] == lv0[l],
            up < depth && clearing ==> d % powf(f, up as nat) == 0,
            !clearing ==> up >= 1 && (d - 1) as nat / powf(f, up as nat) == d / powf(f, up as nat),
            clearing && up >= 1 ==> forall|k: int|
                0 <= k < f ==> #[trigger] index_at(
                    layer2.blocks()[lv0[up as int][(d / powf(f, up as nat)) as int]],
                    k,
                    w,
                ) == sentinel_index,
        decreases depth - up + (if clearing { 1int } else { 0int }),
    {
        let at: usize = (depth - 1 - up) as usize;
        let parent: u64 = path[at].0;
        let slot: u64 = path[at].1;
        let ghost lv = tree@;
        let ghost b1 = layer2.blocks();
        let ghost l = up as nat;
        let ghost c = (d / powf(f, l)) as int;
        let ghost p = (d / powf(f, l + 1)) as int;
        proof {
            layer2.lemma_wf();
            lemma_pow256_monotone(0, w);
            lemma_ancestor_step(f, d, l);
            lemma_ancestor_bound(n, d, f, l);
            lemma_ancestor_bound(n, d, f, l + 1);
            lemma_level_count(n, f, l);
            lemma_level_count(n, f, l + 1);
            lemma_level_count((n - 1) as nat, f, l);
            lemma_powf_pos(f, l);
            assert(lv[up as int] == lv0[up as int]);
            assert(lv[up + 1] == lv0[up + 1]);
            assert(lv0[up as int].len() == level_count(n, f, l) == c + 1);
            assert(lv0[up + 1].len() == level_count(n, f, l + 1) == p + 1);
            assert(is_place(lv, up + 1, p));
            assert(b1.contains_key(lv[up + 1][p]));
            assert(parent == lv0[up + 1][p] && slot == c as nat % f);
            lemma_div_mod(c, f as int);
            lemma_before_multiple(d, powf(f, l));
            assert(level_count((n - 1) as nat, f, l) == c);
            if up >= 1 {
                lemma_level_fits((n - 1) as nat, f, (l - 1) as nat);
                assert(lv[up - 1].len() == level_count((n - 1) as nat, f, (l - 1) as nat));
            }
        }
        match write_block_index(layer2, parent, slot, sentinel_index, fan_out, cache) {
            Ok(_) => {},
            Err(e) => {
                return Err(e);
            },
        }
        let ghost b2 = layer2.blocks();
        let ghost lv2 = lv.update(up as int, lv[up as int].drop_last());
        proof {
            lemma_remove_last(b1, b2, lv, up as int, f, w);
        }
        if up >= 1 {
            // The cleared block is an empty redirector: give it back.
            let empty_block: u64 = path[at + 1].0;
            proof {
                assert(path@[at + 1].0 == lv0[up as int][c]);
                assert(is_place(lv, up as int, c));
                assert(b1.contains_key(lv[up as int][c]));
                assert(empty_block == lv[up as int][c]);
            }
            match layer2.deallocate_block(empty_block) {
                Ok(_) => {},
                Err(e) => {
                    return Err(e);
                },
            }
        }
        let ghost b3 = layer2.blocks();
        proof {
            lemma_remove_last(b1, b3, lv, up as int, f, w);
            let out = lv[up as int][c];
            assert forall|a: int, i: int| is_place(lv2, a, i) implies #[trigger] lv2[a][i]
                == lv[a][i] && is_place(lv, a, i) && lv[a][i] != out by {
                assert(is_place(lv, up as int, c));
                assert(lv2[a][i] == lv[a][i]);
            }
            assert(shrunk(b1, b3, lv, lv2, Set::empty())) by {
                assert forall|a: int| 0 <= a < lv2.len() implies (#[trigger] lv2[a]).len()
                    <= lv[a].len() && lv[a].take(lv2[a].len() as int) == lv2[a] by {
                    assert(lv[a].take(lv2[a].len() as int) =~= lv2[a]);
                }
                assert forall|b: u64| #[trigger] b3.contains_key(b) <==> b1.contains_key(b) && (
                !is_redirector(lv, b) || is_redirector(lv2, b)) by {
                    if is_redirector(lv, b) && !(up >= 1 && b == out) {
                        let (x, y) = choose|x: int, y: int|
                            1 <= x && is_place(lv, x, y) && #[trigger] lv[x][y] == b;
                        assert(is_place(lv2, x, y) && lv2[x][y] == b);
                    }
                    if up >= 1 && b == out {
                        assert(is_place(lv, up as int, c) && lv[up as int][c] == b);
                        assert(is_redirector(lv, b));
                        if is_redirector(lv2, b) {
                            let (x, y) = choose|x: int, y: int|
                                1 <= x && is_place(lv2, x, y) && #[trigger] lv2[x][y] == b;
                            assert(false);
                        }
                    }
                }
                assert forall|b: u64| b3.contains_key(b) && !is_redirector(lv, b) implies
                    #[trigger] b3[b] == b1[b] by {
                    assert(b != parent) by {
                        assert(is_place(lv, up + 1, p) && lv[up + 1][p] == parent);
                    }
                }
            }
            lemma_shrunk_twice(b0, b1, b3, lv0, lv, lv2, Set::empty(), Set::empty());
            assert(Set::<u64>::empty().union(Set::empty()) =~= Set::<u64>::empty());
            *tree = Ghost(lv2);
        }
        up = up + 1;
        let ghost node = lv0[up as int][p];
        proof {
            assert(is_place(lv2, up as int, p));
            assert(b3.contains_key(lv2[up as int][p]));
            assert(node_ok(b3, lv2, up as int, p, f, w));
        }
        if up < depth {
            let empty: bool = match is_redirector_empty(layer2, parent, fan_out, cache) {
                Ok(empty) => empty,
                Err(e) => {
                    return Err(e);
                },
            };
            proof {
                // Empty exactly when the cleared slot was the first one.
                if slot > 0 {
                    assert(index_at(b3[node], 0, w) == child_index(lv2, up as int, p, 0, f, w));
                    assert(p * f < c);
                    assert(lv2[up - 1].len() == c);
                    lemma_mul_div(p, 0, f as int);
                    assert(is_place(lv2, up - 1, p * f));
                    assert(b3.contains_key(lv2[up - 1][p * f]));
                    layer2.lemma_wf();
                    assert(!empty);
                    lemma_quotient_before(c as nat, f);
                    assert((c - 1) as nat / f == c as nat / f);
                    lemma_ancestor_step(f, (d - 1) as nat, l);
                    lemma_before_multiple(d, powf(f, l));
                } else {
                    assert forall|k: int| 0 <= k < f implies #[trigger] index_at(b3[node], k, w)
                        == sentinel_index by {
                        assert(index_at(b3[node], k, w) == child_index(
                            lv2,
                            up as int,
                            p,
                            k,
                            f,
                            w,
                        ));
                        assert(p * f == c);
                        assert(lv2[up - 1].len() == c);
                    }
                    lemma_multiple_step(d, powf(f, l), f);
                    assert(powf(f, l + 1) == f * powf(f, l));
                }
            }
            clearing = empty;
        } else {
            clearing = false;
            proof {
                // At the top: both numbers of blocks fit under it.
                let q = powf(f, depth as nat) as int;
                let x = d as int;
                assert(x / q == 0) by (nonlinear_arith)
                    requires
                        0 <= x < q,
                ;
                assert((x - 1) / q == 0) by (nonlinear_arith)
                    requires
                        1 <= x < q,
                ;
            }
        }
    }
    proof {
        let lv = tree@;
        let m = (n - 1) as nat;
        assert forall|l: int| 0 <= l < lv.len() implies (#[trigger] lv[l]).len() == level_count(
            m,
            f,
            l as nat,
        ) by {
            if l >= up {
                lemma_same_above((d - 1) as nat, d, f, up as nat, l as nat);
                lemma_level_count(m, f, l as nat);
                lemma_level_count(n, f, l as nat);
                assert(lv[l] == lv0[l]);
            }
        }
    }
    Ok(leaf)
}

/// The number before a multiple has a quotient of one less; before any other
/// number the quotient stays.
proof fn lemma_before_multiple(d: nat, p: nat)
    requires
        d >= 1,
        p >= 1,
        d % p == 0,
    ensures
        d / p >= 1,
        (d - 1) as nat / p == d / p - 1,
{
    let q = d as int / p as int;
    lemma_div_mod(d as int, p as int);
    assert(q >= 1) by (nonlinear_arith)
        requires
            q * p == d,
            d >= 1,
            p >= 1,
    ;
    assert(d - 1 == (q - 1) * p + (p - 1)) by (nonlinear_arith)
        requires
            q * p == d,
    ;
    lemma_mul_div(q - 1, p - 1, p as int);
}

proof fn lemma_quotient_before(c: nat, f: nat)
    requires
        f >= 1,
        c % f > 0,
    ensures
        c >= 1,
        (c - 1) as nat / f == c / f,
{
    let q = c as int / f as int;
    let r = c as int % f as int;
    lemma_div_mod(c as int, f as int);
    assert(q >= 0) by (nonlinear_arith)
        requires
            q == c as int / f as int,
            f >= 1,
    ;
    lemma_mul_div(q, r - 1, f as int);
}

proof fn lemma_multiple_step(d: nat, p: nat, f: nat)
    requires
        p >= 1,
        f >= 1,
        d % p == 0,
        (d / p) % f == 0,
    ensures
        d % (f * p) == 0,
{
    let q = d as int / p as int;
    lemma_div_mod(d as int, p as int);
    lemma_div_mod(q, f as int);
    let k = q / (f as int);
    assert(d == k * (f * p)) by (nonlinear_arith)
        requires
            q * p == d,
            k * f == q,
    ;
    assert(f * p >= 1) by (nonlinear_arith)
        requires
            f >= 1,
            p >= 1,
    ;
    vstd::arithmetic::div_mod::lemma_mod_multiples_basic(k, (f * p) as int);
}

} // verus!
