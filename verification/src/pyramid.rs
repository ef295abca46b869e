//! The shape of a pyramid: how data blocks hang together under redirector
//! blocks.
//!
//! A pyramid is given by its levels. Level zero lists the data blocks in the
//! order of the stream; every higher level lists redirector blocks, and the
//! last level holds the top block alone. With fan-out `f`, the redirector
//! `i` of a level points at the blocks `i * f .. i * f + f` of the level below.

use crate::block_layer::sentinel;
use crate::bytes::{
    law_le_round_trip, le_bytes, le_value, lemma_le_bytes_len, lemma_pow256_monotone, overlay,
    pow256,
};
use vstd::arithmetic::div_mod::{
    lemma_div_denominator, lemma_fundamental_div_mod, lemma_fundamental_div_mod_converse,
    lemma_mod_breakdown,
};
use vstd::prelude::*;

verus! {

/// `f` to the power `d`: how many data blocks a pyramid of depth `d` can hold.
pub open spec fn powf(f: nat, d: nat) -> nat
    decreases d,
{
    if d == 0 {
        1
    } else {
        f * powf(f, (d - 1) as nat)
    }
}

/// How many times `unit` is needed to cover `size`.
pub open spec fn ceil_div(size: nat, unit: nat) -> nat {
    if size == 0 {
        0
    } else {
        ((size - 1) / unit as int + 1) as nat
    }
}

/// The number of blocks at level `l` of a pyramid over `n` data blocks.
pub open spec fn level_count(n: nat, f: nat, l: nat) -> nat {
    ceil_div(n, powf(f, l))
}

/// `d` is the least depth whose pyramids can hold `n` data blocks.
pub open spec fn is_depth(n: nat, f: nat, d: nat) -> bool {
    &&& n <= powf(f, d)
    &&& d > 0 ==> powf(f, (d - 1) as nat) < n
}

/// The block index in slot `slot` of a redirector block.
pub open spec fn index_at(block: Seq<u8>, slot: int, w: nat) -> nat {
    le_value(block.subrange(slot * w, slot * w + w))
}

/// What redirector `i` of level `l` is to hold in slot `k`.
pub open spec fn child_index(levels: Seq<Seq<u64>>, l: int, i: int, k: int, f: nat, w: nat) -> nat {
    if i * f + k < levels[l - 1].len() {
        levels[l - 1][i * f + k] as nat
    } else {
        sentinel(w)
    }
}

/// Redirector `i` of level `l` holds what it is to hold.
pub open spec fn node_ok(
    blocks: Map<u64, Seq<u8>>,
    levels: Seq<Seq<u64>>,
    l: int,
    i: int,
    f: nat,
    w: nat,
) -> bool {
    forall|k: int|
        0 <= k < f ==> #[trigger] index_at(blocks[levels[l][i]], k, w) == child_index(
            levels,
            l,
            i,
            k,
            f,
            w,
        )
}

/// `(l, i)` is a place in the pyramid.
pub open spec fn is_place(levels: Seq<Seq<u64>>, l: int, i: int) -> bool {
    0 <= l < levels.len() && 0 <= i < levels[l].len()
}

/// Every redirector holds what it is to hold.
pub open spec fn linked(
    blocks: Map<u64, Seq<u8>>,
    levels: Seq<Seq<u64>>,
    f: nat,
    w: nat,
) -> bool {
    forall|l: int, i: int|
        1 <= l && is_place(levels, l, i) ==> #[trigger] node_ok(blocks, levels, l, i, f, w)
}

/// Every block of the pyramid is in use.
pub open spec fn held(blocks: Map<u64, Seq<u8>>, levels: Seq<Seq<u64>>) -> bool {
    forall|l: int, i: int|
        is_place(levels, l, i) ==> blocks.contains_key(#[trigger] levels[l][i])
}

/// No block stands at two places of the pyramid.
pub open spec fn distinct(levels: Seq<Seq<u64>>) -> bool {
    forall|l: int, i: int, m: int, j: int|
        #![trigger levels[l][i], levels[m][j]]
        is_place(levels, l, i) && is_place(levels, m, j) && levels[l][i] == levels[m][j] ==> l == m
            && i == j
}

/// Every level has the number of blocks that `n` data blocks ask for.
pub open spec fn shaped(levels: Seq<Seq<u64>>, n: nat, f: nat) -> bool {
    &&& levels.len() >= 1
    &&& n >= 1
    &&& n <= powf(f, (levels.len() - 1) as nat)
    &&& forall|l: int|
        0 <= l < levels.len() ==> (#[trigger] levels[l]).len() == level_count(n, f, l as nat)
}

/// `levels` is a pyramid over `n` data blocks in `blocks`.
pub open spec fn is_pyramid(
    blocks: Map<u64, Seq<u8>>,
    levels: Seq<Seq<u64>>,
    n: nat,
    f: nat,
    w: nat,
) -> bool {
    &&& shaped(levels, n, f)
    &&& held(blocks, levels)
    &&& distinct(levels)
    &&& linked(blocks, levels, f, w)
}

/// The blocks of a pyramid.
pub open spec fn has_block(levels: Seq<Seq<u64>>, b: u64) -> bool {
    exists|l: int, i: int| is_place(levels, l, i) && #[trigger] levels[l][i] == b
}

/// Outside the pyramid `old` nothing has changed, and the blocks in use are
/// those of before with the pyramid `new` in place of `old`.
pub open spec fn replaced(
    before: Map<u64, Seq<u8>>,
    after: Map<u64, Seq<u8>>,
    old_levels: Seq<Seq<u64>>,
    new_levels: Seq<Seq<u64>>,
) -> bool {
    &&& forall|b: u64| #[trigger]
        after.contains_key(b) <==> (before.contains_key(b) && !has_block(old_levels, b))
            || has_block(new_levels, b)
    &&& forall|b: u64|
        before.contains_key(b) && !has_block(old_levels, b) ==> !#[trigger] has_block(new_levels, b)
    &&& forall|b: u64|
        before.contains_key(b) && !has_block(old_levels, b) ==> #[trigger] after[b] == before[b]
}

// ---------------------------------------------------------------------------
// Arithmetic
// ---------------------------------------------------------------------------

pub proof fn lemma_powf_pos(f: nat, d: nat)
    requires
        f >= 1,
    ensures
        powf(f, d) >= 1,
    decreases d,
{
    if d > 0 {
        lemma_powf_pos(f, (d - 1) as nat);
        assert(f * powf(f, (d - 1) as nat) >= 1) by (nonlinear_arith)
            requires
                f >= 1,
                powf(f, (d - 1) as nat) >= 1,
        ;
    }
}

pub proof fn lemma_powf_one(f: nat)
    ensures
        powf(f, 0) == 1,
        powf(f, 1) == f,
{
    assert(powf(f, 0) == 1);
    assert(powf(f, 1) == f * powf(f, 0));
    assert(f * 1 == f) by (nonlinear_arith);
}

pub proof fn lemma_powf_monotone(f: nat, a: nat, b: nat)
    requires
        f >= 1,
        a <= b,
    ensures
        powf(f, a) <= powf(f, b),
    decreases b,
{
    if a < b {
        lemma_powf_monotone(f, a, (b - 1) as nat);
        lemma_powf_pos(f, (b - 1) as nat);
        assert(f * powf(f, (b - 1) as nat) >= powf(f, (b - 1) as nat)) by (nonlinear_arith)
            requires
                f >= 1,
                powf(f, (b - 1) as nat) >= 1,
        ;
    }
}

/// A fan-out of at least two doubles the capacity with every level.
pub proof fn lemma_powf_grows(f: nat, d: nat)
    requires
        f >= 2,
    ensures
        powf(f, d) > d,
    decreases d,
{
    if d > 0 {
        lemma_powf_grows(f, (d - 1) as nat);
        assert(f * powf(f, (d - 1) as nat) >= 2 * powf(f, (d - 1) as nat)) by (nonlinear_arith)
            requires
                f >= 2,
        ;
    }
}

/// The least depth is unique.
pub proof fn lemma_depth_unique(n: nat, f: nat, a: nat, b: nat)
    requires
        f >= 2,
        is_depth(n, f, a),
        is_depth(n, f, b),
    ensures
        a == b,
{
    if a < b {
        lemma_powf_monotone(f, a, (b - 1) as nat);
    } else if b < a {
        lemma_powf_monotone(f, b, (a - 1) as nat);
    }
}

/// The ancestor of a data block one level up is found by one more division.
pub proof fn lemma_ancestor_step(f: nat, d: nat, l: nat)
    requires
        f >= 1,
    ensures
        d / powf(f, l + 1) == (d / powf(f, l)) / f,
        (d % powf(f, l + 1)) / powf(f, l) == (d / powf(f, l)) % f,
        (d % powf(f, l + 1)) % powf(f, l) == d % powf(f, l),
{
    lemma_powf_pos(f, l);
    let p = powf(f, l) as int;
    let fi = f as int;
    let x = d as int;
    assert(powf(f, l + 1) == p * fi) by (nonlinear_arith)
        requires
            powf(f, l + 1) == f * powf(f, l),
            p == powf(f, l),
            fi == f,
    ;
    lemma_div_denominator(x, p, fi);
    lemma_mod_breakdown(x, p, fi);
    let q = (x / p) % fi;
    let r = x % p;
    assert(0 <= r < p);
    assert(x % (p * fi) == p * q + r);
    assert(x % (p * fi) == q * p + r) by {
        assert(p * q == q * p) by (nonlinear_arith);
    }
    lemma_fundamental_div_mod_converse(x % (p * fi), p, q, r);
}

/// A number is its quotient times the divisor plus its remainder.
pub proof fn lemma_div_mod(x: int, f: int)
    requires
        f >= 1,
    ensures
        (x / f) * f + x % f == x,
        0 <= x % f < f,
{
    lemma_fundamental_div_mod(x, f);
    assert(f * (x / f) == (x / f) * f) by (nonlinear_arith);
}

/// Division and remainder undo multiplication and addition.
pub proof fn lemma_mul_div(i: int, k: int, f: int)
    requires
        0 <= k < f,
        0 <= i,
    ensures
        (i * f + k) / f == i,
        (i * f + k) % f == k,
        i * f >= 0,
{
    lemma_fundamental_div_mod_converse(i * f + k, f, i, k);
    assert(i * f >= 0) by (nonlinear_arith)
        requires
            i >= 0,
            f >= 0,
    ;
}

/// The children of different redirectors are different, and so are the slots
/// of one redirector.
pub proof fn lemma_slot_range(slot: int, w: int, fan: int, size: int)
    requires
        0 <= slot < fan,
        w >= 1,
        fan * w <= size,
    ensures
        0 <= slot * w,
        slot * w + w <= size,
{
    assert(0 <= slot * w) by (nonlinear_arith)
        requires
            0 <= slot,
            w >= 1,
    ;
    assert(slot * w + w <= fan * w) by (nonlinear_arith)
        requires
            slot + 1 <= fan,
            w >= 1,
    ;
}

/// The number of blocks one level up, in terms of the level below.
pub proof fn lemma_level_count(n: nat, f: nat, l: nat)
    requires
        f >= 2,
        n >= 1,
    ensures
        level_count(n, f, l) >= 1,
        level_count(n, f, l) == (n - 1) as nat / powf(f, l) + 1,
        level_count(n, f, l) <= n,
        level_count(n, f, l + 1) == (level_count(n, f, l) - 1) as nat / f + 1,
        level_count(n, f, 0) == n,
{
    lemma_powf_pos(f, l);
    lemma_powf_pos(f, l + 1);
    lemma_ancestor_step(f, (n - 1) as nat, l);
    let x = (n - 1) as int;
    let p = powf(f, l) as int;
    assert(0 <= x / p <= x) by (nonlinear_arith)
        requires
            x >= 0,
            p >= 1,
    ;
    assert(x / 1 == x);
}

/// A pyramid that is deep enough has one block at its last level.
pub proof fn lemma_top_is_alone(n: nat, f: nat, d: nat)
    requires
        f >= 2,
        1 <= n <= powf(f, d),
    ensures
        level_count(n, f, d) == 1,
{
    let x = (n - 1) as int;
    let p = powf(f, d) as int;
    assert(x / p == 0) by (nonlinear_arith)
        requires
            0 <= x < p,
    ;
}

// ---------------------------------------------------------------------------
// Redirector blocks
// ---------------------------------------------------------------------------

/// Writing an index into one slot leaves the other slots as they were.
pub proof fn lemma_index_write(block: Seq<u8>, slot: int, v: nat, w: nat, fan: nat)
    requires
        1 <= w,
        0 <= slot < fan,
        fan * w <= block.len(),
        v < pow256(w),
    ensures
        overlay(block, slot * w, le_bytes(v, w)).len() == block.len(),
        forall|k: int|
            0 <= k < fan ==> #[trigger] index_at(
                overlay(block, slot * w, le_bytes(v, w)),
                k,
                w,
            ) == (if k == slot {
                v
            } else {
                index_at(block, k, w)
            }),
{
    let after = overlay(block, slot * w, le_bytes(v, w));
    lemma_le_bytes_len(v, w);
    law_le_round_trip(v, w);
    assert forall|k: int| 0 <= k < fan implies #[trigger] index_at(after, k, w) == (if k == slot {
        v
    } else {
        index_at(block, k, w)
    }) by {
        lemma_slot_range(k, w as int, fan as int, block.len() as int);
        lemma_slot_range(slot, w as int, fan as int, block.len() as int);
        if k == slot {
            assert(after.subrange(k * w, k * w + w) =~= le_bytes(v, w));
        } else {
            lemma_slots_apart(k, slot, w as int);
            assert(after.subrange(k * w, k * w + w) =~= block.subrange(k * w, k * w + w));
        }
    }
}

/// The byte ranges of two slots do not meet.
pub proof fn lemma_slots_apart(a: int, b: int, w: int)
    requires
        w >= 1,
        a != b,
    ensures
        a < b ==> a * w + w <= b * w,
        b < a ==> b * w + w <= a * w,
{
    if a < b {
        assert(a * w + w <= b * w) by (nonlinear_arith)
            requires
                a + 1 <= b,
                w >= 1,
        ;
    } else {
        assert(b * w + w <= a * w) by (nonlinear_arith)
            requires
                b + 1 <= a,
                w >= 1,
        ;
    }
}

/// A block of `0xFF` bytes holds the sentinel in every slot.
pub proof fn lemma_all_ones_is_sentinel(block: Seq<u8>, w: nat, fan: nat)
    requires
        1 <= w,
        fan * w <= block.len(),
        forall|i: int| 0 <= i < block.len() ==> block[i] == 0xFFu8,
    ensures
        forall|k: int| 0 <= k < fan ==> #[trigger] index_at(block, k, w) == sentinel(w),
{
    crate::bytes::lemma_le_bytes_all_ones(w);
    lemma_pow256_monotone(0, w);
    law_le_round_trip(sentinel(w), w);
    assert forall|k: int| 0 <= k < fan implies #[trigger] index_at(block, k, w) == sentinel(w) by {
        lemma_slot_range(k, w as int, fan as int, block.len() as int);
        assert(block.subrange(k * w, k * w + w) =~= Seq::new(w, |i: int| 0xFFu8));
    }
}

/// The bytes of a row of block indices.
pub open spec fn index_bytes(indices: Seq<u64>, w: nat) -> Seq<u8>
    decreases indices.len(),
{
    if indices.len() == 0 {
        Seq::empty()
    } else {
        index_bytes(indices.drop_last(), w) + le_bytes(indices.last() as nat, w)
    }
}

pub proof fn lemma_index_bytes_len(indices: Seq<u64>, w: nat)
    ensures
        index_bytes(indices, w).len() == indices.len() * w,
    decreases indices.len(),
{
    if indices.len() > 0 {
        lemma_index_bytes_len(indices.drop_last(), w);
        lemma_le_bytes_len(indices.last() as nat, w);
        let m = indices.len() as int;
        assert((m - 1) * w + w == m * w) by (nonlinear_arith);
    } else {
        assert(0 * w == 0) by (nonlinear_arith);
    }
}

/// Writing a row of indices from slot `start` on leaves the other slots as
/// they were.
pub proof fn lemma_index_write_many(
    block: Seq<u8>,
    start: int,
    indices: Seq<u64>,
    w: nat,
    fan: nat,
)
    requires
        1 <= w,
        0 <= start,
        start + indices.len() <= fan,
        fan * w <= block.len(),
        forall|i: int| 0 <= i < indices.len() ==> (#[trigger] indices[i]) < pow256(w),
    ensures
        start * w + indices.len() * w <= block.len(),
        0 <= start * w,
        forall|k: int|
            0 <= k < fan ==> #[trigger] index_at(
                overlay(block, start * w, index_bytes(indices, w)),
                k,
                w,
            ) == (if start <= k < start + indices.len() {
                indices[k - start] as nat
            } else {
                index_at(block, k, w)
            }),
    decreases indices.len(),
{
    let m = indices.len() as int;
    let row = index_bytes(indices, w);
    lemma_index_bytes_len(indices, w);
    assert(start * w + m * w == (start + m) * w) by (nonlinear_arith);
    assert((start + m) * w <= fan * w) by (nonlinear_arith)
        requires
            start + m <= fan,
            w >= 0,
    ;
    assert(0 <= start * w) by (nonlinear_arith)
        requires
            start >= 0,
            w >= 0,
    ;
    if m == 0 {
        assert(overlay(block, start * w, row) =~= block);
    } else {
        let shorter = indices.drop_last();
        let last = indices.last() as nat;
        lemma_index_write_many(block, start, shorter, w, fan);
        lemma_index_bytes_len(shorter, w);
        lemma_le_bytes_len(last, w);
        let mid = overlay(block, start * w, index_bytes(shorter, w));
        let slot = start + m - 1;
        assert(slot * w == start * w + (m - 1) * w) by (nonlinear_arith)
            requires
                slot == start + m - 1,
        ;
        assert((m - 1) * w + w == m * w) by (nonlinear_arith);
        assert(indices[m - 1] < pow256(w));
        lemma_index_write(mid, slot, last, w, fan);
        assert(overlay(mid, slot * w, le_bytes(last, w)) =~= overlay(block, start * w, row));
    }
}

// ---------------------------------------------------------------------------
// Growing and shrinking
// ---------------------------------------------------------------------------

/// The blocks of the pyramid are in use, stand at one place each and point at
/// each other as they should.
pub open spec fn tree_ok(
    blocks: Map<u64, Seq<u8>>,
    levels: Seq<Seq<u64>>,
    f: nat,
    w: nat,
) -> bool {
    &&& held(blocks, levels)
    &&& distinct(levels)
    &&& linked(blocks, levels, f, w)
}

/// Blocks hung under one redirector, behind its last child, make a larger
/// pyramid.
pub proof fn lemma_append_children(
    b0: Map<u64, Seq<u8>>,
    b1: Map<u64, Seq<u8>>,
    levels: Seq<Seq<u64>>,
    l: int,
    children: Seq<u64>,
    f: nat,
    w: nat,
)
    requires
        f >= 2,
        tree_ok(b0, levels, f, w),
        0 <= l < levels.len() - 1,
        levels[l].len() / f < levels[l + 1].len(),
        levels[l].len() % f + children.len() <= f,
        children.no_duplicates(),
        forall|i: int| 0 <= i < children.len() ==> !has_block(levels, #[trigger] children[i]),
        forall|i: int| 0 <= i < children.len() ==> b1.contains_key(#[trigger] children[i]),
        forall|b: u64| #[trigger] b0.contains_key(b) ==> b1.contains_key(b),
        forall|b: u64|
            b0.contains_key(b) && b != levels[l + 1][(levels[l].len() / f) as int]
                && !children.contains(b) ==> #[trigger] b1[b] == b0[b],
        forall|k: int|
            0 <= k < f ==> #[trigger] index_at(
                b1[levels[l + 1][(levels[l].len() / f) as int]],
                k,
                w,
            ) == (if levels[l].len() % f <= k < levels[l].len() % f + children.len() {
                children[k - levels[l].len() % f] as nat
            } else {
                index_at(b0[levels[l + 1][(levels[l].len() / f) as int]], k, w)
            }),
        l >= 1 ==> levels[l - 1].len() <= levels[l].len() * f,
        l >= 1 ==> forall|i: int, k: int|
            0 <= i < children.len() && 0 <= k < f ==> #[trigger] index_at(b1[children[i]], k, w)
                == sentinel(w),
    ensures
        tree_ok(b1, levels.update(l, levels[l] + children), f, w),
{
    let idx = levels[l].len() as int;
    let fi = f as int;
    let p = idx / fi;
    let s = idx % fi;
    let m = children.len() as int;
    let grown = levels.update(l, levels[l] + children);
    let parent = levels[l + 1][p];
    lemma_div_mod(idx, fi);
    assert(is_place(levels, l + 1, p));
    assert forall|a: int, i: int| is_place(grown, a, i) implies b1.contains_key(
        #[trigger] grown[a][i],
    ) by {
        if a == l && i >= idx {
            assert(grown[a][i] == children[i - idx]);
        } else {
            assert(grown[a][i] == levels[a][i]);
            assert(is_place(levels, a, i));
        }
    }
    assert forall|a: int, i: int, c: int, j: int|
        #![trigger grown[a][i], grown[c][j]]
        is_place(grown, a, i) && is_place(grown, c, j) && grown[a][i] == grown[c][j] implies a == c
        && i == j by {
        let new_a = a == l && i >= idx;
        let new_c = c == l && j >= idx;
        if new_a {
            assert(grown[a][i] == children[i - idx]);
        } else {
            assert(grown[a][i] == levels[a][i] && is_place(levels, a, i));
        }
        if new_c {
            assert(grown[c][j] == children[j - idx]);
        } else {
            assert(grown[c][j] == levels[c][j] && is_place(levels, c, j));
        }
        if new_a && !new_c {
            assert(has_block(levels, children[i - idx]));
        } else if !new_a && new_c {
            assert(has_block(levels, children[j - idx]));
        }
    }
    assert forall|a: int, i: int| 1 <= a && is_place(grown, a, i) implies #[trigger] node_ok(
        b1,
        grown,
        a,
        i,
        f,
        w,
    ) by {
        if a == l && i >= idx {
            let block = grown[a][i];
            assert(block == children[i - idx]);
            assert forall|k: int| 0 <= k < f implies #[trigger] index_at(b1[block], k, w)
                == child_index(grown, a, i, k, f, w) by {
                assert(index_at(b1[children[i - idx]], k, w) == sentinel(w));
                assert(i * f >= idx * f) by (nonlinear_arith)
                    requires
                        i >= idx,
                        f >= 0,
                ;
            }
        } else {
            let block = levels[a][i];
            assert(grown[a][i] == block);
            assert(is_place(levels, a, i));
            assert(node_ok(b0, levels, a, i, f, w));
            assert(!children.contains(block)) by {
                if children.contains(block) {
                    let c = choose|c: int| 0 <= c < children.len() && children[c] == block;
                    assert(has_block(levels, children[c]));
                }
            }
            if a == l + 1 {
                assert forall|k: int| 0 <= k < f implies #[trigger] index_at(b1[block], k, w)
                    == child_index(grown, a, i, k, f, w) by {
                    assert(index_at(b0[block], k, w) == child_index(levels, a, i, k, f, w));
                    lemma_mul_div(i, k, fi);
                    if i == p {
                        assert(block == parent);
                        assert(i * f + k == idx - s + k);
                    } else {
                        assert(block != parent);
                        let at = i * f + k;
                        if idx <= at < idx + m {
                            lemma_mul_div(p, at - p * fi, fi);
                            assert(false);
                        }
                    }
                }
            } else {
                assert(block != parent);
                assert forall|k: int| 0 <= k < f implies #[trigger] index_at(b1[block], k, w)
                    == child_index(grown, a, i, k, f, w) by {
                    assert(index_at(b0[block], k, w) == child_index(levels, a, i, k, f, w));
                }
            }
        }
    }
}

/// A redirector put on top of a pyramid makes a pyramid of one more level.
pub proof fn lemma_add_top(
    b0: Map<u64, Seq<u8>>,
    b1: Map<u64, Seq<u8>>,
    levels: Seq<Seq<u64>>,
    top: u64,
    f: nat,
    w: nat,
)
    requires
        f >= 2,
        tree_ok(b0, levels, f, w),
        levels.len() >= 1,
        levels[levels.len() - 1].len() == 1,
        !has_block(levels, top),
        b1.contains_key(top),
        forall|b: u64| b0.contains_key(b) && b != top ==> b1.contains_key(b) && #[trigger] b1[b] == b0[b],
        forall|k: int|
            0 <= k < f ==> #[trigger] index_at(b1[top], k, w) == (if k == 0 {
                levels[levels.len() - 1][0] as nat
            } else {
                sentinel(w)
            }),
    ensures
        tree_ok(b1, levels.push(seq![top]), f, w),
{
    let grown = levels.push(seq![top]);
    let d = levels.len() as int;
    assert forall|a: int, i: int| is_place(grown, a, i) implies b1.contains_key(
        #[trigger] grown[a][i],
    ) by {
        if a < d {
            assert(is_place(levels, a, i));
            assert(levels[a][i] != top);
            assert(b0.contains_key(levels[a][i]));
            assert(b1[levels[a][i]] == b0[levels[a][i]]);
        }
    }
    assert forall|a: int, i: int, c: int, j: int|
        #![trigger grown[a][i], grown[c][j]]
        is_place(grown, a, i) && is_place(grown, c, j) && grown[a][i] == grown[c][j] implies a == c
        && i == j by {
        if a < d {
            assert(is_place(levels, a, i) && grown[a][i] == levels[a][i]);
        }
        if c < d {
            assert(is_place(levels, c, j) && grown[c][j] == levels[c][j]);
        }
    }
    assert forall|a: int, i: int| 1 <= a && is_place(grown, a, i) implies #[trigger] node_ok(
        b1,
        grown,
        a,
        i,
        f,
        w,
    ) by {
        if a < d {
            assert(is_place(levels, a, i));
            assert(node_ok(b0, levels, a, i, f, w));
            assert(levels[a][i] != top);
            assert(b0.contains_key(levels[a][i]));
            assert(b1[levels[a][i]] == b0[levels[a][i]]);
            assert forall|k: int| 0 <= k < f implies #[trigger] index_at(b1[grown[a][i]], k, w)
                == child_index(grown, a, i, k, f, w) by {
                assert(index_at(b0[levels[a][i]], k, w) == child_index(levels, a, i, k, f, w));
            }
        } else {
            assert(0 * f == 0) by (nonlinear_arith);
        }
    }
}

/// A pyramid is still one when its redirectors hold what they held.
pub proof fn lemma_tree_frame(
    b0: Map<u64, Seq<u8>>,
    b1: Map<u64, Seq<u8>>,
    levels: Seq<Seq<u64>>,
    f: nat,
    w: nat,
)
    requires
        tree_ok(b0, levels, f, w),
        forall|l: int, i: int|
            is_place(levels, l, i) ==> b1.contains_key(#[trigger] levels[l][i]),
        forall|l: int, i: int|
            1 <= l && is_place(levels, l, i) ==> b1[#[trigger] levels[l][i]] == b0[levels[l][i]],
    ensures
        tree_ok(b1, levels, f, w),
{
    assert forall|l: int, i: int| 1 <= l && is_place(levels, l, i) implies #[trigger] node_ok(
        b1,
        levels,
        l,
        i,
        f,
        w,
    ) by {
        assert(node_ok(b0, levels, l, i, f, w));
        assert(b1[levels[l][i]] == b0[levels[l][i]]);
    }
}

/// `b` is a redirector of the pyramid.
pub open spec fn is_redirector(levels: Seq<Seq<u64>>, b: u64) -> bool {
    exists|l: int, i: int| 1 <= l && is_place(levels, l, i) && #[trigger] levels[l][i] == b
}

/// The pyramid `lv0` in `b0` has grown to `lv1` in `b1`: nothing was lost,
/// nothing but redirectors was written, and the new redirectors are blocks
/// that were not in use before.
pub open spec fn grown(
    b0: Map<u64, Seq<u8>>,
    b1: Map<u64, Seq<u8>>,
    lv0: Seq<Seq<u64>>,
    lv1: Seq<Seq<u64>>,
) -> bool {
    &&& lv0.len() <= lv1.len()
    &&& forall|l: int|
        0 <= l < lv0.len() ==> (#[trigger] lv0[l]).len() <= lv1[l].len() && lv1[l].take(
            lv0[l].len() as int,
        ) == lv0[l]
    &&& forall|l: int, i: int|
        1 <= l && is_place(lv1, l, i) && (l >= lv0.len() || i >= lv0[l].len()) ==> !b0.contains_key(
            #[trigger] lv1[l][i],
        )
    &&& forall|b: u64| #[trigger]
        b1.contains_key(b) <==> b0.contains_key(b) || is_redirector(lv1, b)
    &&& forall|b: u64|
        b0.contains_key(b) && !is_redirector(lv0, b) ==> #[trigger] b1[b] == b0[b]
}

/// A place of the smaller pyramid is a place of the larger one.
pub proof fn lemma_grown_place(
    b0: Map<u64, Seq<u8>>,
    b1: Map<u64, Seq<u8>>,
    lv0: Seq<Seq<u64>>,
    lv1: Seq<Seq<u64>>,
    l: int,
    i: int,
)
    requires
        grown(b0, b1, lv0, lv1),
        is_place(lv0, l, i),
    ensures
        is_place(lv1, l, i),
        lv1[l][i] == lv0[l][i],
{
    assert(lv1[l].take(lv0[l].len() as int)[i] == lv0[l][i]);
}

/// A block in use before that is a redirector now was one before.
pub proof fn lemma_grown_redirector(
    b0: Map<u64, Seq<u8>>,
    b1: Map<u64, Seq<u8>>,
    lv0: Seq<Seq<u64>>,
    lv1: Seq<Seq<u64>>,
    b: u64,
)
    requires
        grown(b0, b1, lv0, lv1),
        b0.contains_key(b),
    ensures
        is_redirector(lv1, b) == is_redirector(lv0, b),
{
    if is_redirector(lv1, b) {
        let (l, i) = choose|l: int, i: int|
            1 <= l && is_place(lv1, l, i) && #[trigger] lv1[l][i] == b;
        assert(lv1[l].take(lv0[l].len() as int)[i] == lv0[l][i]);
        assert(is_place(lv0, l, i) && lv0[l][i] == b);
    }
    if is_redirector(lv0, b) {
        let (l, i) = choose|l: int, i: int|
            1 <= l && is_place(lv0, l, i) && #[trigger] lv0[l][i] == b;
        lemma_grown_place(b0, b1, lv0, lv1, l, i);
    }
}

/// Growth in two steps is growth.
pub proof fn lemma_grown_twice(
    b0: Map<u64, Seq<u8>>,
    b1: Map<u64, Seq<u8>>,
    b2: Map<u64, Seq<u8>>,
    lv0: Seq<Seq<u64>>,
    lv1: Seq<Seq<u64>>,
    lv2: Seq<Seq<u64>>,
)
    requires
        grown(b0, b1, lv0, lv1),
        grown(b1, b2, lv1, lv2),
    ensures
        grown(b0, b2, lv0, lv2),
{
    assert forall|l: int| 0 <= l < lv0.len() implies (#[trigger] lv0[l]).len() <= lv2[l].len()
        && lv2[l].take(lv0[l].len() as int) == lv0[l] by {
        let m = lv0[l].len() as int;
        assert(lv1[l].take(m) == lv0[l]);
        assert(lv2[l].take(lv1[l].len() as int) == lv1[l]);
        assert(lv2[l].take(m) =~= lv1[l].take(m)) by {
            assert forall|i: int| 0 <= i < m implies lv2[l][i] == lv1[l][i] by {
                assert(lv2[l].take(lv1[l].len() as int)[i] == lv1[l][i]);
            }
        }
    }
    assert forall|l: int, i: int|
        1 <= l && is_place(lv2, l, i) && (l >= lv0.len() || i >= lv0[l].len()) implies !b0.contains_key(
        #[trigger] lv2[l][i],
    ) by {
        if l < lv1.len() && i < lv1[l].len() {
            lemma_grown_place(b1, b2, lv1, lv2, l, i);
            assert(!b0.contains_key(lv1[l][i]));
        } else {
            assert(!b1.contains_key(lv2[l][i]));
        }
    }
    assert forall|b: u64| #[trigger] b2.contains_key(b) <==> b0.contains_key(b) || is_redirector(
        lv2,
        b,
    ) by {
        if b2.contains_key(b) && !is_redirector(lv2, b) {
            assert(b1.contains_key(b));
            lemma_grown_redirector(b1, b2, lv1, lv2, b);
        }
        if b0.contains_key(b) {
            assert(b1.contains_key(b));
        }
    }
    assert forall|b: u64| b0.contains_key(b) && !is_redirector(lv0, b) implies #[trigger] b2[b]
        == b0[b] by {
        assert(b1[b] == b0[b]);
        assert(b1.contains_key(b));
        lemma_grown_redirector(b0, b1, lv0, lv1, b);
    }
}

/// Every pyramid has grown from itself by nothing.
pub proof fn lemma_grown_refl(b: Map<u64, Seq<u8>>, lv: Seq<Seq<u64>>)
    requires
        held(b, lv),
    ensures
        grown(b, b, lv, lv),
{
    assert forall|l: int| 0 <= l < lv.len() implies lv[l].take((#[trigger] lv[l]).len() as int)
        == lv[l] by {
        assert(lv[l].take(lv[l].len() as int) =~= lv[l]);
    }
}

/// One level holds no more blocks than the next one can point at.
pub proof fn lemma_level_fits(n: nat, f: nat, l: nat)
    requires
        f >= 2,
        n >= 1,
    ensures
        level_count(n, f, l) <= level_count(n, f, l + 1) * f,
{
    lemma_level_count(n, f, l);
    lemma_level_count(n, f, l + 1);
    let a = level_count(n, f, l) as int;
    let q = (a - 1) / (f as int);
    lemma_div_mod(a - 1, f as int);
    assert((q + 1) * f == q * f + f) by (nonlinear_arith);
}

/// Data blocks under one redirector have all their ancestors in common.
pub proof fn lemma_same_ancestors(a: nat, b: nat, f: nat, l: nat)
    requires
        f >= 2,
        l >= 1,
        a / f == b / f,
    ensures
        a / powf(f, l) == b / powf(f, l),
    decreases l,
{
    if l == 1 {
        lemma_powf_one(f);
    } else {
        lemma_same_ancestors(a, b, f, (l - 1) as nat);
        lemma_ancestor_step(f, a, (l - 1) as nat);
        lemma_ancestor_step(f, b, (l - 1) as nat);
    }
}

/// The pyramid `lv0` in `b0` has shrunk to `lv1` in `b1`: the redirectors that
/// it no longer needs and the blocks in `gone` were given back, and nothing
/// but redirectors was written.
pub open spec fn shrunk(
    b0: Map<u64, Seq<u8>>,
    b1: Map<u64, Seq<u8>>,
    lv0: Seq<Seq<u64>>,
    lv1: Seq<Seq<u64>>,
    gone: Set<u64>,
) -> bool {
    &&& lv1.len() <= lv0.len()
    &&& forall|l: int|
        0 <= l < lv1.len() ==> (#[trigger] lv1[l]).len() <= lv0[l].len() && lv0[l].take(
            lv1[l].len() as int,
        ) == lv1[l]
    &&& forall|b: u64| #[trigger]
        b1.contains_key(b) <==> b0.contains_key(b) && !gone.contains(b) && (!is_redirector(lv0, b)
            || is_redirector(lv1, b))
    &&& forall|b: u64|
        b1.contains_key(b) && !is_redirector(lv0, b) ==> #[trigger] b1[b] == b0[b]
}

pub proof fn lemma_shrunk_place(lv0: Seq<Seq<u64>>, lv1: Seq<Seq<u64>>, l: int, i: int)
    requires
        lv1.len() <= lv0.len(),
        forall|l: int|
            0 <= l < lv1.len() ==> (#[trigger] lv1[l]).len() <= lv0[l].len() && lv0[l].take(
                lv1[l].len() as int,
            ) == lv1[l],
        is_place(lv1, l, i),
    ensures
        is_place(lv0, l, i),
        lv0[l][i] == lv1[l][i],
{
    assert(lv0[l].take(lv1[l].len() as int)[i] == lv1[l][i]);
}

/// Shrinking by nothing.
pub proof fn lemma_shrunk_refl(b: Map<u64, Seq<u8>>, lv: Seq<Seq<u64>>)
    ensures
        shrunk(b, b, lv, lv, Set::empty()),
{
    assert forall|l: int| 0 <= l < lv.len() implies lv[l].take((#[trigger] lv[l]).len() as int)
        == lv[l] by {
        assert(lv[l].take(lv[l].len() as int) =~= lv[l]);
    }
}

/// Shrinking in two steps is shrinking.
pub proof fn lemma_shrunk_twice(
    b0: Map<u64, Seq<u8>>,
    b1: Map<u64, Seq<u8>>,
    b2: Map<u64, Seq<u8>>,
    lv0: Seq<Seq<u64>>,
    lv1: Seq<Seq<u64>>,
    lv2: Seq<Seq<u64>>,
    gone1: Set<u64>,
    gone2: Set<u64>,
)
    requires
        shrunk(b0, b1, lv0, lv1, gone1),
        shrunk(b1, b2, lv1, lv2, gone2),
    ensures
        shrunk(b0, b2, lv0, lv2, gone1.union(gone2)),
{
    assert forall|l: int| 0 <= l < lv2.len() implies (#[trigger] lv2[l]).len() <= lv0[l].len()
        && lv0[l].take(lv2[l].len() as int) == lv2[l] by {
        let m = lv2[l].len() as int;
        assert(lv1[l].take(m) == lv2[l]);
        assert(lv0[l].take(lv1[l].len() as int) == lv1[l]);
        assert(lv0[l].take(m) =~= lv1[l].take(m)) by {
            assert forall|i: int| 0 <= i < m implies lv0[l][i] == lv1[l][i] by {
                assert(lv0[l].take(lv1[l].len() as int)[i] == lv1[l][i]);
            }
        }
    }
    assert forall|b: u64|
        (is_redirector(lv1, b) ==> is_redirector(lv0, b)) && (#[trigger] is_redirector(lv2, b)
            ==> is_redirector(lv1, b)) by {
        if is_redirector(lv1, b) {
            let (l, i) = choose|l: int, i: int|
                1 <= l && is_place(lv1, l, i) && #[trigger] lv1[l][i] == b;
            lemma_shrunk_place(lv0, lv1, l, i);
        }
        if is_redirector(lv2, b) {
            let (l, i) = choose|l: int, i: int|
                1 <= l && is_place(lv2, l, i) && #[trigger] lv2[l][i] == b;
            lemma_shrunk_place(lv1, lv2, l, i);
        }
    }
    assert forall|b: u64| #[trigger] b2.contains_key(b) <==> b0.contains_key(b) && !gone1.union(
        gone2,
    ).contains(b) && (!is_redirector(lv0, b) || is_redirector(lv2, b)) by {
        assert(b1.contains_key(b) || !b1.contains_key(b));
        assert(is_redirector(lv2, b) || !is_redirector(lv2, b));
    }
    assert forall|b: u64| b2.contains_key(b) && !is_redirector(lv0, b) implies #[trigger] b2[b]
        == b0[b] by {
        assert(b1.contains_key(b));
        assert(is_redirector(lv2, b) || !is_redirector(lv2, b));
        assert(!is_redirector(lv1, b));
        assert(b1[b] == b0[b]);
    }
}

/// The last block of a level, when nothing hangs under it, taken out of its
/// parent's slot leaves a pyramid.
pub proof fn lemma_remove_last(
    b0: Map<u64, Seq<u8>>,
    b1: Map<u64, Seq<u8>>,
    levels: Seq<Seq<u64>>,
    l: int,
    f: nat,
    w: nat,
)
    requires
        f >= 2,
        tree_ok(b0, levels, f, w),
        0 <= l < levels.len() - 1,
        levels[l].len() >= 1,
        (levels[l].len() - 1) as nat / f < levels[l + 1].len(),
        l >= 1 ==> levels[l - 1].len() <= (levels[l].len() - 1) * f,
        forall|b: u64|
            b0.contains_key(b) && b != levels[l][levels[l].len() - 1] ==> #[trigger] b1.contains_key(
                b,
            ),
        forall|b: u64|
            b0.contains_key(b) && b != levels[l][levels[l].len() - 1] && b != levels[l + 1][((
            levels[l].len() - 1) as nat / f) as int] ==> #[trigger] b1[b] == b0[b],
        forall|k: int|
            0 <= k < f ==> #[trigger] index_at(
                b1[levels[l + 1][((levels[l].len() - 1) as nat / f) as int]],
                k,
                w,
            ) == (if k == (levels[l].len() - 1) as nat % f {
                sentinel(w)
            } else {
                index_at(b0[levels[l + 1][((levels[l].len() - 1) as nat / f) as int]], k, w)
            }),
    ensures
        tree_ok(b1, levels.update(l, levels[l].drop_last()), f, w),
{
    let last = levels[l].len() - 1;
    let fi = f as int;
    let p = last / fi;
    let s = last % fi;
    let less = levels.update(l, levels[l].drop_last());
    let parent = levels[l + 1][p];
    let out = levels[l][last];
    lemma_div_mod(last, fi);
    assert(is_place(levels, l + 1, p));
    assert(is_place(levels, l, last));
    assert forall|a: int, i: int| is_place(less, a, i) implies #[trigger] less[a][i] == levels[a][i]
        && is_place(levels, a, i) && levels[a][i] != out by {
        assert(less[a][i] == levels[a][i]);
    }
    assert forall|a: int, i: int| is_place(less, a, i) implies b1.contains_key(
        #[trigger] less[a][i],
    ) by {
        assert(b0.contains_key(levels[a][i]));
    }
    assert forall|a: int, i: int| 1 <= a && is_place(less, a, i) implies #[trigger] node_ok(
        b1,
        less,
        a,
        i,
        f,
        w,
    ) by {
        let block = less[a][i];
        assert(block == levels[a][i] && block != out);
        assert(node_ok(b0, levels, a, i, f, w));
        assert(b0.contains_key(levels[a][i]));
        assert forall|k: int| 0 <= k < f implies #[trigger] index_at(b1[block], k, w)
            == child_index(less, a, i, k, f, w) by {
            assert(index_at(b0[block], k, w) == child_index(levels, a, i, k, f, w));
            lemma_mul_div(i, k, fi);
            if a == l + 1 {
                if i == p {
                    assert(block == parent);
                    if k == s {
                        assert(i * f + k == last);
                    } else if i * f + k < levels[l].len() {
                        assert(i * f + k != last);
                    }
                } else {
                    assert(block != parent);
                    if i * f + k == last {
                        assert(false);
                    }
                }
            } else {
                assert(block != parent);
            }
        }
    }
}

/// Ancestors that agree at one level agree at all higher ones.
pub proof fn lemma_same_above(a: nat, b: nat, f: nat, m: nat, l: nat)
    requires
        f >= 1,
        m <= l,
        a / powf(f, m) == b / powf(f, m),
    ensures
        a / powf(f, l) == b / powf(f, l),
    decreases l,
{
    if m < l {
        lemma_same_above(a, b, f, m, (l - 1) as nat);
        lemma_ancestor_step(f, a, (l - 1) as nat);
        lemma_ancestor_step(f, b, (l - 1) as nat);
    }
}

} // verus!
