//! The pyramid of a stream as its descriptor gives it, and the steps that
//! plain and compressed streams share.

use crate::block_layer::{same_make, same_store, sentinel, with_zero_blocks, zero_bytes, BlockLayer};
use crate::descriptor::StreamDescriptor;
use crate::pyramid::{
    ceil_div, child_index, distinct, grown, has_block, held, index_at, is_depth, is_place,
    is_pyramid, is_redirector, lemma_depth_unique, lemma_div_mod, lemma_grown_place,
    lemma_grown_redirector, lemma_level_count, lemma_level_fits, lemma_mul_div, lemma_powf_monotone,
    lemma_powf_one, lemma_shrunk_place, lemma_shrunk_refl, lemma_shrunk_twice, lemma_top_is_alone,
    lemma_tree_frame, level_count, linked, node_ok, powf, replaced, shaped, shrunk,
};
use crate::pyramid_grow::{batch_fill_leaf_redirectors, grow_depth};
use crate::pyramid_io::{block_sentinel, fan_ok, pyramid_depth, read_block_index};
use crate::types::{CacheMode, SfsError};
use vstd::prelude::*;

verus! {

/// The data blocks of a pyramid; of an empty stream, none.
pub open spec fn leaves(levels: Seq<Seq<u64>>) -> Seq<u64> {
    if levels.len() == 0 {
        Seq::empty()
    } else {
        levels[0]
    }
}

/// `d` describes a stream whose pyramid is `levels`, with `unit` bytes of the
/// stream for every data block. A stream without capacity has no pyramid.
pub open spec fn describes(
    blocks: Map<u64, Seq<u8>>,
    d: StreamDescriptor,
    levels: Seq<Seq<u64>>,
    unit: nat,
    f: nat,
    w: nat,
) -> bool {
    let n = leaves(levels).len();
    &&& d.size <= d.reserved
    &&& d.reserved == n * unit
    &&& levels.len() == 0 ==> d.top_block == 0
    &&& levels.len() > 0 ==> {
        &&& is_pyramid(blocks, levels, n, f, w)
        &&& is_depth(n, f, (levels.len() - 1) as nat)
        &&& d.top_block == levels[levels.len() - 1][0]
    }
}

/// A whole number of units takes that number of units.
pub proof fn lemma_ceil_exact(n: nat, unit: nat)
    requires
        unit >= 1,
    ensures
        ceil_div(n * unit, unit) == n,
        n <= n * unit,
        n == 0 ==> n * unit == 0,
        n >= 1 ==> n * unit >= unit,
{
    assert(n <= n * unit) by (nonlinear_arith)
        requires
            unit >= 1,
    ;
    if n > 0 {
        assert((n - 1) * unit + (unit - 1) == n * unit - 1) by (nonlinear_arith);
        lemma_mul_div(n - 1, unit - 1, unit as int);
        assert(n * unit >= unit) by (nonlinear_arith)
            requires
                n >= 1,
        ;
    } else {
        assert(0 * unit == 0) by (nonlinear_arith);
    }
}

/// The units that `size` takes cover it, and one less does not.
pub proof fn lemma_ceil_covers(size: nat, unit: nat)
    requires
        unit >= 1,
    ensures
        size <= ceil_div(size, unit) * unit,
        size >= 1 ==> ceil_div(size, unit) >= 1,
        size >= 1 ==> (ceil_div(size, unit) - 1) * unit < size,
        ceil_div(size, unit) <= size,
        ceil_div(size, unit) * unit < size + unit,
{
    if size > 0 {
        let q = (size - 1) / unit as int;
        lemma_div_mod(size - 1, unit as int);
        assert((q + 1) * unit == q * unit + unit) by (nonlinear_arith);
        assert(q <= q * unit) by (nonlinear_arith)
            requires
                q >= 0,
                unit >= 1,
        ;
    } else {
        assert(0 * unit == 0) by (nonlinear_arith);
    }
}

/// More bytes take at least as many units.
pub proof fn lemma_ceil_monotone(a: nat, b: nat, unit: nat)
    requires
        unit >= 1,
        a <= b,
    ensures
        ceil_div(a, unit) <= ceil_div(b, unit),
{
    if a > 0 {
        vstd::arithmetic::div_mod::lemma_div_is_ordered(a - 1, b - 1, unit as int);
    }
}

/// A larger pyramid is at least as deep.
pub proof fn lemma_depth_monotone(a: nat, b: nat, f: nat, da: nat, db: nat)
    requires
        f >= 2,
        a <= b,
        is_depth(a, f, da),
        is_depth(b, f, db),
    ensures
        da <= db,
{
    if db < da {
        lemma_powf_monotone(f, db, (da - 1) as nat);
    }
}

// ---------------------------------------------------------------------------
// Growing
// ---------------------------------------------------------------------------

/// The pyramid `lv0` has become `lv1` by the data blocks `added` and the
/// redirectors for them. What hangs outside, and the data blocks of before,
/// hold what they held.
pub open spec fn extended(
    b0: Map<u64, Seq<u8>>,
    b1: Map<u64, Seq<u8>>,
    lv0: Seq<Seq<u64>>,
    lv1: Seq<Seq<u64>>,
    added: Seq<u64>,
) -> bool {
    &&& leaves(lv1) == leaves(lv0) + added
    &&& replaced(b0, b1, lv0, lv1)
    &&& forall|i: int|
        0 <= i < leaves(lv0).len() ==> b1[#[trigger] leaves(lv0)[i]] == b0[leaves(lv0)[i]]
    &&& forall|i: int| 0 <= i < added.len() ==> !b0.contains_key(#[trigger] added[i])
}

proof fn lemma_extended(
    b0: Map<u64, Seq<u8>>,
    b1: Map<u64, Seq<u8>>,
    b2: Map<u64, Seq<u8>>,
    b3: Map<u64, Seq<u8>>,
    lv0: Seq<Seq<u64>>,
    lv1: Seq<Seq<u64>>,
    lv3: Seq<Seq<u64>>,
    added: Seq<u64>,
    size: nat,
)
    requires
        lv0.len() >= 1,
        lv1.len() == lv3.len(),
        held(b0, lv0),
        distinct(lv0),
        grown(b0, b1, lv0, lv1),
        lv1[0] == lv0[0],
        b2 == with_zero_blocks(b1, added, size),
        forall|i: int| 0 <= i < added.len() ==> !b1.contains_key(#[trigger] added[i]),
        grown(b2, b3, lv1, lv3),
        lv3[0] == lv1[0] + added,
    ensures
        extended(b0, b3, lv0, lv3, added),
        forall|i: int| 0 <= i < added.len() ==> b3[#[trigger] added[i]] == zero_bytes(size),
{
    assert forall|b: u64|
        #![trigger has_block(lv3, b)]
        #![trigger b3[b]]
        b0.contains_key(b) && !has_block(lv0, b) implies !has_block(lv3, b) && b3[b] == b0[b] by {
        lemma_not_redirector(lv0, b);
        assert(b1[b] == b0[b]);
        assert(b1.contains_key(b));
        lemma_grown_redirector(b0, b1, lv0, lv1, b);
        assert(b2.contains_key(b));
        lemma_grown_redirector(b2, b3, lv1, lv3, b);
        assert(!added.contains(b));
        assert(b2[b] == b1[b]);
        assert(b3[b] == b2[b]);
        if has_block(lv3, b) {
            let (l, i) = choose|l: int, i: int| is_place(lv3, l, i) && #[trigger] lv3[l][i] == b;
            if l >= 1 {
                assert(is_redirector(lv3, b));
            } else if i < lv0[0].len() {
                assert(is_place(lv0, 0, i) && lv0[0][i] == b);
            } else {
                assert(added[i - lv0[0].len()] == b);
            }
            assert(false);
        }
    }
    assert forall|i: int| 0 <= i < lv0[0].len() implies b3[#[trigger] lv0[0][i]] == b0[lv0[0][i]] by {
        let b = lv0[0][i];
        assert(is_place(lv0, 0, i));
        assert(b0.contains_key(b));
        lemma_leaf_not_redirector(lv0, i);
        assert(b1[b] == b0[b]);
        assert(b1.contains_key(b));
        lemma_grown_redirector(b0, b1, lv0, lv1, b);
        assert(!added.contains(b));
        assert(b2[b] == b1[b]);
        assert(b3[b] == b2[b]);
    }
    assert forall|i: int| 0 <= i < added.len() implies b3[#[trigger] added[i]] == zero_bytes(size)
        && !b0.contains_key(added[i]) by {
        let b = added[i];
        assert(added.contains(b));
        assert(b2.contains_key(b));
        assert(b2[b] == zero_bytes(size));
        if is_redirector(lv1, b) {
            assert(b1.contains_key(b));
        }
        if b0.contains_key(b) {
            assert(b1.contains_key(b));
        }
        assert(b3[b] == b2[b]);
    }
    assert forall|b: u64| #[trigger] b3.contains_key(b) <==> (b0.contains_key(b) && !has_block(
        lv0,
        b,
    )) || has_block(lv3, b) by {
        if has_block(lv3, b) {
            let (l, i) = choose|l: int, i: int| is_place(lv3, l, i) && #[trigger] lv3[l][i] == b;
            if l >= 1 {
                assert(is_redirector(lv3, b));
            } else if i < lv0[0].len() {
                assert(is_place(lv0, 0, i) && lv0[0][i] == b);
                assert(b0.contains_key(lv0[0][i]));
                assert(b1.contains_key(b));
                assert(b2.contains_key(b));
            } else {
                assert(added[i - lv0[0].len()] == b);
                assert(added.contains(b));
                assert(b2.contains_key(b));
            }
            assert(b3.contains_key(b));
        }
        if b3.contains_key(b) && !has_block(lv3, b) {
            if is_redirector(lv3, b) {
                let (l, i) = choose|l: int, i: int|
                    1 <= l && is_place(lv3, l, i) && #[trigger] lv3[l][i] == b;
                assert(has_block(lv3, b));
            }
            assert(b2.contains_key(b));
            if added.contains(b) {
                let i = choose|i: int| 0 <= i < added.len() && added[i] == b;
                assert(is_place(lv3, 0, lv0[0].len() + i) && lv3[0][lv0[0].len() + i] == b);
            }
            assert(b1.contains_key(b));
            if is_redirector(lv1, b) {
                let (l, i) = choose|l: int, i: int|
                    1 <= l && is_place(lv1, l, i) && #[trigger] lv1[l][i] == b;
                lemma_grown_place(b2, b3, lv1, lv3, l, i);
                assert(has_block(lv3, b));
            }
            if has_block(lv0, b) {
                let (l, i) = choose|l: int, i: int|
                    is_place(lv0, l, i) && #[trigger] lv0[l][i] == b;
                lemma_grown_place(b0, b1, lv0, lv1, l, i);
                lemma_grown_place(b2, b3, lv1, lv3, l, i);
                assert(has_block(lv3, b));
            }
        }
        if b0.contains_key(b) {
            assert(b1.contains_key(b));
            assert(b2.contains_key(b));
        }
    }
}

pub proof fn lemma_not_redirector(levels: Seq<Seq<u64>>, b: u64)
    requires
        !has_block(levels, b),
    ensures
        !is_redirector(levels, b),
{
    if is_redirector(levels, b) {
        let (l, i) = choose|l: int, i: int|
            1 <= l && is_place(levels, l, i) && #[trigger] levels[l][i] == b;
        assert(has_block(levels, b));
    }
}

pub proof fn lemma_leaf_not_redirector(levels: Seq<Seq<u64>>, i: int)
    requires
        distinct(levels),
        is_place(levels, 0, i),
    ensures
        !is_redirector(levels, levels[0][i]),
{
    let b = levels[0][i];
    if is_redirector(levels, b) {
        let (l, j) = choose|l: int, j: int|
            1 <= l && is_place(levels, l, j) && #[trigger] levels[l][j] == b;
        assert(levels[l][j] == levels[0][i]);
    }
}

/// Grows the pyramid of a stream to `target` data blocks. The new data blocks
/// are zero.
pub(crate) fn extend_pyramid<L2: BlockLayer>(
    layer2: &mut L2,
    top_block: u64,
    current: u64,
    target: u64,
    fan_out: u64,
    cache: CacheMode,
    tree: &mut Ghost<Seq<Seq<u64>>>,
) -> (r: Result<(u64, Vec<u64>), SfsError>)
    requires
        fan_ok(*old(layer2), fan_out),
        current == leaves(old(tree)@).len(),
        current < target,
        old(tree)@.len() > 0 ==> {
            &&& is_pyramid(
                old(layer2).blocks(),
                old(tree)@,
                current as nat,
                fan_out as nat,
                old(layer2).iwidth(),
            )
            &&& is_depth(current as nat, fan_out as nat, (old(tree)@.len() - 1) as nat)
            &&& top_block == old(tree)@[old(tree)@.len() - 1][0]
        },
    ensures
        final(layer2).bsize() == old(layer2).bsize(),
        final(layer2).iwidth() == old(layer2).iwidth(),
        final(layer2).faults() >= old(layer2).faults(),
        (r is Ok) == (final(layer2).faults() == old(layer2).faults()),
        r matches Ok((top, added)) ==> {
            let lv = final(tree)@;
            &&& same_make(*old(layer2), *final(layer2))
            &&& lv.len() >= 1
            &&& is_pyramid(
                final(layer2).blocks(),
                lv,
                target as nat,
                fan_out as nat,
                old(layer2).iwidth(),
            )
            &&& is_depth(target as nat, fan_out as nat, (lv.len() - 1) as nat)
            &&& top == lv[lv.len() - 1][0]
            &&& added@.len() == target - current
            &&& extended(
                old(layer2).blocks(),
                final(layer2).blocks(),
                old(tree)@,
                lv,
                added@,
            )
            &&& forall|i: int|
                0 <= i < added@.len() ==> final(layer2).blocks()[#[trigger] added@[i]]
                    == zero_bytes(old(layer2).bsize())
        },
{
    let ghost f = fan_out as nat;
    let ghost w = layer2.iwidth();
    let ghost b0 = layer2.blocks();
    let ghost lv0 = tree@;
    proof {
        layer2.lemma_wf();
        lemma_powf_one(f);
    }
    let current_depth: u32 = pyramid_depth(current, fan_out);
    let target_depth: u32 = pyramid_depth(target, fan_out);
    let mut added: Vec<u64> = Vec::new();
    let mut top: u64 = top_block;
    let mut have: u64 = current;
    if current == 0 {
        let block: u64 = match layer2.allocate_block() {
            Ok(block) => block,
            Err(e) => {
                return Err(e);
            },
        };
        added.push(block);
        top = block;
        have = 1;
        proof {
            let lv = seq![seq![block]];
            lemma_level_count(1, f, 0);
            assert(shaped(lv, 1, f));
            assert(held(layer2.blocks(), lv));
            assert(distinct(lv));
            assert(linked(layer2.blocks(), lv, f, w));
            if lv0.len() > 0 {
                assert(false);
            }
            assert(leaves(lv0) + added@ =~= lv[0]);
            assert forall|b: u64| has_block(lv, b) == (b == block) by {
                if b == block {
                    assert(is_place(lv, 0, 0) && lv[0][0] == b);
                }
            }
            assert(!has_block(lv0, block));
            assert(extended(b0, layer2.blocks(), lv0, lv, added@));
            *tree = Ghost(lv);
        }
        if target == 1 {
            proof {
                assert(target_depth == 0) by {
                    lemma_depth_unique(1, f, target_depth as nat, 0);
                }
            }
            return Ok((top, added));
        }
    }
    let ghost lvs = tree@;
    let ghost bs = layer2.blocks();
    let ghost first = added@;
    proof {
        if current > 0 {
            assert(lv0.len() > 0);
            lemma_depth_unique(
                current as nat,
                f,
                current_depth as nat,
                (lv0.len() - 1) as nat,
            );
            lemma_depth_monotone(
                current as nat,
                target as nat,
                f,
                current_depth as nat,
                target_depth as nat,
            );
        } else {
            lemma_depth_unique(0, f, current_depth as nat, 0);
        }
        if target_depth == 0 {
            assert(false);
        }
    }
    top = match grow_depth(
        layer2,
        top,
        current_depth,
        target_depth,
        fan_out,
        cache,
        tree,
        Ghost(have as nat),
    ) {
        Ok(top) => top,
        Err(e) => {
            return Err(e);
        },
    };
    let ghost lv1 = tree@;
    let ghost b1 = layer2.blocks();
    let mut more: Vec<u64> = match layer2.allocate_blocks(target - have) {
        Ok(more) => more,
        Err(e) => {
            return Err(e);
        },
    };
    let ghost b2 = layer2.blocks();
    proof {
        lemma_tree_frame(b1, b2, lv1, f, w);
        lemma_powf_monotone(f, 0, (target_depth - 1) as nat);
        assert forall|i: int| 0 <= i < more@.len() implies b2.contains_key(#[trigger] more@[i])
            && !has_block(lv1, more@[i]) by {
            assert(more@.contains(more@[i]));
            if has_block(lv1, more@[i]) {
                let (l, j) = choose|l: int, j: int|
                    is_place(lv1, l, j) && #[trigger] lv1[l][j] == more@[i];
                assert(b1.contains_key(lv1[l][j]));
            }
        }
    }
    match batch_fill_leaf_redirectors(
        layer2,
        top,
        &more,
        have,
        fan_out,
        target_depth,
        cache,
        tree,
    ) {
        Ok(_) => {},
        Err(e) => {
            return Err(e);
        },
    }
    proof {
        let lv3 = tree@;
        let b3 = layer2.blocks();
        lemma_extended(bs, b1, b2, b3, lvs, lv1, lv3, more@, layer2.bsize());
        if current == 0 {
            lemma_extended_from_empty(b0, bs, b3, lv0, lvs, lv3, first[0], more@, layer2.bsize());
            assert(first + more@ =~= seq![first[0]] + more@);
        } else {
            assert(first + more@ =~= more@);
        }
    }
    added.append(&mut more);
    Ok((top, added))
}

/// A stream that had no block, given its first one and then more.
proof fn lemma_extended_from_empty(
    b0: Map<u64, Seq<u8>>,
    bs: Map<u64, Seq<u8>>,
    b3: Map<u64, Seq<u8>>,
    lv0: Seq<Seq<u64>>,
    lvs: Seq<Seq<u64>>,
    lv3: Seq<Seq<u64>>,
    first: u64,
    more: Seq<u64>,
    size: nat,
)
    requires
        lv0.len() == 0,
        lvs == seq![seq![first]],
        lv3.len() >= 1,
        !b0.contains_key(first),
        bs == b0.insert(first, zero_bytes(size)),
        extended(bs, b3, lvs, lv3, more),
        forall|i: int| 0 <= i < more.len() ==> b3[#[trigger] more[i]] == zero_bytes(size),
    ensures
        extended(b0, b3, lv0, lv3, seq![first] + more),
        forall|i: int|
            0 <= i < (seq![first] + more).len() ==> b3[#[trigger] (seq![first] + more)[i]]
                == zero_bytes(size),
{
    let all = seq![first] + more;
    assert(leaves(lvs) =~= seq![first]);
    assert(leaves(lv0) + all =~= leaves(lv3));
    assert(lv3[0][0] == first && is_place(lv3, 0, 0));
    assert(has_block(lv3, first));
    assert forall|b: u64| #[trigger] b3.contains_key(b) <==> (b0.contains_key(b) && !has_block(
        lv0,
        b,
    )) || has_block(lv3, b) by {
        if b0.contains_key(b) {
            assert(bs.contains_key(b));
            lemma_only_block(lvs, first, b);
        }
        if b3.contains_key(b) && !has_block(lv3, b) {
            assert(bs.contains_key(b) && !has_block(lvs, b));
            assert(b != first);
        }
    }
    assert forall|b: u64|
        #![trigger has_block(lv3, b)]
        #![trigger b3[b]]
        b0.contains_key(b) && !has_block(lv0, b) implies !has_block(lv3, b) && b3[b] == b0[b] by {
        lemma_only_block(lvs, first, b);
        assert(bs.contains_key(b) && !has_block(lvs, b));
        assert(bs[b] == b0[b]);
        assert(b3[b] == bs[b]);
    }
    assert forall|i: int| 0 <= i < all.len() implies !b0.contains_key(#[trigger] all[i])
        && b3[all[i]] == zero_bytes(size) by {
        if i == 0 {
            assert(b3[leaves(lvs)[0]] == bs[leaves(lvs)[0]]);
        } else {
            assert(all[i] == more[i - 1]);
            assert(!bs.contains_key(more[i - 1]));
        }
    }
}

proof fn lemma_only_block(levels: Seq<Seq<u64>>, block: u64, b: u64)
    requires
        levels == seq![seq![block]],
        b != block,
    ensures
        !has_block(levels, b),
{
}

// ---------------------------------------------------------------------------
// Collecting all blocks
// ---------------------------------------------------------------------------

/// All blocks of a pyramid, the top first, level by level.
pub open spec fn flat(levels: Seq<Seq<u64>>) -> Seq<u64>
    decreases levels.len(),
{
    if levels.len() == 0 {
        Seq::empty()
    } else {
        levels.last() + flat(levels.drop_last())
    }
}

pub proof fn lemma_flat_contains(levels: Seq<Seq<u64>>, b: u64)
    ensures
        flat(levels).contains(b) == has_block(levels, b),
    decreases levels.len(),
{
    if levels.len() > 0 {
        let less = levels.drop_last();
        let d = levels.len() - 1;
        lemma_flat_contains(less, b);
        let all = flat(levels);
        if all.contains(b) {
            let i = choose|i: int| 0 <= i < all.len() && all[i] == b;
            if i < levels[d].len() {
                assert(is_place(levels, d, i) && levels[d][i] == b);
            } else {
                assert(flat(less)[i - levels[d].len()] == b);
                let (l, j) = choose|l: int, j: int|
                    is_place(less, l, j) && #[trigger] less[l][j] == b;
                assert(is_place(levels, l, j) && levels[l][j] == b);
            }
        }
        if has_block(levels, b) {
            let (l, j) = choose|l: int, j: int|
                is_place(levels, l, j) && #[trigger] levels[l][j] == b;
            if l == d {
                assert(all[j] == b);
            } else {
                assert(is_place(less, l, j) && less[l][j] == b);
                let i = choose|i: int| 0 <= i < flat(less).len() && flat(less)[i] == b;
                assert(all[levels[d].len() + i] == b);
            }
        }
    }
}

pub proof fn lemma_flat_no_duplicates(levels: Seq<Seq<u64>>)
    requires
        distinct(levels),
    ensures
        flat(levels).no_duplicates(),
    decreases levels.len(),
{
    if levels.len() > 0 {
        let less = levels.drop_last();
        let d = levels.len() - 1;
        assert(distinct(less)) by {
            assert forall|l: int, i: int, m: int, j: int|
                #![trigger less[l][i], less[m][j]]
                is_place(less, l, i) && is_place(less, m, j) && less[l][i] == less[m][j] implies l
                == m && i == j by {
                assert(levels[l][i] == levels[m][j] && is_place(levels, l, i) && is_place(
                    levels,
                    m,
                    j,
                ));
            }
        }
        lemma_flat_no_duplicates(less);
        let all = flat(levels);
        assert forall|i: int, j: int| 0 <= i < all.len() && 0 <= j < all.len() && i != j implies
            all[i] != all[j] by {
            let t = levels[d].len() as int;
            if i < t && j < t {
                assert(is_place(levels, d, i) && is_place(levels, d, j));
                assert(levels[d][i] != levels[d][j]);
            } else if i < t || j < t {
                let a = if i < t { i } else { j };
                let b = if i < t { j } else { i };
                if all[a] == all[b] {
                    let x = flat(less)[b - t];
                    assert(flat(less).contains(x));
                    lemma_flat_contains(less, x);
                    let (l, k) = choose|l: int, k: int|
                        is_place(less, l, k) && #[trigger] less[l][k] == x;
                    assert(is_place(levels, l, k) && is_place(levels, d, a));
                    assert(levels[l][k] == levels[d][a]);
                    assert(false);
                }
            } else {
                assert(flat(less)[i - t] != flat(less)[j - t]);
            }
        }
    }
}

/// Lists the blocks of one level, given those of the level above.
fn collect_children<L2: BlockLayer>(
    layer2: &mut L2,
    nodes: &Vec<u64>,
    fan_out: u64,
    cache: CacheMode,
    Ghost(levels): Ghost<Seq<Seq<u64>>>,
    Ghost(l): Ghost<int>,
    Ghost(n): Ghost<nat>,
) -> (r: Result<Vec<u64>, SfsError>)
    requires
        fan_ok(*old(layer2), fan_out),
        is_pyramid(old(layer2).blocks(), levels, n, fan_out as nat, old(layer2).iwidth()),
        1 <= l < levels.len(),
        nodes@ == levels[l],
    ensures
        same_store(*old(layer2), *final(layer2)),
        L2::reads_always() ==> final(layer2).faults() == old(layer2).faults(),
        final(layer2).faults() >= old(layer2).faults(),
        (r is Ok) == (final(layer2).faults() == old(layer2).faults()),
        r matches Ok(children) ==> children@ == levels[l - 1],
{
    let ghost f = fan_out as nat;
    let ghost w = layer2.iwidth();
    let ghost below = levels[l - 1];
    proof {
        layer2.lemma_wf();
        lemma_level_fits(n, f, (l - 1) as nat);
        assert(levels[l].len() == level_count(n, f, l as nat));
        assert(levels[l - 1].len() == level_count(n, f, (l - 1) as nat));
        assert(0 * f == 0) by (nonlinear_arith);
    }
    let sentinel_index: u64 = block_sentinel(layer2.block_index_width());
    let count: usize = nodes.len();
    let mut children: Vec<u64> = Vec::new();
    let mut i: usize = 0;
    while i < count
        invariant
            fan_ok(*layer2, fan_out),
            same_store(*old(layer2), *layer2),
            layer2.faults() == old(layer2).faults(),
            f == fan_out,
            w == layer2.iwidth(),
            is_pyramid(layer2.blocks(), levels, n, f, w),
            1 <= l < levels.len(),
            nodes@ == levels[l],
            count == nodes@.len(),
            below == levels[l - 1],
            below.len() <= count * f,
            sentinel_index == sentinel(w),
            i <= count,
            children@ == below.take(if i * f < below.len() {
                i * f
            } else {
                below.len() as int
            }),
        decreases count - i,
    {
        let block: u64 = nodes[i];
        proof {
            assert(is_place(levels, l, i as int));
            assert(layer2.blocks().contains_key(levels[l][i as int]));
            assert(node_ok(layer2.blocks(), levels, l, i as int, f, w));
            assert((i + 1) * f == i * f + f) by (nonlinear_arith);
        }
        let mut slot: u64 = 0;
        while slot < fan_out
            invariant
                fan_ok(*layer2, fan_out),
                same_store(*old(layer2), *layer2),
                layer2.faults() == old(layer2).faults(),
                f == fan_out,
                w == layer2.iwidth(),
                is_pyramid(layer2.blocks(), levels, n, f, w),
                1 <= l < levels.len(),
                block == levels[l][i as int],
                layer2.blocks().contains_key(block),
                node_ok(layer2.blocks(), levels, l, i as int, f, w),
                below == levels[l - 1],
                sentinel_index == sentinel(w),
                slot <= fan_out,
                0 <= i * f,
                children@ == below.take(if i * f + slot < below.len() {
                    i * f + slot
                } else {
                    below.len() as int
                }),
            decreases fan_out - slot,
        {
            let ghost c = i * f + slot;
            proof {
                layer2.lemma_wf();
                assert(index_at(layer2.blocks()[block], slot as int, w) == child_index(
                    levels,
                    l,
                    i as int,
                    slot as int,
                    f,
                    w,
                ));
                if c < below.len() {
                    assert(is_place(levels, l - 1, c));
                    assert(layer2.blocks().contains_key(levels[l - 1][c]));
                }
            }
            let child: u64 = match read_block_index(layer2, block, slot, fan_out, cache) {
                Ok(child) => child,
                Err(e) => {
                    return Err(e);
                },
            };
            if child != sentinel_index {
                children.push(child);
            }
            proof {
                if c < below.len() {
                    assert(below.take(c + 1) =~= below.take(c).push(below[c]));
                }
            }
            slot = slot + 1;
        }
        i = i + 1;
    }
    proof {
        assert(below.take(below.len() as int) =~= below);
    }
    Ok(children)
}

/// Lists all blocks of a pyramid.
pub(crate) fn collect_tree_blocks_for_dealloc<L2: BlockLayer>(
    layer2: &mut L2,
    top_block: u64,
    depth: u32,
    fan_out: u64,
    cache: CacheMode,
    Ghost(levels): Ghost<Seq<Seq<u64>>>,
    Ghost(n): Ghost<nat>,
) -> (r: Result<(Vec<u64>, Vec<u64>), SfsError>)
    requires
        fan_ok(*old(layer2), fan_out),
        is_pyramid(old(layer2).blocks(), levels, n, fan_out as nat, old(layer2).iwidth()),
        levels.len() == depth + 1,
        top_block == levels[depth as int][0],
    ensures
        same_store(*old(layer2), *final(layer2)),
        L2::reads_always() ==> final(layer2).faults() == old(layer2).faults(),
        final(layer2).faults() >= old(layer2).faults(),
        (r is Ok) == (final(layer2).faults() == old(layer2).faults()),
        r matches Ok((blocks, bottom)) ==> {
            &&& blocks@ + bottom@ == flat(levels)
            &&& bottom@ == levels[0]
        },
{
    let ghost f = fan_out as nat;
    let mut blocks: Vec<u64> = Vec::new();
    let mut nodes: Vec<u64> = Vec::new();
    nodes.push(top_block);
    let mut level: u32 = depth;
    proof {
        lemma_top_is_alone(n, f, depth as nat);
        assert(levels[depth as int].len() == 1);
        assert(nodes@ =~= levels[depth as int]);
        assert(levels.take(depth + 1) =~= levels);
        assert(blocks@ + flat(levels.take(level + 1)) =~= flat(levels));
    }
    while level > 0
        invariant
            fan_ok(*layer2, fan_out),
            same_store(*old(layer2), *layer2),
            layer2.faults() == old(layer2).faults(),
            f == fan_out,
            is_pyramid(layer2.blocks(), levels, n, f, layer2.iwidth()),
            levels.len() == depth + 1,
            level <= depth,
            nodes@ == levels[level as int],
            blocks@ + flat(levels.take(level + 1)) == flat(levels),
        decreases level,
    {
        let children: Vec<u64> = match collect_children(
            layer2,
            &nodes,
            fan_out,
            cache,
            Ghost(levels),
            Ghost(level as int),
            Ghost(n),
        ) {
            Ok(children) => children,
            Err(e) => {
                return Err(e);
            },
        };
        let ghost before = blocks@;
        blocks.append(&mut nodes);
        proof {
            let part = levels.take(level + 1);
            assert(part.drop_last() =~= levels.take(level as int));
            assert(part.last() == levels[level as int]);
            assert(before + (levels[level as int] + flat(levels.take(level as int))) =~= blocks@
                + flat(levels.take(level as int)));
        }
        nodes = children;
        level = level - 1;
    }
    proof {
        let part = levels.take(1);
        assert(part.last() == levels[0]);
        assert(flat(part.drop_last()) =~= Seq::<u64>::empty());
        assert(levels[0] + Seq::<u64>::empty() =~= levels[0]);
    }
    Ok((blocks, nodes))
}

// ---------------------------------------------------------------------------
// Losing levels
// ---------------------------------------------------------------------------

/// Takes redirectors off the top of a pyramid that has become too deep. Gives
/// the new top block.
pub(crate) fn collapse_depth<L2: BlockLayer>(
    layer2: &mut L2,
    top_block: u64,
    from_depth: u32,
    to_depth: u32,
    fan_out: u64,
    cache: CacheMode,
    tree: &mut Ghost<Seq<Seq<u64>>>,
    Ghost(n): Ghost<nat>,
) -> (r: Result<u64, SfsError>)
    requires
        fan_ok(*old(layer2), fan_out),
        is_pyramid(old(layer2).blocks(), old(tree)@, n, fan_out as nat, old(layer2).iwidth()),
        old(tree)@.len() == from_depth + 1,
        top_block == old(tree)@[from_depth as int][0],
        to_depth <= from_depth,
        n <= powf(fan_out as nat, to_depth as nat),
    ensures
        final(layer2).bsize() == old(layer2).bsize(),
        final(layer2).iwidth() == old(layer2).iwidth(),
        final(layer2).faults() >= old(layer2).faults(),
        (r is Ok) == (final(layer2).faults() == old(layer2).faults()),
        r matches Ok(top) ==> {
            let lv = final(tree)@;
            &&& same_make(*old(layer2), *final(layer2))
            &&& is_pyramid(final(layer2).blocks(), lv, n, fan_out as nat, old(layer2).iwidth())
            &&& lv.len() == to_depth + 1
            &&& top == lv[to_depth as int][0]
            &&& lv[0] == old(tree)@[0]
            &&& shrunk(
                old(layer2).blocks(),
                final(layer2).blocks(),
                old(tree)@,
                lv,
                Set::empty(),
            )
        },
{
    let ghost f = fan_out as nat;
    let ghost w = layer2.iwidth();
    let ghost b0 = layer2.blocks();
    let ghost lv0 = tree@;
    proof {
        lemma_shrunk_refl(b0, lv0);
        lemma_top_is_alone(n, f, from_depth as nat);
    }
    let mut current_top: u64 = top_block;
    let mut depth: u32 = from_depth;
    while depth > to_depth
        invariant
            fan_ok(*layer2, fan_out),
            same_make(*old(layer2), *layer2),
            layer2.faults() == old(layer2).faults(),
            f == fan_out,
            w == layer2.iwidth(),
            b0 == old(layer2).blocks(),
            lv0 == old(tree)@,
            to_depth <= depth <= from_depth,
            n <= powf(f, to_depth as nat),
            is_pyramid(layer2.blocks(), tree@, n, f, w),
            tree@.len() == depth + 1,
            current_top == tree@[depth as int][0],
            tree@[0] == lv0[0],
            shrunk(b0, layer2.blocks(), lv0, tree@, Set::empty()),
        decreases depth - to_depth,
    {
        let ghost lv = tree@;
        let ghost b1 = layer2.blocks();
        proof {
            layer2.lemma_wf();
            lemma_powf_monotone(f, to_depth as nat, (depth - 1) as nat);
            lemma_top_is_alone(n, f, (depth - 1) as nat);
            lemma_top_is_alone(n, f, depth as nat);
            assert(lv[depth as int].len() == 1);
            assert(lv[depth - 1].len() == 1);
            assert(is_place(lv, depth as int, 0));
            assert(is_place(lv, depth - 1, 0));
            assert(b1.contains_key(lv[depth as int][0]));
            assert(node_ok(b1, lv, depth as int, 0, f, w));
            assert(index_at(b1[lv[depth as int][0]], 0, w) == child_index(
                lv,
                depth as int,
                0,
                0,
                f,
                w,
            ));
            assert(0 * f == 0) by (nonlinear_arith);
        }
        let child: u64 = match read_block_index(layer2, current_top, 0, fan_out, cache) {
            Ok(child) => child,
            Err(e) => {
                return Err(e);
            },
        };
        match layer2.deallocate_block(current_top) {
            Ok(_) => {},
            Err(e) => {
                return Err(e);
            },
        }
        proof {
            let b2 = layer2.blocks();
            let lv2 = lv.drop_last();
            let top = lv[depth as int][0];
            assert forall|l: int, i: int| is_place(lv2, l, i) implies #[trigger] lv2[l][i]
                == lv[l][i] && is_place(lv, l, i) && lv[l][i] != top by {
                assert(lv2[l][i] == lv[l][i]);
                assert(lv[depth as int][0] == top);
            }
            assert(held(b2, lv2)) by {
                assert forall|l: int, i: int| is_place(lv2, l, i) implies b2.contains_key(
                    #[trigger] lv2[l][i],
                ) by {
                    assert(b1.contains_key(lv[l][i]));
                }
            }
            assert(distinct(lv2)) by {
                assert forall|l: int, i: int, m: int, j: int|
                    #![trigger lv2[l][i], lv2[m][j]]
                    is_place(lv2, l, i) && is_place(lv2, m, j) && lv2[l][i] == lv2[m][j] implies l
                    == m && i == j by {
                    assert(lv[l][i] == lv[m][j]);
                }
            }
            assert(linked(b2, lv2, f, w)) by {
                assert forall|l: int, i: int| 1 <= l && is_place(lv2, l, i) implies
                    #[trigger] node_ok(b2, lv2, l, i, f, w) by {
                    assert(node_ok(b1, lv, l, i, f, w));
                    assert(lv2[l][i] == lv[l][i]);
                    assert(b1.contains_key(lv[l][i]));
                    assert(lv2[l - 1] == lv[l - 1]);
                    assert forall|k: int| 0 <= k < f implies #[trigger] index_at(
                        b2[lv2[l][i]],
                        k,
                        w,
                    ) == child_index(lv2, l, i, k, f, w) by {
                        assert(index_at(b1[lv[l][i]], k, w) == child_index(lv, l, i, k, f, w));
                    }
                }
            }
            assert(shrunk(b1, b2, lv, lv2, Set::empty())) by {
                assert forall|l: int| 0 <= l < lv2.len() implies (#[trigger] lv2[l]).len()
                    <= lv[l].len() && lv[l].take(lv2[l].len() as int) == lv2[l] by {
                    assert(lv[l].take(lv2[l].len() as int) =~= lv2[l]);
                }
                assert forall|b: u64| #[trigger] b2.contains_key(b) <==> b1.contains_key(b) && (
                !is_redirector(lv, b) || is_redirector(lv2, b)) by {
                    if is_redirector(lv, b) && b != top {
                        let (x, y) = choose|x: int, y: int|
                            1 <= x && is_place(lv, x, y) && #[trigger] lv[x][y] == b;
                        assert(is_place(lv2, x, y) && lv2[x][y] == b);
                    }
                    if b == top {
                        assert(is_place(lv, depth as int, 0) && lv[depth as int][0] == b);
                        assert(is_redirector(lv, b));
                        if is_redirector(lv2, b) {
                            let (x, y) = choose|x: int, y: int|
                                1 <= x && is_place(lv2, x, y) && #[trigger] lv2[x][y] == b;
                            assert(false);
                        }
                    }
                }
            }
            lemma_shrunk_twice(b0, b1, b2, lv0, lv, lv2, Set::empty(), Set::empty());
            assert(Set::<u64>::empty().union(Set::empty()) =~= Set::<u64>::empty());
            *tree = Ghost(lv2);
        }
        current_top = child;
        depth = depth - 1;
    }
    Ok(current_top)
}

/// The data blocks of a pyramid from number `keep` on.
pub open spec fn leaves_from(levels: Seq<Seq<u64>>, keep: int) -> Set<u64> {
    Set::new(|b: u64| exists|i: int| keep <= i < levels[0].len() && #[trigger] levels[0][i] == b)
}

/// A pyramid that lost the data blocks from `keep` on, with nothing else gone.
pub proof fn lemma_shrunk_replaced(
    b0: Map<u64, Seq<u8>>,
    b1: Map<u64, Seq<u8>>,
    lv0: Seq<Seq<u64>>,
    lv1: Seq<Seq<u64>>,
    keep: int,
)
    requires
        lv1.len() >= 1,
        held(b0, lv0),
        distinct(lv0),
        0 <= keep <= lv0[0].len(),
        shrunk(b0, b1, lv0, lv1, leaves_from(lv0, keep)),
        lv1[0] == lv0[0].take(keep),
    ensures
        replaced(b0, b1, lv0, lv1),
        forall|i: int| 0 <= i < keep ==> b1[#[trigger] lv0[0][i]] == b0[lv0[0][i]],
{
    let gone = leaves_from(lv0, keep);
    assert forall|b: u64| #[trigger] gone.contains(b) implies !is_redirector(lv0, b) && !has_block(
        lv1,
        b,
    ) by {
        let i = choose|i: int| keep <= i < lv0[0].len() && #[trigger] lv0[0][i] == b;
        assert(is_place(lv0, 0, i));
        lemma_leaf_not_redirector(lv0, i);
        if has_block(lv1, b) {
            let (l, j) = choose|l: int, j: int| is_place(lv1, l, j) && #[trigger] lv1[l][j] == b;
            lemma_shrunk_place(lv0, lv1, l, j);
            assert(lv0[l][j] == lv0[0][i]);
        }
    }
    assert forall|b: u64| #[trigger] has_block(lv1, b) implies has_block(lv0, b) && b1.contains_key(
        b,
    ) by {
        let (l, j) = choose|l: int, j: int| is_place(lv1, l, j) && #[trigger] lv1[l][j] == b;
        lemma_shrunk_place(lv0, lv1, l, j);
        assert(lv0[l][j] == b);
        assert(b0.contains_key(lv0[l][j]));
        if gone.contains(b) {
            assert(false);
        }
        if l >= 1 {
            assert(is_redirector(lv1, b));
        } else {
            lemma_leaf_not_redirector(lv0, j);
        }
    }
    assert forall|b: u64| #[trigger] b1.contains_key(b) <==> (b0.contains_key(b) && !has_block(
        lv0,
        b,
    )) || has_block(lv1, b) by {
        if b1.contains_key(b) && has_block(lv0, b) && !has_block(lv1, b) {
            let (l, j) = choose|l: int, j: int| is_place(lv0, l, j) && #[trigger] lv0[l][j] == b;
            if l >= 1 {
                assert(is_redirector(lv0, b));
                let (m, k) = choose|m: int, k: int|
                    1 <= m && is_place(lv1, m, k) && #[trigger] lv1[m][k] == b;
                assert(has_block(lv1, b));
            } else if j >= keep {
                assert(gone.contains(b));
            } else {
                assert(lv1[0][j] == b && is_place(lv1, 0, j));
            }
            assert(false);
        }
        if b0.contains_key(b) && !has_block(lv0, b) {
            lemma_not_redirector(lv0, b);
            if gone.contains(b) {
                let i = choose|i: int| keep <= i < lv0[0].len() && #[trigger] lv0[0][i] == b;
                assert(is_place(lv0, 0, i) && has_block(lv0, b));
            }
        }
    }
    assert forall|b: u64| b0.contains_key(b) && !has_block(lv0, b) implies #[trigger] b1[b]
        == b0[b] by {
        lemma_not_redirector(lv0, b);
        assert(b1.contains_key(b));
    }
    assert forall|i: int| 0 <= i < keep implies b1[#[trigger] lv0[0][i]] == b0[lv0[0][i]] by {
        let b = lv0[0][i];
        assert(is_place(lv0, 0, i));
        lemma_leaf_not_redirector(lv0, i);
        assert(lv1[0][i] == b && is_place(lv1, 0, i));
        assert(has_block(lv1, b));
        assert(b1.contains_key(b));
    }
}

} // verus!
