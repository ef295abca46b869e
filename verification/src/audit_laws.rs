//! What the checks take to belong to a stream, damaged or not: told by the block numbers
//! that stand in the blocks.

use crate::compressed::{packed_len, packed_ptr};
use crate::descriptor::StreamDescriptor;
use crate::format_laws::{law_spelt_number, spells};
use crate::pyramid::{ceil_div, index_at, is_depth, lemma_depth_unique, powf};
use crate::stream_check::{
    all_fit, below, children_upto, depth_of, listed_blocks, piece_blocks, redir_blocks, row_at,
    rows, told_blocks, told_fits, told_leaves,
};
use crate::stream_ops::Make;
use crate::stream_table::slot_of;
use vstd::arithmetic::power::pow;
use vstd::prelude::*;

verus! {

/// Slot `k` of a redirector names block `c`: its bytes are those of the number, and not
/// all of them are 255.
pub open spec fn names_block(block: Seq<u8>, k: int, w: nat, c: u64) -> bool {
    spells(block, k * w, w, c as nat) && c != pow(256, w) - 1
}

/// The blocks that a redirector of `k` slots names are those of its slots that are in use,
/// in the order of the slots, one for each of them.
pub proof fn law_children(block: Seq<u8>, k: nat, w: nat) -> (slots: Seq<int>)
    requires
        1 <= w <= 8,
        k * w <= block.len(),
    ensures
        slots.len() == children_upto(block, k, w).len(),
        forall|i: int|
            0 <= i < slots.len() ==> 0 <= #[trigger] slots[i] < k && names_block(
                block,
                slots[i],
                w,
                children_upto(block, k, w)[i],
            ),
        forall|i: int, j: int| 0 <= i < j < slots.len() ==> slots[i] < slots[j],
        forall|s: int, c: u64|
            0 <= s < k && #[trigger] names_block(block, s, w, c) ==> slots.contains(s),
    decreases k,
{
    if k == 0 {
        Seq::empty()
    } else {
        let s = k - 1;
        assert(s * w + w == k * w) by (nonlinear_arith)
            requires
                s == k - 1,
        ;
        assert(s * w >= 0) by (nonlinear_arith)
            requires
                s >= 0,
                w >= 0,
        ;
        let before = law_children(block, (k - 1) as nat, w);
        let v = index_at(block, s, w);
        law_spelt_number(block, s * w, w, v);
        crate::bytes::law_le_bytes_of_value(block.subrange(s * w, s * w + w));
        crate::terms::law_pow256(w);
        crate::bytes::lemma_pow256_monotone(w, 8);
        crate::bytes::lemma_pow256_values();
        assert(crate::block_layer::sentinel(w) == pow(256, w) - 1) by {
            crate::bytes::lemma_pow256_monotone(0, w);
        }
        assert forall|c: u64| #[trigger] names_block(block, s, w, c) implies c == v by {
            law_spelt_number(block, s * w, w, c as nat);
        }
        if v == crate::block_layer::sentinel(w) {
            assert forall|t: int, c: u64|
                0 <= t < k && #[trigger] names_block(block, t, w, c) implies before.contains(t) by {
                assert(t != s);
            }
            before
        } else {
            let after = before.push(s);
            let all = children_upto(block, k, w);
            assert(all == children_upto(block, (k - 1) as nat, w).push(v as u64));
            assert(names_block(block, s, w, v as u64));
            assert forall|i: int| 0 <= i < after.len() implies 0 <= #[trigger] after[i] < k
                && names_block(block, after[i], w, all[i]) by {
                if i < before.len() {
                    assert(after[i] == before[i]);
                }
            }
            assert forall|i: int, j: int| 0 <= i < j < after.len() implies after[i]
                < after[j] by {
                if j == before.len() {
                    assert(before[i] < k - 1);
                }
            }
            assert forall|t: int, c: u64|
                0 <= t < k && #[trigger] names_block(block, t, w, c) implies after.contains(t) by {
                if t == s {
                    assert(after[before.len() as int] == s);
                } else {
                    assert(before.contains(t));
                    let i = choose|i: int| 0 <= i < before.len() && before[i] == t;
                    assert(after[i] == t);
                }
            }
            after
        }
    }
}

/// The blocks below a row are those below its blocks, one behind the other, and none below
/// no block.
pub proof fn law_below(blocks: Map<u64, Seq<u8>>, a: Seq<u64>, b: Seq<u64>, c: u64, f: nat, w: nat)
    ensures
        below(blocks, Seq::empty(), f, w).len() == 0,
        below(blocks, seq![c], f, w) == children_upto(blocks[c], f, w),
        below(blocks, a + b, f, w) == below(blocks, a, f, w) + below(blocks, b, f, w),
    decreases b.len(),
{
    assert(seq![c].drop_last() =~= Seq::<u64>::empty());
    reveal_with_fuel(below, 2);
    assert(below(blocks, seq![c], f, w) =~= children_upto(blocks[c], f, w));
    if b.len() == 0 {
        assert(a + b =~= a);
        assert(below(blocks, a, f, w) + below(blocks, b, f, w) =~= below(blocks, a, f, w));
    } else {
        law_below(blocks, a, b.drop_last(), c, f, w);
        assert((a + b).drop_last() =~= a + b.drop_last());
        assert((a + b).last() == b.last());
        let x = below(blocks, a, f, w);
        let y = below(blocks, b.drop_last(), f, w);
        let z = children_upto(blocks[b.last()], f, w);
        assert(x + y + z =~= x + (y + z));
    }
}

/// The rows that are reached from a block: first the block, then those below each row. All
/// of them count, from the first to the last.
pub proof fn law_rows(blocks: Map<u64, Seq<u8>>, top: u64, d: nat, f: nat, w: nat)
    ensures
        row_at(blocks, top, 0, f, w) == seq![top],
        rows(blocks, top, 0, f, w) == seq![top],
        row_at(blocks, top, d + 1, f, w) == below(blocks, row_at(blocks, top, d, f, w), f, w),
        rows(blocks, top, d + 1, f, w) == rows(blocks, top, d, f, w) + row_at(
            blocks,
            top,
            d + 1,
            f,
            w,
        ),
{
}

/// The blocks of packed pieces: as many as the packed length of a redirector takes, each
/// named behind the four bytes of that length, and none where these do not fit into the
/// redirector.
pub proof fn law_pieces(
    blocks: Map<u64, Seq<u8>>,
    a: Seq<u64>,
    c: u64,
    size: nat,
    w: nat,
    i: int,
)
    requires
        size >= 1,
        1 <= w <= 8,
        blocks[c].len() == size,
        size >= 4,
    ensures
        ({
            let part = redir_blocks(blocks[c], size, w);
            let len = packed_len(blocks[c]);
            let n = if len == 0 {
                0
            } else {
                (len - 1) / size as int + 1
            };
            &&& spells(blocks[c], 0, 4, len)
            &&& piece_blocks(blocks, a.push(c), size, w) == part + piece_blocks(blocks, a, size, w)
            &&& 4 + n * w > size ==> part.len() == 0
            &&& 4 + n * w <= size ==> part.len() == n
            &&& 4 + n * w <= size && 0 <= i < n ==> spells(
                blocks[c],
                4 + i * w,
                w,
                part[i] as nat,
            )
        }),
        piece_blocks(blocks, Seq::empty(), size, w).len() == 0,
{
    let redir = blocks[c];
    let len = packed_len(redir);
    law_spelt_number(redir, 0, 4, len);
    assert(a.push(c).drop_last() =~= a);
    assert(a.push(c).last() == c);
    let n = ceil_div(len, size);
    if 4 + n * w <= size && 0 <= i < n {
        assert(i * w + w <= n * w) by (nonlinear_arith)
            requires
                i + 1 <= n,
                w >= 0,
        ;
        assert(i * w >= 0) by (nonlinear_arith)
            requires
                i >= 0,
                w >= 0,
        ;
        let v = packed_ptr(redir, i, w);
        law_spelt_number(redir, 4 + i * w, w, v);
        crate::bytes::law_le_bytes_of_value(redir.subrange(4 + i * w, 4 + i * w + w));
        crate::bytes::lemma_pow256_monotone(w, 8);
        crate::bytes::lemma_pow256_values();
    }
}

/// A descriptor leads to the rows below its top block, as many as are needed for data
/// blocks or pieces for its capacity, or for its size where that is larger; with the
/// blocks of the pieces where it is compressed, and to nothing where it is empty.
pub proof fn law_told(blocks: Map<u64, Seq<u8>>, d: StreamDescriptor, m: Make, depth: nat)
    requires
        m.size >= 1,
        m.piece >= 1,
        m.fan_out >= 2,
        ({
            let bytes = if d.size > d.reserved {
                d.size as int
            } else {
                d.reserved as int
            };
            let unit = if d.flags % 2 == 1 {
                m.piece as int
            } else {
                m.size as int
            };
            let n = (bytes - 1) / unit + 1;
            bytes > 0 ==> {
                &&& n <= powf(m.fan_out, depth)
                &&& depth > 0 ==> n > powf(m.fan_out, (depth - 1) as nat)
            }
        }),
    ensures
        ({
            let top = rows(blocks, d.top_block, depth, m.fan_out, m.width);
            let last = row_at(blocks, d.top_block, depth, m.fan_out, m.width);
            &&& d.size == 0 && d.reserved == 0 ==> told_blocks(blocks, d, m).len() == 0
                && told_leaves(blocks, d, m).len() == 0
            &&& d.size > 0 || d.reserved > 0 ==> {
                &&& told_leaves(blocks, d, m) == last
                &&& told_blocks(blocks, d, m) == if d.flags % 2 == 1 {
                    top + piece_blocks(blocks, last, m.size, m.width)
                } else {
                    top
                }
            }
            &&& told_fits(blocks, d, m) <==> {
                &&& d.size == 0 && d.reserved == 0 ==> d.top_block == 0
                &&& d.size <= d.reserved
                &&& d.flags % 2 == 1 && d.reserved > 0 ==> all_fit(blocks, last, m.size, m.width)
            }
        }),
        powf(m.fan_out, depth) == pow(m.fan_out as int, depth),
{
    lemma_powf(m.fan_out, depth);
    let bytes = if d.size > d.reserved {
        d.size as nat
    } else {
        d.reserved as nat
    };
    let unit = if d.flags % 2 == 1 {
        m.piece
    } else {
        m.size
    };
    if bytes > 0 {
        let n = ceil_div(bytes, unit);
        assert(is_depth(n, m.fan_out, depth));
        lemma_depth_unique(n, m.fan_out, depth, depth_of(n, m.fan_out));
    }
}

proof fn lemma_powf(f: nat, d: nat)
    ensures
        powf(f, d) == pow(f as int, d),
    decreases d,
{
    if d == 0 {
        vstd::arithmetic::power::lemma_pow0(f as int);
    } else {
        lemma_powf(f, (d - 1) as nat);
        vstd::arithmetic::power::lemma_pow1(f as int);
        vstd::arithmetic::power::lemma_pow_adds(f as int, 1, (d - 1) as nat);
        assert(powf(f, d) == f * powf(f, (d - 1) as nat));
    }
}

/// A table leads to what its descriptors lead to, one behind the other, but for those that
/// are free.
pub proof fn law_listed(blocks: Map<u64, Seq<u8>>, table: Seq<u8>, k: nat, m: Make)
    ensures
        listed_blocks(blocks, table, 0, m).len() == 0,
        slot_of(table, k as int).top_block == u64::MAX ==> listed_blocks(
            blocks,
            table,
            k + 1,
            m,
        ) == listed_blocks(blocks, table, k, m),
        slot_of(table, k as int).top_block != u64::MAX ==> listed_blocks(
            blocks,
            table,
            k + 1,
            m,
        ) == listed_blocks(blocks, table, k, m) + told_blocks(blocks, slot_of(table, k as int), m),
{
}

} // verus!
