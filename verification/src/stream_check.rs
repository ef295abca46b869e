//! Checks of the streams of a block layer, where what is stored may be damaged:
//! which blocks the table and the streams take, as far as they can be followed.

use crate::block_layer::{sentinel, BlockLayer};
use crate::bytes::{copy_range, get_le, lemma_pow256_values};
use crate::compressed::{packed_len, packed_ptr};
use crate::descriptor::StreamDescriptor;
use crate::plain::content;
use crate::pyramid::{
    ceil_div, index_at, is_depth, lemma_depth_unique, lemma_mul_div, lemma_slot_range,
};
use crate::pyramid_io::{block_sentinel, data_blocks_needed, pyramid_depth};
use crate::stream_ops::{unit_of, Make};
use crate::stream_table::{slot_count, slot_of};
use crate::types::{text_num, CacheMode};
use vstd::prelude::*;

verus! {

/// The blocks that the first `k` slots of a redirector name.
pub open spec fn children_upto(block: Seq<u8>, k: nat, w: nat) -> Seq<u64>
    decreases k,
{
    if k == 0 {
        Seq::empty()
    } else {
        let c = index_at(block, k - 1, w);
        let before = children_upto(block, (k - 1) as nat, w);
        if c == sentinel(w) {
            before
        } else {
            before.push(c as u64)
        }
    }
}

/// The blocks that the redirectors of a row name.
pub open spec fn below(blocks: Map<u64, Seq<u8>>, row: Seq<u64>, f: nat, w: nat) -> Seq<u64>
    decreases row.len(),
{
    if row.len() == 0 {
        Seq::empty()
    } else {
        below(blocks, row.drop_last(), f, w) + children_upto(blocks[row.last()], f, w)
    }
}

/// The blocks that are reached from a block in `d` steps.
pub open spec fn row_at(blocks: Map<u64, Seq<u8>>, top: u64, d: nat, f: nat, w: nat) -> Seq<u64>
    decreases d,
{
    if d == 0 {
        seq![top]
    } else {
        below(blocks, row_at(blocks, top, (d - 1) as nat, f, w), f, w)
    }
}

/// The blocks that are reached from a block in up to `d` steps.
pub open spec fn rows(blocks: Map<u64, Seq<u8>>, top: u64, d: nat, f: nat, w: nat) -> Seq<u64>
    decreases d,
{
    if d == 0 {
        seq![top]
    } else {
        rows(blocks, top, (d - 1) as nat, f, w) + row_at(blocks, top, d, f, w)
    }
}

/// A compression redirector has room for the blocks that it must name.
pub open spec fn redir_fits(redir: Seq<u8>, size: nat, w: nat) -> bool {
    4 + ceil_div(packed_len(redir), size) * w <= size
}

/// The blocks that a compression redirector names.
pub open spec fn redir_blocks(redir: Seq<u8>, size: nat, w: nat) -> Seq<u64> {
    if redir_fits(redir, size, w) {
        Seq::new(ceil_div(packed_len(redir), size), |i: int| packed_ptr(redir, i, w) as u64)
    } else {
        Seq::empty()
    }
}

/// The blocks that the compression redirectors of a row name.
pub open spec fn piece_blocks(blocks: Map<u64, Seq<u8>>, row: Seq<u64>, size: nat, w: nat) -> Seq<
    u64,
>
    decreases row.len(),
{
    if row.len() == 0 {
        Seq::empty()
    } else {
        redir_blocks(blocks[row.last()], size, w) + piece_blocks(blocks, row.drop_last(), size, w)
    }
}

/// The compression redirectors of a row have room for the blocks that they must
/// name.
pub open spec fn all_fit(blocks: Map<u64, Seq<u8>>, row: Seq<u64>, size: nat, w: nat) -> bool {
    forall|i: int| 0 <= i < row.len() ==> redir_fits(blocks[#[trigger] row[i]], size, w)
}

/// The least depth of a pyramid over `n` data blocks.
pub open spec fn depth_of(n: nat, f: nat) -> nat {
    choose|d: nat| is_depth(n, f, d)
}

/// The capacity that a descriptor tells.
pub open spec fn told_capacity(d: StreamDescriptor) -> nat {
    if d.reserved >= d.size {
        d.reserved as nat
    } else {
        d.size as nat
    }
}

/// The depth of the pyramid that a descriptor tells of.
pub open spec fn told_depth(d: StreamDescriptor, m: Make) -> nat {
    depth_of(ceil_div(told_capacity(d), unit_of(d.compressed(), m)), m.fan_out)
}

/// The data blocks that a descriptor leads to.
pub open spec fn told_leaves(blocks: Map<u64, Seq<u8>>, d: StreamDescriptor, m: Make) -> Seq<u64> {
    if told_capacity(d) == 0 {
        Seq::empty()
    } else {
        row_at(blocks, d.top_block, told_depth(d, m), m.fan_out, m.width)
    }
}

/// All blocks that a descriptor leads to.
pub open spec fn told_blocks(blocks: Map<u64, Seq<u8>>, d: StreamDescriptor, m: Make) -> Seq<u64> {
    if told_capacity(d) == 0 {
        Seq::empty()
    } else if d.compressed() {
        rows(blocks, d.top_block, told_depth(d, m), m.fan_out, m.width) + piece_blocks(
            blocks,
            told_leaves(blocks, d, m),
            m.size,
            m.width,
        )
    } else {
        rows(blocks, d.top_block, told_depth(d, m), m.fan_out, m.width)
    }
}

/// What a descriptor tells is possible: an empty stream has no top block, no
/// stream is longer than its capacity, and its compression redirectors have
/// room for what they must name.
pub open spec fn told_fits(blocks: Map<u64, Seq<u8>>, d: StreamDescriptor, m: Make) -> bool {
    &&& d.size == 0 && d.reserved == 0 ==> d.top_block == 0
    &&& d.size <= d.reserved
    &&& d.compressed() ==> all_fit(blocks, told_leaves(blocks, d, m), m.size, m.width)
}

/// The bytes of a table, as far as its data blocks reach.
pub open spec fn told_table(blocks: Map<u64, Seq<u8>>, row: Seq<u64>, len: nat, size: nat) -> Seq<
    u8,
> {
    content(blocks, row, size).take(
        if row.len() * size < len {
            (row.len() * size) as int
        } else {
            len as int
        },
    )
}

/// All blocks that the first `k` descriptors of a table lead to.
pub open spec fn listed_blocks(
    blocks: Map<u64, Seq<u8>>,
    table: Seq<u8>,
    k: nat,
    m: Make,
) -> Seq<u64>
    decreases k,
{
    if k == 0 {
        Seq::empty()
    } else {
        let d = slot_of(table, k - 1);
        let before = listed_blocks(blocks, table, (k - 1) as nat, m);
        if d.free() {
            before
        } else {
            before + told_blocks(blocks, d, m)
        }
    }
}

/// What the first `k` descriptors of a table tell is possible.
pub open spec fn listed_fit(blocks: Map<u64, Seq<u8>>, table: Seq<u8>, k: nat, m: Make) -> bool {
    forall|i: int|
        0 <= i < k && !(#[trigger] slot_of(table, i)).free() ==> told_fits(
            blocks,
            slot_of(table, i),
            m,
        )
}

/// All these blocks are in use.
pub open spec fn all_in(s: Seq<u64>, blocks: Map<u64, Seq<u8>>) -> bool {
    forall|i: int| 0 <= i < s.len() ==> blocks.contains_key(#[trigger] s[i])
}

/// Two states of a store between which nothing was changed.
pub open spec fn unchanged<L2: BlockLayer>(a: L2, b: L2) -> bool {
    &&& b.wf() == a.wf()
    &&& b.usable() == a.usable()
    &&& b.bsize() == a.bsize()
    &&& b.iwidth() == a.iwidth()
    &&& b.blocks() == a.blocks()
    &&& b.slots() == a.slots()
    &&& b.own_blocks() == a.own_blocks()
    &&& b.faults() >= a.faults()
    &&& L2::reads_always() ==> b.faults() == a.faults()
}

/// What one descriptor leads to is part of what all of them lead to.
pub proof fn lemma_listed_in(
    blocks: Map<u64, Seq<u8>>,
    table: Seq<u8>,
    k: nat,
    i: int,
    m: Make,
)
    requires
        0 <= i < k,
        !slot_of(table, i).free(),
        all_in(listed_blocks(blocks, table, k, m), blocks),
    ensures
        all_in(told_blocks(blocks, slot_of(table, i), m), blocks),
    decreases k,
{
    let before = listed_blocks(blocks, table, (k - 1) as nat, m);
    let d = slot_of(table, k - 1);
    if !d.free() {
        lemma_all_in_joined(before, told_blocks(blocks, d, m), blocks);
    }
    if i < k - 1 {
        lemma_listed_in(blocks, table, (k - 1) as nat, i, m);
    }
}

pub proof fn lemma_all_in_joined(s: Seq<u64>, t: Seq<u64>, blocks: Map<u64, Seq<u8>>)
    ensures
        all_in(s + t, blocks) <==> all_in(s, blocks) && all_in(t, blocks),
{
    let u = s + t;
    if all_in(u, blocks) {
        assert forall|i: int| 0 <= i < s.len() implies blocks.contains_key(#[trigger] s[i]) by {
            assert(u[i] == s[i]);
        }
        assert forall|i: int| 0 <= i < t.len() implies blocks.contains_key(#[trigger] t[i]) by {
            assert(u[s.len() + i] == t[i]);
        }
    }
}

/// The last row is among all rows.
proof fn lemma_row_in_rows(blocks: Map<u64, Seq<u8>>, top: u64, d: nat, f: nat, w: nat)
    requires
        all_in(rows(blocks, top, d, f, w), blocks),
    ensures
        all_in(row_at(blocks, top, d, f, w), blocks),
{
    if d > 0 {
        lemma_all_in_joined(
            rows(blocks, top, (d - 1) as nat, f, w),
            row_at(blocks, top, d, f, w),
            blocks,
        );
    }
}

/// Reads a whole block. What could not be read is reported.
fn read_whole<L2: BlockLayer>(
    layer2: &mut L2,
    block: u64,
    cache: CacheMode,
    label: &str,
    issues: &mut Vec<String>,
) -> (r: Option<Vec<u8>>)
    requires
        old(layer2).usable(),
    ensures
        unchanged(*old(layer2), *final(layer2)),
        final(issues)@.len() >= old(issues)@.len(),
        r is None ==> final(issues)@.len() > old(issues)@.len(),
        r is Some ==> final(issues)@.len() == old(issues)@.len(),
        r is Some ==> final(layer2).faults() == old(layer2).faults(),
        r matches Some(buf) ==> buf@.len() == old(layer2).bsize(),
        old(layer2).wf() && old(layer2).blocks().contains_key(block) && final(layer2).faults()
            == old(layer2).faults() ==> (r matches Some(buf) && buf@
            == old(layer2).blocks()[block]),
{
    proof {
        layer2.lemma_usable();
        if layer2.wf() {
            layer2.lemma_wf();
        }
    }
    let size: usize = layer2.block_size();
    let mut buf: Vec<u8> = vec![0u8; size];
    match layer2.read_block(block, 0, buf.as_mut_slice(), cache) {
        Ok(_) => {
            proof {
                if old(layer2).wf() && old(layer2).blocks().contains_key(block) {
                    let b = old(layer2).blocks()[block];
                    assert(b.subrange(0, size as int) =~= b);
                }
            }
            Some(buf)
        },
        Err(e) => {
            let what: String = "L3: stream ".to_owned().concat(label).concat(": error reading block ");
            issues.push(text_num(what.as_str(), block, ": ").concat(e.text().as_str()));
            None
        },
    }
}

/// Lists the blocks that the redirectors of a row name.
fn collect_row<L2: BlockLayer>(
    layer2: &mut L2,
    row: &Vec<u64>,
    fan_out: u64,
    cache: CacheMode,
    label: &str,
    issues: &mut Vec<String>,
) -> (found: Vec<u64>)
    requires
        old(layer2).usable(),
        fan_out * old(layer2).iwidth() <= old(layer2).bsize(),
    ensures
        unchanged(*old(layer2), *final(layer2)),
        final(issues)@.len() >= old(issues)@.len(),
        final(layer2).faults() > old(layer2).faults() ==> final(issues)@.len() > old(
            issues,
        )@.len(),
        old(layer2).wf() && final(layer2).faults() == old(layer2).faults() && all_in(
            row@,
            old(layer2).blocks(),
        ) ==> {
            &&& found@ == below(
                old(layer2).blocks(),
                row@,
                fan_out as nat,
                old(layer2).iwidth(),
            )
            &&& final(issues)@.len() == old(issues)@.len()
        },
{
    let ghost blocks = layer2.blocks();
    let ghost w = layer2.iwidth();
    let ghost f = fan_out as nat;
    let ghost n0 = issues@.len();
    proof {
        layer2.lemma_usable();
    }
    let width: usize = layer2.block_index_width() as usize;
    let sentinel_index: u64 = block_sentinel(layer2.block_index_width());
    let mut found: Vec<u64> = Vec::new();
    let mut i: usize = 0;
    while i < row.len()
        invariant
            i <= row@.len(),
            layer2.usable(),
            unchanged(*old(layer2), *layer2),
            1 <= width == w <= 8,
            w == layer2.iwidth(),
            f == fan_out,
            f * w <= layer2.bsize() <= 0x8000_0000,
            blocks == layer2.blocks(),
            sentinel_index == sentinel(w),
            n0 == old(issues)@.len(),
            issues@.len() >= n0,
            layer2.faults() > old(layer2).faults() ==> issues@.len() > n0,
            layer2.wf() && layer2.faults() == old(layer2).faults() && all_in(row@, blocks) ==> {
                &&& found@ == below(blocks, row@.take(i as int), f, w)
                &&& issues@.len() == n0
            },
        decreases row@.len() - i,
    {
        let block: u64 = row[i];
        let ghost so_far = found@;
        let ghost ok = layer2.wf() && all_in(row@, blocks);
        let ghost faults1 = layer2.faults();
        match read_whole(layer2, block, cache, label, issues) {
            Some(buf) => {
                let mut slot: u64 = 0;
                proof {
                    if ok {
                        assert(blocks.contains_key(row@[i as int]));
                    }
                    assert(found@ =~= so_far + children_upto(buf@, 0, w));
                }
                while slot < fan_out
                    invariant
                        slot <= fan_out,
                        f == fan_out,
                        1 <= width == w <= 8,
                        f * w <= buf@.len() <= 0x8000_0000,
                        sentinel_index == sentinel(w),
                        found@ == so_far + children_upto(buf@, slot as nat, w),
                    decreases fan_out - slot,
                {
                    proof {
                        lemma_slot_range(slot as int, w as int, f as int, buf@.len() as int);
                    }
                    let child: u64 = get_le(
                        buf.as_slice(),
                        (slot * (width as u64)) as usize,
                        width,
                    );
                    if child != sentinel_index {
                        found.push(child);
                    }
                    slot = slot + 1;
                    proof {
                        assert(found@ =~= so_far + children_upto(buf@, slot as nat, w));
                    }
                }
                proof {
                    let part = row@.take(i + 1);
                    assert(part.drop_last() =~= row@.take(i as int));
                    assert(part.last() == block);
                }
            },
            None => {
                proof {
                    if ok {
                        assert(blocks.contains_key(row@[i as int]));
                    }
                }
            },
        }
        i = i + 1;
    }
    proof {
        assert(row@.take(i as int) =~= row@);
    }
    found
}

/// Lists all blocks of a pyramid, and its data blocks.
fn collect_tree_blocks<L2: BlockLayer>(
    layer2: &mut L2,
    top_block: u64,
    depth: u32,
    fan_out: u64,
    cache: CacheMode,
    label: &str,
    issues: &mut Vec<String>,
) -> (r: (Vec<u64>, Vec<u64>))
    requires
        old(layer2).usable(),
        fan_out * old(layer2).iwidth() <= old(layer2).bsize(),
    ensures
        unchanged(*old(layer2), *final(layer2)),
        final(issues)@.len() >= old(issues)@.len(),
        final(layer2).faults() > old(layer2).faults() ==> final(issues)@.len() > old(
            issues,
        )@.len(),
        ({
            let blocks = old(layer2).blocks();
            let all = rows(blocks, top_block, depth as nat, fan_out as nat, old(layer2).iwidth());
            old(layer2).wf() && final(layer2).faults() == old(layer2).faults() && (all_in(
                r.0@,
                blocks,
            ) || all_in(all, blocks)) ==> {
                &&& r.0@ == all
                &&& r.1@ == row_at(
                    blocks,
                    top_block,
                    depth as nat,
                    fan_out as nat,
                    old(layer2).iwidth(),
                )
                &&& all_in(r.1@, blocks)
                &&& final(issues)@.len() == old(issues)@.len()
            }
        }),
{
    let ghost blocks = layer2.blocks();
    let ghost w = layer2.iwidth();
    let ghost f = fan_out as nat;
    let ghost n0 = issues@.len();
    let mut all: Vec<u64> = Vec::new();
    all.push(top_block);
    let mut row: Vec<u64> = Vec::new();
    row.push(top_block);
    let mut d: u32 = 0;
    proof {
        assert(all@ =~= seq![top_block]);
        assert(row@ =~= seq![top_block]);
    }
    while d < depth
        invariant
            d <= depth,
            layer2.usable(),
            unchanged(*old(layer2), *layer2),
            w == layer2.iwidth(),
            f == fan_out,
            f * w <= layer2.bsize(),
            blocks == layer2.blocks(),
            n0 == old(issues)@.len(),
            issues@.len() >= n0,
            layer2.faults() > old(layer2).faults() ==> issues@.len() > n0,
            layer2.wf() && layer2.faults() == old(layer2).faults() && (all_in(all@, blocks)
                || all_in(rows(blocks, top_block, d as nat, f, w), blocks)) ==> {
                &&& all@ == rows(blocks, top_block, d as nat, f, w)
                &&& row@ == row_at(blocks, top_block, d as nat, f, w)
                &&& issues@.len() == n0
            },
        decreases depth - d,
    {
        let ghost all0 = all@;
        let next: Vec<u64> = collect_row(layer2, &row, fan_out, cache, label, issues);
        let mut copy: Vec<u64> = copy_numbers(&next);
        all.append(&mut copy);
        proof {
            let s0 = rows(blocks, top_block, d as nat, f, w);
            let s1 = row_at(blocks, top_block, (d + 1) as nat, f, w);
            lemma_all_in_joined(all0, next@, blocks);
            lemma_all_in_joined(s0, s1, blocks);
            assert(rows(blocks, top_block, (d + 1) as nat, f, w) == s0 + s1);
            if all_in(s0, blocks) {
                lemma_row_in_rows(blocks, top_block, d as nat, f, w);
            }
        }
        row = next;
        d = d + 1;
    }
    proof {
        let s = rows(blocks, top_block, depth as nat, f, w);
        if all_in(s, blocks) {
            lemma_row_in_rows(blocks, top_block, depth as nat, f, w);
        }
    }
    (all, row)
}

/// A copy of a list of numbers.
fn copy_numbers(v: &Vec<u64>) -> (copy: Vec<u64>)
    ensures
        copy@ == v@,
{
    let mut copy: Vec<u64> = Vec::new();
    let mut i: usize = 0;
    while i < v.len()
        invariant
            i <= v@.len(),
            copy@ == v@.take(i as int),
        decreases v@.len() - i,
    {
        copy.push(v[i]);
        i = i + 1;
        proof {
            assert(copy@ =~= v@.take(i as int));
        }
    }
    proof {
        assert(v@.take(i as int) =~= v@);
    }
    copy
}

/// Lists the blocks that one compression redirector names; none where it has no
/// room for them.
fn collect_piece(buf: &Vec<u8>, width: usize, size: usize) -> (r: Option<Vec<u64>>)
    requires
        1 <= width <= 8,
        buf@.len() == size,
        4 + width <= size <= 0x8000_0000,
    ensures
        r is Some <==> redir_fits(buf@, size as nat, width as nat),
        r matches Some(found) ==> found@ == redir_blocks(buf@, size as nat, width as nat),
{
    proof {
        lemma_pow256_values();
    }
    let ghost w = width as nat;
    let len: u64 = get_le(buf.as_slice(), 0, 4);
    let count: u64 = data_blocks_needed(len, size);
    let room: u64 = (size as u64 - 4) / width as u64;
    proof {
        let c = count as int;
        let r = room as int;
        let s = size as int - 4;
        let wi = w as int;
        vstd::arithmetic::div_mod::lemma_fundamental_div_mod(s, wi);
        assert(c <= r <==> c * wi <= s) by (nonlinear_arith)
            requires
                s == wi * r + s % wi,
                0 <= s % wi < wi,
                wi >= 1,
        ;
    }
    if count > room {
        return None;
    }
    let mut found: Vec<u64> = Vec::new();
    let mut i: u64 = 0;
    while i < count
        invariant
            i <= count,
            1 <= width == w <= 8,
            count == ceil_div(packed_len(buf@), size as nat),
            4 + count * w <= size,
            buf@.len() == size <= 0x8000_0000,
            found@ == Seq::new(i as nat, |j: int| packed_ptr(buf@, j, w) as u64),
        decreases count - i,
    {
        proof {
            lemma_slot_range(i as int, w as int, count as int, count * w);
        }
        found.push(get_le(buf.as_slice(), 4 + (i * width as u64) as usize, width));
        i = i + 1;
        proof {
            assert(found@ =~= Seq::new(i as nat, |j: int| packed_ptr(buf@, j, w) as u64));
        }
    }
    Some(found)
}

/// Lists the blocks that the compression redirectors of a row name.
fn collect_pieces<L2: BlockLayer>(
    layer2: &mut L2,
    row: &Vec<u64>,
    label: &str,
    issues: &mut Vec<String>,
) -> (found: Vec<u64>)
    requires
        old(layer2).usable(),
    ensures
        unchanged(*old(layer2), *final(layer2)),
        final(issues)@.len() >= old(issues)@.len(),
        final(layer2).faults() > old(layer2).faults() ==> final(issues)@.len() > old(
            issues,
        )@.len(),
        old(layer2).wf() && final(layer2).faults() == old(layer2).faults() && all_in(
            row@,
            old(layer2).blocks(),
        ) ==> {
            let blocks = old(layer2).blocks();
            let size = old(layer2).bsize();
            let w = old(layer2).iwidth();
            &&& found@ == piece_blocks(blocks, row@, size, w)
            &&& final(issues)@.len() == old(issues)@.len() <==> all_fit(blocks, row@, size, w)
        },
{
    let ghost blocks = layer2.blocks();
    let ghost w = layer2.iwidth();
    let ghost n0 = issues@.len();
    proof {
        layer2.lemma_usable();
    }
    let width: usize = layer2.block_index_width() as usize;
    let size: usize = layer2.block_size();
    let ghost n = row@.len();
    let mut found: Vec<u64> = Vec::new();
    let mut i: usize = row.len();
    proof {
        assert(row@.take(n as int) =~= row@);
        assert(found@ + piece_blocks(blocks, row@.take(i as int), size as nat, w) =~= piece_blocks(
            blocks,
            row@,
            size as nat,
            w,
        ));
        assert(row@.skip(n as int) =~= Seq::<u64>::empty());
    }
    while i > 0
        invariant
            i <= n == row@.len(),
            layer2.usable(),
            unchanged(*old(layer2), *layer2),
            1 <= width == w <= 8,
            w == layer2.iwidth(),
            size == layer2.bsize(),
            4 + width <= size <= 0x8000_0000,
            blocks == layer2.blocks(),
            n0 == old(issues)@.len(),
            issues@.len() >= n0,
            layer2.faults() > old(layer2).faults() ==> issues@.len() > n0,
            layer2.wf() && layer2.faults() == old(layer2).faults() && all_in(row@, blocks) ==> {
                &&& found@ + piece_blocks(blocks, row@.take(i as int), size as nat, w)
                    == piece_blocks(blocks, row@, size as nat, w)
                &&& issues@.len() == n0 <==> all_fit(blocks, row@.skip(i as int), size as nat, w)
            },
        decreases i,
    {
        let ghost found0 = found@;
        let ghost ok = layer2.wf() && all_in(row@, blocks);
        let ghost n1 = issues@.len();
        i = i - 1;
        let block: u64 = row[i];
        proof {
            if ok {
                assert(blocks.contains_key(row@[i as int]));
            }
            let part = row@.take(i + 1);
            assert(part.drop_last() =~= row@.take(i as int));
            assert(part.last() == block);
            let after = row@.skip(i + 1);
            let now = row@.skip(i as int);
            assert(now =~= seq![block] + after);
            assert(all_fit(blocks, now, size as nat, w) <==> redir_fits(
                blocks[block],
                size as nat,
                w,
            ) && all_fit(blocks, after, size as nat, w)) by {
                if all_fit(blocks, now, size as nat, w) {
                    assert(now[0] == block);
                    assert forall|j: int| 0 <= j < after.len() implies redir_fits(
                        blocks[#[trigger] after[j]],
                        size as nat,
                        w,
                    ) by {
                        assert(now[j + 1] == after[j]);
                    }
                }
                if redir_fits(blocks[block], size as nat, w) && all_fit(
                    blocks,
                    after,
                    size as nat,
                    w,
                ) {
                    assert forall|j: int| 0 <= j < now.len() implies redir_fits(
                        blocks[#[trigger] now[j]],
                        size as nat,
                        w,
                    ) by {
                        if j > 0 {
                            assert(now[j] == after[j - 1]);
                        }
                    }
                }
            }
        }
        match read_whole(layer2, block, CacheMode::ThreadLocal, label, issues) {
            Some(buf) => {
                match collect_piece(&buf, width, size) {
                    Some(more) => {
                        let mut more = more;
                        let ghost m = more@;
                        found.append(&mut more);
                        proof {
                            let rest = piece_blocks(blocks, row@.take(i as int), size as nat, w);
                            assert(found0 + (m + rest) =~= found@ + rest);
                        }
                    },
                    None => {
                        let what: String = "L3: stream ".to_owned().concat(label).concat(
                            ": error reading comp redirector block ",
                        );
                        issues.push(text_num(what.as_str(), block, ""));
                        proof {
                            let rest = piece_blocks(blocks, row@.take(i as int), size as nat, w);
                            assert(found0 + (Seq::<u64>::empty() + rest) =~= found@ + rest);
                        }
                    },
                }
            },
            None => {},
        }
    }
    proof {
        assert(row@.skip(0) =~= row@);
        assert(found@ + piece_blocks(blocks, row@.take(0), size as nat, w) =~= found@);
    }
    found
}

proof fn lemma_depth_told(n: nat, f: nat, d: nat)
    requires
        f >= 2,
        is_depth(n, f, d),
    ensures
        depth_of(n, f) == d,
{
    lemma_depth_unique(n, f, d, depth_of(n, f));
}

/// Lists all blocks that a descriptor leads to, and its data blocks. What cannot
/// be is reported.
pub(crate) fn collect_stream<L2: BlockLayer>(
    layer2: &mut L2,
    d: &StreamDescriptor,
    piece_size: usize,
    fan_out: u64,
    cache: CacheMode,
    label: &str,
    issues: &mut Vec<String>,
) -> (r: (Vec<u64>, Vec<u64>))
    requires
        old(layer2).usable(),
        fan_out >= 2,
        fan_out * old(layer2).iwidth() <= old(layer2).bsize(),
        piece_size >= 1,
    ensures
        unchanged(*old(layer2), *final(layer2)),
        final(issues)@.len() >= old(issues)@.len(),
        final(layer2).faults() > old(layer2).faults() ==> final(issues)@.len() > old(
            issues,
        )@.len(),
        ({
            let blocks = old(layer2).blocks();
            let m = Make {
                size: old(layer2).bsize(),
                piece: piece_size as nat,
                fan_out: fan_out as nat,
                width: old(layer2).iwidth(),
            };
            old(layer2).wf() && final(layer2).faults() == old(layer2).faults() && (all_in(
                r.0@,
                blocks,
            ) || all_in(told_blocks(blocks, *d, m), blocks)) ==> {
                &&& r.0@ == told_blocks(blocks, *d, m)
                &&& r.1@ == told_leaves(blocks, *d, m)
                &&& all_in(r.1@, blocks)
                &&& final(issues)@.len() == old(issues)@.len() <==> told_fits(blocks, *d, m)
            }
        }),
{
    let ghost blocks = layer2.blocks();
    let ghost m = Make {
        size: layer2.bsize(),
        piece: piece_size as nat,
        fan_out: fan_out as nat,
        width: layer2.iwidth(),
    };
    proof {
        layer2.lemma_usable();
    }
    if d.size == 0 && d.reserved == 0 && d.top_block != 0 {
        let what: String = "L3: stream ".to_owned().concat(label).concat(
            ": size is 0 but top_block is ",
        );
        issues.push(text_num(what.as_str(), d.top_block, " (expected 0)"));
    }
    if d.reserved < d.size {
        let what: String = "L3: stream ".to_owned().concat(label).concat(": reserved (");
        let less: String = text_num(what.as_str(), d.reserved, ") < size (");
        issues.push(text_num(less.as_str(), d.size, ") - invariant violation"));
    }
    let capacity: u64 = if d.reserved >= d.size {
        d.reserved
    } else {
        d.size
    };
    if capacity == 0 {
        return (Vec::new(), Vec::new());
    }
    let compressed: bool = d.is_compressed();
    let unit: usize = if compressed {
        piece_size
    } else {
        layer2.block_size()
    };
    let count: u64 = data_blocks_needed(capacity, unit);
    let depth: u32 = pyramid_depth(count, fan_out);
    proof {
        lemma_depth_told(count as nat, fan_out as nat, depth as nat);
    }
    let ghost n1 = issues@.len();
    let (mut all, leaves) = collect_tree_blocks(
        layer2,
        d.top_block,
        depth,
        fan_out,
        cache,
        label,
        issues,
    );
    if compressed {
        let ghost all0 = all@;
        let mut pieces: Vec<u64> = collect_pieces(layer2, &leaves, label, issues);
        let ghost p = pieces@;
        all.append(&mut pieces);
        proof {
            let s0 = rows(blocks, d.top_block, depth as nat, m.fan_out, m.width);
            let s1 = piece_blocks(blocks, told_leaves(blocks, *d, m), m.size, m.width);
            lemma_all_in_joined(all0, p, blocks);
            lemma_all_in_joined(s0, s1, blocks);
        }
    }
    (all, leaves)
}

/// Reads the bytes of a table from its data blocks, as far as they reach.
pub(crate) fn read_table<L2: BlockLayer>(
    layer2: &mut L2,
    row: &Vec<u64>,
    len: u64,
    issues: &mut Vec<String>,
) -> (table: Vec<u8>)
    requires
        old(layer2).usable(),
    ensures
        unchanged(*old(layer2), *final(layer2)),
        final(issues)@.len() >= old(issues)@.len(),
        final(layer2).faults() > old(layer2).faults() ==> final(issues)@.len() > old(
            issues,
        )@.len(),
        old(layer2).wf() && final(layer2).faults() == old(layer2).faults() && all_in(
            row@,
            old(layer2).blocks(),
        ) ==> {
            &&& table@ == told_table(
                old(layer2).blocks(),
                row@,
                len as nat,
                old(layer2).bsize(),
            )
            &&& final(issues)@.len() == old(issues)@.len()
        },
{
    let ghost blocks = layer2.blocks();
    let ghost n0 = issues@.len();
    proof {
        layer2.lemma_usable();
        if layer2.wf() {
            layer2.lemma_wf();
        }
    }
    let size: usize = layer2.block_size();
    let ghost sz = size as int;
    let mut table: Vec<u8> = Vec::new();
    let mut i: usize = 0;
    proof {
        assert(0 * sz == 0) by (nonlinear_arith);
        assert(table@ =~= content(blocks, row@, size as nat).take(0));
    }
    while i < row.len() && (table.len() as u64) < len
        invariant
            i <= row@.len(),
            layer2.usable(),
            unchanged(*old(layer2), *layer2),
            size == sz == layer2.bsize(),
            1 <= size <= 0x8000_0000,
            blocks == layer2.blocks(),
            layer2.wf() ==> forall|b: u64| #[trigger]
                blocks.contains_key(b) ==> blocks[b].len() == size,
            n0 == old(issues)@.len(),
            issues@.len() >= n0,
            layer2.faults() > old(layer2).faults() ==> issues@.len() > n0,
            table@.len() <= len,
            layer2.wf() && layer2.faults() == old(layer2).faults() && all_in(row@, blocks) ==> {
                &&& table@.len() < len ==> table@.len() == i * sz
                &&& table@.len() <= i * sz
                &&& table@ == content(blocks, row@, size as nat).take(table@.len() as int)
                &&& issues@.len() == n0
            },
        decreases row@.len() - i,
    {
        let block: u64 = row[i];
        let ghost ok = layer2.wf() && all_in(row@, blocks);
        let ghost table0 = table@;
        let left: u64 = len - table.len() as u64;
        let want: usize = if left < size as u64 {
            left as usize
        } else {
            size
        };
        match read_whole(layer2, block, CacheMode::Bypass, "Streams-stream", issues) {
            Some(buf) => {
                let mut part: Vec<u8> = copy_range(buf.as_slice(), 0, want);
                table.append(&mut part);
                proof {
                    assert((i + 1) * sz == i * sz + sz) by (nonlinear_arith);
                    if ok && layer2.faults() == old(layer2).faults() {
                        assert(blocks.contains_key(row@[i as int]));
                        let all = content(blocks, row@, size as nat);
                        assert((i + 1) * sz <= row@.len() * sz) by (nonlinear_arith)
                            requires
                                i + 1 <= row@.len(),
                                sz >= 1,
                        ;
                        assert forall|p: int| table0.len() <= p < table@.len() implies table@[p]
                            == all[p] by {
                            lemma_mul_div(i as int, p - i * sz, sz);
                            assert(p == i * sz + (p - i * sz));
                            assert(table@[p] == buf@[p - i * sz]);
                        }
                        assert(table@ =~= all.take(table@.len() as int)) by {
                            assert forall|p: int| 0 <= p < table0.len() implies table@[p]
                                == all[p] by {
                                assert(table0[p] == all.take(table0.len() as int)[p]);
                            }
                        }
                    }
                }
            },
            None => {
                proof {
                    if ok {
                        assert(blocks.contains_key(row@[i as int]));
                    }
                }
            },
        }
        i = i + 1;
    }
    proof {
        if layer2.wf() && layer2.faults() == old(layer2).faults() && all_in(row@, blocks) {
            assert(i * sz <= row@.len() * sz) by (nonlinear_arith)
                requires
                    i <= row@.len(),
                    sz >= 1,
            ;
        }
    }
    table
}

/// Reads one record of a table from its data blocks; none where they do not reach
/// so far.
pub(crate) fn read_record<L2: BlockLayer>(
    layer2: &mut L2,
    row: &Vec<u64>,
    from: u64,
    issues: &mut Vec<String>,
) -> (r: Option<Vec<u8>>)
    requires
        old(layer2).usable(),
        from + 25 <= u64::MAX,
    ensures
        unchanged(*old(layer2), *final(layer2)),
        r is Some ==> final(layer2).faults() == old(layer2).faults(),
        r matches Some(record) ==> record@.len() == 25,
        old(layer2).wf() && final(layer2).faults() == old(layer2).faults() && all_in(
            row@,
            old(layer2).blocks(),
        ) ==> {
            let all = content(old(layer2).blocks(), row@, old(layer2).bsize());
            &&& r is Some <==> from + 25 <= all.len()
            &&& r matches Some(record) ==> record@ == all.subrange(from as int, from + 25)
        },
{
    let ghost blocks = layer2.blocks();
    proof {
        layer2.lemma_usable();
        if layer2.wf() {
            layer2.lemma_wf();
        }
    }
    let size: usize = layer2.block_size();
    let ghost sz = size as int;
    let ghost all = content(blocks, row@, size as nat);
    let mut record: Vec<u8> = Vec::new();
    while record.len() < 25
        invariant
            record@.len() <= 25,
            from + 25 <= u64::MAX,
            layer2.usable(),
            unchanged(*old(layer2), *layer2),
            layer2.faults() == old(layer2).faults(),
            size == sz == layer2.bsize(),
            1 <= size <= 0x8000_0000,
            blocks == layer2.blocks(),
            layer2.wf() ==> forall|b: u64| #[trigger]
                blocks.contains_key(b) ==> blocks[b].len() == size,
            all == content(blocks, row@, size as nat),
            layer2.wf() && all_in(row@, blocks) ==> from + record@.len() <= all.len() || record@.len()
                == 0,
            layer2.wf() && all_in(row@, blocks) && record@.len() > 0 ==> record@ == all.subrange(
                from as int,
                from + record@.len(),
            ),
        decreases 25 - record@.len(),
    {
        let pos: u64 = from + record.len() as u64;
        let i: u64 = pos / size as u64;
        let off: usize = (pos % size as u64) as usize;
        proof {
            crate::pyramid::lemma_div_mod(pos as int, sz);
            assert(i < row@.len() <==> pos < row@.len() * sz) by (nonlinear_arith)
                requires
                    pos == i * sz + off,
                    0 <= off < sz,
            ;
        }
        if i >= row.len() as u64 {
            return None;
        }
        let block: u64 = row[i as usize];
        let ghost ok = layer2.wf() && all_in(row@, blocks);
        proof {
            if ok {
                assert(blocks.contains_key(row@[i as int]));
            }
        }
        let left: usize = 25 - record.len();
        let want: usize = if left < size - off {
            left
        } else {
            size - off
        };
        match read_whole(layer2, block, CacheMode::Shared, "Streams-stream", issues) {
            Some(buf) => {
                let mut part: Vec<u8> = copy_range(buf.as_slice(), off, off + want);
                let ghost before = record@;
                record.append(&mut part);
                proof {
                    if ok {
                        assert((i + 1) * sz <= row@.len() * sz) by (nonlinear_arith)
                            requires
                                i + 1 <= row@.len(),
                                sz >= 1,
                        ;
                        assert((i + 1) * sz == i * sz + sz) by (nonlinear_arith);
                        assert forall|q: int| 0 <= q < record@.len() implies #[trigger] record@[q]
                            == all[from + q] by {
                            if q >= before.len() {
                                let p = from + q;
                                lemma_mul_div(i as int, p - i * sz, sz);
                                assert(p == i * sz + (p - i * sz));
                                assert(record@[q] == buf@[off + (q - before.len())]);
                            } else {
                                assert(before[q] == all.subrange(
                                    from as int,
                                    from + before.len(),
                                )[q]);
                            }
                        }
                        assert(record@ =~= all.subrange(from as int, from + record@.len()));
                    }
                }
            },
            None => {
                return None;
            },
        }
    }
    Some(record)
}

/// Lists all blocks that the descriptors of a table lead to, and the streams that
/// it names. What cannot be is reported.
pub(crate) fn collect_listed<L2: BlockLayer>(
    layer2: &mut L2,
    table: &Vec<u8>,
    piece_size: usize,
    fan_out: u64,
    issues: &mut Vec<String>,
) -> (r: (Vec<u64>, Vec<u64>))
    requires
        old(layer2).usable(),
        fan_out >= 2,
        fan_out * old(layer2).iwidth() <= old(layer2).bsize(),
        piece_size >= 1,
    ensures
        unchanged(*old(layer2), *final(layer2)),
        final(issues)@.len() >= old(issues)@.len(),
        final(layer2).faults() > old(layer2).faults() ==> final(issues)@.len() > old(
            issues,
        )@.len(),
        forall|id: u64| #[trigger] r.1@.contains(id) <==> crate::stream_table::in_table(table@, id),
        ({
            let blocks = old(layer2).blocks();
            let m = Make {
                size: old(layer2).bsize(),
                piece: piece_size as nat,
                fan_out: fan_out as nat,
                width: old(layer2).iwidth(),
            };
            let n = slot_count(table@);
            old(layer2).wf() && final(layer2).faults() == old(layer2).faults() && (all_in(
                r.0@,
                blocks,
            ) || all_in(listed_blocks(blocks, table@, n, m), blocks)) ==> {
                &&& r.0@ == listed_blocks(blocks, table@, n, m)
                &&& final(issues)@.len() == old(issues)@.len() <==> listed_fit(
                    blocks,
                    table@,
                    n,
                    m,
                )
            }
        }),
{
    let ghost blocks = layer2.blocks();
    let ghost m = Make {
        size: layer2.bsize(),
        piece: piece_size as nat,
        fan_out: fan_out as nat,
        width: layer2.iwidth(),
    };
    let ghost n0 = issues@.len();
    let mut all: Vec<u64> = Vec::new();
    let mut ids: Vec<u64> = Vec::new();
    let count: usize = table.len() / 25;
    let mut i: usize = 0;
    while i < count
        invariant
            i <= count == slot_count(table@),
            count * 25 <= table@.len(),
            table@.len() == table.len(),
            layer2.usable(),
            unchanged(*old(layer2), *layer2),
            fan_out >= 2,
            fan_out * layer2.iwidth() <= layer2.bsize(),
            piece_size >= 1,
            blocks == layer2.blocks(),
            m.size == layer2.bsize(),
            m.piece == piece_size,
            m.fan_out == fan_out,
            m.width == layer2.iwidth(),
            n0 == old(issues)@.len(),
            issues@.len() >= n0,
            layer2.faults() > old(layer2).faults() ==> issues@.len() > n0,
            forall|id: u64| #[trigger]
                ids@.contains(id) <==> id < i && crate::stream_table::in_table(table@, id),
            layer2.wf() && layer2.faults() == old(layer2).faults() && (all_in(all@, blocks)
                || all_in(listed_blocks(blocks, table@, i as nat, m), blocks)) ==> {
                &&& all@ == listed_blocks(blocks, table@, i as nat, m)
                &&& issues@.len() == n0 <==> listed_fit(blocks, table@, i as nat, m)
            },
        decreases count - i,
    {
        let record: Vec<u8> = copy_range(table.as_slice(), 25 * i, 25 * i + 25);
        let d: StreamDescriptor = StreamDescriptor::from_bytes(record.as_slice());
        let ghost ids0 = ids@;
        proof {
            assert(d == slot_of(table@, i as int));
            assert(listed_fit(blocks, table@, (i + 1) as nat, m) <==> listed_fit(
                blocks,
                table@,
                i as nat,
                m,
            ) && (d.free() || told_fits(blocks, d, m))) by {
                if listed_fit(blocks, table@, (i + 1) as nat, m) {
                    assert(slot_of(table@, i as int) == d);
                }
            }
        }
        if !d.is_free() {
            ids.push(i as u64);
            let ghost all0 = all@;
            let label: String = text_num("", i as u64, "");
            let (mut found, _) = collect_stream(
                layer2,
                &d,
                piece_size,
                fan_out,
                CacheMode::ThreadLocal,
                label.as_str(),
                issues,
            );
            let ghost more = found@;
            all.append(&mut found);
            proof {
                assert forall|id: u64| #[trigger] ids@.contains(id) <==> id < i + 1
                    && crate::stream_table::in_table(table@, id) by {
                    if ids0.contains(id) {
                        let k = choose|k: int| 0 <= k < ids0.len() && ids0[k] == id;
                        assert(ids@[k] == id);
                    }
                    assert(ids@[ids0.len() as int] == i);
                    if ids@.contains(id) {
                        let k = choose|k: int| 0 <= k < ids@.len() && ids@[k] == id;
                        if k < ids0.len() {
                            assert(ids0[k] == id);
                        }
                    }
                }
                lemma_all_in_joined(all0, more, blocks);
                lemma_all_in_joined(
                    listed_blocks(blocks, table@, i as nat, m),
                    told_blocks(blocks, d, m),
                    blocks,
                );
            }
        }
        i = i + 1;
    }
    (all, ids)
}

} // verus!
