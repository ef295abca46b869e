//! Reading and writing redirector blocks, and finding the way through a
//! pyramid.

use crate::block_layer::{same_make, same_store, sentinel, BlockLayer};
use crate::bytes::{
    get_le, lemma_le_bytes_len, lemma_pow256_monotone, lemma_pow256_values, pow256, push_le,
};
use crate::pyramid::{
    ceil_div, child_index, index_at, is_depth, is_place, is_pyramid, lemma_all_ones_is_sentinel,
    lemma_ancestor_step, lemma_div_mod, lemma_index_write, lemma_level_count, lemma_powf_monotone,
    lemma_powf_pos, lemma_slot_range, lemma_top_is_alone, level_count, node_ok, powf,
};
use crate::types::{text_num, CacheMode, SfsError};
use vstd::prelude::*;

verus! {

/// The index that marks an unused slot: all bytes `0xFF` in `width` bytes.
pub(crate) fn block_sentinel(block_index_width: u8) -> (index: u64)
    ensures
        block_index_width <= 8 ==> index == sentinel(block_index_width as nat),
        block_index_width > 8 ==> index == u64::MAX,
{
    proof {
        lemma_pow256_values();
    }
    if block_index_width >= 8 {
        return u64::MAX;
    }
    let mut values: u64 = 1;
    let mut i: u8 = 0;
    while i < block_index_width
        invariant
            i <= block_index_width < 8,
            values == pow256(i as nat),
            1 <= values,
        decreases block_index_width - i,
    {
        proof {
            lemma_pow256_values();
            lemma_pow256_monotone((i + 1) as nat, 7);
            lemma_pow256_monotone(0, (i + 1) as nat);
            assert(pow256(8) == 256 * pow256(7));
        }
        values = 256 * values;
        i = i + 1;
    }
    values - 1
}

/// The number of data blocks that `size` bytes take.
pub(crate) fn data_blocks_needed(size: u64, block_size: usize) -> (n: u64)
    requires
        block_size >= 1,
    ensures
        n == ceil_div(size as nat, block_size as nat),
{
    if size == 0 {
        0
    } else {
        let q: u64 = (size - 1) / (block_size as u64);
        assert(q <= size - 1) by (nonlinear_arith)
            requires
                q == (size - 1) as u64 / (block_size as u64),
                block_size >= 1,
                size >= 1,
        ;
        q + 1
    }
}

/// The depth of the pyramid over `num_data_blocks` data blocks: no redirector
/// for up to one block, one level for up to `fan_out`, and so on.
pub(crate) fn pyramid_depth(num_data_blocks: u64, fan_out: u64) -> (depth: u32)
    requires
        fan_out >= 2,
    ensures
        is_depth(num_data_blocks as nat, fan_out as nat, depth as nat),
        depth <= 64,
{
    let mut depth: u32 = 0;
    let mut capacity: u64 = 1;
    while capacity < num_data_blocks
        invariant
            fan_out >= 2,
            depth <= 64,
            1 <= capacity,
            capacity == powf(fan_out as nat, depth as nat) || (capacity == u64::MAX && powf(
                fan_out as nat,
                depth as nat,
            ) >= u64::MAX),
            depth > 0 ==> powf(fan_out as nat, (depth - 1) as nat) < num_data_blocks,
        decreases u64::MAX - capacity,
    {
        proof {
            let c = capacity as int;
            let f = fan_out as int;
            assert(c * f == f * c) by (nonlinear_arith);
            assert(c * f >= 2 * c) by (nonlinear_arith)
                requires
                    c >= 1,
                    f >= 2,
            ;
            lemma_powf_lower(fan_out as nat, depth as nat);
            if depth == 64 {
                lemma_pow2_64();
            }
        }
        depth = depth + 1;
        capacity = match capacity.checked_mul(fan_out) {
            Some(product) => product,
            None => u64::MAX,
        };
    }
    depth
}

/// `2` to the power `d`.
spec fn two_to(d: nat) -> nat
    decreases d,
{
    if d == 0 {
        1
    } else {
        2 * two_to((d - 1) as nat)
    }
}

proof fn lemma_powf_lower(f: nat, d: nat)
    requires
        f >= 2,
    ensures
        powf(f, d) >= two_to(d),
    decreases d,
{
    if d > 0 {
        lemma_powf_lower(f, (d - 1) as nat);
        assert(f * powf(f, (d - 1) as nat) >= 2 * powf(f, (d - 1) as nat)) by (nonlinear_arith)
            requires
                f >= 2,
        ;
    }
}

proof fn lemma_pow2_64()
    ensures
        two_to(64) == 0x1_0000_0000_0000_0000,
{
    reveal_with_fuel(two_to, 65);
}

/// `base` to the power `exponent`.
pub(crate) fn power(base: u64, exponent: u32) -> (p: u64)
    requires
        base >= 1,
        powf(base as nat, exponent as nat) <= u64::MAX,
    ensures
        p == powf(base as nat, exponent as nat),
{
    let mut p: u64 = 1;
    let mut i: u32 = 0;
    while i < exponent
        invariant
            i <= exponent,
            base >= 1,
            p == powf(base as nat, i as nat),
            powf(base as nat, exponent as nat) <= u64::MAX,
        decreases exponent - i,
    {
        proof {
            lemma_powf_monotone(base as nat, (i + 1) as nat, exponent as nat);
        }
        p = base * p;
        i = i + 1;
    }
    p
}

/// Reads the block index in one slot of a redirector block.
pub(crate) fn read_block_index<L2: BlockLayer>(
    layer2: &mut L2,
    redirector_block: u64,
    slot: u64,
    fan_out: u64,
    cache: CacheMode,
) -> (r: Result<u64, SfsError>)
    requires
        old(layer2).wf(),
        slot < fan_out,
        fan_out * old(layer2).iwidth() <= old(layer2).bsize(),
    ensures
        same_store(*old(layer2), *final(layer2)),
        L2::reads_always() ==> final(layer2).faults() == old(layer2).faults(),
        final(layer2).faults() >= old(layer2).faults(),
        r is Ok ==> final(layer2).faults() == old(layer2).faults(),
        r matches Ok(v) ==> v <= sentinel(old(layer2).iwidth()),
        old(layer2).blocks().contains_key(redirector_block) && final(layer2).faults() == old(
            layer2,
        ).faults() ==> (r matches Ok(v) && v == index_at(
            old(layer2).blocks()[redirector_block],
            slot as int,
            old(layer2).iwidth(),
        )),
{
    proof {
        layer2.lemma_wf();
        lemma_slot_range(
            slot as int,
            layer2.iwidth() as int,
            fan_out as int,
            layer2.bsize() as int,
        );
    }
    let width: usize = layer2.block_index_width() as usize;
    let offset: usize = (slot * (width as u64)) as usize;
    let mut buf: Vec<u8> = vec![0u8; width];
    match layer2.read_block(redirector_block, offset, buf.as_mut_slice(), cache) {
        Ok(_) => {
            let v: u64 = get_le(buf.as_slice(), 0, width);
            proof {
                assert(buf@.subrange(0, width as int) =~= buf@);
            }
            Ok(v)
        },
        Err(e) => Err(e),
    }
}

/// Writes a block index into one slot of a redirector block.
pub(crate) fn write_block_index<L2: BlockLayer>(
    layer2: &mut L2,
    redirector_block: u64,
    slot: u64,
    index: u64,
    fan_out: u64,
    cache: CacheMode,
) -> (r: Result<(), SfsError>)
    requires
        old(layer2).wf(),
        old(layer2).blocks().contains_key(redirector_block),
        slot < fan_out,
        fan_out * old(layer2).iwidth() <= old(layer2).bsize(),
        index <= sentinel(old(layer2).iwidth()),
    ensures
        final(layer2).bsize() == old(layer2).bsize(),
        final(layer2).iwidth() == old(layer2).iwidth(),
        final(layer2).faults() >= old(layer2).faults(),
        (r is Ok) == (final(layer2).faults() == old(layer2).faults()),
        r is Ok ==> {
            let w = old(layer2).iwidth();
            let before = old(layer2).blocks()[redirector_block];
            let after = final(layer2).blocks()[redirector_block];
            &&& same_make(*old(layer2), *final(layer2))
            &&& final(layer2).blocks() == old(layer2).blocks().insert(redirector_block, after)
            &&& after.len() == before.len()
            &&& forall|k: int|
                0 <= k < fan_out ==> #[trigger] index_at(after, k, w) == (if k == slot {
                    index as nat
                } else {
                    index_at(before, k, w)
                })
        },
{
    proof {
        layer2.lemma_wf();
        lemma_slot_range(
            slot as int,
            layer2.iwidth() as int,
            fan_out as int,
            layer2.bsize() as int,
        );
        lemma_pow256_monotone(0, layer2.iwidth());
    }
    let width: usize = layer2.block_index_width() as usize;
    let offset: usize = (slot * (width as u64)) as usize;
    let mut buf: Vec<u8> = Vec::new();
    push_le(&mut buf, index, width);
    proof {
        lemma_le_bytes_len(index as nat, width as nat);
        lemma_index_write(
            layer2.blocks()[redirector_block],
            slot as int,
            index as nat,
            width as nat,
            fan_out as nat,
        );
        assert(buf@ =~= crate::bytes::le_bytes(index as nat, width as nat));
    }
    match layer2.write_block(redirector_block, offset, buf.as_slice(), cache) {
        Ok(_) => Ok(()),
        Err(e) => Err(e),
    }
}

/// Marks every slot of a redirector block as unused.
pub(crate) fn fill_sentinel<L2: BlockLayer>(
    layer2: &mut L2,
    block: u64,
    fan_out: u64,
    cache: CacheMode,
) -> (r: Result<usize, SfsError>)
    requires
        old(layer2).wf(),
        old(layer2).blocks().contains_key(block),
        fan_out * old(layer2).iwidth() <= old(layer2).bsize(),
    ensures
        final(layer2).bsize() == old(layer2).bsize(),
        final(layer2).iwidth() == old(layer2).iwidth(),
        final(layer2).faults() >= old(layer2).faults(),
        (r is Ok) == (final(layer2).faults() == old(layer2).faults()),
        r is Ok ==> {
            let after = final(layer2).blocks()[block];
            &&& same_make(*old(layer2), *final(layer2))
            &&& final(layer2).blocks() == old(layer2).blocks().insert(block, after)
            &&& after.len() == old(layer2).bsize()
            &&& forall|k: int|
                0 <= k < fan_out ==> #[trigger] index_at(after, k, old(layer2).iwidth())
                    == sentinel(old(layer2).iwidth())
        },
{
    proof {
        layer2.lemma_wf();
    }
    let size: usize = layer2.block_size();
    let buf: Vec<u8> = vec![0xFFu8; size];
    let r = layer2.write_block(block, 0, buf.as_slice(), cache);
    proof {
        if r is Ok {
            lemma_all_ones_is_sentinel(
                layer2.blocks()[block],
                layer2.iwidth(),
                fan_out as nat,
            );
        }
    }
    r
}

/// The fan-out suits the store: a redirector has `fan_out` slots.
pub open spec fn fan_ok<L2: BlockLayer>(layer2: L2, fan_out: u64) -> bool {
    &&& layer2.wf()
    &&& fan_out >= 2
    &&& fan_out * layer2.iwidth() <= layer2.bsize()
}

/// Follows the redirectors from the top to the one above data block
/// `data_block_idx`.
pub(crate) fn navigate_to_leaf<L2: BlockLayer>(
    layer2: &mut L2,
    top_block: u64,
    data_block_idx: u64,
    depth: u32,
    fan_out: u64,
    cache: CacheMode,
    Ghost(levels): Ghost<Seq<Seq<u64>>>,
    Ghost(n): Ghost<nat>,
) -> (r: Result<u64, SfsError>)
    requires
        fan_ok(*old(layer2), fan_out),
        is_pyramid(old(layer2).blocks(), levels, n, fan_out as nat, old(layer2).iwidth()),
        1 <= depth,
        levels.len() == depth + 1,
        top_block == levels[depth as int][0],
        data_block_idx < n <= u64::MAX,
        is_depth(n, fan_out as nat, depth as nat),
    ensures
        same_store(*old(layer2), *final(layer2)),
        L2::reads_always() ==> final(layer2).faults() == old(layer2).faults(),
        final(layer2).faults() >= old(layer2).faults(),
        (r is Ok) == (final(layer2).faults() == old(layer2).faults()),
        r matches Ok(b) ==> b == levels[1][data_block_idx as int / fan_out as int],
        data_block_idx as int / (fan_out as int) < levels[1].len(),
{
    let ghost f = fan_out as nat;
    let ghost w = layer2.iwidth();
    proof {
        layer2.lemma_wf();
        lemma_level_count(n, f, 1);
        lemma_level_count(n, f, 0);
        lemma_ancestor_bound(n, data_block_idx as nat, f, 1);
        assert(powf(f, 1) == f * powf(f, 0));
        assert(powf(f, 1) == f);
        lemma_ancestor_bound(n, data_block_idx as nat, f, depth as nat);
        lemma_top_is_alone(n, f, depth as nat);
        lemma_level_count(n, f, depth as nat);
        assert(levels[depth as int].len() == level_count(n, f, depth as nat));
        assert(levels[1].len() == level_count(n, f, 1));
        lemma_powf_pos(f, depth as nat);
        let p = powf(f, depth as nat) as int;
        let x = data_block_idx as int;
        assert(x / p == 0 && x % p == x) by (nonlinear_arith)
            requires
                0 <= x < p,
        ;
    }
    let sentinel_index: u64 = block_sentinel(layer2.block_index_width());
    let mut current_block: u64 = top_block;
    let mut remaining: u64 = data_block_idx;
    let mut level: u32 = depth;
    while level > 1
        invariant
            fan_ok(*layer2, fan_out),
            same_store(*old(layer2), *layer2),
            layer2.faults() == old(layer2).faults(),
            f == fan_out,
            w == layer2.iwidth(),
            is_pyramid(layer2.blocks(), levels, n, f, w),
            1 <= level <= depth,
            levels.len() == depth + 1,
            data_block_idx < n,
            n <= u64::MAX,
            data_block_idx as int / (fan_out as int) < levels[1].len(),
            is_depth(n, f, depth as nat),
            sentinel_index == sentinel(w),
            current_block == levels[level as int][(data_block_idx as nat / powf(
                f,
                level as nat,
            )) as int],
            data_block_idx as nat / powf(f, level as nat) < levels[level as int].len(),
            remaining == data_block_idx as nat % powf(f, level as nat),
        decreases level,
    {
        level = level - 1;
        let ghost l = level as nat;
        let ghost d = data_block_idx as nat;
        proof {
            layer2.lemma_wf();
            lemma_powf_monotone(f, l, (depth - 1) as nat);
            lemma_powf_pos(f, l);
            lemma_ancestor_step(f, d, l);
            lemma_ancestor_bound(n, d, f, l);
            lemma_div_mod((d / powf(f, l)) as int, f as int);
            assert(levels[level as int].len() == level_count(n, f, l));
        }
        let span: u64 = power(fan_out, level);
        let slot: u64 = remaining / span;
        remaining = remaining % span;
        proof {
            let i = (d / powf(f, l + 1)) as int;
            let c = (d / powf(f, l)) as int;
            assert(slot == c % (f as int));
            assert(is_place(levels, level + 1, i));
            assert(node_ok(layer2.blocks(), levels, level + 1, i, f, w));
            assert(index_at(layer2.blocks()[levels[level + 1][i]], slot as int, w) == child_index(
                levels,
                level + 1,
                i,
                slot as int,
                f,
                w,
            ));
            assert(i * f + slot == c);
            assert(is_place(levels, level as int, c));
            assert(layer2.blocks().contains_key(levels[level as int][c]));
            assert(layer2.blocks().contains_key(levels[level + 1][i]));
        }
        let child: u64 = match read_block_index(layer2, current_block, slot, fan_out, cache) {
            Ok(child) => child,
            Err(e) => {
                return Err(e);
            },
        };
        if child == sentinel_index {
            return Err(
                SfsError::IoError(
                    text_num(
                        text_num(
                            "navigate_to_leaf: invalid block at depth ",
                            level as u64,
                            ", slot ",
                        ).as_str(),
                        slot,
                        "",
                    ),
                ),
            );
        }
        current_block = child;
    }
    Ok(current_block)
}

/// The ancestor of a data block exists at every level.
pub proof fn lemma_ancestor_bound(n: nat, d: nat, f: nat, l: nat)
    requires
        f >= 2,
        d < n,
    ensures
        d / powf(f, l) < level_count(n, f, l),
{
    lemma_powf_pos(f, l);
    vstd::arithmetic::div_mod::lemma_div_is_ordered(d as int, n - 1, powf(f, l) as int);
}

/// Looks, in the bytes of a redirector block, for a run of consecutive block
/// indices from `start_slot` on, over `max_slots` slots at most. Gives the
/// first index and the length of the run.
pub(crate) fn scan_run_from_buffer(
    leaf_buf: &[u8],
    start_slot: u64,
    max_slots: u64,
    block_index_width: u8,
) -> (r: Result<(u64, u64), SfsError>)
    requires
        1 <= block_index_width <= 8,
        1 <= max_slots,
        (start_slot + max_slots) * block_index_width <= leaf_buf@.len(),
    ensures
        (r is Err) == (index_at(leaf_buf@, start_slot as int, block_index_width as nat) == sentinel(
            block_index_width as nat,
        )),
        r matches Err(e) ==> e is IoError,
        r matches Ok((first, run)) ==> {
            let w = block_index_width as nat;
            &&& first == index_at(leaf_buf@, start_slot as int, w)
            &&& 1 <= run <= max_slots
            &&& first + run <= sentinel(w)
            &&& forall|j: int|
                0 <= j < run ==> #[trigger] index_at(leaf_buf@, start_slot + j, w) == first + j
            &&& run < max_slots ==> {
                ||| index_at(leaf_buf@, start_slot + run, w) != first + run
                ||| index_at(leaf_buf@, start_slot + run, w) == sentinel(w)
            }
        },
{
    let len: usize = leaf_buf.len();
    let width: usize = block_index_width as usize;
    let ghost w = block_index_width as nat;
    let ghost slots = (start_slot + max_slots) as int;
    let sentinel_index: u64 = block_sentinel(block_index_width);
    proof {
        lemma_slot_range(start_slot as int, w as int, slots, len as int);
        assert(slots <= slots * w) by (nonlinear_arith)
            requires
                slots >= 0,
                w >= 1,
        ;
    }
    let first: u64 = get_le(leaf_buf, (start_slot * (width as u64)) as usize, width);
    if first == sentinel_index {
        return Err(SfsError::IoError(text_num("scan_run_from_buffer: sentinel at slot ", start_slot, "")));
    }
    let mut run: u64 = 1;
    while run < max_slots
        invariant
            1 <= width == block_index_width == w <= 8,
            slots == start_slot + max_slots,
            slots * w <= len == leaf_buf@.len(),
            slots <= u64::MAX,
            sentinel_index == sentinel(w),
            1 <= run <= max_slots,
            first + run <= sentinel_index,
            first == index_at(leaf_buf@, start_slot as int, w),
            first != sentinel_index,
            forall|j: int|
                0 <= j < run ==> #[trigger] index_at(leaf_buf@, start_slot + j, w) == first + j,
        decreases max_slots - run,
    {
        proof {
            lemma_slot_range(start_slot + run, w as int, slots, len as int);
        }
        let pos: usize = ((start_slot + run) * (width as u64)) as usize;
        let index: u64 = get_le(leaf_buf, pos, width);
        if index != first + run || index == sentinel_index {
            return Ok((first, run));
        }
        run = run + 1;
    }
    Ok((first, run))
}

} // verus!
