//! Plain streams: the data blocks hold the bytes of the stream.

use crate::block_layer::{
    run_byte, run_written, same_make, same_store, sentinel, zero_bytes, BlockLayer,
};
use crate::bytes::{after_read, copy_into, copy_range, overlay, read_count};
use crate::descriptor::StreamDescriptor;
use crate::pyramid::{
    ceil_div, child_index, has_block, held, index_at, is_depth, is_place, is_pyramid,
    lemma_depth_unique, lemma_div_mod, lemma_level_count, lemma_mul_div, lemma_powf_one,
    lemma_shrunk_place, lemma_shrunk_refl, lemma_shrunk_twice, lemma_tree_frame, node_ok, powf,
    replaced, shrunk,
};
use crate::pyramid_io::{
    data_blocks_needed, fan_ok, navigate_to_leaf, pyramid_depth, scan_run_from_buffer,
};
use crate::pyramid_shrink::unlink_last_leaf;
use crate::stream_layer::cut_len;
use crate::stream_tree::{
    collapse_depth, collect_tree_blocks_for_dealloc, describes, extend_pyramid, extended, flat,
    leaves, lemma_ceil_covers, lemma_ceil_exact, lemma_ceil_monotone, lemma_depth_monotone,
    leaves_from, lemma_flat_contains, lemma_flat_no_duplicates, lemma_leaf_not_redirector,
    lemma_shrunk_replaced,
};
use crate::types::{text_num, CacheMode, SfsError};
use vstd::prelude::*;

verus! {

/// The bytes in a row of data blocks.
pub open spec fn content(blocks: Map<u64, Seq<u8>>, data: Seq<u64>, size: nat) -> Seq<u8> {
    Seq::new(data.len() * size, |p: int| blocks[data[p / size as int]][p % size as int])
}

/// The redirector block that was read last, so that consecutive lookups under
/// it need no further reading.
pub(crate) struct LeafCache {
    pub valid: bool,
    pub leaf: u64,
    pub buf: Vec<u8>,
}

/// The cached bytes are those of the redirector they are said to be of.
pub(crate) open spec fn leaf_ok(
    cache: LeafCache,
    blocks: Map<u64, Seq<u8>>,
    levels: Seq<Seq<u64>>,
    size: nat,
) -> bool {
    &&& cache.buf@.len() == size
    &&& cache.valid ==> is_place(levels, 1, cache.leaf as int) && cache.buf@
        == blocks[levels[1][cache.leaf as int]]
}

/// Finds where data block `data_block_idx` lies, and how many of the data
/// blocks from it on lie behind each other.
pub(crate) fn find_run<L2: BlockLayer>(
    layer2: &mut L2,
    top_block: u64,
    data_block_idx: u64,
    num_data_blocks: u64,
    depth: u32,
    fan_out: u64,
    cache: CacheMode,
    leaf_cache: &mut LeafCache,
    Ghost(levels): Ghost<Seq<Seq<u64>>>,
) -> (r: Result<(u64, u64), SfsError>)
    requires
        fan_ok(*old(layer2), fan_out),
        is_pyramid(
            old(layer2).blocks(),
            levels,
            num_data_blocks as nat,
            fan_out as nat,
            old(layer2).iwidth(),
        ),
        is_depth(num_data_blocks as nat, fan_out as nat, depth as nat),
        levels.len() == depth + 1,
        top_block == levels[depth as int][0],
        data_block_idx < num_data_blocks,
        leaf_ok(*old(leaf_cache), old(layer2).blocks(), levels, old(layer2).bsize()),
    ensures
        same_store(*old(layer2), *final(layer2)),
        L2::reads_always() ==> final(layer2).faults() == old(layer2).faults(),
        final(layer2).faults() >= old(layer2).faults(),
        (r is Ok) == (final(layer2).faults() == old(layer2).faults()),
        r matches Ok((first, run)) ==> {
            &&& leaf_ok(*final(leaf_cache), old(layer2).blocks(), levels, old(layer2).bsize())
            &&& 1 <= run
            &&& data_block_idx + run <= num_data_blocks
            &&& first + run <= u64::MAX
            &&& forall|j: int|
                0 <= j < run ==> #[trigger] levels[0][data_block_idx + j] == first + j
        },
{
    let ghost f = fan_out as nat;
    let ghost w = layer2.iwidth();
    let ghost n = num_data_blocks as nat;
    proof {
        layer2.lemma_wf();
        lemma_powf_one(f);
        lemma_level_count(n, f, 0);
        crate::bytes::lemma_pow256_monotone(w, 8);
        crate::bytes::lemma_pow256_values();
        assert(is_place(levels, 0, data_block_idx as int));
        assert(layer2.blocks().contains_key(levels[0][data_block_idx as int]));
    }
    if depth == 0 {
        return Ok((top_block, 1));
    }
    let leaf: u64 = data_block_idx / fan_out;
    let slot: u64 = data_block_idx % fan_out;
    if !leaf_cache.valid || leaf_cache.leaf != leaf {
        let leaf_block: u64 = match navigate_to_leaf(
            layer2,
            top_block,
            data_block_idx,
            depth,
            fan_out,
            cache,
            Ghost(levels),
            Ghost(n),
        ) {
            Ok(b) => b,
            Err(e) => {
                return Err(e);
            },
        };
        proof {
            assert(is_place(levels, 1, leaf as int));
            assert(layer2.blocks().contains_key(levels[1][leaf as int]));
        }
        leaf_cache.valid = false;
        let mut buf: Vec<u8> = vec![0u8; layer2.block_size()];
        match layer2.read_block(leaf_block, 0, buf.as_mut_slice(), cache) {
            Ok(_) => {},
            Err(e) => {
                return Err(e);
            },
        }
        proof {
            let b = layer2.blocks()[leaf_block];
            assert(b.subrange(0, b.len() as int) =~= b);
        }
        leaf_cache.valid = true;
        leaf_cache.leaf = leaf;
        leaf_cache.buf = buf;
    }
    let left: u64 = num_data_blocks - data_block_idx;
    let max_slots: u64 = if left < fan_out - slot {
        left
    } else {
        fan_out - slot
    };
    let width: u8 = layer2.block_index_width();
    proof {
        assert((slot + max_slots) * w <= fan_out * w) by (nonlinear_arith)
            requires
                slot + max_slots <= fan_out,
        ;
        assert(is_place(levels, 1, leaf as int));
        assert(node_ok(layer2.blocks(), levels, 1, leaf as int, f, w));
        lemma_div_mod(data_block_idx as int, f as int);
        assert forall|j: int| 0 <= j < max_slots implies #[trigger] index_at(
            leaf_cache.buf@,
            slot + j,
            w,
        ) == levels[0][data_block_idx + j] && levels[0][data_block_idx + j] < sentinel(w) by {
            assert(index_at(layer2.blocks()[levels[1][leaf as int]], slot + j, w) == child_index(
                levels,
                1,
                leaf as int,
                slot + j,
                f,
                w,
            ));
            assert(is_place(levels, 0, data_block_idx + j));
            assert(layer2.blocks().contains_key(levels[0][data_block_idx + j]));
        }
        assert(index_at(leaf_cache.buf@, slot + 0, w) == levels[0][data_block_idx + 0]);
    }
    match scan_run_from_buffer(leaf_cache.buf.as_slice(), slot, max_slots, width) {
        Ok((first, run)) => {
            proof {
                assert forall|j: int| 0 <= j < run implies #[trigger] levels[0][data_block_idx + j]
                    == first + j by {
                    assert(index_at(leaf_cache.buf@, slot + j, w) == first + j);
                }
            }
            Ok((first, run))
        },
        Err(e) => Err(e),
    }
}

/// Position `p` bytes behind the start of data block `idx`.
pub proof fn lemma_position(idx: int, x: int, size: int)
    requires
        size >= 1,
        idx >= 0,
        x >= 0,
    ensures
        (idx * size + x) / size == idx + x / size,
        (idx * size + x) % size == x % size,
        x / size >= 0,
        idx * size >= 0,
{
    let q = x / size;
    lemma_div_mod(x, size);
    assert(q >= 0) by (nonlinear_arith)
        requires
            q == x / size,
            x >= 0,
            size >= 1,
    ;
    assert((idx + q) * size == idx * size + q * size) by (nonlinear_arith);
    lemma_mul_div(idx + q, x % size, size);
    assert(idx * size >= 0) by (nonlinear_arith)
        requires
            idx >= 0,
            size >= 1,
    ;
}

/// A position before the end of `run` blocks lies in one of them.
pub proof fn lemma_position_in_run(x: int, run: int, size: int)
    requires
        size >= 1,
        0 <= x < run * size,
    ensures
        0 <= x / size < run,
        0 <= x % size < size,
{
    lemma_div_mod(x, size);
    let q = x / size;
    assert(0 <= q < run) by (nonlinear_arith)
        requires
            q * size <= x,
            x < run * size,
            size >= 1,
            x >= 0,
            q == x / size,
    ;
}

/// Reads bytes of a stream from `pos` on, up to the end of the stream. Blocks
/// that lie behind each other are read at once.
pub(crate) fn pyramid_read<L2: BlockLayer>(
    layer2: &mut L2,
    descriptor: &StreamDescriptor,
    pos: u64,
    buf: &mut [u8],
    fan_out: u64,
    cache: CacheMode,
    Ghost(levels): Ghost<Seq<Seq<u64>>>,
) -> (r: Result<usize, SfsError>)
    requires
        fan_ok(*old(layer2), fan_out),
        describes(
            old(layer2).blocks(),
            *descriptor,
            levels,
            old(layer2).bsize(),
            fan_out as nat,
            old(layer2).iwidth(),
        ),
    ensures
        same_store(*old(layer2), *final(layer2)),
        L2::reads_always() ==> final(layer2).faults() == old(layer2).faults(),
        final(layer2).faults() >= old(layer2).faults(),
        (r is Ok) == (final(layer2).faults() == old(layer2).faults()),
        final(buf)@.len() == old(buf)@.len(),
        r matches Ok(n) ==> {
            let data = content(old(layer2).blocks(), leaves(levels), old(layer2).bsize()).take(
                descriptor.size as int,
            );
            &&& n == read_count(descriptor.size as int, pos as int, old(buf)@.len() as int)
            &&& final(buf)@ == after_read(data, pos as int, old(buf)@)
        },
{
    let ghost f = fan_out as nat;
    let ghost w = layer2.iwidth();
    let ghost size = layer2.bsize() as int;
    let ghost data = content(layer2.blocks(), leaves(levels), layer2.bsize());
    proof {
        layer2.lemma_wf();
        lemma_ceil_exact(leaves(levels).len(), layer2.bsize());
    }
    let block_size: usize = layer2.block_size();
    if pos >= descriptor.size {
        proof {
            assert(buf@ =~= after_read(data.take(descriptor.size as int), pos as int, buf@));
        }
        return Ok(0);
    }
    let available: u64 = descriptor.size - pos;
    let to_read: usize = if (buf.len() as u64) < available {
        buf.len()
    } else {
        available as usize
    };
    let num_data_blocks: u64 = data_blocks_needed(descriptor.reserved, block_size);
    let depth: u32 = pyramid_depth(num_data_blocks, fan_out);
    let ghost n = num_data_blocks as nat;
    proof {
        assert(levels.len() > 0);
        lemma_depth_unique(n, f, depth as nat, (levels.len() - 1) as nat);
        lemma_level_count(n, f, 0);
    }
    let mut leaf_cache: LeafCache = LeafCache {
        valid: false,
        leaf: 0,
        buf: vec![0u8; block_size],
    };
    let mut bytes_read: usize = 0;
    while bytes_read < to_read
        invariant
            fan_ok(*layer2, fan_out),
            same_store(*old(layer2), *layer2),
            layer2.faults() == old(layer2).faults(),
            f == fan_out,
            w == layer2.iwidth(),
            block_size == size == layer2.bsize(),
            1 <= size <= 0x8000_0000,
            data == content(layer2.blocks(), leaves(levels), layer2.bsize()),
            n == num_data_blocks,
            levels.len() == depth + 1,
            is_pyramid(layer2.blocks(), levels, n, f, w),
            is_depth(n, f, depth as nat),
            levels[0].len() == n,
            descriptor.top_block == levels[depth as int][0],
            descriptor.size <= descriptor.reserved,
            descriptor.reserved == n * size,
            leaf_ok(leaf_cache, layer2.blocks(), levels, layer2.bsize()),
            buf@.len() == old(buf)@.len(),
            bytes_read <= to_read <= buf@.len(),
            pos + to_read <= descriptor.size,
            forall|i: int| 0 <= i < bytes_read ==> #[trigger] buf@[i] == data[pos + i],
            forall|i: int| bytes_read <= i < buf@.len() ==> #[trigger] buf@[i] == old(buf)@[i],
        decreases to_read - bytes_read,
    {
        let current: u64 = pos + bytes_read as u64;
        let idx: u64 = current / (block_size as u64);
        let off: usize = (current % (block_size as u64)) as usize;
        proof {
            lemma_position_in_run(current as int, n as int, size);
            lemma_div_mod(current as int, size);
        }
        let (first, run) = match find_run(
            layer2,
            descriptor.top_block,
            idx,
            num_data_blocks,
            depth,
            fan_out,
            cache,
            &mut leaf_cache,
            Ghost(levels),
        ) {
            Ok(found) => found,
            Err(e) => {
                return Err(e);
            },
        };
        proof {
            assert(run * size <= n * size) by (nonlinear_arith)
                requires
                    run <= n,
                    size >= 1,
            ;
            assert(run * size >= size) by (nonlinear_arith)
                requires
                    run >= 1,
                    size >= 1,
            ;
        }
        let in_run: u64 = run * (block_size as u64) - off as u64;
        let left: usize = to_read - bytes_read;
        let chunk: usize = if (left as u64) < in_run {
            left
        } else {
            in_run as usize
        };
        proof {
            layer2.lemma_wf();
            let count = ceil_div((off + chunk) as nat, size as nat);
            lemma_ceil_monotone((off + chunk) as nat, (run * size) as nat, size as nat);
            lemma_ceil_exact(run as nat, size as nat);
            assert(count <= run);
            assert forall|b: u64| first <= b < first + count implies #[trigger] layer2.blocks().contains_key(
                b,
            ) by {
                let j = b - first;
                assert(levels[0][idx + j] == first + j);
                assert(is_place(levels, 0, idx + j));
                assert(layer2.blocks().contains_key(levels[0][idx + j]));
            }
        }
        let mut part: Vec<u8> = vec![0u8; chunk];
        match layer2.read_contiguous_blocks(first, off, part.as_mut_slice()) {
            Ok(_) => {},
            Err(e) => {
                return Err(e);
            },
        }
        let ghost before = buf@;
        copy_into(buf, bytes_read, part.as_slice());
        proof {
            assert forall|i: int| 0 <= i < bytes_read + chunk implies #[trigger] buf@[i]
                == data[pos + i] by {
                if i < bytes_read {
                    assert(buf@[i] == before[i]);
                } else {
                    let x = off + (i - bytes_read);
                    assert(buf@[i] == part@[i - bytes_read]);
                    assert(part@[i - bytes_read] == run_byte(
                        layer2.blocks(),
                        first,
                        layer2.bsize(),
                        x,
                    ));
                    lemma_position(idx as int, x, size);
                    lemma_position_in_run(x, run as int, size);
                    assert(pos + i == idx * size + x);
                    let j = x / size;
                    assert(levels[0][idx + j] == first + j);
                    assert((first + j) as u64 == levels[0][idx + j]);
                }
            }
            assert forall|i: int| bytes_read + chunk <= i < buf@.len() implies #[trigger] buf@[i]
                == old(buf)@[i] by {
                assert(buf@[i] == before[i]);
            }
        }
        bytes_read = bytes_read + chunk;
    }
    proof {
        assert(buf@ =~= after_read(data.take(descriptor.size as int), pos as int, old(buf)@));
    }
    Ok(bytes_read)
}

/// `c` with zero bytes behind it, in whole units, until it holds `bytes` bytes.
pub open spec fn padded(c: Seq<u8>, bytes: nat, unit: nat) -> Seq<u8> {
    if bytes <= c.len() {
        c
    } else {
        c + zero_bytes((ceil_div(bytes, unit) * unit - c.len()) as nat)
    }
}

/// The capacity for `bytes` bytes is too large for a 64-bit number.
pub open spec fn too_large(reserved: nat, bytes: nat, unit: nat) -> bool {
    reserved < bytes && ceil_div(bytes, unit) * unit > u64::MAX
}

proof fn lemma_content_extended(
    b0: Map<u64, Seq<u8>>,
    b1: Map<u64, Seq<u8>>,
    lv0: Seq<Seq<u64>>,
    lv1: Seq<Seq<u64>>,
    added: Seq<u64>,
    size: nat,
)
    requires
        size >= 1,
        extended(b0, b1, lv0, lv1, added),
        forall|i: int| 0 <= i < added.len() ==> b1[#[trigger] added[i]] == zero_bytes(size),
    ensures
        content(b1, leaves(lv1), size) == content(b0, leaves(lv0), size) + zero_bytes(
            added.len() * size,
        ),
{
    let d0 = leaves(lv0);
    let d1 = leaves(lv1);
    let n = d0.len() as int;
    assert(d1.len() * size == d0.len() * size + added.len() * size) by (nonlinear_arith)
        requires
            d1.len() == d0.len() + added.len(),
    ;
    let c1 = content(b1, d1, size);
    let goal = content(b0, d0, size) + zero_bytes(added.len() * size);
    assert forall|p: int| 0 <= p < c1.len() implies c1[p] == goal[p] by {
        lemma_position_in_run(p, d1.len() as int, size as int);
        let i = p / (size as int);
        if p < n * size {
            lemma_position_in_run(p, n, size as int);
            assert(d1[i] == d0[i]);
            assert(b1[leaves(lv0)[i]] == b0[leaves(lv0)[i]]);
        } else {
            lemma_position(n, p - n * size, size as int);
            assert(i >= n);
            assert(d1[i] == added[i - n]);
        }
    }
    assert(c1 =~= goal);
}

/// Makes room for at least `n_bytes` bytes, without changing the length of
/// the stream.
pub(crate) fn pyramid_reserve<L2: BlockLayer>(
    layer2: &mut L2,
    descriptor: &mut StreamDescriptor,
    n_bytes: u64,
    fan_out: u64,
    cache: CacheMode,
    tree: &mut Ghost<Seq<Seq<u64>>>,
) -> (r: Result<(), SfsError>)
    requires
        fan_ok(*old(layer2), fan_out),
        describes(
            old(layer2).blocks(),
            *old(descriptor),
            old(tree)@,
            old(layer2).bsize(),
            fan_out as nat,
            old(layer2).iwidth(),
        ),
    ensures
        final(layer2).bsize() == old(layer2).bsize(),
        final(layer2).iwidth() == old(layer2).iwidth(),
        final(layer2).faults() >= old(layer2).faults(),
        r is Ok ==> final(layer2).faults() == old(layer2).faults(),
        final(layer2).faults() == old(layer2).faults() ==> {
            &&& same_make(*old(layer2), *final(layer2))
            &&& r is Err <==> n_bytes < old(descriptor).size || too_large(
                old(descriptor).reserved as nat,
                n_bytes as nat,
                old(layer2).bsize(),
            )
            &&& r matches Err(e) ==> e is IoError && final(layer2).blocks() == old(layer2).blocks()
                && *final(descriptor) == *old(descriptor) && final(tree)@ == old(tree)@
        },
        r is Ok ==> {
            let size = old(layer2).bsize();
            &&& describes(
                final(layer2).blocks(),
                *final(descriptor),
                final(tree)@,
                size,
                fan_out as nat,
                old(layer2).iwidth(),
            )
            &&& final(descriptor).size == old(descriptor).size
            &&& final(descriptor).flags == old(descriptor).flags
            &&& final(descriptor).reserved == (if n_bytes <= old(descriptor).reserved {
                old(descriptor).reserved as nat
            } else {
                ceil_div(n_bytes as nat, size) * size
            })
            &&& content(final(layer2).blocks(), leaves(final(tree)@), size) == padded(
                content(old(layer2).blocks(), leaves(old(tree)@), size),
                n_bytes as nat,
                size,
            )
            &&& replaced(
                old(layer2).blocks(),
                final(layer2).blocks(),
                old(tree)@,
                final(tree)@,
            )
        },
{
    let ghost f = fan_out as nat;
    let ghost w = layer2.iwidth();
    let ghost size = layer2.bsize();
    let ghost b0 = layer2.blocks();
    let ghost lv0 = tree@;
    proof {
        layer2.lemma_wf();
    }
    if n_bytes < descriptor.size {
        let text: String = text_num("cannot reserve ", n_bytes, " bytes: stream size is already ");
        return Err(SfsError::IoError(text_num(text.as_str(), descriptor.size, "")));
    }
    if n_bytes <= descriptor.reserved {
        proof {
            lemma_replaced_refl(b0, lv0);
        }
        return Ok(());
    }
    let block_size: u64 = layer2.block_size() as u64;
    let target: u64 = data_blocks_needed(n_bytes, layer2.block_size());
    let current: u64 = data_blocks_needed(descriptor.reserved, layer2.block_size());
    proof {
        lemma_ceil_exact(leaves(lv0).len(), size);
        lemma_ceil_covers(n_bytes as nat, size);
        assert(current < target) by {
            lemma_ceil_monotone((descriptor.reserved + 1) as nat, n_bytes as nat, size);
            let c = current as nat;
            lemma_position(c as int, 0, size as int);
        }
    }
    let reserved: u64 = match target.checked_mul(block_size) {
        Some(reserved) => reserved,
        None => {
            return Err(SfsError::IoError(text_num("cannot reserve ", n_bytes, " bytes")));
        },
    };
    let top_block: u64 = descriptor.top_block;
    match extend_pyramid(layer2, top_block, current, target, fan_out, cache, tree) {
        Ok((top, added)) => {
            descriptor.top_block = top;
            descriptor.reserved = reserved;
            proof {
                let b1 = layer2.blocks();
                lemma_content_extended(b0, b1, lv0, tree@, added@, size);
                let had = old(descriptor).reserved as int;
                assert(added@.len() * size == reserved - had) by (nonlinear_arith)
                    requires
                        added@.len() == target - current,
                        reserved == target * size,
                        had == current * size,
                ;
                lemma_level_count(target as nat, f, 0);
            }
            Ok(())
        },
        Err(e) => Err(e),
    }
}

pub proof fn lemma_replaced_refl(b: Map<u64, Seq<u8>>, lv: Seq<Seq<u64>>)
    requires
        held(b, lv),
    ensures
        replaced(b, b, lv, lv),
{
    assert forall|x: u64| has_block(lv, x) implies b.contains_key(x) by {
        let (l, i) = choose|l: int, i: int| is_place(lv, l, i) && #[trigger] lv[l][i] == x;
        assert(b.contains_key(lv[l][i]));
    }
}

/// Bytes written into a run of data blocks appear in the stream at the place
/// of the run.
proof fn lemma_content_run_written(
    blocks: Map<u64, Seq<u8>>,
    data: Seq<u64>,
    size: nat,
    idx: int,
    run: int,
    first: u64,
    off: int,
    part: Seq<u8>,
)
    requires
        size >= 1,
        data.no_duplicates(),
        forall|i: int| 0 <= i < data.len() ==> blocks.contains_key(#[trigger] data[i]),
        0 <= idx,
        1 <= run,
        idx + run <= data.len(),
        first + run <= u64::MAX,
        forall|j: int| 0 <= j < run ==> #[trigger] data[idx + j] == first + j,
        0 <= off,
        off + part.len() <= run * size,
    ensures
        content(run_written(blocks, first, size, off, part), data, size) == overlay(
            content(blocks, data, size),
            idx * size + off,
            part,
        ),
{
    let after = run_written(blocks, first, size, off, part);
    let c0 = content(blocks, data, size);
    let c1 = content(after, data, size);
    let goal = overlay(c0, idx * size + off, part);
    let count = ceil_div((off + part.len()) as nat, size) as int;
    lemma_ceil_monotone((off + part.len()) as nat, (run * size) as nat, size);
    lemma_ceil_exact(run as nat, size);
    lemma_ceil_covers((off + part.len()) as nat, size);
    assert forall|p: int| 0 <= p < c1.len() implies c1[p] == goal[p] by {
        lemma_position_in_run(p, data.len() as int, size as int);
        lemma_div_mod(p, size as int);
        let i = p / (size as int);
        let q = p % (size as int);
        let b = data[i];
        assert(blocks.contains_key(b));
        if first <= b < first + count {
            let j = b - first;
            assert(data[idx + j] == first + j);
            assert(i == idx + j);
            assert((idx + j) * size == idx * size + j * size) by (nonlinear_arith);
            assert(j * size + q == p - idx * size);
        } else {
            // Outside the written blocks lies no written position.
            if idx * size + off <= p < idx * size + off + part.len() {
                let x = p - idx * size;
                lemma_position(idx, x, size as int);
                let j = x / (size as int);
                assert(i == idx + j);
                assert(j < count) by {
                    lemma_position_in_run(x, count, size as int);
                }
                assert(data[idx + j] == first + j);
                assert(false);
            }
        }
    }
    assert(c1 =~= goal);
}

/// Writes bytes to a stream from `pos` on, with more capacity where it needs
/// some. Blocks that lie behind each other are written at once.
pub(crate) fn pyramid_write<L2: BlockLayer>(
    layer2: &mut L2,
    descriptor: &mut StreamDescriptor,
    pos: u64,
    buf: &[u8],
    fan_out: u64,
    cache: CacheMode,
    tree: &mut Ghost<Seq<Seq<u64>>>,
) -> (r: Result<usize, SfsError>)
    requires
        fan_ok(*old(layer2), fan_out),
        describes(
            old(layer2).blocks(),
            *old(descriptor),
            old(tree)@,
            old(layer2).bsize(),
            fan_out as nat,
            old(layer2).iwidth(),
        ),
        pos + buf@.len() <= u64::MAX,
    ensures
        final(layer2).bsize() == old(layer2).bsize(),
        final(layer2).iwidth() == old(layer2).iwidth(),
        final(layer2).faults() >= old(layer2).faults(),
        r is Ok ==> final(layer2).faults() == old(layer2).faults(),
        final(layer2).faults() == old(layer2).faults() ==> {
            &&& same_make(*old(layer2), *final(layer2))
            &&& r is Err <==> buf@.len() > 0 && too_large(
                old(descriptor).reserved as nat,
                (pos + buf@.len()) as nat,
                old(layer2).bsize(),
            )
            &&& r matches Err(e) ==> e is IoError && final(layer2).blocks() == old(layer2).blocks()
                && *final(descriptor) == *old(descriptor) && final(tree)@ == old(tree)@
        },
        r matches Ok(n) ==> {
            let size = old(layer2).bsize();
            let end = (pos + buf@.len()) as nat;
            &&& n == buf@.len()
            &&& describes(
                final(layer2).blocks(),
                *final(descriptor),
                final(tree)@,
                size,
                fan_out as nat,
                old(layer2).iwidth(),
            )
            &&& final(descriptor).flags == old(descriptor).flags
            &&& replaced(
                old(layer2).blocks(),
                final(layer2).blocks(),
                old(tree)@,
                final(tree)@,
            )
            &&& buf@.len() == 0 ==> {
                &&& *final(descriptor) == *old(descriptor)
                &&& final(tree)@ == old(tree)@
                &&& final(layer2).blocks() == old(layer2).blocks()
            }
            &&& buf@.len() > 0 ==> {
                &&& final(descriptor).size == (if end > old(descriptor).size {
                    end
                } else {
                    old(descriptor).size as nat
                })
                &&& content(final(layer2).blocks(), leaves(final(tree)@), size) == overlay(
                    padded(
                        content(old(layer2).blocks(), leaves(old(tree)@), size),
                        end,
                        size,
                    ),
                    pos as int,
                    buf@,
                )
            }
        },
{
    let ghost f = fan_out as nat;
    let ghost w = layer2.iwidth();
    let ghost size = layer2.bsize() as int;
    let ghost b0 = layer2.blocks();
    let ghost lv0 = tree@;
    proof {
        layer2.lemma_wf();
        lemma_ceil_exact(leaves(lv0).len(), layer2.bsize());
    }
    if buf.len() == 0 {
        proof {
            lemma_replaced_refl(b0, lv0);
        }
        return Ok(0);
    }
    let block_size: usize = layer2.block_size();
    let total: usize = buf.len();
    let end_pos: u64 = pos + total as u64;
    let old_size: u64 = descriptor.size;
    let wanted: u64 = if end_pos > old_size {
        end_pos
    } else {
        old_size
    };
    match pyramid_reserve(layer2, descriptor, wanted, fan_out, cache, tree) {
        Ok(_) => {},
        Err(e) => {
            return Err(e);
        },
    }
    let ghost lv = tree@;
    let ghost br = layer2.blocks();
    let ghost data = leaves(lv);
    let ghost cr = content(br, data, size as nat);
    let num_data_blocks: u64 = data_blocks_needed(descriptor.reserved, block_size);
    let depth: u32 = pyramid_depth(num_data_blocks, fan_out);
    let ghost n = num_data_blocks as nat;
    proof {
        lemma_ceil_exact(data.len(), size as nat);
        lemma_ceil_covers(wanted as nat, size as nat);
        assert(lv.len() > 0);
        lemma_depth_unique(n, f, depth as nat, (lv.len() - 1) as nat);
        lemma_level_count(n, f, 0);
        assert(data.no_duplicates()) by {
            assert forall|i: int, j: int|
                0 <= i < data.len() && 0 <= j < data.len() && i != j implies data[i] != data[j] by {
                assert(is_place(lv, 0, i) && is_place(lv, 0, j));
                assert(lv[0][i] != lv[0][j]);
            }
        }
        assert(overlay(cr, pos as int, buf@.take(0)) =~= cr);
    }
    let mut leaf_cache: LeafCache = LeafCache {
        valid: false,
        leaf: 0,
        buf: vec![0u8; block_size],
    };
    let top_block: u64 = descriptor.top_block;
    let mut bytes_written: usize = 0;
    while bytes_written < total
        invariant
            fan_ok(*layer2, fan_out),
            same_make(*old(layer2), *layer2),
            layer2.faults() == old(layer2).faults(),
            f == fan_out,
            w == layer2.iwidth(),
            block_size == size == layer2.bsize(),
            1 <= size <= 0x8000_0000,
            tree@ == lv,
            data == leaves(lv),
            cr == content(br, data, size as nat),
            n == num_data_blocks,
            lv.len() == depth + 1,
            is_pyramid(br, lv, n, f, w),
            is_pyramid(layer2.blocks(), lv, n, f, w),
            is_depth(n, f, depth as nat),
            data.len() == n,
            data.no_duplicates(),
            top_block == lv[depth as int][0],
            descriptor.reserved == n * size,
            leaf_ok(leaf_cache, layer2.blocks(), lv, layer2.bsize()),
            total == buf@.len(),
            bytes_written <= total,
            pos + total <= descriptor.reserved,
            forall|b: u64| #[trigger] layer2.blocks().contains_key(b) == br.contains_key(b),
            forall|b: u64|
                br.contains_key(b) && !data.contains(b) ==> #[trigger] layer2.blocks()[b] == br[b],
            content(layer2.blocks(), data, size as nat) == overlay(
                cr,
                pos as int,
                buf@.take(bytes_written as int),
            ),
        decreases total - bytes_written,
    {
        let current: u64 = pos + bytes_written as u64;
        let idx: u64 = current / (block_size as u64);
        let off: usize = (current % (block_size as u64)) as usize;
        let ghost b1 = layer2.blocks();
        proof {
            lemma_position_in_run(current as int, n as int, size);
            lemma_div_mod(current as int, size);
        }
        let (first, run) = match find_run(
            layer2,
            top_block,
            idx,
            num_data_blocks,
            depth,
            fan_out,
            cache,
            &mut leaf_cache,
            Ghost(lv),
        ) {
            Ok(found) => found,
            Err(e) => {
                return Err(e);
            },
        };
        proof {
            assert(run * size <= n * size) by (nonlinear_arith)
                requires
                    run <= n,
                    size >= 1,
            ;
            assert(run * size >= size) by (nonlinear_arith)
                requires
                    run >= 1,
                    size >= 1,
            ;
        }
        let in_run: u64 = run * (block_size as u64) - off as u64;
        let left: usize = total - bytes_written;
        let chunk: usize = if (left as u64) < in_run {
            left
        } else {
            in_run as usize
        };
        let ghost count = ceil_div((off + chunk) as nat, size as nat);
        proof {
            layer2.lemma_wf();
            lemma_ceil_monotone((off + chunk) as nat, (run * size) as nat, size as nat);
            lemma_ceil_exact(run as nat, size as nat);
            assert(count <= run);
            assert forall|b: u64| first <= b < first + count implies #[trigger] layer2.blocks().contains_key(
                b,
            ) && data.contains(b) by {
                let j = b - first;
                assert(lv[0][idx + j] == first + j);
                assert(is_place(lv, 0, idx + j));
                assert(layer2.blocks().contains_key(lv[0][idx + j]));
                assert(data[idx + j] == b);
            }
        }
        let part: Vec<u8> = copy_range(buf, bytes_written, bytes_written + chunk);
        match layer2.write_contiguous_blocks(first, off, part.as_slice()) {
            Ok(_) => {},
            Err(e) => {
                return Err(e);
            },
        }
        proof {
            let b2 = layer2.blocks();
            assert forall|i: int| 0 <= i < data.len() implies b1.contains_key(#[trigger] data[i]) by {
                assert(is_place(lv, 0, i));
                assert(b1.contains_key(lv[0][i]));
            }
            lemma_content_run_written(
                b1,
                data,
                size as nat,
                idx as int,
                run as int,
                first,
                off as int,
                part@,
            );
            assert(overlay(
                overlay(cr, pos as int, buf@.take(bytes_written as int)),
                current as int,
                part@,
            ) =~= overlay(cr, pos as int, buf@.take(bytes_written + chunk)));
            assert forall|l: int, i: int| 1 <= l && is_place(lv, l, i) implies b2[#[trigger] lv[l][i]]
                == b1[lv[l][i]] && b1[lv[l][i]] == b1[lv[l][i]] by {
                let b = lv[l][i];
                assert(b1.contains_key(b));
                if first <= b < first + count {
                    let j = b - first;
                    assert(lv[0][idx + j] == first + j);
                    assert(is_place(lv, 0, idx + j));
                    assert(false);
                }
            }
            assert forall|l: int, i: int| is_place(lv, l, i) implies b2.contains_key(
                #[trigger] lv[l][i],
            ) by {
                assert(b1.contains_key(lv[l][i]));
            }
            lemma_tree_frame(b1, b2, lv, f, w);
            if leaf_cache.valid {
                assert(is_place(lv, 1, leaf_cache.leaf as int));
                assert(b2[lv[1][leaf_cache.leaf as int]] == b1[lv[1][leaf_cache.leaf as int]]);
            }
            assert forall|b: u64| br.contains_key(b) && !data.contains(b) implies #[trigger] b2[b]
                == br[b] by {
                assert(b1.contains_key(b));
                assert(b1[b] == br[b]);
                if first <= b < first + count {
                    assert(layer2.blocks().contains_key(b));
                    assert(data.contains(b));
                }
            }
        }
        bytes_written = bytes_written + chunk;
    }
    descriptor.size = wanted;
    proof {
        let b2 = layer2.blocks();
        assert(buf@.take(total as int) =~= buf@);
        assert forall|b: u64|
            #![trigger has_block(lv, b)]
            #![trigger b2[b]]
            b0.contains_key(b) && !has_block(lv0, b) implies !has_block(lv, b) && b2[b] == b0[b] by {
            assert(!has_block(lv, b));
            assert(br[b] == b0[b]);
            assert(br.contains_key(b));
            assert(!data.contains(b)) by {
                if data.contains(b) {
                    let i = choose|i: int| 0 <= i < data.len() && data[i] == b;
                    assert(is_place(lv, 0, i) && lv[0][i] == b);
                }
            }
        }
        assert forall|b: u64| #[trigger] b2.contains_key(b) <==> (b0.contains_key(b) && !has_block(
            lv0,
            b,
        )) || has_block(lv, b) by {
            assert(b2.contains_key(b) == br.contains_key(b));
        }
        lemma_padded_size(
            content(b0, leaves(lv0), size as nat),
            old_size as nat,
            end_pos as nat,
            wanted as nat,
            size as nat,
        );
    }
    Ok(bytes_written)
}

proof fn lemma_padded_size(c: Seq<u8>, size: nat, end: nat, wanted: nat, unit: nat)
    requires
        size <= c.len(),
        wanted == (if end > size {
            end
        } else {
            size
        }),
    ensures
        padded(c, wanted, unit) == padded(c, end, unit),
{
}

/// Gives back all blocks of a pyramid.
pub(crate) fn deallocate_tree<L2: BlockLayer>(
    layer2: &mut L2,
    top_block: u64,
    depth: u32,
    fan_out: u64,
    cache: CacheMode,
    Ghost(levels): Ghost<Seq<Seq<u64>>>,
    Ghost(n): Ghost<nat>,
) -> (r: Result<(), SfsError>)
    requires
        fan_ok(*old(layer2), fan_out),
        is_pyramid(old(layer2).blocks(), levels, n, fan_out as nat, old(layer2).iwidth()),
        levels.len() == depth + 1,
        top_block == levels[depth as int][0],
    ensures
        final(layer2).bsize() == old(layer2).bsize(),
        final(layer2).iwidth() == old(layer2).iwidth(),
        final(layer2).faults() >= old(layer2).faults(),
        (r is Ok) == (final(layer2).faults() == old(layer2).faults()),
        r is Ok ==> {
            &&& same_make(*old(layer2), *final(layer2))
            &&& replaced(
                old(layer2).blocks(),
                final(layer2).blocks(),
                levels,
                Seq::<Seq<u64>>::empty(),
            )
        },
{
    let ghost b0 = layer2.blocks();
    match collect_tree_blocks_for_dealloc(
        layer2,
        top_block,
        depth,
        fan_out,
        cache,
        Ghost(levels),
        Ghost(n),
    ) {
        Ok((mut blocks, mut bottom)) => {
            blocks.append(&mut bottom);
            proof {
                lemma_flat_no_duplicates(levels);
                assert forall|b: u64| #[trigger] flat(levels).contains(b) == has_block(levels, b) by {
                    lemma_flat_contains(levels, b);
                }
                assert forall|i: int| 0 <= i < blocks@.len() implies layer2.blocks().contains_key(
                    #[trigger] blocks@[i],
                ) by {
                    let b = blocks@[i];
                    assert(flat(levels).contains(b));
                    let (l, j) = choose|l: int, j: int|
                        is_place(levels, l, j) && #[trigger] levels[l][j] == b;
                    assert(b0.contains_key(levels[l][j]));
                }
                layer2.lemma_wf();
            }
            let r = layer2.deallocate_blocks(&mut blocks);
            proof {
                if r is Ok {
                    let b1 = layer2.blocks();
                    assert forall|b: u64| #[trigger] b1.contains_key(b) <==> b0.contains_key(b)
                        && !has_block(levels, b) by {
                        assert(flat(levels).contains(b) == has_block(levels, b));
                    }
                    assert forall|b: u64| !has_block(Seq::<Seq<u64>>::empty(), b) by {}
                    assert forall|b: u64| b0.contains_key(b) && !has_block(levels, b) implies
                        #[trigger] b1[b] == b0[b] by {
                        assert(flat(levels).contains(b) == has_block(levels, b));
                    }
                }
            }
            r
        },
        Err(e) => Err(e),
    }
}

/// Gives back the data blocks from `keep_blocks` on, last one first, and every
/// redirector that becomes empty.
fn deallocate_excess_blocks<L2: BlockLayer>(
    layer2: &mut L2,
    top_block: u64,
    depth: u32,
    keep_blocks: u64,
    total_blocks: u64,
    fan_out: u64,
    cache: CacheMode,
    tree: &mut Ghost<Seq<Seq<u64>>>,
) -> (r: Result<(), SfsError>)
    requires
        fan_ok(*old(layer2), fan_out),
        is_pyramid(
            old(layer2).blocks(),
            old(tree)@,
            total_blocks as nat,
            fan_out as nat,
            old(layer2).iwidth(),
        ),
        is_depth(total_blocks as nat, fan_out as nat, depth as nat),
        old(tree)@.len() == depth + 1,
        top_block == old(tree)@[depth as int][0],
        1 <= keep_blocks <= total_blocks,
    ensures
        final(layer2).bsize() == old(layer2).bsize(),
        final(layer2).iwidth() == old(layer2).iwidth(),
        final(layer2).faults() >= old(layer2).faults(),
        (r is Ok) == (final(layer2).faults() == old(layer2).faults()),
        r is Ok ==> {
            let lv = final(tree)@;
            &&& same_make(*old(layer2), *final(layer2))
            &&& is_pyramid(
                final(layer2).blocks(),
                lv,
                keep_blocks as nat,
                fan_out as nat,
                old(layer2).iwidth(),
            )
            &&& lv.len() == depth + 1
            &&& lv[depth as int][0] == top_block
            &&& lv[0] == old(tree)@[0].take(keep_blocks as int)
            &&& shrunk(
                old(layer2).blocks(),
                final(layer2).blocks(),
                old(tree)@,
                lv,
                leaves_from(old(tree)@, keep_blocks as int),
            )
        },
{
    let ghost f = fan_out as nat;
    let ghost w = layer2.iwidth();
    let ghost b0 = layer2.blocks();
    let ghost lv0 = tree@;
    proof {
        lemma_shrunk_refl(b0, lv0);
        lemma_powf_one(f);
        lemma_level_count(total_blocks as nat, f, 0);
        assert(lv0[0].take(total_blocks as int) =~= lv0[0]);
        assert(leaves_from(lv0, total_blocks as int) =~= Set::<u64>::empty());
    }
    let mut n: u64 = total_blocks;
    while n > keep_blocks
        invariant
            fan_ok(*layer2, fan_out),
            same_make(*old(layer2), *layer2),
            layer2.faults() == old(layer2).faults(),
            f == fan_out,
            w == layer2.iwidth(),
            b0 == old(layer2).blocks(),
            lv0 == old(tree)@,
            is_pyramid(b0, lv0, total_blocks as nat, f, w),
            lv0[0].len() == total_blocks,
            is_depth(total_blocks as nat, f, depth as nat),
            1 <= keep_blocks <= n <= total_blocks,
            is_pyramid(layer2.blocks(), tree@, n as nat, f, w),
            tree@.len() == lv0.len() == depth + 1,
            tree@[depth as int][0] == top_block,
            tree@[0] == lv0[0].take(n as int),
            powf(f, 0) == 1,
            shrunk(b0, layer2.blocks(), lv0, tree@, leaves_from(lv0, n as int)),
        decreases n,
    {
        let ghost lv1 = tree@;
        let ghost b1 = layer2.blocks();
        let leaf: u64 = match unlink_last_leaf(
            layer2,
            top_block,
            n,
            depth,
            fan_out,
            cache,
            tree,
        ) {
            Ok(leaf) => leaf,
            Err(e) => {
                return Err(e);
            },
        };
        let ghost lv2 = tree@;
        let ghost b2 = layer2.blocks();
        proof {
            assert(leaf == lv1[0][n - 1]);
            assert(is_place(lv1, 0, n - 1));
            assert(b1.contains_key(lv1[0][n - 1]));
            lemma_leaf_not_redirector(lv1, n - 1);
            assert(b2.contains_key(leaf));
            layer2.lemma_wf();
        }
        match layer2.deallocate_block(leaf) {
            Ok(_) => {},
            Err(e) => {
                return Err(e);
            },
        }
        proof {
            let b3 = layer2.blocks();
            assert forall|l: int, i: int| is_place(lv2, l, i) implies #[trigger] lv2[l][i] != leaf by {
                lemma_shrunk_place(lv1, lv2, l, i);
                assert(lv1[l][i] == lv2[l][i]);
                assert(lv1[0][n - 1] == leaf);
            }
            assert forall|l: int, i: int| is_place(lv2, l, i) implies b3.contains_key(
                #[trigger] lv2[l][i],
            ) by {
                assert(b2.contains_key(lv2[l][i]));
            }
            lemma_tree_frame(b2, b3, lv2, f, w);
            let one = Set::<u64>::empty().insert(leaf);
            assert(shrunk(b2, b3, lv2, lv2, one)) by {
                lemma_shrunk_refl(b2, lv2);
            }
            let gone = leaves_from(lv0, n as int);
            lemma_shrunk_twice(b0, b1, b2, lv0, lv1, lv2, gone, Set::empty());
            lemma_shrunk_twice(b0, b2, b3, lv0, lv2, lv2, gone.union(Set::empty()), one);
            assert(leaf == lv0[0][n - 1]);
            assert forall|b: u64| gone.union(Set::empty()).union(one).contains(b) == leaves_from(
                lv0,
                n - 1,
            ).contains(b) by {
                if b == leaf {
                    assert(lv0[0][n - 1] == b);
                }
            }
            assert(gone.union(Set::empty()).union(one) =~= leaves_from(lv0, n - 1));
            assert(lv2[0] =~= lv0[0].take(n - 1));
        }
        n = n - 1;
    }
    Ok(())
}

/// Cuts a stream down to `new_len` bytes and gives back the blocks that it no
/// longer needs, what was reserved included.
pub(crate) fn pyramid_truncate<L2: BlockLayer>(
    layer2: &mut L2,
    descriptor: &mut StreamDescriptor,
    new_len: u64,
    fan_out: u64,
    cache: CacheMode,
    tree: &mut Ghost<Seq<Seq<u64>>>,
) -> (r: Result<(), SfsError>)
    requires
        fan_ok(*old(layer2), fan_out),
        describes(
            old(layer2).blocks(),
            *old(descriptor),
            old(tree)@,
            old(layer2).bsize(),
            fan_out as nat,
            old(layer2).iwidth(),
        ),
    ensures
        final(layer2).bsize() == old(layer2).bsize(),
        final(layer2).iwidth() == old(layer2).iwidth(),
        final(layer2).faults() >= old(layer2).faults(),
        (r is Ok) == (final(layer2).faults() == old(layer2).faults()),
        r is Ok ==> {
            let size = old(layer2).bsize();
            &&& same_make(*old(layer2), *final(layer2))
            &&& describes(
                final(layer2).blocks(),
                *final(descriptor),
                final(tree)@,
                size,
                fan_out as nat,
                old(layer2).iwidth(),
            )
            &&& final(descriptor).flags == old(descriptor).flags
            &&& replaced(
                old(layer2).blocks(),
                final(layer2).blocks(),
                old(tree)@,
                final(tree)@,
            )
            &&& final(descriptor).size == cut_len(old(descriptor).size as nat, new_len as nat)
            &&& final(descriptor).reserved == ceil_div(final(descriptor).size as nat, size) * size
            &&& content(final(layer2).blocks(), leaves(final(tree)@), size) == content(
                old(layer2).blocks(),
                leaves(old(tree)@),
                size,
            ).take(final(descriptor).reserved as int)
        },
{
    let ghost f = fan_out as nat;
    let ghost w = layer2.iwidth();
    let ghost size = layer2.bsize();
    let ghost b0 = layer2.blocks();
    let ghost lv0 = tree@;
    let ghost c0 = content(b0, leaves(lv0), size);
    proof {
        layer2.lemma_wf();
        lemma_ceil_exact(leaves(lv0).len(), size);
    }
    if descriptor.reserved == 0 {
        proof {
            lemma_replaced_refl(b0, lv0);
            assert(0 * size == 0) by (nonlinear_arith);
            assert(leaves(lv0).len() == 0);
            assert(c0 =~= c0.take(0));
        }
        return Ok(());
    }
    let new_len: u64 = if new_len > descriptor.size {
        descriptor.size
    } else {
        new_len
    };
    let block_size: usize = layer2.block_size();
    let top_block: u64 = descriptor.top_block;
    let old_blocks: u64 = data_blocks_needed(descriptor.reserved, block_size);
    let old_depth: u32 = pyramid_depth(old_blocks, fan_out);
    let ghost n = old_blocks as nat;
    proof {
        assert(lv0.len() > 0);
        lemma_depth_unique(n, f, old_depth as nat, (lv0.len() - 1) as nat);
        lemma_level_count(n, f, 0);
    }
    if new_len == 0 {
        match deallocate_tree(
            layer2,
            top_block,
            old_depth,
            fan_out,
            cache,
            Ghost(lv0),
            Ghost(n),
        ) {
            Ok(_) => {},
            Err(e) => {
                return Err(e);
            },
        }
        descriptor.size = 0;
        descriptor.top_block = 0;
        descriptor.reserved = 0;
        proof {
            *tree = Ghost(Seq::<Seq<u64>>::empty());
            assert(0 * size == 0) by (nonlinear_arith);
            assert(content(layer2.blocks(), leaves(tree@), size) =~= c0.take(0));
        }
        return Ok(());
    }
    let new_blocks: u64 = data_blocks_needed(new_len, block_size);
    let new_depth: u32 = pyramid_depth(new_blocks, fan_out);
    proof {
        lemma_ceil_covers(new_len as nat, size);
        lemma_ceil_monotone(new_len as nat, descriptor.reserved as nat, size);
        lemma_depth_monotone(new_blocks as nat, n, f, new_depth as nat, old_depth as nat);
        assert(new_blocks * size <= n * size) by (nonlinear_arith)
            requires
                new_blocks <= n,
        ;
    }
    match deallocate_excess_blocks(
        layer2,
        top_block,
        old_depth,
        new_blocks,
        old_blocks,
        fan_out,
        cache,
        tree,
    ) {
        Ok(_) => {},
        Err(e) => {
            return Err(e);
        },
    }
    let ghost b1 = layer2.blocks();
    let ghost lv1 = tree@;
    match collapse_depth(
        layer2,
        top_block,
        old_depth,
        new_depth,
        fan_out,
        cache,
        tree,
        Ghost(new_blocks as nat),
    ) {
        Ok(top) => {
            descriptor.top_block = top;
        },
        Err(e) => {
            return Err(e);
        },
    }
    descriptor.size = new_len;
    descriptor.reserved = new_blocks * (block_size as u64);
    proof {
        let b2 = layer2.blocks();
        let lv2 = tree@;
        let keep = new_blocks as int;
        let gone = leaves_from(lv0, keep);
        lemma_shrunk_twice(b0, b1, b2, lv0, lv1, lv2, gone, Set::empty());
        assert(gone.union(Set::empty()) =~= gone);
        lemma_shrunk_replaced(b0, b2, lv0, lv2, keep);
        lemma_level_count(new_blocks as nat, f, 0);
        let c2 = content(b2, leaves(lv2), size);
        assert forall|p: int| 0 <= p < c2.len() implies c2[p] == c0[p] by {
            lemma_position_in_run(p, keep, size as int);
            let i = p / (size as int);
            assert(lv2[0][i] == lv0[0][i]);
            assert(b2[lv0[0][i]] == b0[lv0[0][i]]);
        }
        assert(c2 =~= c0.take(descriptor.reserved as int));
    }
    Ok(())
}

} // verus!
