//! Compressed streams: every data block of the pyramid is a compression
//! redirector, which points at the blocks that hold one packed piece of the
//! stream.

use crate::block_layer::{same_make, same_store, zero_bytes, BlockLayer};
use crate::bytes::{
    copy_into, copy_range, get_le, law_le_round_trip, le_bytes, le_value, lemma_le_bytes_len,
    lemma_pow256_monotone, lemma_pow256_values, pow256, push_le, zeros,
};
use crate::lz4::{lz4_pack, lz4_unpack, lz4_unpacked, packed_bound, unpacks_to};
use crate::plain::{content, lemma_position_in_run};
use crate::pyramid::{
    ceil_div, held, index_bytes, lemma_index_bytes_len, lemma_mul_div, lemma_slot_range,
};
use crate::pyramid_io::data_blocks_needed;
use crate::stream_tree::{lemma_ceil_covers, lemma_ceil_monotone};
use crate::types::{CacheMode, SfsError};
use vstd::prelude::*;

verus! {

/// A compression redirector: the length of the packed piece and the blocks
/// that hold it.
pub struct CompRedir {
    pub compressed_length: u32,
    pub data_blocks: Vec<u64>,
}

/// The packed length that a compression redirector gives.
pub open spec fn packed_len(redir: Seq<u8>) -> nat {
    le_value(redir.subrange(0, 4))
}

/// The `i`-th block index in a compression redirector.
pub open spec fn packed_ptr(redir: Seq<u8>, i: int, w: nat) -> nat {
    le_value(redir.subrange(4 + i * w, 4 + i * w + w))
}

/// The block `redir` is a compression redirector whose packed piece lies in
/// the blocks `phys`.
pub open spec fn redir_ok(redir: Seq<u8>, phys: Seq<u64>, size: nat, w: nat) -> bool {
    &&& redir.len() == size
    &&& phys.len() == ceil_div(packed_len(redir), size)
    &&& 4 + phys.len() * w <= size
    &&& forall|i: int| 0 <= i < phys.len() ==> #[trigger] packed_ptr(redir, i, w) == phys[i]
}

/// The packed bytes of a piece.
pub open spec fn packed_bytes(
    blocks: Map<u64, Seq<u8>>,
    redir: u64,
    phys: Seq<u64>,
    size: nat,
) -> Seq<u8> {
    content(blocks, phys, size).take(packed_len(blocks[redir]) as int)
}

/// The piece under `redir` can be unpacked, to no more than `unit` bytes.
pub open spec fn piece_ok(
    blocks: Map<u64, Seq<u8>>,
    redir: u64,
    phys: Seq<u64>,
    size: nat,
    w: nat,
    unit: nat,
) -> bool {
    &&& redir_ok(blocks[redir], phys, size, w)
    &&& packed_len(blocks[redir]) > 0 ==> {
        let packed = packed_bytes(blocks, redir, phys, size);
        let data = lz4_unpacked(packed);
        data is Some && unpacks_to(packed, data.unwrap()) && data.unwrap().len() <= unit
    }
}

/// `unit` bytes that begin with `data` and go on with zeros.
pub open spec fn zero_filled(data: Seq<u8>, unit: nat) -> Seq<u8> {
    Seq::new(
        unit,
        |i: int|
            if i < data.len() {
                data[i]
            } else {
                0u8
            },
    )
}

/// The bytes of a piece: zeros where nothing was packed yet.
pub open spec fn piece(
    blocks: Map<u64, Seq<u8>>,
    redir: u64,
    phys: Seq<u64>,
    size: nat,
    unit: nat,
) -> Seq<u8> {
    if packed_len(blocks[redir]) == 0 {
        zero_bytes(unit)
    } else {
        zero_filled(lz4_unpacked(packed_bytes(blocks, redir, phys, size)).unwrap(), unit)
    }
}

/// Reads a compression redirector.
pub(crate) fn read_comp_redir<L2: BlockLayer>(
    layer2: &mut L2,
    redir_block: u64,
    cache: CacheMode,
    Ghost(phys): Ghost<Seq<u64>>,
) -> (r: Result<CompRedir, SfsError>)
    requires
        old(layer2).wf(),
        old(layer2).blocks().contains_key(redir_block),
        redir_ok(
            old(layer2).blocks()[redir_block],
            phys,
            old(layer2).bsize(),
            old(layer2).iwidth(),
        ),
    ensures
        same_store(*old(layer2), *final(layer2)),
        final(layer2).faults() >= old(layer2).faults(),
        (r is Ok) == (final(layer2).faults() == old(layer2).faults()),
        L2::reads_always() ==> final(layer2).faults() == old(layer2).faults(),
        r matches Ok(redir) ==> {
            &&& redir.compressed_length == packed_len(old(layer2).blocks()[redir_block])
            &&& redir.data_blocks@ == phys
        },
{
    let ghost block = layer2.blocks()[redir_block];
    let ghost size = layer2.bsize();
    let ghost w = layer2.iwidth();
    proof {
        layer2.lemma_wf();
        lemma_pow256_values();
    }
    let mut len_buf: Vec<u8> = vec![0u8; 4];
    match layer2.read_block(redir_block, 0, len_buf.as_mut_slice(), cache) {
        Ok(_) => {},
        Err(e) => {
            return Err(e);
        },
    }
    let compressed_length: u32 = get_le(len_buf.as_slice(), 0, 4) as u32;
    proof {
        assert(len_buf@.subrange(0, 4) =~= block.subrange(0, 4));
    }
    if compressed_length == 0 {
        proof {
            assert(phys =~= Seq::<u64>::empty());
        }
        return Ok(CompRedir { compressed_length: 0, data_blocks: Vec::new() });
    }
    let width: usize = layer2.block_index_width() as usize;
    let block_size: usize = layer2.block_size();
    let n_blocks: usize = data_blocks_needed(compressed_length as u64, block_size) as usize;
    let buf_size: usize = 4 + n_blocks * width;
    let mut buf: Vec<u8> = vec![0u8; buf_size];
    match layer2.read_block(redir_block, 0, buf.as_mut_slice(), cache) {
        Ok(_) => {},
        Err(e) => {
            return Err(e);
        },
    }
    let mut data_blocks: Vec<u64> = Vec::new();
    let mut i: usize = 0;
    while i < n_blocks
        invariant
            i <= n_blocks == phys.len(),
            1 <= width == w <= 8,
            buf_size == 4 + n_blocks * width == buf@.len(),
            buf_size <= block.len(),
            buf@ == block.subrange(0, buf_size as int),
            redir_ok(block, phys, size, w),
            data_blocks@ == phys.take(i as int),
        decreases n_blocks - i,
    {
        proof {
            lemma_slot_range(i as int, w as int, n_blocks as int, n_blocks * w);
        }
        let offset: usize = 4 + i * width;
        let index: u64 = get_le(buf.as_slice(), offset, width);
        data_blocks.push(index);
        proof {
            assert(buf@.subrange(offset as int, offset + width) =~= block.subrange(
                4 + i * w,
                4 + i * w + w,
            ));
            assert(packed_ptr(block, i as int, w) == phys[i as int]);
            assert(phys.take(i + 1) =~= phys.take(i as int).push(phys[i as int]));
        }
        i = i + 1;
    }
    proof {
        assert(phys.take(n_blocks as int) =~= phys);
    }
    Ok(CompRedir { compressed_length, data_blocks })
}

/// Writes a compression redirector.
pub(crate) fn write_comp_redir<L2: BlockLayer>(
    layer2: &mut L2,
    redir_block: u64,
    redir: &CompRedir,
    cache: CacheMode,
) -> (r: Result<(), SfsError>)
    requires
        old(layer2).wf(),
        old(layer2).blocks().contains_key(redir_block),
        redir.data_blocks@.len() == ceil_div(
            redir.compressed_length as nat,
            old(layer2).bsize(),
        ),
        4 + redir.data_blocks@.len() * old(layer2).iwidth() <= old(layer2).bsize(),
        forall|i: int|
            0 <= i < redir.data_blocks@.len() ==> (#[trigger] redir.data_blocks@[i]) < pow256(
                old(layer2).iwidth(),
            ),
    ensures
        final(layer2).bsize() == old(layer2).bsize(),
        final(layer2).iwidth() == old(layer2).iwidth(),
        final(layer2).faults() >= old(layer2).faults(),
        (r is Ok) == (final(layer2).faults() == old(layer2).faults()),
        r is Ok ==> {
            let after = final(layer2).blocks()[redir_block];
            &&& same_make(*old(layer2), *final(layer2))
            &&& final(layer2).blocks() == old(layer2).blocks().insert(redir_block, after)
            &&& packed_len(after) == redir.compressed_length
            &&& redir_ok(
                after,
                redir.data_blocks@,
                old(layer2).bsize(),
                old(layer2).iwidth(),
            )
        },
{
    let ghost size = layer2.bsize();
    let ghost w = layer2.iwidth();
    let ghost before = layer2.blocks()[redir_block];
    proof {
        layer2.lemma_wf();
    }
    let width: usize = layer2.block_index_width() as usize;
    let count: usize = redir.data_blocks.len();
    let mut buf: Vec<u8> = Vec::new();
    push_le(&mut buf, redir.compressed_length as u64, 4);
    let ghost head = le_bytes(redir.compressed_length as nat, 4);
    let ghost phys = redir.data_blocks@;
    proof {
        lemma_le_bytes_len(redir.compressed_length as nat, 4);
        assert(buf@ =~= head + index_bytes(phys.take(0), w));
    }
    let mut i: usize = 0;
    while i < count
        invariant
            i <= count == phys.len(),
            phys == redir.data_blocks@,
            1 <= width == w <= 8,
            buf@ == head + index_bytes(phys.take(i as int), w),
        decreases count - i,
    {
        push_le(&mut buf, redir.data_blocks[i], width);
        proof {
            let row = phys.take(i + 1);
            assert(row.drop_last() =~= phys.take(i as int));
            assert(row.last() == phys[i as int]);
            assert(buf@ =~= head + index_bytes(row, w));
        }
        i = i + 1;
    }
    proof {
        assert(phys.take(count as int) =~= phys);
        lemma_index_bytes_len(phys, w);
    }
    match layer2.write_block(redir_block, 0, buf.as_slice(), cache) {
        Ok(_) => {},
        Err(e) => {
            return Err(e);
        },
    }
    proof {
        let after = layer2.blocks()[redir_block];
        lemma_pow256_values();
        assert(after.subrange(0, 4) =~= head);
        law_le_round_trip(redir.compressed_length as nat, 4);
        assert forall|k: int| 0 <= k < phys.len() implies #[trigger] packed_ptr(after, k, w)
            == phys[k] by {
            lemma_slot_range(k, w as int, phys.len() as int, (phys.len() * w) as int);
            lemma_index_bytes_at(phys, w, k);
            assert(after.subrange(4 + k * w, 4 + k * w + w) =~= index_bytes(phys, w).subrange(
                k * w,
                k * w + w,
            ));
            law_le_round_trip(phys[k] as nat, w);
        }
    }
    Ok(())
}

/// The bytes of the `k`-th index in a row of indices.
proof fn lemma_index_bytes_at(indices: Seq<u64>, w: nat, k: int)
    requires
        0 <= k < indices.len(),
        w >= 1,
    ensures
        0 <= k * w,
        k * w + w <= index_bytes(indices, w).len(),
        index_bytes(indices, w).subrange(k * w, k * w + w) == le_bytes(indices[k] as nat, w),
    decreases indices.len(),
{
    lemma_index_bytes_len(indices, w);
    lemma_slot_range(k, w as int, indices.len() as int, (indices.len() * w) as int);
    let shorter = indices.drop_last();
    lemma_index_bytes_len(shorter, w);
    lemma_le_bytes_len(indices.last() as nat, w);
    let all = index_bytes(indices, w);
    if k == indices.len() - 1 {
        assert(all.subrange(k * w, k * w + w) =~= le_bytes(indices[k] as nat, w));
    } else {
        lemma_index_bytes_at(shorter, w, k);
        assert(all.subrange(k * w, k * w + w) =~= index_bytes(shorter, w).subrange(
            k * w,
            k * w + w,
        ));
    }
}

/// Reads the packed bytes of a piece out of its blocks.
pub(crate) fn read_packed<L2: BlockLayer>(
    layer2: &mut L2,
    redir: &CompRedir,
    cache: CacheMode,
) -> (r: Result<Vec<u8>, SfsError>)
    requires
        old(layer2).wf(),
        redir.data_blocks@.len() == ceil_div(
            redir.compressed_length as nat,
            old(layer2).bsize(),
        ),
        forall|i: int|
            0 <= i < redir.data_blocks@.len() ==> old(layer2).blocks().contains_key(
                #[trigger] redir.data_blocks@[i],
            ),
    ensures
        same_store(*old(layer2), *final(layer2)),
        final(layer2).faults() >= old(layer2).faults(),
        (r is Ok) == (final(layer2).faults() == old(layer2).faults()),
        L2::reads_always() ==> final(layer2).faults() == old(layer2).faults(),
        r matches Ok(packed) ==> packed@ == content(
            old(layer2).blocks(),
            redir.data_blocks@,
            old(layer2).bsize(),
        ).take(redir.compressed_length as int),
{
    let ghost size = layer2.bsize();
    let ghost phys = redir.data_blocks@;
    let ghost total = redir.compressed_length as int;
    let ghost all = content(layer2.blocks(), phys, size);
    proof {
        layer2.lemma_wf();
        lemma_ceil_covers(total as nat, size);
        assert(0 * size == 0) by (nonlinear_arith);
    }
    let block_size: usize = layer2.block_size();
    let count: usize = redir.data_blocks.len();
    let mut packed: Vec<u8> = Vec::new();
    let mut remaining: usize = redir.compressed_length as usize;
    let mut i: usize = 0;
    while i < count
        invariant
            layer2.wf(),
            same_store(*old(layer2), *layer2),
            layer2.faults() == old(layer2).faults(),
            block_size == size == layer2.bsize(),
            1 <= size <= 0x8000_0000,
            phys == redir.data_blocks@,
            count == phys.len(),
            all == content(layer2.blocks(), phys, size),
            total <= all.len(),
            i <= count,
            (count - 1) * size < total || total == 0,
            total <= count * size,
            total == redir.compressed_length,
            packed@.len() + remaining == total,
            remaining > 0 ==> packed@.len() == i * size,
            i == count ==> remaining == 0,
            packed@ == all.take(packed@.len() as int),
            forall|i: int|
                0 <= i < phys.len() ==> layer2.blocks().contains_key(#[trigger] phys[i]),
        decreases count - i,
    {
        let to_read: usize = if remaining < block_size {
            remaining
        } else {
            block_size
        };
        let ghost at = packed@.len() as int;
        proof {
            layer2.lemma_wf();
            assert(layer2.blocks().contains_key(phys[i as int]));
        }
        let mut part: Vec<u8> = vec![0u8; to_read];
        match layer2.read_block(redir.data_blocks[i], 0, part.as_mut_slice(), cache) {
            Ok(_) => {},
            Err(e) => {
                return Err(e);
            },
        }
        let ghost before = packed@;
        packed.append(&mut part);
        proof {
            assert((i + 1) * size == i * size + size) by (nonlinear_arith);
            if i < count - 1 {
                assert((i + 1) * size <= (count - 1) * size) by (nonlinear_arith)
                    requires
                        i + 1 <= count - 1,
                ;
            }
            if remaining > 0 {
                assert forall|k: int| at <= k < at + to_read implies packed@[k] == all[k] by {
                    let q = k - at;
                    lemma_mul_div(i as int, q, size as int);
                    assert(packed@[k] == layer2.blocks()[phys[i as int]].subrange(
                        0,
                        to_read as int,
                    )[q]);
                }
            }
            assert(packed@ =~= all.take(packed@.len() as int));
        }
        remaining = remaining - to_read;
        i = i + 1;
    }
    proof {
        if count == 0 {
            assert(total == 0);
        }
    }
    Ok(packed)
}

/// Unpacks the piece under a compression redirector into `unit` bytes, with
/// zeros behind what was packed.
pub(crate) fn decompress_cblock<L2: BlockLayer>(
    layer2: &mut L2,
    redir: &CompRedir,
    unit: usize,
    cache: CacheMode,
) -> (r: Result<Vec<u8>, SfsError>)
    requires
        old(layer2).wf(),
        redir.data_blocks@.len() == ceil_div(
            redir.compressed_length as nat,
            old(layer2).bsize(),
        ),
        forall|i: int|
            0 <= i < redir.data_blocks@.len() ==> old(layer2).blocks().contains_key(
                #[trigger] redir.data_blocks@[i],
            ),
        redir.compressed_length > 0 ==> {
            let packed = content(
                old(layer2).blocks(),
                redir.data_blocks@,
                old(layer2).bsize(),
            ).take(redir.compressed_length as int);
            let data = lz4_unpacked(packed);
            data is Some && unpacks_to(packed, data.unwrap()) && data.unwrap().len() <= unit
        },
        unit <= 0x4000_0000,
    ensures
        same_store(*old(layer2), *final(layer2)),
        L2::reads_always() ==> final(layer2).faults() == old(layer2).faults(),
        final(layer2).faults() >= old(layer2).faults(),
        (r is Ok) == (final(layer2).faults() == old(layer2).faults()),
        r matches Ok(out) ==> out@ == (if redir.compressed_length == 0 {
            zero_bytes(unit as nat)
        } else {
            zero_filled(
                lz4_unpacked(
                    content(
                        old(layer2).blocks(),
                        redir.data_blocks@,
                        old(layer2).bsize(),
                    ).take(redir.compressed_length as int),
                ).unwrap(),
                unit as nat,
            )
        }),
{
    let mut out: Vec<u8> = zeros(unit);
    if redir.compressed_length == 0 {
        return Ok(out);
    }
    let packed: Vec<u8> = match read_packed(layer2, redir, cache) {
        Ok(packed) => packed,
        Err(e) => {
            return Err(e);
        },
    };
    match lz4_unpack(packed.as_slice()) {
        Ok(data) => {
            copy_into(out.as_mut_slice(), 0, data.as_slice());
            proof {
                assert(out@ =~= zero_filled(data@, unit as nat));
            }
            Ok(out)
        },
        Err(_) => Err(SfsError::IoError("lz4 decompression failed".to_owned())),
    }
}

/// The blocks after one piece was stored anew: its packed bytes moved from the
/// blocks `ps` to the blocks `qs`, and its redirector `redir` was written.
pub open spec fn restored(
    b0: Map<u64, Seq<u8>>,
    b1: Map<u64, Seq<u8>>,
    redir: u64,
    ps: Seq<u64>,
    qs: Seq<u64>,
) -> bool {
    &&& qs.no_duplicates()
    &&& !qs.contains(redir)
    &&& forall|b: u64| #[trigger]
        b1.contains_key(b) <==> (b0.contains_key(b) && !ps.contains(b)) || qs.contains(b)
    &&& forall|b: u64|
        b0.contains_key(b) && !ps.contains(b) ==> !#[trigger] qs.contains(b)
    &&& forall|b: u64|
        b0.contains_key(b) && !ps.contains(b) && b != redir ==> #[trigger] b1[b] == b0[b]
}

/// Writes packed bytes into the blocks that are to hold them.
fn write_packed<L2: BlockLayer>(
    layer2: &mut L2,
    packed: &[u8],
    data_blocks: &Vec<u64>,
    cache: CacheMode,
) -> (r: Result<(), SfsError>)
    requires
        old(layer2).wf(),
        data_blocks@.no_duplicates(),
        data_blocks@.len() == ceil_div(packed@.len(), old(layer2).bsize()),
        forall|i: int|
            0 <= i < data_blocks@.len() ==> old(layer2).blocks().contains_key(
                #[trigger] data_blocks@[i],
            ),
    ensures
        final(layer2).bsize() == old(layer2).bsize(),
        final(layer2).iwidth() == old(layer2).iwidth(),
        final(layer2).faults() >= old(layer2).faults(),
        (r is Ok) == (final(layer2).faults() == old(layer2).faults()),
        r is Ok ==> {
            let b0 = old(layer2).blocks();
            let b1 = final(layer2).blocks();
            &&& same_make(*old(layer2), *final(layer2))
            &&& forall|b: u64| #[trigger] b1.contains_key(b) == b0.contains_key(b)
            &&& forall|b: u64|
                b0.contains_key(b) && !data_blocks@.contains(b) ==> #[trigger] b1[b] == b0[b]
            &&& content(b1, data_blocks@, old(layer2).bsize()).take(packed@.len() as int)
                == packed@
        },
{
    let ghost size = layer2.bsize();
    let ghost b0 = layer2.blocks();
    let ghost qs = data_blocks@;
    proof {
        layer2.lemma_wf();
        lemma_ceil_covers(packed@.len(), size);
        assert(0 * size == 0) by (nonlinear_arith);
    }
    let block_size: usize = layer2.block_size();
    let total: usize = packed.len();
    let count: usize = data_blocks.len();
    let mut offset: usize = 0;
    let mut i: usize = 0;
    while i < count
        invariant
            layer2.wf(),
            same_make(*old(layer2), *layer2),
            layer2.faults() == old(layer2).faults(),
            block_size == size == layer2.bsize(),
            1 <= size <= 0x8000_0000,
            b0 == old(layer2).blocks(),
            qs == data_blocks@,
            qs.no_duplicates(),
            count == qs.len(),
            total == packed@.len(),
            i <= count,
            total <= count * size,
            count > 0 ==> (count - 1) * size < total,
            offset <= total,
            i < count ==> offset == i * size,
            i == count ==> offset == total,
            forall|k: int| 0 <= k < qs.len() ==> b0.contains_key(#[trigger] qs[k]),
            forall|b: u64| #[trigger] layer2.blocks().contains_key(b) == b0.contains_key(b),
            forall|b: u64|
                b0.contains_key(b) && !qs.contains(b) ==> #[trigger] layer2.blocks()[b] == b0[b],
            forall|k: int|
                0 <= k < offset ==> #[trigger] packed@[k] == layer2.blocks()[qs[k / size as int]][k
                    % size as int],
        decreases count - i,
    {
        let left: usize = total - offset;
        let to_write: usize = if left < block_size {
            left
        } else {
            block_size
        };
        let part: Vec<u8> = copy_range(packed, offset, offset + to_write);
        let ghost b1 = layer2.blocks();
        proof {
            layer2.lemma_wf();
            assert(b0.contains_key(qs[i as int]));
            assert(b1.contains_key(qs[i as int]));
            assert(b1[qs[i as int]].len() == size);
            assert((i + 1) * size == i * size + size) by (nonlinear_arith);
            if i < count - 1 {
                assert((i + 1) * size <= (count - 1) * size) by (nonlinear_arith)
                    requires
                        i + 1 <= count - 1,
                ;
            }
        }
        match layer2.write_block(data_blocks[i], 0, part.as_slice(), cache) {
            Ok(_) => {},
            Err(e) => {
                return Err(e);
            },
        }
        proof {
            let b2 = layer2.blocks();
            let at = qs[i as int];
            assert(qs.contains(at));
            assert forall|k: int| 0 <= k < offset + to_write implies #[trigger] packed@[k]
                == b2[qs[k / size as int]][k % size as int] by {
                if k < offset {
                    lemma_position_in_run(k, i as int, size as int);
                    assert(packed@[k] == b1[qs[k / size as int]][k % size as int]);
                    assert(qs[k / size as int] != at);
                } else {
                    let q = k - offset;
                    lemma_mul_div(i as int, q, size as int);
                    assert(part@[q] == packed@[k]);
                    assert(b1[at].len() == size);
                    assert(b2[at][q] == part@[q]);
                }
            }
        }
        offset = offset + to_write;
        i = i + 1;
    }
    proof {
        let all = content(layer2.blocks(), qs, size);
        assert(all.take(total as int) =~= packed@);
    }
    Ok(())
}

/// A redirector in a block of `size` bytes, with block numbers of `w` bytes, has
/// room for a packed piece of `len` bytes.
pub open spec fn redir_fits(len: nat, size: nat, w: nat) -> bool {
    len <= 0xFFFF_FFFF && 4 + ceil_div(len, size) * w <= size
}

/// Whatever a piece of `unit` bytes holds, its redirector has room for it.
pub open spec fn piece_fits(unit: nat, size: nat, w: nat) -> bool {
    redir_fits(packed_bound(unit), size, w)
}

/// Where there is room for a piece, there is for a shorter one.
proof fn lemma_redir_fits(len: nat, more: nat, size: nat, w: nat)
    requires
        len <= more,
        size >= 1,
        redir_fits(more, size, w),
    ensures
        redir_fits(len, size, w),
{
    lemma_ceil_monotone(len, more, size);
    assert(ceil_div(len, size) * w <= ceil_div(more, size) * w) by (nonlinear_arith)
        requires
            ceil_div(len, size) <= ceil_div(more, size),
    ;
}

/// Where the redirector of a piece has room for it, so has that of a shorter one.
pub proof fn lemma_piece_fits(unit: nat, more: nat, size: nat, w: nat)
    requires
        unit <= more,
        size >= 1,
        piece_fits(more, size, w),
    ensures
        piece_fits(unit, size, w),
{
    lemma_redir_fits(packed_bound(unit), packed_bound(more), size, w);
}

/// Stores packed bytes as the piece under `redir_block`. Blocks that held the
/// piece before are used again; the rest is given back, and what is missing is
/// taken into use. Fails without a fault of the store where the redirector has
/// no room for it, and only there.
pub(crate) fn store_packed<L2: BlockLayer>(
    layer2: &mut L2,
    redir_block: u64,
    old_redir: &CompRedir,
    packed: &[u8],
    cache: CacheMode,
) -> (r: Result<Vec<u64>, SfsError>)
    requires
        old(layer2).wf(),
        old(layer2).blocks().contains_key(redir_block),
        packed@.len() > 0,
        old_redir.data_blocks@.no_duplicates(),
        !old_redir.data_blocks@.contains(redir_block),
        forall|i: int|
            0 <= i < old_redir.data_blocks@.len() ==> old(layer2).blocks().contains_key(
                #[trigger] old_redir.data_blocks@[i],
            ),
    ensures
        final(layer2).bsize() == old(layer2).bsize(),
        final(layer2).iwidth() == old(layer2).iwidth(),
        final(layer2).faults() >= old(layer2).faults(),
        r is Ok ==> final(layer2).faults() == old(layer2).faults(),
        final(layer2).faults() == old(layer2).faults() ==> {
            &&& r is Ok <==> redir_fits(packed@.len(), old(layer2).bsize(), old(layer2).iwidth())
            &&& r matches Err(e) ==> e is IoError && *final(layer2) == *old(layer2)
        },
        r matches Ok(qs) ==> {
            let b1 = final(layer2).blocks();
            let size = old(layer2).bsize();
            &&& same_make(*old(layer2), *final(layer2))
            &&& restored(
                old(layer2).blocks(),
                b1,
                redir_block,
                old_redir.data_blocks@,
                qs@,
            )
            &&& redir_ok(b1[redir_block], qs@, size, old(layer2).iwidth())
            &&& packed_len(b1[redir_block]) > 0
            &&& packed_bytes(b1, redir_block, qs@, size) == packed@
        },
{
    let ghost size = layer2.bsize();
    let ghost w = layer2.iwidth();
    let ghost b0 = layer2.blocks();
    let ghost ps = old_redir.data_blocks@;
    proof {
        layer2.lemma_wf();
    }
    let block_size: usize = layer2.block_size();
    let width: usize = layer2.block_index_width() as usize;
    let new_len: usize = packed.len();
    if new_len as u64 > 0xFFFF_FFFF {
        return Err(SfsError::IoError("compressed block is too long".to_owned()));
    }
    let new_count: usize = data_blocks_needed(new_len as u64, block_size) as usize;
    proof {
        lemma_ceil_covers(new_len as nat, size);
        assert(new_count * width <= 0xFFFF_FFFF * 8) by (nonlinear_arith)
            requires
                new_count <= 0xFFFF_FFFF,
                width <= 8,
        ;
    }
    if new_count as u64 * width as u64 > block_size as u64 - 4 {
        return Err(SfsError::IoError("compressed block does not fit its redirector".to_owned()));
    }
    let old_count: usize = old_redir.data_blocks.len();
    let reuse: usize = if old_count < new_count {
        old_count
    } else {
        new_count
    };
    let mut blocks: Vec<u64> = Vec::new();
    let mut i: usize = 0;
    while i < reuse
        invariant
            i <= reuse <= ps.len(),
            ps == old_redir.data_blocks@,
            blocks@ == ps.take(i as int),
        decreases reuse - i,
    {
        blocks.push(old_redir.data_blocks[i]);
        proof {
            assert(ps.take(i + 1) =~= ps.take(i as int).push(ps[i as int]));
        }
        i = i + 1;
    }
    if new_count > old_count {
        proof {
            assert(ps.take(reuse as int) =~= ps);
        }
        let mut more: Vec<u64> = match layer2.allocate_blocks((new_count - old_count) as u64) {
            Ok(more) => more,
            Err(e) => {
                return Err(e);
            },
        };
        let ghost added = more@;
        blocks.append(&mut more);
        proof {
            let qs = blocks@;
            assert(qs =~= ps + added);
            assert forall|b: u64| #[trigger] qs.contains(b) == (ps.contains(b) || added.contains(b)) by {
                lemma_concat_contains(ps, added, b);
            }
            assert(qs.no_duplicates()) by {
                assert forall|x: int, y: int|
                    0 <= x < qs.len() && 0 <= y < qs.len() && x != y implies qs[x] != qs[y] by {
                    if x < ps.len() && y >= ps.len() {
                        assert(b0.contains_key(ps[x]));
                        assert(!b0.contains_key(added[y - ps.len()]));
                    } else if x >= ps.len() && y < ps.len() {
                        assert(b0.contains_key(ps[y]));
                        assert(!b0.contains_key(added[x - ps.len()]));
                    }
                }
            }
            assert forall|b: u64| #[trigger] added.contains(b) implies !b0.contains_key(b) by {
                let k = choose|k: int| 0 <= k < added.len() && added[k] == b;
                assert(!b0.contains_key(added[k]));
            }
            assert forall|b: u64| #[trigger] ps.contains(b) implies b0.contains_key(b) by {
                let k = choose|k: int| 0 <= k < ps.len() && ps[k] == b;
                assert(b0.contains_key(ps[k]));
            }
        }
    } else if old_count > new_count {
        let mut excess: Vec<u64> = Vec::new();
        let mut j: usize = new_count;
        while j < old_count
            invariant
                new_count <= j <= old_count == ps.len(),
                ps == old_redir.data_blocks@,
                excess@ == ps.subrange(new_count as int, j as int),
            decreases old_count - j,
        {
            excess.push(old_redir.data_blocks[j]);
            proof {
                assert(ps.subrange(new_count as int, j + 1) =~= ps.subrange(
                    new_count as int,
                    j as int,
                ).push(ps[j as int]));
            }
            j = j + 1;
        }
        let ghost gone = excess@;
        proof {
            assert forall|k: int| 0 <= k < gone.len() implies b0.contains_key(#[trigger] gone[k]) by {
                assert(gone[k] == ps[new_count + k]);
            }
        }
        match layer2.deallocate_blocks(&mut excess) {
            Ok(_) => {},
            Err(e) => {
                return Err(e);
            },
        }
        proof {
            let qs = blocks@;
            assert(ps =~= qs + gone);
            assert forall|b: u64| #[trigger] ps.contains(b) == (qs.contains(b) || gone.contains(b)) by {
                lemma_concat_contains(qs, gone, b);
            }
            assert forall|b: u64| #[trigger] gone.contains(b) implies !qs.contains(b) by {
                let k = choose|k: int| 0 <= k < gone.len() && gone[k] == b;
                if qs.contains(b) {
                    let x = choose|x: int| 0 <= x < qs.len() && qs[x] == b;
                    assert(ps[x] == ps[new_count + k]);
                }
            }
            assert forall|b: u64| #[trigger] ps.contains(b) implies b0.contains_key(b) by {
                let k = choose|k: int| 0 <= k < ps.len() && ps[k] == b;
                assert(b0.contains_key(ps[k]));
            }
        }
    } else {
        proof {
            assert(blocks@ =~= ps);
            assert forall|b: u64| #[trigger] ps.contains(b) implies b0.contains_key(b) by {
                let k = choose|k: int| 0 <= k < ps.len() && ps[k] == b;
                assert(b0.contains_key(ps[k]));
            }
        }
    }
    let ghost b1 = layer2.blocks();
    let ghost qs = blocks@;
    proof {
        assert(qs.no_duplicates());
        assert(restored(b0, b1, redir_block, ps, qs));
        assert(b1.contains_key(redir_block));
        assert forall|k: int| 0 <= k < qs.len() implies b1.contains_key(#[trigger] qs[k]) by {
            assert(qs.contains(qs[k]));
        }
    }
    match write_packed(layer2, packed, &blocks, cache) {
        Ok(_) => {},
        Err(e) => {
            return Err(e);
        },
    }
    let ghost b2 = layer2.blocks();
    proof {
        layer2.lemma_wf();
        lemma_pow256_monotone(0, w);
        assert forall|k: int| 0 <= k < qs.len() implies (#[trigger] qs[k]) < pow256(w) by {
            assert(b2.contains_key(qs[k]));
        }
        assert(4 + qs.len() * w <= size);
    }
    let redir: CompRedir = CompRedir {
        compressed_length: new_len as u32,
        data_blocks: blocks,
    };
    match write_comp_redir(layer2, redir_block, &redir, cache) {
        Ok(_) => {},
        Err(e) => {
            return Err(e);
        },
    }
    proof {
        let b3 = layer2.blocks();
        assert(content(b3, qs, size) =~= content(b2, qs, size)) by {
            assert forall|p: int| 0 <= p < qs.len() * size implies content(b3, qs, size)[p]
                == content(b2, qs, size)[p] by {
                lemma_position_in_run(p, qs.len() as int, size as int);
                assert(qs.contains(qs[p / size as int]));
            }
        }
        assert(restored(b0, b3, redir_block, ps, qs));
    }
    Ok(redir.data_blocks)
}

/// Packs `data` and stores it as the piece under `redir_block`. Fails without a
/// fault of the store only where the packed piece is too long for its redirector.
pub(crate) fn store_cblock<L2: BlockLayer>(
    layer2: &mut L2,
    redir_block: u64,
    old_redir: &CompRedir,
    data: &[u8],
    cache: CacheMode,
) -> (r: Result<Vec<u64>, SfsError>)
    requires
        old(layer2).wf(),
        old(layer2).blocks().contains_key(redir_block),
        data@.len() <= 0x4000_0000,
        old_redir.data_blocks@.no_duplicates(),
        !old_redir.data_blocks@.contains(redir_block),
        forall|i: int|
            0 <= i < old_redir.data_blocks@.len() ==> old(layer2).blocks().contains_key(
                #[trigger] old_redir.data_blocks@[i],
            ),
    ensures
        final(layer2).bsize() == old(layer2).bsize(),
        final(layer2).iwidth() == old(layer2).iwidth(),
        final(layer2).faults() >= old(layer2).faults(),
        r is Ok ==> final(layer2).faults() == old(layer2).faults(),
        final(layer2).faults() == old(layer2).faults() ==> {
            &&& piece_fits(data@.len(), old(layer2).bsize(), old(layer2).iwidth()) ==> r is Ok
            &&& r matches Err(e) ==> e is IoError && *final(layer2) == *old(layer2)
        },
        r matches Ok(qs) ==> {
            let b1 = final(layer2).blocks();
            let size = old(layer2).bsize();
            &&& same_make(*old(layer2), *final(layer2))
            &&& restored(
                old(layer2).blocks(),
                b1,
                redir_block,
                old_redir.data_blocks@,
                qs@,
            )
            &&& redir_ok(b1[redir_block], qs@, size, old(layer2).iwidth())
            &&& packed_len(b1[redir_block]) > 0
            &&& unpacks_to(packed_bytes(b1, redir_block, qs@, size), data@)
        },
{
    let packed: Vec<u8> = lz4_pack(data);
    proof {
        layer2.lemma_wf();
        if piece_fits(data@.len(), layer2.bsize(), layer2.iwidth()) {
            lemma_redir_fits(
                packed@.len(),
                packed_bound(data@.len()),
                layer2.bsize(),
                layer2.iwidth(),
            );
        }
    }
    store_packed(layer2, redir_block, old_redir, packed.as_slice(), cache)
}

proof fn lemma_concat_contains(a: Seq<u64>, b: Seq<u64>, x: u64)
    ensures
        (a + b).contains(x) == (a.contains(x) || b.contains(x)),
{
    let all = a + b;
    if all.contains(x) {
        let i = choose|i: int| 0 <= i < all.len() && all[i] == x;
        if i < a.len() {
            assert(a[i] == x);
        } else {
            assert(b[i - a.len()] == x);
        }
    }
    if a.contains(x) {
        let i = choose|i: int| 0 <= i < a.len() && a[i] == x;
        assert(all[i] == x);
    }
    if b.contains(x) {
        let i = choose|i: int| 0 <= i < b.len() && b[i] == x;
        assert(all[a.len() + i] == x);
    }
}

} // verus!
