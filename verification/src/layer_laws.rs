//! What the calls of the layers give and change, from one state to the next, byte by
//! byte, block by block and stream by stream. Each law holds of every call during which
//! nothing failed in the storage.

use crate::block_layer::BlockLayer;
use crate::bytes::{after_read, le_value, overlay, read_count};
use crate::call_laws::{law_grown_capacity, least_unused, room};
use crate::file_layer::{header_ok, is_magic, magic_offset, new_file, FileLayer, MemoryFile};
use crate::sfs::Sfs;
use crate::sfs_laws::{law_cut, lemma_room_left, smaller};
use crate::stream_layer::{grown_capacity, OpenState, StreamLayer};
use crate::terms::{capacity, law_le_bytes, law_pow256};
use crate::types::{CacheMode, OpenMode, SfsError};
use vstd::arithmetic::power::pow;
use vstd::arithmetic::power2::pow2;
use vstd::prelude::*;

verus! {

// ---------------------------------------------------------------------------
// Bytes
// ---------------------------------------------------------------------------

/// A read gives as many bytes as there are from its place on, and no more than asked
/// for; these stand in the buffer, and behind them what the buffer held.
pub proof fn law_after_read(s: Seq<u8>, pos: int, buf: Seq<u8>)
    requires
        pos >= 0,
    ensures
        ({
            let n = read_count(s.len() as int, pos, buf.len() as int);
            let left = if pos < s.len() {
                s.len() - pos
            } else {
                0
            };
            &&& n == smaller(left, buf.len() as int)
            &&& after_read(s, pos, buf).len() == buf.len()
            &&& forall|i: int| 0 <= i < n ==> #[trigger] after_read(s, pos, buf)[i] == s[pos + i]
            &&& forall|i: int|
                n <= i < buf.len() ==> #[trigger] after_read(s, pos, buf)[i] == buf[i]
        }),
{
}

/// What is laid over bytes stands there, and the other bytes are as they were.
pub proof fn law_overlay(s: Seq<u8>, at: int, t: Seq<u8>)
    requires
        0 <= at,
        at + t.len() <= s.len(),
    ensures
        overlay(s, at, t).len() == s.len(),
        forall|i: int| 0 <= i < t.len() ==> overlay(s, at, t)[at + i] == #[trigger] t[i],
        forall|i: int|
            0 <= i < s.len() && !(at <= i < at + t.len()) ==> #[trigger] overlay(s, at, t)[i]
                == s[i],
{
}

// ---------------------------------------------------------------------------
// The file
// ---------------------------------------------------------------------------

/// The header of a file: nine letters, the version, and where the data begins.
pub open spec fn begins_file(bytes: Seq<u8>, data_offset: int) -> bool {
    &&& bytes.len() >= 12
    &&& bytes[0] == 121 && bytes[1] == 97 && bytes[2] == 107
    &&& bytes[3] == 121 && bytes[4] == 97 && bytes[5] == 107
    &&& bytes[6] == 121 && bytes[7] == 97 && bytes[8] == 107
    &&& bytes[9] == 1
    &&& bytes[10] + 256 * bytes[11] == data_offset
}

/// A file is known by its first bytes.
pub proof fn law_file_header(bytes: Seq<u8>)
    ensures
        is_magic(bytes) <==> begins_file(bytes, bytes[10] + 256 * bytes[11]),
        is_magic(bytes) ==> magic_offset(bytes) == bytes[10] + 256 * bytes[11],
        forall|at: nat|
            #![trigger header_ok(bytes, at)]
            header_ok(bytes, at) <==> begins_file(bytes, at as int) && at <= bytes.len(),
{
    if bytes.len() >= 12 {
        let m = crate::file_layer::magic();
        if bytes.subrange(0, 9) == m {
            assert forall|i: int| 0 <= i < 9 implies bytes[i] == m[i] by {
                assert(bytes.subrange(0, 9)[i] == bytes[i]);
            }
        }
        if begins_file(bytes, bytes[10] + 256 * bytes[11]) {
            assert(bytes.subrange(0, 9) =~= m);
        }
        let two = bytes.subrange(10, 12);
        reveal_with_fuel(crate::bytes::le_value, 3);
        assert(two.skip(1).skip(1).len() == 0);
        assert(two[0] == bytes[10] && two.skip(1)[0] == bytes[11]);
    }
}

/// A new file has its header, and zeros up to where the data begins.
pub proof fn law_new_file(data_offset: nat)
    requires
        12 <= data_offset <= 65535,
    ensures
        new_file(data_offset).len() == data_offset,
        begins_file(new_file(data_offset), data_offset as int),
        forall|i: int| 12 <= i < data_offset ==> #[trigger] new_file(data_offset)[i] == 0,
{
    law_le_bytes(data_offset, 2, 0);
    law_le_bytes(data_offset, 2, 1);
    vstd::arithmetic::power::lemma_pow0(256);
    vstd::arithmetic::power::lemma_pow1(256);
    let f = new_file(data_offset);
    let b = crate::bytes::le_bytes(data_offset, 2);
    assert(f[10] == b[0] && f[11] == b[1]);
}

/// Reading, writing and changing the length of a file.
pub proof fn law_call_file<L1: FileLayer>(
    file: &mut L1,
    offset: u64,
    buf: &mut [u8],
    data: &[u8],
    n: Result<usize, SfsError>,
    len: Result<u64, SfsError>,
    done: Result<(), SfsError>,
)
    requires
        final(file).faults() == old(file).faults(),
        offset + data@.len() <= u64::MAX,
    ensures
        ({
            let a = old(file).bytes();
            let b = final(file).bytes();
            &&& call_ensures(L1::read, (file, offset, buf), n) ==> {
                let left = if offset < a.len() {
                    a.len() - offset
                } else {
                    0
                };
                &&& b == a
                &&& n matches Ok(got) && got == smaller(left, old(buf)@.len() as int) && (forall|
                    i: int,
                |
                    0 <= i < got ==> #[trigger] final(buf)@[i] == a[offset + i]) && (forall|i: int|
                    got <= i < old(buf)@.len() ==> #[trigger] final(buf)@[i] == old(buf)@[i])
                &&& final(buf)@.len() == old(buf)@.len()
            }
            &&& call_ensures(L1::write, (file, offset, data), done) ==> {
                &&& done is Ok
                &&& data@.len() == 0 ==> b == a
                &&& data@.len() > 0 ==> b.len() == if offset + data@.len() > a.len() {
                    offset + data@.len()
                } else {
                    a.len() as int
                }
                &&& forall|i: int| 0 <= i < data@.len() ==> b[offset + i] == #[trigger] data@[i]
                &&& forall|i: int|
                    0 <= i < a.len() && !(offset <= i < offset + data@.len())
                        ==> #[trigger] b[i] == a[i]
                &&& data@.len() > 0 ==> forall|i: int|
                    a.len() <= i < offset ==> #[trigger] b[i] == 0
            }
            &&& call_ensures(L1::set_len, (file, offset), done) ==> {
                &&& done is Ok
                &&& b.len() == offset
                &&& forall|i: int| 0 <= i < offset && i < a.len() ==> #[trigger] b[i] == a[i]
                &&& forall|i: int| a.len() <= i < offset ==> #[trigger] b[i] == 0
            }
            &&& call_ensures(L1::len, (file,), len) ==> b == a && (len matches Ok(k) && k
                == a.len())
        }),
{
    law_after_read(old(file).bytes(), offset as int, old(buf)@);
}

/// Creating and opening a file, and checking its header.
pub proof fn law_call_file_header<L1: FileLayer>(
    file: &mut L1,
    path: &str,
    data_offset: u64,
    mode: OpenMode,
    made: Result<L1, SfsError>,
    found: Result<Vec<String>, SfsError>,
)
    requires
        12 <= data_offset <= 65535,
    ensures
        call_ensures(L1::create, (path, data_offset), made) ==> (made matches Ok(f) ==> {
            &&& f.bytes().len() == data_offset
            &&& begins_file(f.bytes(), data_offset as int)
            &&& f.offset() == data_offset
            &&& forall|i: int| 12 <= i < data_offset ==> #[trigger] f.bytes()[i] == 0
        }),
        call_ensures(L1::open, (path, mode), made) ==> (made matches Ok(f) ==> begins_file(
            f.bytes(),
            f.offset() as int,
        )),
        call_ensures(L1::verify, (file,), found) && final(file).faults() == old(file).faults() ==> {
            &&& final(file).bytes() == old(file).bytes()
            &&& found matches Ok(issues) && (issues@.len() == 0 <==> begins_file(
                old(file).bytes(),
                old(file).offset() as int,
            ) && old(file).offset() <= old(file).bytes().len())
        },
{
    law_new_file(data_offset as nat);
    law_file_header(old(file).bytes());
    if made is Ok {
        law_file_header(made->Ok_0.bytes());
    }
}

// ---------------------------------------------------------------------------
// Blocks
// ---------------------------------------------------------------------------

/// All else of the store is as it was.
pub open spec fn same_slots<L2: BlockLayer>(a: L2, b: L2) -> bool {
    &&& b.wf()
    &&& b.bsize() == a.bsize()
    &&& b.iwidth() == a.iwidth()
    &&& b.slots() == a.slots()
    &&& b.own_blocks() == a.own_blocks()
}

/// A new store has no blocks in use, and header slots of the sizes that were asked for,
/// all zero.
pub proof fn law_call_store_created<L2: BlockLayer>(
    path: &str,
    shift: u8,
    width: u8,
    sizes: std::collections::VecDeque<u16>,
    r: Result<L2, SfsError>,
)
    requires
        call_ensures(L2::create, (path, shift, width, sizes), r),
    ensures
        r matches Ok(store) ==> {
            &&& store.wf()
            &&& forall|b: u64| !#[trigger] store.blocks().contains_key(b)
            &&& store.bsize() == vstd::arithmetic::power2::pow2(shift as nat)
            &&& store.iwidth() == width
            &&& store.slots().len() == sizes@.len()
            &&& forall|i: int|
                0 <= i < sizes@.len() ==> (#[trigger] store.slots()[i]).len() == sizes@[i]
            &&& forall|i: int, j: int|
                0 <= i < sizes@.len() && 0 <= j < sizes@[i] ==> #[trigger] store.slots()[i][j] == 0
        },
{
}

/// Allocating gives as many blocks as are asked for, none of which was in use and no two
/// the same, all zero; the blocks that were in use are so still and hold what they held.
pub proof fn law_call_allocate<L2: BlockLayer>(
    store: &mut L2,
    count: u64,
    many: Result<Vec<u64>, SfsError>,
    one: Result<u64, SfsError>,
)
    requires
        old(store).wf(),
        final(store).faults() == old(store).faults(),
    ensures
        ({
            let a = *old(store);
            let b = *final(store);
            &&& call_ensures(L2::allocate_blocks, (store, count), many) ==> {
                &&& many is Ok
                &&& many->Ok_0@.len() == count
                &&& many->Ok_0@.no_duplicates()
                &&& same_slots(a, b)
                &&& forall|i: int|
                    0 <= i < count ==> !a.blocks().contains_key(#[trigger] many->Ok_0@[i])
                &&& forall|c: u64| #[trigger]
                    b.blocks().contains_key(c) <==> a.blocks().contains_key(c)
                        || many->Ok_0@.contains(c)
                &&& forall|c: u64| #[trigger]
                    a.blocks().contains_key(c) ==> b.blocks()[c] == a.blocks()[c]
                &&& forall|c: u64, i: int|
                    many->Ok_0@.contains(c) && 0 <= i < a.bsize() ==> #[trigger] b.blocks()[c][i]
                        == 0
                &&& forall|c: u64|
                    many->Ok_0@.contains(c) ==> (#[trigger] b.blocks()[c]).len() == a.bsize()
            }
            &&& call_ensures(L2::allocate_block, (store,), one) ==> {
                &&& one is Ok
                &&& same_slots(a, b)
                &&& !a.blocks().contains_key(one->Ok_0)
                &&& forall|c: u64| #[trigger]
                    b.blocks().contains_key(c) <==> a.blocks().contains_key(c) || c == one->Ok_0
                &&& forall|c: u64| #[trigger]
                    a.blocks().contains_key(c) ==> b.blocks()[c] == a.blocks()[c]
                &&& b.blocks()[one->Ok_0].len() == a.bsize()
                &&& forall|i: int| 0 <= i < a.bsize() ==> #[trigger] b.blocks()[one->Ok_0][i] == 0
            }
        }),
{
    if call_ensures(L2::allocate_blocks, (store, count), many) && many is Ok {
        let a = *old(store);
        let b = *final(store);
        assert forall|c: u64| #[trigger] a.blocks().contains_key(c) implies b.blocks()[c]
            == a.blocks()[c] by {
            if many->Ok_0@.contains(c) {
                let i = choose|i: int| 0 <= i < many->Ok_0@.len() && many->Ok_0@[i] == c;
                assert(!a.blocks().contains_key(many->Ok_0@[i]));
            }
        }
    }
}

/// Giving blocks back takes these out of use and no others; the others hold what they
/// held. A block that the store keeps for itself is refused, and nothing changes.
pub proof fn law_call_deallocate<L2: BlockLayer>(
    store: &mut L2,
    indices: &mut Vec<u64>,
    index: u64,
    r: Result<(), SfsError>,
)
    requires
        old(store).wf(),
        final(store).faults() == old(store).faults(),
    ensures
        ({
            let a = *old(store);
            let b = *final(store);
            let given = old(indices)@;
            &&& call_ensures(L2::deallocate_blocks, (store, indices), r) && given.no_duplicates()
                && (forall|i: int|
                0 <= i < given.len() ==> a.blocks().contains_key(#[trigger] given[i])
                    || a.own_blocks().contains(given[i])) ==> {
                &&& r is Ok <==> forall|i: int|
                    0 <= i < given.len() ==> !a.own_blocks().contains(#[trigger] given[i])
                &&& r is Err ==> r->Err_0 is IoError && b == a
                &&& r is Ok ==> {
                    &&& same_slots(a, b)
                    &&& forall|c: u64| #[trigger]
                        b.blocks().contains_key(c) <==> a.blocks().contains_key(c)
                            && !given.contains(c)
                    &&& forall|c: u64| #[trigger]
                        b.blocks().contains_key(c) ==> b.blocks()[c] == a.blocks()[c]
                }
            }
            &&& call_ensures(L2::deallocate_block, (store, index), r) && (a.blocks().contains_key(
                index,
            ) || a.own_blocks().contains(index)) ==> {
                &&& r is Ok <==> !a.own_blocks().contains(index)
                &&& r is Err ==> r->Err_0 is IoError && b == a
                &&& r is Ok ==> {
                    &&& same_slots(a, b)
                    &&& forall|c: u64| #[trigger]
                        b.blocks().contains_key(c) <==> a.blocks().contains_key(c) && c != index
                    &&& forall|c: u64| #[trigger]
                        b.blocks().contains_key(c) ==> b.blocks()[c] == a.blocks()[c]
                }
            }
        }),
{
}

/// Reading a block gives its bytes, and writing one changes these bytes of it and no
/// other byte of any block.
pub proof fn law_call_block<L2: BlockLayer>(
    store: &mut L2,
    index: u64,
    offset: usize,
    buf: &mut [u8],
    data: &[u8],
    cache: CacheMode,
    r: Result<usize, SfsError>,
)
    requires
        old(store).wf(),
        old(store).blocks().contains_key(index),
        final(store).faults() == old(store).faults(),
    ensures
        ({
            let a = *old(store);
            let b = *final(store);
            &&& call_ensures(L2::read_block, (store, index, offset, buf, cache), r) ==> {
                let n = old(buf)@.len();
                &&& b.blocks() == a.blocks()
                &&& same_slots(a, b)
                &&& final(buf)@.len() == n
                &&& offset + n > a.bsize() ==> r is Err && r->Err_0 is IoError && final(buf)@
                    == old(buf)@
                &&& offset + n <= a.bsize() ==> r == Ok::<usize, SfsError>(n as usize) && forall|
                    i: int,
                |
                    0 <= i < n ==> #[trigger] final(buf)@[i] == a.blocks()[index][offset + i]
            }
            &&& call_ensures(L2::write_block, (store, index, offset, data, cache), r) ==> {
                let n = data@.len();
                &&& offset + n > a.bsize() ==> r is Err && r->Err_0 is IoError && b == a
                &&& offset + n <= a.bsize() ==> {
                    &&& r == Ok::<usize, SfsError>(n as usize)
                    &&& same_slots(a, b)
                    &&& b.blocks().dom() == a.blocks().dom()
                    &&& forall|c: u64| #[trigger]
                        a.blocks().contains_key(c) && c != index ==> b.blocks()[c] == a.blocks()[c]
                    &&& b.blocks()[index].len() == a.bsize()
                    &&& forall|i: int|
                        0 <= i < n ==> b.blocks()[index][offset + i] == #[trigger] data@[i]
                    &&& forall|i: int|
                        0 <= i < a.bsize() && !(offset <= i < offset + n)
                            ==> #[trigger] b.blocks()[index][i] == a.blocks()[index][i]
                }
            }
        }),
{
    let a = *old(store);
    let b = *final(store);
    old(store).lemma_wf();
    if offset + data@.len() <= a.bsize() {
        law_overlay(a.blocks()[index], offset as int, data@);
    }
    if call_ensures(L2::write_block, (store, index, offset, data, cache), r) && offset
        + data@.len() <= a.bsize() {
        assert(b.blocks().dom() =~= a.blocks().dom());
    }
}

/// The byte at place `p` of the blocks that follow each other from `start` on.
pub open spec fn byte_at(blocks: Map<u64, Seq<u8>>, start: u64, size: nat, p: int) -> u8 {
    blocks[(start + p / (size as int)) as u64][p % (size as int)]
}

/// Reading and writing across blocks that follow each other is reading and writing at
/// the places of their bytes, and touches nothing else.
pub proof fn law_call_run<L2: BlockLayer>(
    store: &mut L2,
    start: u64,
    offset: usize,
    buf: &mut [u8],
    data: &[u8],
    last: u64,
    r: Result<usize, SfsError>,
    p: int,
)
    requires
        old(store).wf(),
        offset < old(store).bsize(),
        final(store).faults() == old(store).faults(),
        start <= last < u64::MAX,
        forall|b: u64| start <= b <= last ==> #[trigger] old(store).blocks().contains_key(b),
        0 <= p < (last + 1 - start) * old(store).bsize(),
    ensures
        ({
            let a = *old(store);
            let b = *final(store);
            let size = a.bsize();
            let reach = (last + 1 - start) * size;
            &&& call_ensures(L2::read_contiguous_blocks, (store, start, offset, buf), r) && offset
                + old(buf)@.len() <= reach ==> {
                &&& b.blocks() == a.blocks()
                &&& r == Ok::<usize, SfsError>(old(buf)@.len() as usize)
                &&& forall|i: int|
                    0 <= i < old(buf)@.len() ==> #[trigger] final(buf)@[i] == byte_at(
                        a.blocks(),
                        start,
                        size,
                        offset + i,
                    )
            }
            &&& call_ensures(L2::write_contiguous_blocks, (store, start, offset, data), r)
                && offset + data@.len() <= reach ==> {
                &&& r == Ok::<usize, SfsError>(data@.len() as usize)
                &&& same_slots(a, b)
                &&& b.blocks().dom() == a.blocks().dom()
                &&& byte_at(b.blocks(), start, size, p) == if offset <= p < offset + data@.len() {
                    data@[p - offset]
                } else {
                    byte_at(a.blocks(), start, size, p)
                }
                &&& forall|c: u64| #[trigger]
                    a.blocks().contains_key(c) && !(start <= c <= last) ==> b.blocks()[c]
                        == a.blocks()[c]
            }
        }),
{
    let a = *old(store);
    let b = *final(store);
    let size = a.bsize();
    old(store).lemma_wf();
    let j = p / (size as int);
    let q = p % (size as int);
    vstd::arithmetic::div_mod::lemma_fundamental_div_mod(p, size as int);
    assert(0 <= j < last + 1 - start) by (nonlinear_arith)
        requires
            p == size * j + q,
            0 <= q < size,
            0 <= p < (last + 1 - start) * size,
    ;
    assert(j * size + q == p) by (nonlinear_arith)
        requires
            p == size * j + q,
    ;
    let end = (offset + data@.len()) as nat;
    crate::stream_tree::lemma_ceil_covers(end, size);
    let k = crate::pyramid::ceil_div(end, size);
    if call_ensures(L2::write_contiguous_blocks, (store, start, offset, data), r) && end <= (last
        + 1 - start) * size && r is Ok {
        assert(k <= last + 1 - start) by (nonlinear_arith)
            requires
                end >= 1 ==> (k - 1) * size < end,
                k <= end,
                end <= (last + 1 - start) * size,
                size >= 1,
                last + 1 - start >= 1,
        ;
        assert(b.blocks().dom() =~= a.blocks().dom());
        let block = (start + j) as u64;
        assert(a.blocks().contains_key(block));
        assert((block - start) * size + q == p);
        if block < start + k {
        } else {
            assert(p >= end) by (nonlinear_arith)
                requires
                    j >= k,
                    k * size >= end,
                    p == j * size + q,
                    q >= 0,
                    size >= 1,
            ;
        }
    }
}

/// Checking a store finds nothing amiss if and only if it is consistent and every block
/// in use is claimed once, and no other; it changes nothing.
pub proof fn law_call_store_verify<L2: BlockLayer>(
    store: &mut L2,
    claimed: &[u64],
    r: Result<Vec<String>, SfsError>,
)
    requires
        old(store).wf() || old(store).usable(),
        call_ensures(L2::verify, (store, claimed), r),
        final(store).faults() == old(store).faults(),
    ensures
        final(store).blocks() == old(store).blocks(),
        final(store).slots() == old(store).slots(),
        r is Ok,
        r->Ok_0@.len() == 0 <==> {
            &&& old(store).wf()
            &&& forall|i: int, j: int| 0 <= i < j < claimed@.len() ==> claimed@[i] != claimed@[j]
            &&& forall|b: u64|
                (exists|i: int| 0 <= i < claimed@.len() && claimed@[i] == b) <==> (
                #[trigger] (*old(store)).blocks().contains_key(b))
        },
{
    let c = claimed@;
    let blocks = old(store).blocks();
    assert forall|b: u64| (exists|i: int| 0 <= i < c.len() && c[i] == b) <==> #[trigger] c.contains(
        b,
    ) by {}
    if crate::block_layer::claims_fit(c, blocks) {
        assert forall|b: u64|
            (exists|i: int| 0 <= i < c.len() && c[i] == b) <==> #[trigger] blocks.contains_key(
                b,
            ) by {
            assert(c.contains(b) <==> blocks.contains_key(b));
        }
    }
    if (forall|i: int, j: int| 0 <= i < j < c.len() ==> c[i] != c[j]) && (forall|b: u64|
        (exists|i: int| 0 <= i < c.len() && c[i] == b) <==> #[trigger] blocks.contains_key(b)) {
        assert(c.no_duplicates());
        assert forall|b: u64| #[trigger] c.contains(b) <==> blocks.contains_key(b) by {}
    }
}

// ---------------------------------------------------------------------------
// Streams
// ---------------------------------------------------------------------------

/// The measures of the layer are as they were, and it is consistent.
pub open spec fn same_measures<L3: StreamLayer>(a: L3, b: L3) -> bool {
    &&& b.wf()
    &&& b.iwidth() == a.iwidth()
    &&& b.unit(false) == a.unit(false)
    &&& b.unit(true) == a.unit(true)
    &&& b.compression() == a.compression()
    &&& b.first_slot() == a.first_slot()
    &&& b.slots().len() == a.slots().len()
}

/// Of all streams only `id` has changed.
pub open spec fn only_stream<L3: StreamLayer>(a: L3, b: L3, id: u64) -> bool {
    &&& same_measures(a, b)
    &&& b.handles() == a.handles()
    &&& b.streams().dom() == a.streams().dom()
    &&& forall|i: u64| #[trigger]
        a.streams().contains_key(i) && i != id ==> b.streams()[i] == a.streams()[i]
    &&& b.streams()[id].compressed == a.streams()[id].compressed
}

/// Nothing has changed.
pub open spec fn no_change<L3: StreamLayer>(a: L3, b: L3) -> bool {
    same_measures(a, b) && b.handles() == a.handles() && b.streams() == a.streams()
}

/// Some handle is open on stream `id`.
pub open spec fn taken<L3: StreamLayer>(a: L3, id: u64) -> bool {
    exists|h: L3::Handle| #[trigger] a.handles().contains_key(h) && a.handles()[h].stream == id
}

/// Some handle is open on stream `id` for writing.
pub open spec fn taken_for_writing<L3: StreamLayer>(a: L3, id: u64) -> bool {
    exists|h: L3::Handle| #[trigger]
        a.handles().contains_key(h) && a.handles()[h].stream == id && a.handles()[h].mode is Write
}

/// Opening a stream in `mode` has to fail: a writer wants to be alone, and a reader
/// without a writer.
pub open spec fn locked<L3: StreamLayer>(a: L3, id: u64, mode: OpenMode) -> bool {
    if mode is Write {
        taken(a, id)
    } else {
        taken_for_writing(a, id)
    }
}

/// A new layer has no streams and no open handles.
pub proof fn law_call_layer_created<L3: StreamLayer>(
    path: &str,
    width: u8,
    shift: u8,
    vbss: u8,
    sizes: std::collections::VecDeque<u16>,
    r: Result<L3, SfsError>,
)
    requires
        call_ensures(L3::create, (path, width, shift, vbss, sizes), r),
    ensures
        r matches Ok(layer) ==> {
            &&& layer.wf()
            &&& forall|id: u64| !#[trigger] layer.streams().contains_key(id)
            &&& forall|h: L3::Handle| !#[trigger] layer.handles().contains_key(h)
            &&& layer.iwidth() == width
            &&& layer.unit(false) == vstd::arithmetic::power2::pow2(shift as nat)
            &&& layer.compression() <==> vbss > 0
            &&& vbss > 0 ==> layer.unit(true) == vstd::arithmetic::power2::pow2(vbss as nat)
        },
{
}

/// Creating a stream gives the smallest number that is free, and an empty stream under
/// it; no other stream changes. It fails where no number is left, and where a stream is
/// to be compressed and cannot be.
pub proof fn law_call_stream_created<L3: StreamLayer>(
    layer: &mut L3,
    compressed: bool,
    r: Result<u64, SfsError>,
)
    requires
        old(layer).wf(),
        call_ensures(L3::create_stream, (layer, compressed), r),
        final(layer).faults() == old(layer).faults(),
    ensures
        ({
            let a = *old(layer);
            let b = *final(layer);
            let full = forall|j: u64| (j as int) < pow(256, a.iwidth()) - 1
                ==> #[trigger] a.streams().contains_key(j);
            &&& same_measures(a, b)
            &&& b.handles() == a.handles()
            &&& r is Err <==> full || (compressed && !a.compression())
            &&& r is Err ==> r->Err_0 is IoError && b.streams() == a.streams()
            &&& r matches Ok(id) ==> {
                &&& least_unused(a.streams(), id)
                &&& b.streams().contains_key(id)
                &&& b.streams().remove(id) == a.streams()
                &&& b.streams()[id].data.len() == 0
                &&& b.streams()[id].reserved == 0
                &&& b.streams()[id].compressed == compressed
            }
        }),
{
    let a = *old(layer);
    old(layer).lemma_wf();
    law_pow256(a.iwidth());
    crate::bytes::lemma_pow256_monotone(0, a.iwidth());
    let limit = crate::block_layer::sentinel(a.iwidth());
    assert(limit == pow(256, a.iwidth()) - 1);
    assert(crate::stream_layer::all_used(a.streams(), limit) <==> forall|j: u64|
        (j as int) < pow(256, a.iwidth()) - 1 ==> #[trigger] a.streams().contains_key(j));
    if r is Ok {
        assert(final(layer).streams().remove(r->Ok_0) =~= a.streams());
    }
}

/// Opening a stream gives a handle of its own, and fails where there is no such stream
/// or where it is locked: there is one writer, or there are many readers.
pub proof fn law_call_stream_opened<L3: StreamLayer>(
    layer: &mut L3,
    id: u64,
    mode: OpenMode,
    r: Result<L3::Handle, SfsError>,
)
    requires
        old(layer).wf(),
        call_ensures(L3::open_stream, (layer, id, mode), r) || call_ensures(
            L3::open_stream_blocking,
            (layer, id, mode),
            r,
        ),
        final(layer).faults() == old(layer).faults(),
    ensures
        ({
            let a = *old(layer);
            let b = *final(layer);
            &&& same_measures(a, b)
            &&& b.streams() == a.streams()
            &&& r is Ok <==> a.streams().contains_key(id) && !locked(a, id, mode)
            &&& r matches Ok(h) ==> !a.handles().contains_key(h) && b.handles().contains_key(h)
                && b.handles()[h] == (OpenState { stream: id, mode }) && b.handles().remove(h)
                == a.handles()
            &&& r matches Err(e) ==> {
                &&& b.handles() == a.handles()
                &&& id == u64::MAX ==> e is InvalidPath
                &&& id != u64::MAX && locked(a, id, mode) ==> e is LockConflict
                &&& id != u64::MAX && !locked(a, id, mode) ==> e is NotFound
            }
        }),
{
    let a = *old(layer);
    let b = *final(layer);
    let can = crate::stream_layer::can_open(a.handles(), id, mode);
    assert(can <==> !locked(a, id, mode)) by {
        if !can {
            let h = choose|h: L3::Handle| #[trigger]
                a.handles().contains_key(h) && a.handles()[h].stream == id && !(mode is Read
                    && a.handles()[h].mode is Read);
            assert(a.handles().contains_key(h));
        }
        if locked(a, id, mode) && mode is Write {
            let h = choose|h: L3::Handle| #[trigger]
                a.handles().contains_key(h) && a.handles()[h].stream == id;
            assert(a.handles().contains_key(h));
        }
        if locked(a, id, mode) && !(mode is Write) {
            let h = choose|h: L3::Handle| #[trigger]
                a.handles().contains_key(h) && a.handles()[h].stream == id
                    && a.handles()[h].mode is Write;
            assert(a.handles().contains_key(h));
        }
    }
    if r is Ok {
        assert(b.handles().remove(r->Ok_0) =~= a.handles());
    }
}

/// Closing a handle takes it away, and leaves the streams and the other handles.
/// Deleting a stream takes it away, where it is not open, and leaves the others.
pub proof fn law_call_stream_closed<L3: StreamLayer>(
    layer: &mut L3,
    handle: L3::Handle,
    id: u64,
    r: Result<(), SfsError>,
)
    requires
        old(layer).wf(),
        final(layer).faults() == old(layer).faults(),
    ensures
        ({
            let a = *old(layer);
            let b = *final(layer);
            &&& call_ensures(L3::close_stream, (layer, handle), r) ==> {
                &&& same_measures(a, b)
                &&& b.streams() == a.streams()
                &&& r is Ok <==> a.handles().contains_key(handle)
                &&& r is Err ==> r->Err_0 is NotFound
                &&& forall|h: L3::Handle| #[trigger]
                    b.handles().contains_key(h) <==> a.handles().contains_key(h) && h != handle
                &&& forall|h: L3::Handle| #[trigger]
                    b.handles().contains_key(h) ==> b.handles()[h] == a.handles()[h]
            }
            &&& call_ensures(L3::delete_stream, (layer, id), r) ==> {
                &&& same_measures(a, b)
                &&& b.handles() == a.handles()
                &&& r is Ok <==> a.streams().contains_key(id) && !taken(a, id)
                &&& r is Err && taken(a, id) ==> r->Err_0 is LockConflict
                &&& r is Err && !taken(a, id) ==> r->Err_0 is NotFound
                &&& r is Err ==> b.streams() == a.streams()
                &&& r is Ok ==> forall|i: u64| #[trigger]
                    b.streams().contains_key(i) <==> a.streams().contains_key(i) && i != id
                &&& r is Ok ==> forall|i: u64| #[trigger]
                    b.streams().contains_key(i) ==> b.streams()[i] == a.streams()[i]
            }
        }),
{
}

/// Which streams there are, and how many.
pub proof fn law_call_streams_told<L3: StreamLayer>(
    layer: &mut L3,
    id: u64,
    found: bool,
    count: Result<u64, SfsError>,
    ids: Result<Vec<u64>, SfsError>,
)
    requires
        old(layer).wf(),
        final(layer).faults() == old(layer).faults(),
    ensures
        ({
            let a = *old(layer);
            let b = *final(layer);
            &&& call_ensures(L3::stream_exists, (layer, id), found) ==> no_change(a, b) && (found
                <==> a.streams().contains_key(id))
            &&& call_ensures(L3::stream_count, (layer,), count) ==> no_change(a, b) && (
            count matches Ok(n) && n == a.streams().dom().len())
            &&& call_ensures(L3::stream_ids, (layer,), ids) ==> {
                &&& no_change(a, b)
                &&& ids is Ok
                &&& forall|i: int, j: int|
                    0 <= i < j < ids->Ok_0@.len() ==> ids->Ok_0@[i] < ids->Ok_0@[j]
                &&& forall|k: u64| #[trigger]
                    a.streams().contains_key(k) <==> exists|i: int|
                        0 <= i < ids->Ok_0@.len() && ids->Ok_0@[i] == k
            }
        }),
{
    if call_ensures(L3::stream_ids, (layer,), ids) && ids is Ok {
        let a = *old(layer);
        assert forall|k: u64| #[trigger] a.streams().contains_key(k) <==> exists|i: int|
            0 <= i < ids->Ok_0@.len() && ids->Ok_0@[i] == k by {
            assert(ids->Ok_0@.contains(k) <==> a.streams().contains_key(k));
        }
    }
}

/// Reading from a stream gives its bytes from the place on, as many as there are and are
/// asked for, and changes nothing.
pub proof fn law_call_stream_read<L3: StreamLayer>(
    layer: &mut L3,
    handle: &L3::Handle,
    pos: u64,
    buf: &mut [u8],
    r: Result<usize, SfsError>,
)
    requires
        old(layer).wf(),
        call_ensures(L3::read, (layer, handle, pos, buf), r),
        final(layer).faults() == old(layer).faults(),
    ensures
        ({
            let a = *old(layer);
            let data = a.streams()[a.handles()[*handle].stream].data;
            let left = if pos < data.len() {
                data.len() - pos
            } else {
                0
            };
            &&& no_change(a, *final(layer))
            &&& final(buf)@.len() == old(buf)@.len()
            &&& r is Ok <==> a.handles().contains_key(*handle)
            &&& r is Err ==> r->Err_0 is NotFound && final(buf)@ == old(buf)@
            &&& r matches Ok(n) ==> {
                &&& n == smaller(left, old(buf)@.len() as int)
                &&& forall|i: int| 0 <= i < n ==> #[trigger] final(buf)@[i] == data[pos + i]
                &&& forall|i: int|
                    n <= i < old(buf)@.len() ==> #[trigger] final(buf)@[i] == old(buf)@[i]
            }
        }),
{
    let a = *old(layer);
    law_after_read(a.streams()[a.handles()[*handle].stream].data, pos as int, old(buf)@);
}

/// Writing to a stream puts the bytes in at their place, over what stands there and
/// beyond the end; it leaves every other byte of the stream, and every other stream.
pub proof fn law_call_stream_written<L3: StreamLayer>(
    layer: &mut L3,
    handle: &L3::Handle,
    pos: u64,
    buf: &[u8],
    r: Result<usize, SfsError>,
)
    requires
        old(layer).wf(),
        pos + buf@.len() <= u64::MAX,
        call_ensures(L3::write, (layer, handle, pos, buf), r),
        final(layer).faults() == old(layer).faults(),
    ensures
        ({
            let a = *old(layer);
            let b = *final(layer);
            let id = a.handles()[*handle].stream;
            let s = a.streams()[id];
            let t = b.streams()[id];
            let end = pos + buf@.len();
            let unit = a.unit(s.compressed);
            &&& !a.handles().contains_key(*handle) ==> r is Err && r->Err_0 is NotFound
            &&& a.handles().contains_key(*handle) && a.handles()[*handle].mode is Read ==> r is Err
                && r->Err_0 is LockConflict
            &&& r is Err ==> no_change(a, b)
            &&& a.handles().contains_key(*handle) && a.handles()[*handle].mode is Write ==> {
                &&& r is Ok <==> buf@.len() == 0 || room(s.reserved, end as nat, unit)
                &&& r is Err ==> r->Err_0 is IoError
                &&& r is Ok ==> {
                    &&& r->Ok_0 == buf@.len()
                    &&& only_stream(a, b, id)
                    &&& buf@.len() == 0 ==> t == s
                    &&& buf@.len() > 0 ==> {
                        &&& t.data.len() == if end > s.data.len() {
                            end
                        } else {
                            s.data.len() as int
                        }
                        &&& capacity(s.reserved, end as nat, unit, t.reserved)
                    }
                    &&& forall|i: int| pos <= i < end ==> #[trigger] t.data[i] == buf@[i - pos]
                    &&& forall|i: int|
                        0 <= i < s.data.len() && !(pos <= i < end) ==> #[trigger] t.data[i]
                            == s.data[i]
                }
            }
        }),
{
    let a = *old(layer);
    let b = *final(layer);
    old(layer).lemma_wf();
    let id = a.handles()[*handle].stream;
    let s = a.streams()[id];
    let unit = a.unit(s.compressed);
    let end = (pos + buf@.len()) as nat;
    lemma_room_left(s.reserved, end, unit);
    law_grown_capacity(s.reserved, end, unit);
    assert(capacity(s.reserved, end, unit, grown_capacity(s.reserved, end, unit)));
    if r is Ok {
        assert(b.streams().dom() =~= a.streams().dom());
    }
}

/// Cutting a stream leaves its first bytes, as many as are asked for, in the least
/// capacity that is enough; reserving changes nothing but the capacity.
pub proof fn law_call_stream_sized<L3: StreamLayer>(
    layer: &mut L3,
    handle: &L3::Handle,
    n: u64,
    r: Result<(), SfsError>,
)
    requires
        old(layer).wf(),
        final(layer).faults() == old(layer).faults(),
    ensures
        ({
            let a = *old(layer);
            let b = *final(layer);
            let id = a.handles()[*handle].stream;
            let s = a.streams()[id];
            let t = b.streams()[id];
            let unit = a.unit(s.compressed);
            let open = a.handles().contains_key(*handle);
            let writes = open && a.handles()[*handle].mode is Write;
            let len = smaller(s.data.len() as int, n as int);
            &&& call_ensures(L3::truncate, (layer, handle, n), r) ==> {
                &&& !open ==> r is Err && r->Err_0 is NotFound
                &&& open && !writes ==> r is Err && r->Err_0 is LockConflict
                &&& r is Err ==> no_change(a, b)
                &&& writes ==> {
                    &&& r is Ok
                    &&& only_stream(a, b, id)
                    &&& t.data == s.data.take(len)
                    &&& t.data.len() == len
                    &&& capacity(0, len as nat, unit, t.reserved)
                }
            }
            &&& call_ensures(L3::reserve, (layer, handle, n), r) ==> {
                &&& !open ==> r is Err && r->Err_0 is NotFound
                &&& open && !writes ==> r is Err && r->Err_0 is LockConflict
                &&& r is Err ==> no_change(a, b)
                &&& writes ==> {
                    &&& r is Ok <==> s.data.len() <= n && room(s.reserved, n as nat, unit)
                    &&& r is Err ==> r->Err_0 is IoError
                    &&& r is Ok ==> only_stream(a, b, id) && t.data == s.data && capacity(
                        s.reserved,
                        n as nat,
                        unit,
                        t.reserved,
                    )
                }
            }
        }),
{
    let a = *old(layer);
    let b = *final(layer);
    old(layer).lemma_wf();
    let id = a.handles()[*handle].stream;
    let s = a.streams()[id];
    let unit = a.unit(s.compressed);
    law_cut(s, n as nat, unit);
    lemma_room_left(s.reserved, n as nat, unit);
    law_grown_capacity(s.reserved, n as nat, unit);
    assert(capacity(s.reserved, n as nat, unit, grown_capacity(s.reserved, n as nat, unit)));
    if r is Ok && a.handles().contains_key(*handle) {
        if call_ensures(L3::truncate, (layer, handle, n), r) {
            assert(b.streams().dom() =~= a.streams().dom());
        }
        if call_ensures(L3::reserve, (layer, handle, n), r) {
            assert(b.streams().dom() =~= a.streams().dom());
        }
    }
}

/// Header slots are read as they were written, and a slot that was written changes no
/// other.
pub proof fn law_call_slots<L3: StreamLayer>(
    layer: &mut L3,
    slot: crate::types::HeaderSlotId,
    data: &[u8],
    r: Result<(), SfsError>,
    other: int,
)
    requires
        old(layer).wf(),
        slot.pos() >= old(layer).first_slot(),
        call_ensures(L3::write_header_slot, (layer, slot, data), r),
        final(layer).faults() == old(layer).faults(),
    ensures
        ({
            let a = *old(layer);
            let b = *final(layer);
            let at = slot.pos() as int;
            &&& b.streams() == a.streams()
            &&& b.handles() == a.handles()
            &&& r is Ok <==> at < a.slots().len() && data@.len() == a.slots()[at].len()
            &&& r is Err ==> r->Err_0 is IoError && b.slots() == a.slots()
            &&& r is Ok ==> b.slots().len() == a.slots().len() && b.slots()[at] == data@
            &&& r is Ok && 0 <= other < a.slots().len() && other != at ==> b.slots()[other]
                == a.slots()[other]
        }),
{
}

// ---------------------------------------------------------------------------
// Measures
// ---------------------------------------------------------------------------

/// The measures that a layer tells are its own: the size of a block is two to the power
/// that is told for it, and compression is there where pieces have a size.
pub proof fn law_call_measures<L2: BlockLayer, L3: StreamLayer>(
    store: &L2,
    size: usize,
    shift2: u8,
    width2: u8,
    layer: &L3,
    shift3: u8,
    width3: u8,
    pieces: u8,
    sfs: &Sfs<L3>,
    shift4: u8,
    width4: u8,
)
    requires
        store.wf() || store.usable(),
        layer.wf() || layer.usable(),
        sfs.wf() || sfs.usable(),
        call_ensures(L2::block_size, (store,), size),
        call_ensures(L2::block_size_shift, (store,), shift2),
        call_ensures(L2::block_index_width, (store,), width2),
        call_ensures(L3::block_size_shift, (layer,), shift3),
        call_ensures(L3::block_index_width, (layer,), width3),
        call_ensures(L3::compressed_block_size_shift, (layer,), pieces),
        call_ensures(Sfs::<L3>::block_size_shift, (sfs,), shift4),
        call_ensures(Sfs::<L3>::block_index_width, (sfs,), width4),
    ensures
        size == pow2(shift2 as nat),
        size == store.bsize(),
        width2 == store.iwidth(),
        layer.unit(false) == pow2(shift3 as nat),
        width3 == layer.iwidth(),
        layer.unit(true) == pow2(pieces as nat),
        layer.compression() <==> pieces > 0,
        sfs.world().plain_unit == pow2(shift4 as nat),
        sfs.world().width == width4,
{
}

/// A file in memory holds the bytes that it was made from, where they begin with a header,
/// and gives them back; no path leads to one.
pub proof fn law_call_memory_file(
    data: Vec<u8>,
    r: Result<MemoryFile, SfsError>,
    file: MemoryFile,
    back: Vec<u8>,
    path: &str,
    mode: OpenMode,
    found: Result<MemoryFile, SfsError>,
)
    requires
        call_ensures(MemoryFile::from_bytes, (data,), r),
        call_ensures(MemoryFile::into_bytes, (file,), back),
        call_ensures(MemoryFile::open, (path, mode), found),
    ensures
        r is Ok <==> data@.len() >= 12 && data@.take(10) == seq![
            121u8,
            97,
            107,
            121,
            97,
            107,
            121,
            97,
            107,
            1,
        ],
        r is Err ==> r->Err_0 is IoError,
        r is Ok ==> r->Ok_0.bytes() == data@ && r->Ok_0.offset() == data@[10] + 256 * data@[11],
        back@ == file.bytes(),
        r is Ok && r->Ok_0 == file ==> back@ == data@,
        found is Err && found->Err_0 is NotFound,
{
    let d = data@;
    let letters = seq![121u8, 97, 107, 121, 97, 107, 121, 97, 107, 1];
    if d.len() >= 12 {
        if d.take(10) == letters {
            assert forall|k: int| 0 <= k < 10 implies #[trigger] d[k] == letters[k] by {
                assert(d.take(10)[k] == d[k]);
            }
            assert(d.subrange(0, 9) =~= crate::file_layer::magic());
        }
        if is_magic(d) {
            assert forall|k: int| 0 <= k < 9 implies #[trigger] d[k] == letters[k] by {
                assert(d.subrange(0, 9)[k] == d[k]);
            }
            assert(d.take(10) =~= letters);
        }
        let two = d.subrange(10, 12);
        reveal_with_fuel(le_value, 3);
        assert(two.skip(1)[0] == d[11]);
        assert(two.skip(1).skip(1).len() == 0);
    }
}

} // verus!
