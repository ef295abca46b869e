//! Stores that keep every block or every stream in a file of its own: how their calls
//! relate, told by the numbers that are given out and by the bytes of the files beside.

use crate::blocks_from_files::{law_upper_round_trip, BlocksFromFiles};
use crate::bytes::{law_le_round_trip, le_bytes, lemma_le_bytes_len};
use crate::format_laws::{law_spelt_number, spells};
use crate::stream_layer::OpenState;
use crate::streams_from_files::{law_meta_round_trip, FileStreamHandle, StreamsFromFiles};
use crate::terms::law_pow256;
use crate::types::{decimal, OpenMode, SfsError};
use vstd::arithmetic::power::pow;
use vstd::arithmetic::power2::pow2;
use vstd::prelude::*;

verus! {

// ---------------------------------------------------------------------------
// A file for each block
// ---------------------------------------------------------------------------

/// Blocks are numbered in the order in which they are made, from zero on; the number is
/// kept in eight bytes of a file beside the blocks, from which the store goes on when it
/// is opened again.
pub proof fn law_call_block_numbers(
    shift: u8,
    width: u8,
    new: BlocksFromFiles,
    store: &mut BlocksFromFiles,
    one: Result<u64, SfsError>,
    meta: Vec<u8>,
    two: Result<u64, SfsError>,
    header: &[u8],
    kept: &[u8],
    again: Result<BlocksFromFiles, SfsError>,
    limit: u64,
)
    requires
        call_ensures(BlocksFromFiles::create, (shift, width), new),
        call_ensures(BlocksFromFiles::allocate_block, (&*old(store),), one),
        call_ensures(BlocksFromFiles::sentinel, (&*old(store),), limit),
        old(store).next() < u64::MAX,
        call_ensures(BlocksFromFiles::block_created, (store,), meta),
        call_ensures(BlocksFromFiles::allocate_block, (&*final(store),), two),
        call_ensures(BlocksFromFiles::open, (header, kept), again),
        kept@ == meta@,
    ensures
        new.next() == 0 && new.shift() == shift && new.width() == width,
        one is Ok <==> old(store).next() < limit,
        one is Ok ==> one->Ok_0 == old(store).next(),
        one is Err ==> one->Err_0 is IoError,
        one is Ok && two is Ok ==> two->Ok_0 == one->Ok_0 + 1,
        old(store).width() <= 8 ==> limit == pow(256, old(store).width() as nat) - 1,
        old(store).width() > 8 ==> limit == u64::MAX,
        spells(meta@, 0, 8, final(store).next() as nat),
        again is Ok ==> again->Ok_0.next() == final(store).next() && again->Ok_0.shift()
            == header@[19] && again->Ok_0.width() == header@[20],
{
    crate::bytes::lemma_pow256_values();
    law_pow256(8);
    law_pow256(old(store).width() as nat);
    let n = final(store).next() as nat;
    lemma_le_bytes_len(n, 8);
    law_le_round_trip(n, 8);
    assert(meta@.subrange(0, 8) =~= meta@);
    law_spelt_number(meta@, 0, 8, n);
    if old(store).width() <= 8 {
        crate::bytes::lemma_pow256_monotone(0, old(store).width() as nat);
    }
}

/// What the header of a store holds: letters and a version, eleven bytes for the store,
/// with its letters, the size of a block and the width of an index, and then what the
/// layers above have given it, which it gives back. It can be opened from these bytes.
pub proof fn law_call_block_header(
    store: &BlocksFromFiles,
    upper: &[u8],
    bytes: Vec<u8>,
    data: &[u8],
    back: Result<Vec<u8>, SfsError>,
    meta: &[u8],
    again: Result<BlocksFromFiles, SfsError>,
)
    requires
        call_ensures(BlocksFromFiles::store_header, (store, upper), bytes),
        data@ == bytes@,
        call_ensures(BlocksFromFiles::load_header, (store, data), back),
        meta@.len() >= 8,
        call_ensures(BlocksFromFiles::open, (data, meta), again),
    ensures
        bytes@.len() == 21 + upper@.len(),
        bytes@.take(19) == seq![
            115u8,
            116,
            114,
            101,
            97,
            109,
            95,
            102,
            115,
            0,
            11,
            0,
            98,
            108,
            107,
            102,
            105,
            108,
            0,
        ],
        bytes@[19] == store.shift(),
        bytes@[20] == store.width(),
        bytes@.skip(21) == upper@,
        back is Ok && back->Ok_0@ == upper@,
        again is Ok && again->Ok_0.shift() == store.shift() && again->Ok_0.width()
            == store.width(),
{
    law_upper_round_trip(store.shift(), store.width(), upper@);
    lemma_le_bytes_len(11, 2);
    crate::terms::law_le_bytes(11, 2, 0);
    crate::terms::law_le_bytes(11, 2, 1);
    vstd::arithmetic::power::lemma_pow0(256);
    vstd::arithmetic::power::lemma_pow1(256);
    assert(le_bytes(11, 2)[0] == 11);
    assert(le_bytes(11, 2)[1] == 0);
    assert(bytes@.skip(21) =~= upper@);
    assert(bytes@.take(19) =~= seq![
        115u8,
        116,
        114,
        101,
        97,
        109,
        95,
        102,
        115,
        0,
        11,
        0,
        98,
        108,
        107,
        102,
        105,
        108,
        0,
    ]);
}

/// A part of a block can be read or written if and only if it ends within the block, and
/// read only where the block has a number; a block can be given up where its file is
/// there.
pub proof fn law_call_block_parts(
    store: &BlocksFromFiles,
    index: u64,
    offset: usize,
    len: usize,
    limit: u64,
    exists_file: bool,
    size: usize,
    read: Result<(), SfsError>,
    written: Result<(), SfsError>,
    gone: Result<(), SfsError>,
)
    requires
        store.shift() < usize::BITS,
        call_ensures(BlocksFromFiles::sentinel, (store,), limit),
        call_ensures(BlocksFromFiles::block_size, (store,), size),
        call_ensures(BlocksFromFiles::read_block, (store, index, offset, len), read),
        call_ensures(BlocksFromFiles::write_block, (store, offset, len), written),
        call_ensures(BlocksFromFiles::deallocate_block, (store, index, exists_file), gone),
    ensures
        size == pow2(store.shift() as nat),
        read is Ok <==> index < limit && offset + len <= size,
        written is Ok <==> offset + len <= size,
        gone is Ok <==> exists_file,
        read is Err ==> read->Err_0 is IoError,
        written is Err ==> written->Err_0 is IoError,
        gone is Err ==> gone->Err_0 is NotFound,
{
}

/// The file of a block or of a stream is named by the number in decimal.
pub proof fn law_call_file_names(
    blocks: &BlocksFromFiles,
    streams: &StreamsFromFiles,
    n: u64,
    block: String,
    stream: String,
)
    requires
        call_ensures(BlocksFromFiles::block_path, (blocks, n), block),
        call_ensures(StreamsFromFiles::stream_path, (streams, n), stream),
    ensures
        ({
            let digits = decimal(n as nat);
            &&& block@.take(digits.len() as int) == digits
            &&& block@.skip(digits.len() as int) == seq!['.', 'b', 'l', 'o', 'c', 'k']
            &&& stream@.take(digits.len() as int) == digits
            &&& stream@.skip(digits.len() as int) == seq!['.', 's', 't', 'r', 'e', 'a', 'm']
        }),
{
    reveal_strlit(".block");
    reveal_strlit(".stream");
    let digits = decimal(n as nat);
    assert(block@.take(digits.len() as int) =~= digits);
    assert(stream@.take(digits.len() as int) =~= digits);
    assert(block@.skip(digits.len() as int) =~= seq!['.', 'b', 'l', 'o', 'c', 'k']);
    assert(stream@.skip(digits.len() as int) =~= seq!['.', 's', 't', 'r', 'e', 'a', 'm']);
}

// ---------------------------------------------------------------------------
// A file for each stream
// ---------------------------------------------------------------------------

/// Some handle is open on stream `id`.
pub open spec fn held(store: StreamsFromFiles, id: u64) -> bool {
    exists|h: FileStreamHandle| #[trigger]
        store.handles().contains_key(h) && store.handles()[h].stream == id
}

/// Some handle is open on stream `id` for writing.
pub open spec fn held_to_write(store: StreamsFromFiles, id: u64) -> bool {
    exists|h: FileStreamHandle| #[trigger]
        store.handles().contains_key(h) && store.handles()[h].stream == id
            && store.handles()[h].mode is Write
}

/// Streams are numbered in the order in which they are made, from zero on; what the file
/// beside the streams holds is the width, the size of a block and that number, from which
/// the store goes on when it is opened again.
pub proof fn law_call_stream_numbers(
    width: u8,
    shift: u8,
    new: StreamsFromFiles,
    store: &mut StreamsFromFiles,
    one: u64,
    meta: Vec<u8>,
    two: u64,
    kept: &[u8],
    again: Result<StreamsFromFiles, SfsError>,
)
    requires
        call_ensures(StreamsFromFiles::create, (width, shift), new),
        call_ensures(StreamsFromFiles::create_stream, (&*old(store),), one),
        old(store).next() < u64::MAX,
        call_ensures(StreamsFromFiles::stream_created, (store,), meta),
        call_ensures(StreamsFromFiles::create_stream, (&*final(store),), two),
        kept@ == meta@,
        call_ensures(StreamsFromFiles::open, (kept,), again),
    ensures
        new.next() == 0 && new.width() == width && new.shift() == shift,
        forall|h: FileStreamHandle| !#[trigger] new.handles().contains_key(h),
        one == old(store).next(),
        two == one + 1,
        final(store).handles() == old(store).handles(),
        meta@.len() == 10,
        meta@[0] == old(store).width(),
        meta@[1] == old(store).shift(),
        spells(meta@, 2, 8, two as nat),
        again is Ok,
        again->Ok_0.next() == two && again->Ok_0.width() == old(store).width()
            && again->Ok_0.shift() == old(store).shift(),
        forall|h: FileStreamHandle| !#[trigger] again->Ok_0.handles().contains_key(h),
{
    law_meta_round_trip(old(store).width(), old(store).shift(), two);
    law_spelt_number(meta@, 2, 8, two as nat);
}

/// A stream is opened if and only if its file is there, nobody writes it, and nobody reads
/// it that is to be written. The new handle is on that stream, and all others are as they
/// were. Closing a handle takes that one away and no other.
pub proof fn law_call_stream_opened_and_closed(
    store: &mut StreamsFromFiles,
    id: u64,
    mode: OpenMode,
    there: bool,
    r: Result<FileStreamHandle, SfsError>,
    after: &mut StreamsFromFiles,
    handle: FileStreamHandle,
    done: Result<(), SfsError>,
)
    requires
        old(store).wf(),
        old(store).room_for(id),
        call_ensures(StreamsFromFiles::open_stream, (store, id, mode, there), r),
        old(after).wf(),
        call_ensures(StreamsFromFiles::close_stream, (after, handle), done),
    ensures
        ({
            let a = *old(store);
            let b = *final(store);
            &&& r is Ok <==> there && !held_to_write(a, id) && (mode is Read || !held(a, id))
            &&& !there ==> r->Err_0 is NotFound
            &&& there && r is Err ==> r->Err_0 is LockConflict
            &&& r is Err ==> b.handles() == a.handles()
            &&& r is Ok ==> {
                &&& !a.handles().contains_key(r->Ok_0)
                &&& b.handles() == a.handles().insert(r->Ok_0, OpenState { stream: id, mode })
            }
            &&& b.next() == a.next()
        }),
        ({
            let a = *old(after);
            let b = *final(after);
            &&& done is Ok <==> a.handles().contains_key(handle)
            &&& done is Err ==> done->Err_0 is NotFound && b.handles() == a.handles()
            &&& forall|h: FileStreamHandle| #[trigger]
                b.handles().contains_key(h) <==> a.handles().contains_key(h) && h != handle
            &&& forall|h: FileStreamHandle| #[trigger]
                b.handles().contains_key(h) ==> b.handles()[h] == a.handles()[h]
            &&& b.next() == a.next()
        }),
{
    assert(old(after).handles().remove(handle) =~= final(after).handles());
    if !old(after).handles().contains_key(handle) {
        assert(final(after).handles() =~= old(after).handles());
    }
}

/// A stream can be deleted if and only if its file is there and nobody has it open. A
/// handle that is open leads to its stream, and to write only where it was opened for
/// that.
pub proof fn law_call_stream_requests(
    store: &StreamsFromFiles,
    id: u64,
    there: bool,
    gone: Result<(), SfsError>,
    handle: &FileStreamHandle,
    read: Result<u64, SfsError>,
    written: Result<u64, SfsError>,
)
    requires
        store.wf(),
        call_ensures(StreamsFromFiles::delete_stream, (store, id, there), gone),
        call_ensures(StreamsFromFiles::read, (store, handle), read),
        call_ensures(StreamsFromFiles::write, (store, handle), written),
    ensures
        gone is Ok <==> there && !held(*store, id),
        !there ==> gone->Err_0 is NotFound,
        there && gone is Err ==> gone->Err_0 is LockConflict,
        read is Ok <==> store.handles().contains_key(*handle),
        read is Ok ==> read->Ok_0 == store.handles()[*handle].stream,
        read is Err ==> read->Err_0 is NotFound,
        written is Ok <==> store.handles().contains_key(*handle)
            && store.handles()[*handle].mode is Write,
        written is Ok ==> written->Ok_0 == store.handles()[*handle].stream,
        written is Err && read is Ok ==> written->Err_0 is LockConflict,
        read is Err ==> written->Err_0 is NotFound,
{
}

} // verus!
