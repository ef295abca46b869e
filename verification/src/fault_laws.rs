//! A call fails for no other reason than those that are told of it, unless something
//! failed below: in the store of the streams, in the store of the blocks, in the file. One
//! that succeeds leaves everything in order.

use crate::block_layer::BlockLayer;
use crate::blocks_in_file::BlocksInFile;
use crate::file_layer::FileLayer;
use crate::handles::BlockStreamHandle;
use crate::sfs::Sfs;
use crate::stream_layer::StreamLayer;
use crate::streams_from_blocks::StreamsFromBlocks;
use crate::types::{
    CacheMode, DirEntry, EntryType, HeaderSlotId, OpenMode, SfsError, StreamHandle,
};
use vstd::prelude::*;

verus! {

/// Where nothing failed in the stream layer below, a call that changes names has not
/// failed by chance: what is said of its outcome holds.
pub proof fn law_call_names_fail_below<L3: StreamLayer>(
    sfs: &mut Sfs<L3>,
    path: &str,
    other: &str,
    done: Result<(), SfsError>,
    shown: Result<Vec<DirEntry>, SfsError>,
)
    requires
        old(sfs).wf(),
        final(sfs).store_faults() == old(sfs).store_faults(),
        call_ensures(Sfs::<L3>::mkdir, (sfs, path), done) || call_ensures(
            Sfs::<L3>::rmdir,
            (sfs, path),
            done,
        ) || call_ensures(Sfs::<L3>::delete_stream, (sfs, path), done) || call_ensures(
            Sfs::<L3>::rename_dir,
            (sfs, path, other),
            done,
        ) || call_ensures(Sfs::<L3>::rename_stream, (sfs, path, other), done) || call_ensures(
            Sfs::<L3>::list,
            (sfs, path),
            shown,
        ),
    ensures
        final(sfs).faults() == old(sfs).faults(),
{
}

/// The same of the calls that give a handle, as long as there is a number for one more.
pub proof fn law_call_handles_fail_below<L3: StreamLayer>(
    sfs: &mut Sfs<L3>,
    path: &str,
    mode: OpenMode,
    compressed: bool,
    r: Result<StreamHandle, SfsError>,
)
    requires
        old(sfs).wf(),
        final(sfs).store_faults() == old(sfs).store_faults(),
        old(sfs).handles_left() > 0,
        call_ensures(Sfs::<L3>::create_stream, (sfs, path), r) || call_ensures(
            Sfs::<L3>::create_stream_as,
            (sfs, path, compressed),
            r,
        ) || call_ensures(Sfs::<L3>::open_stream, (sfs, path, mode), r),
    ensures
        final(sfs).faults() == old(sfs).faults(),
        final(sfs).handles_left() == if r is Ok {
            old(sfs).handles_left() - 1
        } else {
            old(sfs).handles_left() as int
        },
{
}

/// The same of the calls on an open stream.
pub proof fn law_call_bytes_fail_below<L3: StreamLayer>(
    sfs: &mut Sfs<L3>,
    handle: &StreamHandle,
    data: &[u8],
    buf: &mut [u8],
    n: u64,
    count: Result<usize, SfsError>,
    done: Result<(), SfsError>,
)
    requires
        old(sfs).wf(),
        final(sfs).store_faults() == old(sfs).store_faults(),
        call_ensures(Sfs::<L3>::read, (sfs, handle, buf), count) || call_ensures(
            Sfs::<L3>::write,
            (sfs, handle, data),
            count,
        ) || call_ensures(Sfs::<L3>::seek, (sfs, handle, n), done) || call_ensures(
            Sfs::<L3>::truncate,
            (sfs, handle, n),
            done,
        ) || call_ensures(Sfs::<L3>::reserve, (sfs, handle, n), done) || call_ensures(
            Sfs::<L3>::close_stream,
            (sfs, *handle),
            done,
        ),
    ensures
        final(sfs).faults() == old(sfs).faults(),
{
}

/// Where nothing failed in the store of the blocks, a call on a stream layer that is built
/// on it has not failed by chance.
pub proof fn law_call_layer_fails_below<L2: BlockLayer>(
    layer: &mut StreamsFromBlocks<L2>,
    id: u64,
    handle: BlockStreamHandle,
    pos: u64,
    buf: &mut [u8],
    slot: HeaderSlotId,
    data: &[u8],
    claimed: &[u64],
    done: Result<(), SfsError>,
    count: Result<usize, SfsError>,
    issues: Result<Vec<String>, SfsError>,
)
    requires
        old(layer).wf(),
        final(layer).store_faults() == old(layer).store_faults(),
        call_ensures(StreamsFromBlocks::<L2>::close_stream, (layer, handle), done) || call_ensures(
            StreamsFromBlocks::<L2>::delete_stream,
            (layer, id),
            done,
        ) || call_ensures(
            StreamsFromBlocks::<L2>::read,
            (layer, &handle, pos, buf),
            count,
        ) || call_ensures(
            StreamsFromBlocks::<L2>::truncate,
            (layer, &handle, pos),
            done,
        ) || call_ensures(
            StreamsFromBlocks::<L2>::reserve,
            (layer, &handle, pos),
            done,
        ) || call_ensures(
            StreamsFromBlocks::<L2>::write_header_slot,
            (layer, slot, data),
            done,
        ) || call_ensures(StreamsFromBlocks::<L2>::verify, (layer, claimed), issues),
    ensures
        final(layer).faults() == old(layer).faults(),
{
}

/// A stream can be opened without a failure as long as handles have numbers and there are
/// fewer of them than four billion.
pub proof fn law_call_open_fails_below<L2: BlockLayer>(
    layer: &mut StreamsFromBlocks<L2>,
    id: u64,
    mode: OpenMode,
    r: Result<BlockStreamHandle, SfsError>,
)
    requires
        old(layer).wf(),
        final(layer).store_faults() == old(layer).store_faults(),
        old(layer).handle_numbers() > 0,
        old(layer).handles().dom().len() < u32::MAX,
        call_ensures(StreamsFromBlocks::<L2>::open_stream, (layer, id, mode), r),
    ensures
        final(layer).faults() == old(layer).faults(),
{
    old(layer).law_numbers_left(id, mode);
}

/// Where nothing failed in the file, a call on the blocks in it has not failed by chance;
/// only that they have no more numbers can keep blocks from being given out.
pub proof fn law_call_store_fails_below<L1: FileLayer, const N: usize>(
    store: &mut BlocksInFile<L1, N>,
    block: u64,
    at: usize,
    buf: &mut [u8],
    data: &[u8],
    cache: CacheMode,
    slot: HeaderSlotId,
    claimed: &[u64],
    indices: &mut Vec<u64>,
    count: u64,
    done: Result<(), SfsError>,
    n: Result<usize, SfsError>,
    added: Result<Vec<u64>, SfsError>,
    issues: Result<Vec<String>, SfsError>,
)
    requires
        old(store).wf(),
        final(store).file_faults() == old(store).file_faults(),
    ensures
        call_ensures(BlocksInFile::<L1, N>::read_block, (store, block, at, buf, cache), n)
            || call_ensures(BlocksInFile::<L1, N>::write_block, (store, block, at, data, cache), n)
            || call_ensures(BlocksInFile::<L1, N>::deallocate_block, (store, block), done)
            || call_ensures(BlocksInFile::<L1, N>::deallocate_blocks, (store, indices), done)
            || call_ensures(BlocksInFile::<L1, N>::write_header_slot, (store, slot, data), done)
            || call_ensures(BlocksInFile::<L1, N>::verify, (store, claimed), issues)
            ==> final(store).faults() == old(store).faults(),
        call_ensures(BlocksInFile::<L1, N>::allocate_blocks, (store, count), added)
            && (final(store).faults() > old(store).faults()) ==> old(store).total() + count
            > 0xFFFF_FFFF,
        call_ensures(BlocksInFile::<L1, N>::allocate_blocks, (store, count), added) && count == 0
            ==> final(store).faults() == old(store).faults(),
{
}

// ---------------------------------------------------------------------------
// Storage
// ---------------------------------------------------------------------------

/// A call that succeeds leaves the file system consistent; and where no storage was taken
/// in vain before it, none is taken in vain behind it: what a stream gives up, or has held
/// that is deleted, can be used again.
pub proof fn law_call_keeps_order<L3: StreamLayer>(
    sfs: &mut Sfs<L3>,
    path: &str,
    other: &str,
    mode: OpenMode,
    compressed: bool,
    handle: &StreamHandle,
    data: &[u8],
    buf: &mut [u8],
    n: u64,
    done: Result<(), SfsError>,
    shown: Result<Vec<DirEntry>, SfsError>,
    given: Result<StreamHandle, SfsError>,
    count: Result<usize, SfsError>,
)
    requires
        old(sfs).wf(),
        done is Ok,
        shown is Ok,
        given is Ok,
        count is Ok,
        call_ensures(Sfs::<L3>::mkdir, (sfs, path), done) || call_ensures(
            Sfs::<L3>::rmdir,
            (sfs, path),
            done,
        ) || call_ensures(Sfs::<L3>::delete_stream, (sfs, path), done) || call_ensures(
            Sfs::<L3>::rename_dir,
            (sfs, path, other),
            done,
        ) || call_ensures(Sfs::<L3>::rename_stream, (sfs, path, other), done) || call_ensures(
            Sfs::<L3>::list,
            (sfs, path),
            shown,
        ) || call_ensures(Sfs::<L3>::create_stream, (sfs, path), given) || call_ensures(
            Sfs::<L3>::create_stream_as,
            (sfs, path, compressed),
            given,
        ) || call_ensures(Sfs::<L3>::open_stream, (sfs, path, mode), given) || call_ensures(
            Sfs::<L3>::close_stream,
            (sfs, *handle),
            done,
        ) || call_ensures(Sfs::<L3>::read, (sfs, handle, buf), count) || call_ensures(
            Sfs::<L3>::write,
            (sfs, handle, data),
            count,
        ) || call_ensures(Sfs::<L3>::seek, (sfs, handle, n), done) || call_ensures(
            Sfs::<L3>::truncate,
            (sfs, handle, n),
            done,
        ) || call_ensures(Sfs::<L3>::reserve, (sfs, handle, n), done),
    ensures
        final(sfs).wf(),
        old(sfs).tidy() ==> final(sfs).tidy(),
{
    old(sfs).lemma_world();
}

/// The same of the calls of a stream layer during which nothing failed in the storage.
pub proof fn law_call_layer_keeps_order<L3: StreamLayer>(
    layer: &mut L3,
    compressed: bool,
    id: u64,
    mode: OpenMode,
    handle: L3::Handle,
    pos: u64,
    data: &[u8],
    buf: &mut [u8],
    number: Result<u64, SfsError>,
    given: Result<L3::Handle, SfsError>,
    done: Result<(), SfsError>,
    count: Result<usize, SfsError>,
)
    requires
        old(layer).wf(),
        final(layer).faults() == old(layer).faults(),
        call_ensures(L3::create_stream, (layer, compressed), number) || call_ensures(
            L3::open_stream,
            (layer, id, mode),
            given,
        ) || call_ensures(L3::close_stream, (layer, handle), done) || call_ensures(
            L3::delete_stream,
            (layer, id),
            done,
        ) || call_ensures(L3::read, (layer, &handle, pos, buf), count) || call_ensures(
            L3::write,
            (layer, &handle, pos, data),
            count,
        ) || call_ensures(L3::truncate, (layer, &handle, pos), done) || call_ensures(
            L3::reserve,
            (layer, &handle, pos),
            done,
        ),
    ensures
        final(layer).wf(),
        old(layer).tidy() ==> final(layer).tidy(),
{
}

// ---------------------------------------------------------------------------
// Errors, modes and handles
// ---------------------------------------------------------------------------

/// The text of an error is what kind it is of, a colon and a space, and what it was made
/// with.
pub proof fn law_call_error_text(e: &SfsError, text: String, kind: Seq<char>)
    requires
        call_ensures(SfsError::text, (e,), text),
        kind == (match e {
            SfsError::NotFound(_) => "not found"@,
            SfsError::AlreadyExists(_) => "already exists"@,
            SfsError::NotEmpty(_) => "not empty"@,
            SfsError::InvalidPath(_) => "invalid path"@,
            SfsError::LockConflict(_) => "lock conflict"@,
            SfsError::SeekOutOfBounds(_) => "seek out of bounds"@,
            SfsError::IoError(_) => "I/O error"@,
            SfsError::ReadOnly(_) => "read-only"@,
        }),
    ensures
        ({
            let said = match e {
                SfsError::NotFound(msg) => msg@,
                SfsError::AlreadyExists(msg) => msg@,
                SfsError::NotEmpty(msg) => msg@,
                SfsError::InvalidPath(msg) => msg@,
                SfsError::LockConflict(msg) => msg@,
                SfsError::SeekOutOfBounds(msg) => msg@,
                SfsError::IoError(msg) => msg@,
                SfsError::ReadOnly(msg) => msg@,
            };
            &&& text@.take(kind.len() as int) == kind
            &&& text@.subrange(kind.len() as int, kind.len() + 2int) == seq![':', ' ']
            &&& text@.skip(kind.len() + 2int) == said
        }),
{
    reveal_strlit("not found");
    reveal_strlit("not found: ");
    reveal_strlit("already exists");
    reveal_strlit("already exists: ");
    reveal_strlit("not empty");
    reveal_strlit("not empty: ");
    reveal_strlit("invalid path");
    reveal_strlit("invalid path: ");
    reveal_strlit("lock conflict");
    reveal_strlit("lock conflict: ");
    reveal_strlit("seek out of bounds");
    reveal_strlit("seek out of bounds: ");
    reveal_strlit("I/O error");
    reveal_strlit("I/O error: ");
    reveal_strlit("read-only");
    reveal_strlit("read-only: ");
    assert(text@.take(kind.len() as int) =~= kind);
    assert(text@.subrange(kind.len() as int, kind.len() + 2int) =~= seq![':', ' ']);
    match e {
        SfsError::NotFound(msg) => assert(text@.skip(kind.len() + 2int) =~= msg@),
        SfsError::AlreadyExists(msg) => assert(text@.skip(kind.len() + 2int) =~= msg@),
        SfsError::NotEmpty(msg) => assert(text@.skip(kind.len() + 2int) =~= msg@),
        SfsError::InvalidPath(msg) => assert(text@.skip(kind.len() + 2int) =~= msg@),
        SfsError::LockConflict(msg) => assert(text@.skip(kind.len() + 2int) =~= msg@),
        SfsError::SeekOutOfBounds(msg) => assert(text@.skip(kind.len() + 2int) =~= msg@),
        SfsError::IoError(msg) => assert(text@.skip(kind.len() + 2int) =~= msg@),
        SfsError::ReadOnly(msg) => assert(text@.skip(kind.len() + 2int) =~= msg@),
    }
}

/// The numbers that stand for modes and kinds, and those of handles and slots: a number
/// stands for one of them, and comes back from it.
pub proof fn law_call_numbers(
    n: i32,
    mode: Option<OpenMode>,
    kind: EntryType,
    code: i32,
    id: u64,
    handle: StreamHandle,
    again: u64,
    index: u8,
    slot: HeaderSlotId,
    place: u8,
)
    requires
        call_ensures(OpenMode::from_code, (n,), mode),
        call_ensures(EntryType::code, (&kind,), code),
        call_ensures(StreamHandle::from_id, (id,), handle),
        call_ensures(StreamHandle::id, (&handle,), again),
        call_ensures(HeaderSlotId::new, (index,), slot),
        call_ensures(HeaderSlotId::index, (&slot,), place),
    ensures
        mode == Some(OpenMode::Read) <==> n == 0,
        mode == Some(OpenMode::Write) <==> n == 1,
        kind is Stream <==> code == 0,
        kind is Directory <==> code == 1,
        again == id,
        place == index,
{
}

} // verus!
