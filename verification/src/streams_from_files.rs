//! A stream store that keeps every stream in a file of its own: which file that
//! is, what the file beside the streams holds, who has which stream open, and
//! which requests are refused. The files themselves are read and written by the
//! caller.

use crate::bytes::{
    get_le, law_le_round_trip, le_bytes, le_value, lemma_le_bytes_len, lemma_pow256_values, push_le,
};
use crate::descriptor::StreamDescriptor;
use crate::handles::{
    handle_view, infos_exclusive, lemma_handle_closed, lemma_handle_opened, lemma_locks_mean,
    lemma_view_exclusive, locks_ok, BlockStreamHandle, HandleInfo,
};
use crate::locks::{lock_of, LockTable};
use crate::stream_layer::{can_open, exclusive, is_open, writes, OpenState};
use crate::types::{decimal, text_num, OpenMode, SfsError};
use std::collections::HashMap;
use vstd::prelude::*;

verus! {

broadcast use vstd::std_specs::hash::group_hash_axioms;

/// Handle of an open stream.
#[derive(Debug, Clone, Copy, PartialEq, Eq, Hash, Structural)]
pub struct FileStreamHandle(u64);

impl FileStreamHandle {
    /// The number of the handle.
    pub closed spec fn num(self) -> u64 {
        self.0
    }
}

/// What the store knows of an open handle.
#[derive(Debug, Clone, Copy)]
struct OpenFile {
    stream_id: u64,
    mode: OpenMode,
}

/// A store with a file for each stream.
pub struct StreamsFromFiles {
    block_index_width: u8,
    block_size_shift: u8,
    next_stream_id: u64,
    next_handle_id: u64,
    locks: LockTable,
    open_handles: HashMap<u64, OpenFile>,
}

/// What the meta file holds: the width, the size and the number of the stream
/// that is made next.
pub open spec fn stored_meta(width: u8, shift: u8, next: nat) -> Seq<u8> {
    seq![width, shift] + le_bytes(next, 8)
}

/// A meta file tells what was stored in it.
pub proof fn law_meta_round_trip(width: u8, shift: u8, next: u64)
    ensures
        ({
            let meta = stored_meta(width, shift, next as nat);
            &&& meta.len() == 10
            &&& meta[0] == width
            &&& meta[1] == shift
            &&& le_value(meta.subrange(2, 10)) == next
        }),
{
    lemma_le_bytes_len(next as nat, 8);
    lemma_pow256_values();
    law_le_round_trip(next as nat, 8);
    assert(stored_meta(width, shift, next as nat).subrange(2, 10) =~= le_bytes(next as nat, 8));
}

/// The open handles with a blank in place of what is known of the contents.
spec fn bare(hs: Map<u64, OpenFile>) -> Map<u64, HandleInfo> {
    Map::new(
        |h: u64| hs.contains_key(h),
        |h: u64|
            HandleInfo {
                stream_id: hs[h].stream_id,
                mode: hs[h].mode,
                cached_descriptor: StreamDescriptor {
                    size: 0,
                    top_block: 0,
                    reserved: 0,
                    flags: 0,
                },
            },
    )
}

impl StreamsFromFiles {
    pub closed spec fn width(&self) -> u8 {
        self.block_index_width
    }

    pub closed spec fn shift(&self) -> u8 {
        self.block_size_shift
    }

    /// The number of the stream that is made next.
    pub closed spec fn next(&self) -> u64 {
        self.next_stream_id
    }

    /// The open handles.
    pub closed spec fn handles(&self) -> Map<FileStreamHandle, OpenState> {
        Map::new(
            |h: FileStreamHandle| self.open_handles@.contains_key(h.num()),
            |h: FileStreamHandle|
                OpenState {
                    stream: self.open_handles@[h.num()].stream_id,
                    mode: self.open_handles@[h.num()].mode,
                },
        )
    }

    /// One more handle of stream `id` can be counted.
    pub closed spec fn room_for(&self, id: u64) -> bool {
        self.next_handle_id < u64::MAX && lock_of(self.locks@, id).readers < u32::MAX
    }

    /// The locks are those of the open handles, and the handles that are to come
    /// are new.
    pub closed spec fn wf(&self) -> bool {
        &&& locks_ok(self.locks@, bare(self.open_handles@))
        &&& infos_exclusive(bare(self.open_handles@))
        &&& forall|h: u64| #[trigger]
            self.open_handles@.contains_key(h) ==> h < self.next_handle_id
    }

    /// The store is the same but for the open handles.
    pub open spec fn same_streams(&self, other: &StreamsFromFiles) -> bool {
        self.width() == other.width() && self.shift() == other.shift() && self.next()
            == other.next()
    }

    /// Of two open handles of one stream, neither writes.
    pub proof fn law_exclusive(&self)
        requires
            self.wf(),
        ensures
            exclusive(self.handles()),
    {
        let hv = handle_view(bare(self.open_handles@));
        lemma_view_exclusive(bare(self.open_handles@));
        assert forall|g: FileStreamHandle, h: FileStreamHandle| #[trigger]
            self.handles().contains_key(g) && #[trigger] self.handles().contains_key(h) && g != h
                && self.handles()[g].stream == self.handles()[h].stream
            implies self.handles()[g].mode is Read && self.handles()[h].mode is Read by {
            assert(hv.contains_key(BlockStreamHandle(g.0)));
            assert(hv.contains_key(BlockStreamHandle(h.0)));
        }
    }

    proof fn lemma_views(&self, id: u64)
        ensures
            forall|mode: OpenMode| #[trigger]
                can_open(handle_view(bare(self.open_handles@)), id, mode) == can_open(
                    self.handles(),
                    id,
                    mode,
                ),
            is_open(handle_view(bare(self.open_handles@)), id) == is_open(self.handles(), id),
    {
        let hv = handle_view(bare(self.open_handles@));
        let mine = self.handles();
        assert forall|mode: OpenMode| #[trigger] can_open(hv, id, mode) == can_open(
            mine,
            id,
            mode,
        ) by {
            if can_open(hv, id, mode) {
                assert forall|h: FileStreamHandle| #[trigger]
                    mine.contains_key(h) && mine[h].stream == id implies mode is Read
                    && mine[h].mode is Read by {
                    assert(hv.contains_key(BlockStreamHandle(h.0)));
                }
            }
            if can_open(mine, id, mode) {
                assert forall|h: BlockStreamHandle| #[trigger]
                    hv.contains_key(h) && hv[h].stream == id implies mode is Read
                    && hv[h].mode is Read by {
                    assert(mine.contains_key(FileStreamHandle(h.0)));
                }
            }
        }
        if is_open(hv, id) {
            let h = choose|h: BlockStreamHandle| #[trigger] hv.contains_key(h) && hv[h].stream == id;
            assert(mine.contains_key(FileStreamHandle(h.0)));
        }
        if is_open(mine, id) {
            let h = choose|h: FileStreamHandle| #[trigger]
                mine.contains_key(h) && mine[h].stream == id;
            assert(hv.contains_key(BlockStreamHandle(h.0)));
        }
    }

    fn with(block_index_width: u8, block_size_shift: u8, next_stream_id: u64) -> (store:
        StreamsFromFiles)
        ensures
            store.wf(),
            store.width() == block_index_width,
            store.shift() == block_size_shift,
            store.next() == next_stream_id,
            store.handles() == Map::<FileStreamHandle, OpenState>::empty(),
    {
        let store = StreamsFromFiles {
            block_index_width,
            block_size_shift,
            next_stream_id,
            next_handle_id: 0,
            locks: LockTable::new(),
            open_handles: HashMap::new(),
        };
        proof {
            let hs = bare(store.open_handles@);
            assert(hs =~= Map::<u64, HandleInfo>::empty());
            assert(store.handles() =~= Map::<FileStreamHandle, OpenState>::empty());
            assert forall|id: u64| (#[trigger] lock_of(store.locks@, id)).readers
                == crate::handles::readers_of(hs, id).len() by {
                assert(crate::handles::readers_of(hs, id) =~= Set::<u64>::empty());
            }
        }
        store
    }

    /// An empty store.
    pub fn create(block_index_width: u8, block_size_shift: u8) -> (store: StreamsFromFiles)
        ensures
            store.wf(),
            store.width() == block_index_width,
            store.shift() == block_size_shift,
            store.next() == 0,
            store.handles() == Map::<FileStreamHandle, OpenState>::empty(),
    {
        Self::with(block_index_width, block_size_shift, 0)
    }

    /// The store that its meta file tells of, with nothing open.
    pub fn open(meta: &[u8]) -> (r: Result<StreamsFromFiles, SfsError>)
        ensures
            r is Ok <==> meta@.len() >= 10,
            r matches Ok(store) ==> {
                &&& store.wf()
                &&& store.width() == meta@[0]
                &&& store.shift() == meta@[1]
                &&& store.next() == le_value(meta@.subrange(2, 10))
                &&& store.handles() == Map::<FileStreamHandle, OpenState>::empty()
            },
            r matches Err(e) ==> e is IoError,
    {
        if meta.len() < 10 {
            return Err(SfsError::IoError("meta file too short".to_owned()));
        }
        Ok(Self::with(meta[0], meta[1], get_le(meta, 2, 8)))
    }

    /// What the meta file is to hold.
    pub fn meta(&self) -> (bytes: Vec<u8>)
        ensures
            bytes@ == stored_meta(self.width(), self.shift(), self.next() as nat),
    {
        let mut bytes: Vec<u8> = Vec::new();
        bytes.push(self.block_index_width);
        bytes.push(self.block_size_shift);
        push_le(&mut bytes, self.next_stream_id, 8);
        proof {
            assert(bytes@ =~= stored_meta(self.width(), self.shift(), self.next() as nat));
        }
        bytes
    }

    /// The name of the file of stream `id`.
    pub fn stream_path(&self, id: u64) -> (name: String)
        ensures
            name@ == decimal(id as nat) + ".stream"@,
    {
        let name: String = text_num("", id, ".stream");
        proof {
            reveal_strlit("");
            assert(""@ + decimal(id as nat) =~= decimal(id as nat));
        }
        name
    }

    pub fn block_index_width(&self) -> (width: u8)
        ensures
            width == self.width(),
    {
        self.block_index_width
    }

    pub fn block_size_shift(&self) -> (shift: u8)
        ensures
            shift == self.shift(),
    {
        self.block_size_shift
    }

    /// The number of the stream to make: its file is to be there and empty.
    pub fn create_stream(&self) -> (id: u64)
        ensures
            id == self.next(),
    {
        self.next_stream_id
    }

    /// The stream to make was made. Its number is not given out again. The
    /// result is what the meta file is to hold.
    pub fn stream_created(&mut self) -> (meta: Vec<u8>)
        requires
            old(self).next() < u64::MAX,
        ensures
            final(self).next() == old(self).next() + 1,
            final(self).width() == old(self).width(),
            final(self).shift() == old(self).shift(),
            final(self).handles() == old(self).handles(),
            old(self).wf() ==> final(self).wf(),
            meta@ == stored_meta(
                final(self).width(),
                final(self).shift(),
                final(self).next() as nat,
            ),
    {
        self.next_stream_id = self.next_stream_id + 1;
        self.meta()
    }

    /// Opens stream `id`, whose file is there where `exists`. One handle writes
    /// or many read.
    pub fn open_stream(&mut self, id: u64, mode: OpenMode, exists: bool) -> (r: Result<
        FileStreamHandle,
        SfsError,
    >)
        requires
            old(self).wf(),
            old(self).room_for(id),
        ensures
            final(self).wf(),
            final(self).same_streams(old(self)),
            r is Ok <==> exists && can_open(old(self).handles(), id, mode),
            r matches Ok(handle) ==> {
                &&& !old(self).handles().contains_key(handle)
                &&& final(self).handles() == old(self).handles().insert(
                    handle,
                    OpenState { stream: id, mode },
                )
            },
            r matches Err(e) ==> {
                &&& final(self).handles() == old(self).handles()
                &&& !exists ==> e is NotFound
                &&& exists ==> e is LockConflict
            },
    {
        if !exists {
            return Err(SfsError::NotFound(text_num("stream ", id, "")));
        }
        let ghost locks = self.locks@;
        let ghost infos = self.open_handles@;
        proof {
            lemma_locks_mean(locks, bare(infos), id);
            self.lemma_views(id);
        }
        match self.locks.acquire_lock(id, mode) {
            Ok(_) => {},
            Err(_) => {
                proof {
                    assert(!can_open(handle_view(bare(infos)), id, mode));
                }
                let held: &str = if matches!(mode, OpenMode::Read) {
                    " is opened for writing"
                } else if self.locks.get(id).has_writer {
                    " is already opened for writing"
                } else {
                    " has active readers"
                };
                return Err(SfsError::LockConflict(text_num("stream ", id, held)));
            },
        }
        let handle_id: u64 = self.next_handle_id;
        self.next_handle_id = handle_id + 1;
        self.open_handles.insert(handle_id, OpenFile { stream_id: id, mode });
        let handle = FileStreamHandle(handle_id);
        proof {
            let info = HandleInfo {
                stream_id: id,
                mode,
                cached_descriptor: StreamDescriptor {
                    size: 0,
                    top_block: 0,
                    reserved: 0,
                    flags: 0,
                },
            };
            assert(can_open(handle_view(bare(infos)), id, mode));
            assert(!bare(infos).contains_key(handle_id));
            lemma_handle_opened(locks, bare(infos), handle_id, info);
            assert(bare(self.open_handles@) =~= bare(infos).insert(handle_id, info));
            assert(self.handles() =~= old(self).handles().insert(
                handle,
                OpenState { stream: id, mode },
            ));
        }
        Ok(handle)
    }

    /// Closes a handle.
    pub fn close_stream(&mut self, handle: FileStreamHandle) -> (r: Result<(), SfsError>)
        requires
            old(self).wf(),
        ensures
            final(self).wf(),
            final(self).same_streams(old(self)),
            r is Ok <==> old(self).handles().contains_key(handle),
            final(self).handles() == old(self).handles().remove(handle),
            r matches Err(e) ==> e is NotFound,
    {
        let ghost locks = self.locks@;
        let ghost infos = self.open_handles@;
        let info: OpenFile = match self.open_handles.get(&handle.0) {
            Some(info) => *info,
            None => {
                proof {
                    assert(self.handles() =~= old(self).handles().remove(handle));
                }
                return Err(SfsError::NotFound("invalid stream handle".to_owned()));
            },
        };
        self.open_handles.remove(&handle.0);
        self.locks.release_lock(info.stream_id, info.mode);
        proof {
            assert(bare(infos).contains_key(handle.0));
            lemma_handle_closed(locks, bare(infos), handle.0);
            assert(bare(self.open_handles@) =~= bare(infos).remove(handle.0));
            assert(self.handles() =~= old(self).handles().remove(handle));
        }
        Ok(())
    }

    /// Whether stream `id` can be deleted: its file must be there, and nobody may
    /// have it open.
    pub fn delete_stream(&self, id: u64, exists: bool) -> (r: Result<(), SfsError>)
        requires
            self.wf(),
        ensures
            r is Ok <==> exists && !is_open(self.handles(), id),
            r matches Err(e) ==> {
                &&& !exists ==> e is NotFound
                &&& exists ==> e is LockConflict
            },
    {
        if !exists {
            return Err(SfsError::NotFound(text_num("stream ", id, "")));
        }
        proof {
            lemma_locks_mean(self.locks@, bare(self.open_handles@), id);
            self.lemma_views(id);
        }
        if self.locks.is_locked(id) {
            return Err(SfsError::LockConflict(text_num("cannot delete open stream ", id, "")));
        }
        Ok(())
    }

    /// The stream of a handle, which is to be read or measured.
    pub fn read(&self, handle: &FileStreamHandle) -> (r: Result<u64, SfsError>)
        ensures
            r is Ok <==> self.handles().contains_key(*handle),
            r matches Ok(id) ==> id == self.handles()[*handle].stream,
            r matches Err(e) ==> e is NotFound,
    {
        match self.open_handles.get(&handle.0) {
            Some(info) => Ok(info.stream_id),
            None => Err(SfsError::NotFound("invalid stream handle".to_owned())),
        }
    }

    /// The stream of a handle, which is to be written or cut.
    pub fn write(&self, handle: &FileStreamHandle) -> (r: Result<u64, SfsError>)
        ensures
            r is Ok <==> writes(self.handles(), *handle),
            r matches Ok(id) ==> id == self.handles()[*handle].stream,
            r matches Err(e) ==> {
                &&& !self.handles().contains_key(*handle) ==> e is NotFound
                &&& self.handles().contains_key(*handle) ==> e is LockConflict
            },
    {
        match self.open_handles.get(&handle.0) {
            Some(info) => match info.mode {
                OpenMode::Write => Ok(info.stream_id),
                OpenMode::Read => Err(
                    SfsError::LockConflict("stream is not opened for writing".to_owned()),
                ),
            },
            None => Err(SfsError::NotFound("invalid stream handle".to_owned())),
        }
    }
}

} // verus!
