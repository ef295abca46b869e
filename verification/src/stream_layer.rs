//! Layer 3: numbered streams of bytes.

use crate::block_layer::{sentinel, zero_bytes};
use crate::bytes::{after_read, read_count};
use crate::plain::too_large;
use crate::pyramid::ceil_div;
use crate::types::{decimal, mentions, HeaderSlotId, OpenMode, SfsError};
use std::collections::VecDeque;
use vstd::prelude::*;

verus! {

/// One stream: its bytes, the capacity that is kept for it, and whether it is
/// stored compressed.
#[verifier::ext_equal]
pub struct StreamState {
    pub data: Seq<u8>,
    pub reserved: nat,
    pub compressed: bool,
}

/// What an open handle stands for.
pub struct OpenState {
    pub stream: u64,
    pub mode: OpenMode,
}

/// A stream with nothing in it.
pub open spec fn empty_stream(compressed: bool) -> StreamState {
    StreamState { data: Seq::empty(), reserved: 0, compressed }
}

/// One writer or many readers: whether stream `id` can be opened in `mode`
/// while `handles` are open.
pub open spec fn can_open<H>(handles: Map<H, OpenState>, id: u64, mode: OpenMode) -> bool {
    forall|h: H| #[trigger]
        handles.contains_key(h) && handles[h].stream == id ==> mode is Read && handles[h].mode is Read
}

/// Some handle of stream `id` is open.
pub open spec fn is_open<H>(handles: Map<H, OpenState>, id: u64) -> bool {
    exists|h: H| #[trigger] handles.contains_key(h) && handles[h].stream == id
}

/// Of two handles of one stream, neither writes.
pub open spec fn exclusive<H>(handles: Map<H, OpenState>) -> bool {
    forall|g: H, h: H| #[trigger]
        handles.contains_key(g) && #[trigger] handles.contains_key(h) && g != h
            && handles[g].stream == handles[h].stream ==> handles[g].mode is Read
            && handles[h].mode is Read
}

/// `h` is an open handle for writing.
pub open spec fn writes<H>(handles: Map<H, OpenState>, h: H) -> bool {
    handles.contains_key(h) && handles[h].mode is Write
}

/// `id` is the smallest number that is no stream's.
pub open spec fn first_unused(streams: Map<u64, StreamState>, id: u64) -> bool {
    &&& !streams.contains_key(id)
    &&& forall|j: u64| j < id ==> #[trigger] streams.contains_key(j)
}

/// All numbers below `limit` are some stream's.
pub open spec fn all_used(streams: Map<u64, StreamState>, limit: nat) -> bool {
    forall|j: u64| j < limit ==> #[trigger] streams.contains_key(j)
}

/// `d1` is `d0` with `buf` written at `pos`. Where `pos` lies behind the end of
/// `d0`, what stands between is left open.
pub open spec fn written(d0: Seq<u8>, d1: Seq<u8>, pos: int, buf: Seq<u8>) -> bool {
    if buf.len() == 0 {
        d1 == d0
    } else {
        &&& d1.len() == if pos + buf.len() > d0.len() {
            pos + buf.len()
        } else {
            d0.len() as int
        }
        &&& forall|p: int| pos <= p < pos + buf.len() ==> #[trigger] d1[p] == buf[p - pos]
        &&& forall|p: int|
            0 <= p < d0.len() && !(pos <= p < pos + buf.len()) ==> #[trigger] d1[p] == d0[p]
    }
}

/// The capacity after room for `bytes` bytes was asked for.
pub open spec fn grown_capacity(reserved: nat, bytes: nat, unit: nat) -> nat {
    if bytes <= reserved {
        reserved
    } else {
        ceil_div(bytes, unit) * unit
    }
}

/// The length of a stream of `len` bytes that is cut down to `new_len` bytes.
pub open spec fn cut_len(len: nat, new_len: nat) -> nat {
    if new_len < len {
        new_len
    } else {
        len
    }
}

/// A stream cut down to `new_len` bytes. Of its capacity it keeps what its bytes
/// need.
pub open spec fn cut(s: StreamState, new_len: nat, unit: nat) -> StreamState {
    let len = cut_len(s.data.len(), new_len);
    StreamState {
        data: s.data.take(len as int),
        reserved: ceil_div(len, unit) * unit,
        compressed: s.compressed,
    }
}

/// What is reported of a stream that is claimed and is not there.
pub open spec fn missing_text(id: u64) -> Seq<char> {
    "L3: stream "@ + decimal(id as nat) + " claimed by L4 but not found in stream descriptors"@
}

/// What is reported of a stream that is there and is not claimed.
pub open spec fn orphan_text(id: u64) -> Seq<char> {
    "L3: stream "@ + decimal(id as nat)
        + " exists in stream descriptors but is not claimed by L4 (orphaned stream)"@
}

/// Every number that is claimed and not there, or there and not claimed, is
/// reported.
pub open spec fn tells_apart(issues: Seq<String>, claimed: Seq<u64>, there: Set<u64>) -> bool {
    &&& forall|id: u64| #[trigger]
        claimed.contains(id) && !there.contains(id) ==> mentions(issues, missing_text(id))
    &&& forall|id: u64| #[trigger]
        there.contains(id) && !claimed.contains(id) ==> mentions(issues, orphan_text(id))
}

/// More issues tell no less.
pub proof fn lemma_more_issues(
    issues: Seq<String>,
    before: Seq<String>,
    after: Seq<String>,
    claimed: Seq<u64>,
    there: Set<u64>,
)
    requires
        tells_apart(issues, claimed, there),
    ensures
        tells_apart(before + issues + after, claimed, there),
{
    let all = before + issues + after;
    assert forall|text: Seq<char>| #[trigger] mentions(issues, text) implies mentions(all, text) by {
        let i = choose|i: int| 0 <= i < issues.len() && (#[trigger] issues[i])@ == text;
        assert(all[before.len() + i] == issues[i]);
    }
}

/// Stream storage.
///
/// A layer is known by its streams, by the handles that are open and by the
/// header slots below. `faults` counts the calls that failed in the storage
/// (the medium failed, or a number of blocks, bytes or handles ran out): what a
/// call promises, it promises when it meets no fault. After a fault the layer
/// is to be opened anew.
pub trait StreamLayer: Sized {
    type Handle: Copy;

    /// The streams, each by its number, as their writers see them.
    spec fn streams(&self) -> Map<u64, StreamState>;

    /// The open handles.
    spec fn handles(&self) -> Map<Self::Handle, OpenState>;

    /// The header slots.
    spec fn slots(&self) -> Seq<Seq<u8>>;

    /// The position of the first header slot that is for the layers above.
    spec fn first_slot(&self) -> nat;

    /// The number of bytes of a stream number in storage.
    spec fn iwidth(&self) -> nat;

    /// The number of bytes by which the capacity of a stream grows.
    spec fn unit(&self, compressed: bool) -> nat;

    /// Streams can be compressed.
    spec fn compression(&self) -> bool;

    /// The number of calls that failed in the storage.
    spec fn faults(&self) -> nat;

    /// No call that only reads fails in the storage.
    spec fn reads_always() -> bool;

    /// The layer is consistent.
    spec fn wf(&self) -> bool;

    /// The layer is open and can be read, though what it holds may be damaged.
    spec fn usable(&self) -> bool;

    /// The storage failed when a stream was closed. The other streams can be closed
    /// still, and nothing more is read or written.
    spec fn failed(&self) -> bool;

    /// No storage is taken that belongs to no stream.
    spec fn tidy(&self) -> bool;

    /// What is stored is in order, and the streams that it holds are those that
    /// `claimed` names.
    spec fn intact(&self, claimed: Seq<u64>) -> bool;

    /// The streams that are not compressed and can be read as a whole, as they
    /// are stored.
    spec fn stored(&self) -> Map<u64, StreamState>;

    /// What is known of every layer that is open.
    proof fn lemma_usable(&self)
        requires
            self.usable(),
        ensures
            1 <= self.iwidth() <= 8,
            1 <= self.first_slot() <= 255,
    ;

    /// What is known of every consistent layer.
    proof fn lemma_wf(&self)
        requires
            self.wf(),
        ensures
            self.usable(),
            1 <= self.iwidth() <= 8,
            1 <= self.first_slot() <= 255,
            exclusive(self.handles()),
            self.streams().dom().finite(),
            forall|h: Self::Handle| #[trigger]
                self.handles().contains_key(h) ==> self.streams().contains_key(
                    self.handles()[h].stream,
                ),
            forall|id: u64| #[trigger]
                self.streams().contains_key(id) ==> id < sentinel(self.iwidth())
                    && self.streams()[id].data.len() <= self.streams()[id].reserved <= u64::MAX
                    && self.streams()[id].reserved % self.unit(self.streams()[id].compressed) == 0,
            forall|c: bool| 1 <= #[trigger] self.unit(c) <= 0x8000_0000,
    ;

    /// A consistent layer that no stream is open in for writing, and that takes
    /// no storage in vain, is intact for the claims that name its streams, and
    /// for no others.
    proof fn lemma_intact(&self, claimed: Seq<u64>)
        requires
            self.wf(),
            self.tidy(),
            forall|h: Self::Handle| #[trigger]
                self.handles().contains_key(h) ==> self.handles()[h].mode is Read,
        ensures
            self.intact(claimed) <==> forall|id: u64| #[trigger]
                claimed.contains(id) <==> self.streams().contains_key(id),
    ;

    /// In a consistent layer that no stream is open in for writing, what is
    /// stored is what the streams are.
    proof fn lemma_stored_streams(&self)
        requires
            self.wf(),
            forall|h: Self::Handle| #[trigger]
                self.handles().contains_key(h) ==> self.handles()[h].mode is Read,
        ensures
            forall|id: u64| #[trigger]
                self.stored().contains_key(id) <==> self.streams().contains_key(id)
                    && !self.streams()[id].compressed,
            forall|id: u64| #[trigger]
                self.stored().contains_key(id) ==> self.stored()[id] == self.streams()[id],
    ;

    /// Creates a new layer at `path`, with header slots of the given sizes for
    /// the layers above.
    fn create(
        path: &str,
        block_index_width: u8,
        block_size_shift: u8,
        compressed_block_size_shift: u8,
        slot_sizes: VecDeque<u16>,
    ) -> (r: Result<Self, SfsError>)
        ensures
            r matches Ok(layer) ==> {
                &&& layer.wf()
                &&& layer.tidy()
                &&& layer.streams() == Map::<u64, StreamState>::empty()
                &&& layer.handles() == Map::<Self::Handle, OpenState>::empty()
                &&& layer.iwidth() == block_index_width
                &&& layer.unit(false) == vstd::arithmetic::power2::pow2(block_size_shift as nat)
                &&& layer.unit(true) == vstd::arithmetic::power2::pow2(
                    compressed_block_size_shift as nat,
                )
                &&& layer.compression() == (compressed_block_size_shift > 0)
                &&& layer.slots().len() == layer.first_slot() + slot_sizes@.len()
                &&& forall|i: int|
                    0 <= i < slot_sizes@.len() ==> #[trigger] layer.slots()[layer.first_slot() + i]
                        == zero_bytes(slot_sizes@[i] as nat)
            },
    ;

    /// Opens the layer at `path`. What it finds there may be damaged: `verify`
    /// tells.
    fn open(path: &str, mode: OpenMode) -> (r: Result<Self, SfsError>)
        ensures
            r matches Ok(layer) ==> layer.usable() && layer.handles() == Map::<
                Self::Handle,
                OpenState,
            >::empty(),
    ;

    /// The number of bytes of a stream number in storage.
    fn block_index_width(&self) -> (width: u8)
        requires
            self.wf() || self.usable(),
        ensures
            width == self.iwidth(),
            1 <= width <= 8,
    ;

    /// The size of a block as a power of two.
    fn block_size_shift(&self) -> (shift: u8)
        requires
            self.wf() || self.usable(),
        ensures
            self.unit(false) == vstd::arithmetic::power2::pow2(shift as nat),
    ;

    /// The size of a compressed piece as a power of two; zero where streams
    /// cannot be compressed.
    fn compressed_block_size_shift(&self) -> (shift: u8)
        requires
            self.wf() || self.usable(),
        ensures
            self.unit(true) == vstd::arithmetic::power2::pow2(shift as nat),
            self.compression() == (shift > 0),
    ;

    /// Creates an empty stream under the smallest number that is free.
    fn create_stream(&mut self, compressed: bool) -> (r: Result<u64, SfsError>)
        requires
            old(self).wf(),
        ensures
            final(self).iwidth() == old(self).iwidth(),
            final(self).first_slot() == old(self).first_slot(),
            forall|c: bool| final(self).unit(c) == old(self).unit(c),
            final(self).compression() == old(self).compression(),
            final(self).faults() >= old(self).faults(),
            r is Ok ==> final(self).faults() == old(self).faults(),
            final(self).faults() == old(self).faults() ==> {
                &&& final(self).wf()
                &&& old(self).tidy() ==> final(self).tidy()
                &&& final(self).handles() == old(self).handles()
                &&& final(self).slots().len() == old(self).slots().len()
                &&& final(self).slots().skip(old(self).first_slot() as int) == old(
                    self,
                ).slots().skip(old(self).first_slot() as int)
                &&& r is Err <==> (compressed && !old(self).compression()) || all_used(
                    old(self).streams(),
                    sentinel(old(self).iwidth()),
                )
                &&& r matches Err(e) ==> e is IoError && final(self).streams() == old(
                    self,
                ).streams()
                &&& r matches Ok(id) ==> {
                    &&& first_unused(old(self).streams(), id)
                    &&& final(self).streams() == old(self).streams().insert(
                        id,
                        empty_stream(compressed),
                    )
                }
            },
    ;

    /// Whether there is a stream `id`.
    fn stream_exists(&mut self, id: u64) -> (found: bool)
        requires
            old(self).wf(),
        ensures
            final(self).wf(),
            final(self).tidy() == old(self).tidy(),
            final(self).iwidth() == old(self).iwidth(),
            final(self).first_slot() == old(self).first_slot(),
            forall|c: bool| final(self).unit(c) == old(self).unit(c),
            final(self).compression() == old(self).compression(),
            final(self).streams() == old(self).streams(),
            final(self).handles() == old(self).handles(),
            final(self).slots() == old(self).slots(),
            final(self).faults() >= old(self).faults(),
            Self::reads_always() ==> final(self).faults() == old(self).faults(),
            final(self).faults() == old(self).faults() ==> found == old(
                self,
            ).streams().contains_key(id),
    ;

    /// The number of streams.
    fn stream_count(&mut self) -> (r: Result<u64, SfsError>)
        requires
            old(self).wf(),
        ensures
            final(self).wf(),
            final(self).tidy() == old(self).tidy(),
            final(self).iwidth() == old(self).iwidth(),
            final(self).first_slot() == old(self).first_slot(),
            forall|c: bool| final(self).unit(c) == old(self).unit(c),
            final(self).compression() == old(self).compression(),
            final(self).streams() == old(self).streams(),
            final(self).handles() == old(self).handles(),
            final(self).slots() == old(self).slots(),
            final(self).faults() >= old(self).faults(),
            Self::reads_always() ==> final(self).faults() == old(self).faults(),
            (r is Ok) == (final(self).faults() == old(self).faults()),
            r matches Ok(n) ==> n == old(self).streams().dom().len(),
    ;

    /// The numbers of all streams, in ascending order.
    fn stream_ids(&mut self) -> (r: Result<Vec<u64>, SfsError>)
        requires
            old(self).wf(),
        ensures
            final(self).wf(),
            final(self).tidy() == old(self).tidy(),
            final(self).iwidth() == old(self).iwidth(),
            final(self).first_slot() == old(self).first_slot(),
            forall|c: bool| final(self).unit(c) == old(self).unit(c),
            final(self).compression() == old(self).compression(),
            final(self).streams() == old(self).streams(),
            final(self).handles() == old(self).handles(),
            final(self).slots() == old(self).slots(),
            final(self).faults() >= old(self).faults(),
            Self::reads_always() ==> final(self).faults() == old(self).faults(),
            (r is Ok) == (final(self).faults() == old(self).faults()),
            r matches Ok(ids) ==> {
                &&& forall|i: int, j: int| 0 <= i < j < ids@.len() ==> ids@[i] < ids@[j]
                &&& forall|id: u64| #[trigger]
                    ids@.contains(id) <==> old(self).streams().contains_key(id)
            },
    ;

    /// Opens a stream. One writer or many readers: where the stream is open
    /// otherwise, the call fails at once.
    fn open_stream(&mut self, id: u64, mode: OpenMode) -> (r: Result<Self::Handle, SfsError>)
        requires
            old(self).wf(),
        ensures
            final(self).iwidth() == old(self).iwidth(),
            final(self).first_slot() == old(self).first_slot(),
            forall|c: bool| final(self).unit(c) == old(self).unit(c),
            final(self).compression() == old(self).compression(),
            final(self).faults() >= old(self).faults(),
            r is Ok ==> final(self).faults() == old(self).faults(),
            final(self).faults() == old(self).faults() ==> {
                &&& final(self).wf()
                &&& old(self).tidy() ==> final(self).tidy()
                &&& final(self).streams() == old(self).streams()
                &&& final(self).slots() == old(self).slots()
                &&& r is Ok <==> old(self).streams().contains_key(id) && can_open(
                    old(self).handles(),
                    id,
                    mode,
                )
                &&& r matches Err(e) ==> {
                    &&& final(self).handles() == old(self).handles()
                    &&& id == u64::MAX ==> e is InvalidPath
                    &&& id != u64::MAX && !can_open(old(self).handles(), id, mode)
                        ==> e is LockConflict
                    &&& id != u64::MAX && can_open(old(self).handles(), id, mode) ==> e is NotFound
                }
                &&& r matches Ok(h) ==> {
                    &&& !old(self).handles().contains_key(h)
                    &&& final(self).handles() == old(self).handles().insert(
                        h,
                        OpenState { stream: id, mode },
                    )
                }
            },
    ;

    /// Opens a stream as `open_stream` does. With one owner nobody else can
    /// give a lock back while the call waits, so there is no waiting.
    fn open_stream_blocking(&mut self, id: u64, mode: OpenMode) -> (r: Result<
        Self::Handle,
        SfsError,
    >)
        requires
            old(self).wf(),
        ensures
            final(self).iwidth() == old(self).iwidth(),
            final(self).first_slot() == old(self).first_slot(),
            forall|c: bool| final(self).unit(c) == old(self).unit(c),
            final(self).compression() == old(self).compression(),
            final(self).faults() >= old(self).faults(),
            r is Ok ==> final(self).faults() == old(self).faults(),
            final(self).faults() == old(self).faults() ==> {
                &&& final(self).wf()
                &&& old(self).tidy() ==> final(self).tidy()
                &&& final(self).streams() == old(self).streams()
                &&& final(self).slots() == old(self).slots()
                &&& r is Ok <==> old(self).streams().contains_key(id) && can_open(
                    old(self).handles(),
                    id,
                    mode,
                )
                &&& r matches Err(e) ==> {
                    &&& final(self).handles() == old(self).handles()
                    &&& id == u64::MAX ==> e is InvalidPath
                    &&& id != u64::MAX && !can_open(old(self).handles(), id, mode)
                        ==> e is LockConflict
                    &&& id != u64::MAX && can_open(old(self).handles(), id, mode) ==> e is NotFound
                }
                &&& r matches Ok(h) ==> {
                    &&& !old(self).handles().contains_key(h)
                    &&& final(self).handles() == old(self).handles().insert(
                        h,
                        OpenState { stream: id, mode },
                    )
                }
            },
    {
        self.open_stream(id, mode)
    }

    /// Closes a handle. It is closed also where the storage fails, or has failed
    /// before: what a writer has to store is lost then.
    fn close_stream(&mut self, handle: Self::Handle) -> (r: Result<(), SfsError>)
        requires
            old(self).wf() || old(self).failed(),
        ensures
            final(self).iwidth() == old(self).iwidth(),
            final(self).first_slot() == old(self).first_slot(),
            forall|c: bool| final(self).unit(c) == old(self).unit(c),
            final(self).compression() == old(self).compression(),
            final(self).faults() >= old(self).faults(),
            r is Ok ==> final(self).faults() == old(self).faults(),
            final(self).handles() == old(self).handles().remove(handle),
            !old(self).handles().contains_key(handle) ==> (r matches Err(e) && e is NotFound),
            !(old(self).handles().contains_key(handle) && old(self).handles()[handle].mode is Write)
                ==> final(self).faults() == old(self).faults(),
            old(self).failed() ==> final(self).failed(),
            !old(self).wf() ==> {
                &&& final(self).faults() == old(self).faults()
                &&& final(self).streams() == old(self).streams()
                &&& final(self).slots() == old(self).slots()
                &&& old(self).handles().contains_key(handle) ==> match r {
                    Ok(_) => old(self).handles()[handle].mode is Read,
                    Err(e) => old(self).handles()[handle].mode is Write && e is IoError,
                }
            },
            final(self).faults() != old(self).faults() ==> final(self).failed(),
            old(self).wf() && final(self).faults() == old(self).faults() ==> {
                &&& final(self).wf()
                &&& old(self).tidy() ==> final(self).tidy()
                &&& final(self).streams() == old(self).streams()
                &&& final(self).slots().len() == old(self).slots().len()
                &&& final(self).slots().skip(old(self).first_slot() as int) == old(
                    self,
                ).slots().skip(old(self).first_slot() as int)
                &&& r is Ok <==> old(self).handles().contains_key(handle)
            },
    ;

    /// Deletes a stream that is not open.
    fn delete_stream(&mut self, id: u64) -> (r: Result<(), SfsError>)
        requires
            old(self).wf(),
        ensures
            final(self).iwidth() == old(self).iwidth(),
            final(self).first_slot() == old(self).first_slot(),
            forall|c: bool| final(self).unit(c) == old(self).unit(c),
            final(self).compression() == old(self).compression(),
            final(self).faults() >= old(self).faults(),
            r is Ok ==> final(self).faults() == old(self).faults(),
            final(self).faults() == old(self).faults() ==> {
                &&& final(self).wf()
                &&& old(self).tidy() ==> final(self).tidy()
                &&& final(self).handles() == old(self).handles()
                &&& final(self).slots().len() == old(self).slots().len()
                &&& final(self).slots().skip(old(self).first_slot() as int) == old(
                    self,
                ).slots().skip(old(self).first_slot() as int)
                &&& r is Ok <==> old(self).streams().contains_key(id) && !is_open(
                    old(self).handles(),
                    id,
                )
                &&& r is Ok ==> final(self).streams() == old(self).streams().remove(id)
                &&& r matches Err(e) ==> {
                    &&& final(self).streams() == old(self).streams()
                    &&& is_open(old(self).handles(), id) ==> e is LockConflict
                    &&& !is_open(old(self).handles(), id) ==> e is NotFound
                }
            },
    ;

    /// Reads from a stream, from `pos` on, as far as the stream and `buf`
    /// reach.
    fn read(&mut self, handle: &Self::Handle, pos: u64, buf: &mut [u8]) -> (r: Result<
        usize,
        SfsError,
    >)
        requires
            old(self).wf(),
        ensures
            final(self).wf(),
            final(self).tidy() == old(self).tidy(),
            final(self).iwidth() == old(self).iwidth(),
            final(self).first_slot() == old(self).first_slot(),
            forall|c: bool| final(self).unit(c) == old(self).unit(c),
            final(self).compression() == old(self).compression(),
            final(self).streams() == old(self).streams(),
            final(self).handles() == old(self).handles(),
            final(self).slots() == old(self).slots(),
            final(self).faults() >= old(self).faults(),
            Self::reads_always() ==> final(self).faults() == old(self).faults(),
            r is Ok ==> final(self).faults() == old(self).faults(),
            final(buf)@.len() == old(buf)@.len(),
            final(self).faults() == old(self).faults() ==> {
                &&& r is Ok <==> old(self).handles().contains_key(*handle)
                &&& r matches Err(e) ==> e is NotFound && final(buf)@ == old(buf)@
                &&& r matches Ok(n) ==> {
                    let data = old(self).streams()[old(self).handles()[*handle].stream].data;
                    &&& n == read_count(data.len() as int, pos as int, old(buf)@.len() as int)
                    &&& final(buf)@ == after_read(data, pos as int, old(buf)@)
                }
            },
    ;

    /// Writes to a stream at `pos`. The stream grows where `buf` reaches beyond
    /// its end.
    fn write(&mut self, handle: &Self::Handle, pos: u64, buf: &[u8]) -> (r: Result<
        usize,
        SfsError,
    >)
        requires
            old(self).wf(),
            pos + buf@.len() <= u64::MAX,
        ensures
            final(self).iwidth() == old(self).iwidth(),
            final(self).first_slot() == old(self).first_slot(),
            forall|c: bool| final(self).unit(c) == old(self).unit(c),
            final(self).compression() == old(self).compression(),
            final(self).faults() >= old(self).faults(),
            r is Ok ==> final(self).faults() == old(self).faults(),
            final(self).faults() == old(self).faults() ==> {
                let open = writes(old(self).handles(), *handle);
                let id = old(self).handles()[*handle].stream;
                let s0 = old(self).streams()[id];
                let s1 = final(self).streams()[id];
                let unit = old(self).unit(s0.compressed);
                let end = (pos + buf@.len()) as nat;
                let large = buf@.len() > 0 && too_large(s0.reserved, end, unit);
                &&& final(self).wf()
                &&& old(self).tidy() ==> final(self).tidy()
                &&& final(self).handles() == old(self).handles()
                &&& final(self).slots() == old(self).slots()
                &&& r is Ok <==> open && !large
                &&& r matches Err(e) ==> {
                    &&& final(self).streams() == old(self).streams()
                    &&& !old(self).handles().contains_key(*handle) ==> e is NotFound
                    &&& old(self).handles().contains_key(*handle) && !open ==> e is LockConflict
                    &&& open ==> e is IoError
                }
                &&& r matches Ok(n) ==> {
                    &&& n == buf@.len()
                    &&& final(self).streams() == old(self).streams().insert(id, s1)
                    &&& written(s0.data, s1.data, pos as int, buf@)
                    &&& s1.compressed == s0.compressed
                    &&& s1.reserved == if buf@.len() == 0 {
                        s0.reserved
                    } else {
                        grown_capacity(s0.reserved, end, unit)
                    }
                }
            },
    ;

    /// The length of a stream in bytes.
    fn stream_length(&self, handle: &Self::Handle) -> (r: Result<u64, SfsError>)
        requires
            self.wf(),
        ensures
            match r {
                Ok(n) => self.handles().contains_key(*handle) && n
                    == self.streams()[self.handles()[*handle].stream].data.len(),
                Err(e) => !self.handles().contains_key(*handle) && e is NotFound,
            },
    ;

    /// Cuts a stream down to `new_len` bytes, where it is longer, and gives back
    /// all that was reserved and is not needed.
    fn truncate(&mut self, handle: &Self::Handle, new_len: u64) -> (r: Result<(), SfsError>)
        requires
            old(self).wf(),
        ensures
            final(self).iwidth() == old(self).iwidth(),
            final(self).first_slot() == old(self).first_slot(),
            forall|c: bool| final(self).unit(c) == old(self).unit(c),
            final(self).compression() == old(self).compression(),
            final(self).faults() >= old(self).faults(),
            r is Ok ==> final(self).faults() == old(self).faults(),
            final(self).faults() == old(self).faults() ==> {
                let id = old(self).handles()[*handle].stream;
                let s0 = old(self).streams()[id];
                &&& final(self).wf()
                &&& old(self).tidy() ==> final(self).tidy()
                &&& final(self).handles() == old(self).handles()
                &&& final(self).slots() == old(self).slots()
                &&& r is Ok <==> writes(old(self).handles(), *handle)
                &&& r is Ok ==> final(self).streams() == old(self).streams().insert(
                    id,
                    cut(s0, new_len as nat, old(self).unit(s0.compressed)),
                )
                &&& r matches Err(e) ==> {
                    &&& final(self).streams() == old(self).streams()
                    &&& !old(self).handles().contains_key(*handle) ==> e is NotFound
                    &&& old(self).handles().contains_key(*handle) ==> e is LockConflict
                }
            },
    ;

    /// Makes room for `n_bytes` bytes, without changing what the stream holds.
    fn reserve(&mut self, handle: &Self::Handle, n_bytes: u64) -> (r: Result<(), SfsError>)
        requires
            old(self).wf(),
        ensures
            final(self).iwidth() == old(self).iwidth(),
            final(self).first_slot() == old(self).first_slot(),
            forall|c: bool| final(self).unit(c) == old(self).unit(c),
            final(self).compression() == old(self).compression(),
            final(self).faults() >= old(self).faults(),
            r is Ok ==> final(self).faults() == old(self).faults(),
            final(self).faults() == old(self).faults() ==> {
                let open = writes(old(self).handles(), *handle);
                let id = old(self).handles()[*handle].stream;
                let s0 = old(self).streams()[id];
                let unit = old(self).unit(s0.compressed);
                &&& final(self).wf()
                &&& old(self).tidy() ==> final(self).tidy()
                &&& final(self).handles() == old(self).handles()
                &&& final(self).slots() == old(self).slots()
                &&& r is Ok <==> open && n_bytes >= s0.data.len() && !too_large(
                    s0.reserved,
                    n_bytes as nat,
                    unit,
                )
                &&& r is Ok ==> final(self).streams() == old(self).streams().insert(
                    id,
                    StreamState {
                        data: s0.data,
                        reserved: grown_capacity(s0.reserved, n_bytes as nat, unit),
                        compressed: s0.compressed,
                    },
                )
                &&& r matches Err(e) ==> {
                    &&& final(self).streams() == old(self).streams()
                    &&& !old(self).handles().contains_key(*handle) ==> e is NotFound
                    &&& old(self).handles().contains_key(*handle) && !open ==> e is LockConflict
                    &&& open ==> e is IoError
                }
            },
    ;

    /// The capacity that is kept for a stream, in bytes.
    fn stream_reserved(&self, handle: &Self::Handle) -> (r: Result<u64, SfsError>)
        requires
            self.wf(),
        ensures
            match r {
                Ok(n) => self.handles().contains_key(*handle) && n
                    == self.streams()[self.handles()[*handle].stream].reserved,
                Err(e) => !self.handles().contains_key(*handle) && e is NotFound,
            },
    ;

    /// Whether a stream is stored compressed.
    fn is_stream_compressed(&self, handle: &Self::Handle) -> (r: Result<bool, SfsError>)
        requires
            self.wf(),
        ensures
            match r {
                Ok(c) => self.handles().contains_key(*handle) && c
                    == self.streams()[self.handles()[*handle].stream].compressed,
                Err(e) => !self.handles().contains_key(*handle) && e is NotFound,
            },
    ;

    /// The header slot of the layer `index` places above.
    fn header_slot_for_upper(&self, index: u8) -> (slot: HeaderSlotId)
        requires
            self.first_slot() + index <= 255,
        ensures
            slot.pos() == self.first_slot() + index,
    ;

    /// Writes a header slot of a layer above. `data` must be as long as the
    /// slot.
    fn write_header_slot(&mut self, slot: HeaderSlotId, data: &[u8]) -> (r: Result<(), SfsError>)
        requires
            old(self).wf(),
            slot.pos() >= old(self).first_slot(),
        ensures
            final(self).iwidth() == old(self).iwidth(),
            final(self).first_slot() == old(self).first_slot(),
            forall|c: bool| final(self).unit(c) == old(self).unit(c),
            final(self).compression() == old(self).compression(),
            final(self).faults() >= old(self).faults(),
            r is Ok ==> final(self).faults() == old(self).faults(),
            final(self).faults() == old(self).faults() ==> {
                let fits = slot.pos() < old(self).slots().len() && data@.len() == old(
                    self,
                ).slots()[slot.pos() as int].len();
                &&& final(self).wf()
                &&& old(self).tidy() ==> final(self).tidy()
                &&& final(self).streams() == old(self).streams()
                &&& final(self).handles() == old(self).handles()
                &&& fits ==> r is Ok && final(self).slots() == old(self).slots().update(
                    slot.pos() as int,
                    data@,
                )
                &&& !fits ==> {
                    &&& r matches Err(e) && e is IoError
                    &&& final(self).slots() == old(self).slots()
                }
            },
    ;

    /// Reads a header slot.
    fn read_header_slot(&self, slot: HeaderSlotId) -> (r: Result<Vec<u8>, SfsError>)
        requires
            self.wf() || self.usable(),
        ensures
            match r {
                Ok(data) => slot.pos() < self.slots().len() && data@ == self.slots()[slot.pos() as int],
                Err(e) => slot.pos() >= self.slots().len() && e is IoError,
            },
    ;

    /// Reads all of a stream that is not compressed, as it is stored. This can be
    /// done where what is stored may be damaged.
    fn peek_stream(&mut self, id: u64) -> (r: Result<Vec<u8>, SfsError>)
        requires
            old(self).wf() || old(self).usable(),
        ensures
            final(self).wf() == old(self).wf(),
            final(self).tidy() == old(self).tidy(),
            final(self).usable() == old(self).usable(),
            final(self).iwidth() == old(self).iwidth(),
            final(self).first_slot() == old(self).first_slot(),
            forall|c: bool| final(self).unit(c) == old(self).unit(c),
            final(self).compression() == old(self).compression(),
            final(self).streams() == old(self).streams(),
            final(self).handles() == old(self).handles(),
            final(self).slots() == old(self).slots(),
            forall|claimed: Seq<u64>| #[trigger]
                final(self).intact(claimed) == old(self).intact(claimed),
            final(self).stored() == old(self).stored(),
            final(self).faults() >= old(self).faults(),
            Self::reads_always() ==> final(self).faults() == old(self).faults(),
            r is Ok ==> final(self).faults() == old(self).faults(),
            forall|claimed: Seq<u64>| #[trigger]
                old(self).intact(claimed) && final(self).faults() == old(self).faults() ==> match r {
                    Ok(data) => {
                        &&& old(self).stored().contains_key(id)
                        &&& !old(self).stored()[id].compressed
                        &&& data@ == old(self).stored()[id].data
                    },
                    Err(_) => !old(self).stored().contains_key(id),
                },
            old(self).wf() && final(self).faults() == old(self).faults() && can_open(
                old(self).handles(),
                id,
                OpenMode::Read,
            ) ==> match r {
                Ok(data) => {
                    &&& old(self).streams().contains_key(id)
                    &&& !old(self).streams()[id].compressed
                    &&& data@ == old(self).streams()[id].data
                },
                Err(e) => if old(self).streams().contains_key(id) {
                    old(self).streams()[id].compressed && e is IoError
                } else {
                    e is NotFound
                },
            },
    ;

    /// Checks what is stored. `claimed_streams` are the streams that the layers
    /// above know of. There is something to report unless what is stored is in
    /// order and the claims fit it.
    fn verify(&mut self, claimed_streams: &[u64]) -> (r: Result<Vec<String>, SfsError>)
        requires
            old(self).wf() || old(self).usable(),
        ensures
            final(self).wf() == old(self).wf(),
            final(self).tidy() == old(self).tidy(),
            final(self).usable() == old(self).usable(),
            final(self).iwidth() == old(self).iwidth(),
            final(self).first_slot() == old(self).first_slot(),
            forall|c: bool| final(self).unit(c) == old(self).unit(c),
            final(self).compression() == old(self).compression(),
            final(self).streams() == old(self).streams(),
            final(self).handles() == old(self).handles(),
            final(self).slots() == old(self).slots(),
            final(self).stored() == old(self).stored(),
            forall|claimed: Seq<u64>| #[trigger]
                final(self).intact(claimed) == old(self).intact(claimed),
            final(self).faults() >= old(self).faults(),
            Self::reads_always() ==> final(self).faults() == old(self).faults(),
            r is Err ==> final(self).faults() > old(self).faults(),
            r matches Ok(issues) ==> if final(self).faults() == old(self).faults() {
                &&& issues@.len() == 0 <==> old(self).intact(claimed_streams@)
                &&& old(self).wf() ==> tells_apart(
                    issues@,
                    claimed_streams@,
                    old(self).streams().dom(),
                )
            } else {
                issues@.len() > 0
            },
    ;

    /// Checks what is stored, like `verify`, and beyond that follows every stream to
    /// its last block. Where nothing is found amiss and no stream is open, the layer
    /// is consistent from then on, whatever it was opened on.
    fn examine(&mut self, claimed_streams: &[u64]) -> (r: Result<bool, SfsError>)
        requires
            old(self).wf() || old(self).usable(),
        ensures
            final(self).usable() == old(self).usable(),
            final(self).iwidth() == old(self).iwidth(),
            final(self).first_slot() == old(self).first_slot(),
            forall|c: bool| final(self).unit(c) == old(self).unit(c),
            final(self).compression() == old(self).compression(),
            final(self).handles() == old(self).handles(),
            final(self).slots() == old(self).slots(),
            final(self).stored() == old(self).stored(),
            forall|claimed: Seq<u64>| #[trigger]
                final(self).intact(claimed) == old(self).intact(claimed),
            final(self).faults() >= old(self).faults(),
            Self::reads_always() ==> final(self).faults() == old(self).faults(),
            r is Err ==> final(self).faults() > old(self).faults(),
            old(self).wf() ==> final(self).wf() && final(self).tidy() == old(self).tidy()
                && final(self).streams() == old(self).streams(),
            r == Ok::<bool, SfsError>(true) ==> {
                &&& final(self).wf()
                &&& final(self).tidy()
                &&& final(self).intact(claimed_streams@)
                &&& final(self).handles() == Map::<Self::Handle, OpenState>::empty()
                &&& final(self).faults() == old(self).faults()
            },
            old(self).wf() && old(self).tidy() && old(self).intact(claimed_streams@) && old(
                self,
            ).handles() == Map::<Self::Handle, OpenState>::empty() && final(self).faults() == old(
                self,
            ).faults() ==> r == Ok::<bool, SfsError>(true),
    ;
}

} // verus!
