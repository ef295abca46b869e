//! Open handles of the stream layer, and what they mean for the locks.

use crate::descriptor::StreamDescriptor;
use crate::locks::{lock_free, lock_full, lock_given_back, lock_of, lock_taken, LockState};
use crate::stream_layer::{can_open, exclusive, is_open, OpenState};
use crate::stream_table::{in_table, slot_count, slot_of, Held};
use crate::types::OpenMode;
use vstd::prelude::*;

verus! {

/// Handle of an open stream.
#[derive(Debug, Clone, Copy, PartialEq, Eq, Hash, Structural)]
pub struct BlockStreamHandle(pub(crate) u64);

impl BlockStreamHandle {
    /// The number of the handle.
    pub(crate) open spec fn num(self) -> u64 {
        self.0
    }
}

/// What the layer knows of an open handle.
#[derive(Debug, Clone, Copy)]
pub struct HandleInfo {
    pub stream_id: u64,
    pub mode: OpenMode,
    pub cached_descriptor: StreamDescriptor,
}

/// The handles of stream `id` that read.
pub open spec fn readers_of(hs: Map<u64, HandleInfo>, id: u64) -> Set<u64> {
    hs.dom().filter(|h: u64| hs[h].stream_id == id && hs[h].mode is Read)
}

/// Some handle of stream `id` writes.
pub open spec fn has_writer(hs: Map<u64, HandleInfo>, id: u64) -> bool {
    exists|h: u64| #[trigger] hs.contains_key(h) && hs[h].stream_id == id && hs[h].mode is Write
}

/// The locks are those of the open handles.
pub open spec fn locks_ok(locks: Map<u64, LockState>, hs: Map<u64, HandleInfo>) -> bool {
    &&& hs.dom().finite()
    &&& forall|id: u64| (#[trigger] lock_of(locks, id)).readers == readers_of(hs, id).len()
    &&& forall|id: u64| (#[trigger] lock_of(locks, id)).has_writer == has_writer(hs, id)
    &&& forall|id: u64| #[trigger]
        locks.contains_key(id) ==> locks[id].has_writer || locks[id].readers > 0
}

/// Of two handles of one stream, neither writes.
pub open spec fn infos_exclusive(hs: Map<u64, HandleInfo>) -> bool {
    forall|g: u64, h: u64| #[trigger]
        hs.contains_key(g) && #[trigger] hs.contains_key(h) && g != h && hs[g].stream_id
            == hs[h].stream_id ==> hs[g].mode is Read && hs[h].mode is Read
}

/// The handles stand for streams that there are, and know them as they are.
pub open spec fn infos_ok(hs: Map<u64, HandleInfo>, held: Map<u64, Held>, next: u64) -> bool {
    &&& infos_exclusive(hs)
    &&& forall|h: u64| #[trigger]
        hs.contains_key(h) ==> h < next && held.contains_key(hs[h].stream_id)
            && hs[h].cached_descriptor == held[hs[h].stream_id].desc
}

/// The table lists the streams, each as it is unless it is being written.
pub open spec fn table_ok(
    table: Seq<u8>,
    held: Map<u64, Held>,
    hs: Map<u64, HandleInfo>,
    limit: nat,
) -> bool {
    &&& table.len() % 25 == 0
    &&& slot_count(table) <= limit
    &&& forall|id: u64| #[trigger] held.contains_key(id) <==> in_table(table, id)
    &&& forall|id: u64| #[trigger]
        held.contains_key(id) && !has_writer(hs, id) ==> slot_of(table, id as int) == held[id].desc
}

/// The open handles as the layers above see them.
pub(crate) open spec fn handle_view(hs: Map<u64, HandleInfo>) -> Map<BlockStreamHandle, OpenState> {
    Map::new(
        |h: BlockStreamHandle| hs.contains_key(h.num()),
        |h: BlockStreamHandle|
            OpenState { stream: hs[h.num()].stream_id, mode: hs[h.num()].mode },
    )
}

/// The locks tell which streams can be opened.
pub(crate) proof fn lemma_locks_mean(locks: Map<u64, LockState>, hs: Map<u64, HandleInfo>, id: u64)
    requires
        locks_ok(locks, hs),
    ensures
        forall|mode: OpenMode| #[trigger]
            lock_free(locks, id, mode) == can_open(handle_view(hs), id, mode),
        is_open(handle_view(hs), id) <==> lock_of(locks, id).has_writer || lock_of(
            locks,
            id,
        ).readers > 0,
{
    let hv = handle_view(hs);
    let lock = lock_of(locks, id);
    let rs = readers_of(hs, id);
    assert(rs.finite());
    assert(lock.readers == rs.len());
    assert(lock.has_writer == has_writer(hs, id));
    assert(lock.readers > 0 <==> exists|h: u64| #[trigger] rs.contains(h)) by {
        if lock.readers > 0 {
            assert(rs.contains(rs.choose())) by {
                vstd::set::axiom_set_choose_len(rs);
            }
        } else {
            assert(rs =~= Set::<u64>::empty()) by {
                rs.lemma_len0_is_empty();
            }
        }
    }
    assert forall|mode: OpenMode| #[trigger] lock_free(locks, id, mode) == can_open(hv, id, mode) by {
        if lock_free(locks, id, mode) {
            assert forall|h: BlockStreamHandle| #[trigger]
                hv.contains_key(h) && hv[h].stream == id implies mode is Read
                && hv[h].mode is Read by {
                assert(hs.contains_key(h.num()));
                if hs[h.num()].mode is Write {
                    assert(has_writer(hs, id));
                } else {
                    assert(rs.contains(h.num()));
                }
            }
        }
        if can_open(hv, id, mode) {
            if has_writer(hs, id) {
                let h = choose|h: u64| #[trigger]
                    hs.contains_key(h) && hs[h].stream_id == id && hs[h].mode is Write;
                assert(hv.contains_key(BlockStreamHandle(h)));
            }
            if mode is Write && lock.readers > 0 {
                let h = choose|h: u64| #[trigger] rs.contains(h);
                assert(hv.contains_key(BlockStreamHandle(h)));
            }
        }
    }
    if is_open(hv, id) {
        let h = choose|h: BlockStreamHandle| #[trigger] hv.contains_key(h) && hv[h].stream == id;
        assert(hs.contains_key(h.num()));
        if hs[h.num()].mode is Write {
            assert(has_writer(hs, id));
        } else {
            assert(rs.contains(h.num()));
        }
    }
    if lock.has_writer {
        let h = choose|h: u64| #[trigger]
            hs.contains_key(h) && hs[h].stream_id == id && hs[h].mode is Write;
        assert(hv.contains_key(BlockStreamHandle(h)));
    }
    if lock.readers > 0 {
        let h = choose|h: u64| #[trigger] rs.contains(h);
        assert(hv.contains_key(BlockStreamHandle(h)));
    }
}

/// A handle was opened.
pub(crate) proof fn lemma_handle_opened(
    locks: Map<u64, LockState>,
    hs: Map<u64, HandleInfo>,
    h: u64,
    info: HandleInfo,
)
    requires
        locks_ok(locks, hs),
        infos_exclusive(hs),
        !hs.contains_key(h),
        lock_free(locks, info.stream_id, info.mode),
        !lock_full(locks, info.stream_id, info.mode),
    ensures
        locks_ok(lock_taken(locks, info.stream_id, info.mode), hs.insert(h, info)),
        infos_exclusive(hs.insert(h, info)),
        forall|id: u64| has_writer(hs, id) ==> #[trigger] has_writer(hs.insert(h, info), id),
        handle_view(hs.insert(h, info)) == handle_view(hs).insert(
            BlockStreamHandle(h),
            OpenState { stream: info.stream_id, mode: info.mode },
        ),
{
    let id = info.stream_id;
    let l1 = lock_taken(locks, id, info.mode);
    let h1 = hs.insert(h, info);
    lemma_locks_mean(locks, hs, id);
    assert(can_open(handle_view(hs), id, info.mode));
    assert forall|g: u64| hs.contains_key(g) && hs[g].stream_id == id implies info.mode is Read
        && (#[trigger] hs[g]).mode is Read by {
        assert(handle_view(hs).contains_key(BlockStreamHandle(g)));
    }
    assert forall|j: u64| #[trigger] has_writer(h1, j) == (has_writer(hs, j) || (j == id
        && info.mode is Write)) by {
        if has_writer(hs, j) {
            let g = choose|g: u64| #[trigger]
                hs.contains_key(g) && hs[g].stream_id == j && hs[g].mode is Write;
            assert(h1.contains_key(g) && h1[g] == hs[g]);
        }
        if j == id && info.mode is Write {
            assert(h1.contains_key(h));
        }
        if has_writer(h1, j) {
            let g = choose|g: u64| #[trigger]
                h1.contains_key(g) && h1[g].stream_id == j && h1[g].mode is Write;
            if g != h {
                assert(hs.contains_key(g));
            }
        }
    }
    assert forall|j: u64| (#[trigger] lock_of(l1, j)).readers == readers_of(h1, j).len() by {
        assert(lock_of(locks, j).readers == readers_of(hs, j).len());
        if j == id && info.mode is Read {
            assert(readers_of(h1, j) =~= readers_of(hs, j).insert(h));
        } else {
            assert(readers_of(h1, j) =~= readers_of(hs, j));
        }
    }
    assert forall|j: u64| (#[trigger] lock_of(l1, j)).has_writer == has_writer(h1, j) by {
        assert(lock_of(locks, j).has_writer == has_writer(hs, j));
    }
    assert(handle_view(h1) =~= handle_view(hs).insert(
        BlockStreamHandle(h),
        OpenState { stream: id, mode: info.mode },
    ));
}

/// A handle was closed.
pub(crate) proof fn lemma_handle_closed(locks: Map<u64, LockState>, hs: Map<u64, HandleInfo>, h: u64)
    requires
        locks_ok(locks, hs),
        infos_exclusive(hs),
        hs.contains_key(h),
    ensures
        locks_ok(lock_given_back(locks, hs[h].stream_id, hs[h].mode), hs.remove(h)),
        infos_exclusive(hs.remove(h)),
        forall|id: u64| #[trigger]
            has_writer(hs.remove(h), id) == (has_writer(hs, id) && !(hs[h].mode is Write
                && hs[h].stream_id == id)),
        handle_view(hs.remove(h)) == handle_view(hs).remove(BlockStreamHandle(h)),
{
    let info = hs[h];
    let id = info.stream_id;
    let l1 = lock_given_back(locks, id, info.mode);
    let h1 = hs.remove(h);
    assert(lock_of(locks, id).readers == readers_of(hs, id).len());
    assert(lock_of(locks, id).has_writer == has_writer(hs, id));
    if info.mode is Read {
        assert(readers_of(hs, id).contains(h));
        assert(readers_of(hs, id).len() > 0) by {
            if readers_of(hs, id).len() == 0 {
                readers_of(hs, id).lemma_len0_is_empty();
            }
        }
    } else {
        assert(has_writer(hs, id));
    }
    assert(locks.contains_key(id));
    assert forall|j: u64| #[trigger] has_writer(h1, j) == (has_writer(hs, j) && !(info.mode is Write
        && id == j)) by {
        if has_writer(h1, j) {
            let g = choose|g: u64| #[trigger]
                h1.contains_key(g) && h1[g].stream_id == j && h1[g].mode is Write;
            assert(hs.contains_key(g));
            assert(g != h);
        }
        if has_writer(hs, j) && !(info.mode is Write && id == j) {
            let g = choose|g: u64| #[trigger]
                hs.contains_key(g) && hs[g].stream_id == j && hs[g].mode is Write;
            assert(h1.contains_key(g));
        }
    }
    assert forall|j: u64| (#[trigger] lock_of(l1, j)).readers == readers_of(h1, j).len() by {
        assert(lock_of(locks, j).readers == readers_of(hs, j).len());
        if j == id && info.mode is Read {
            assert(readers_of(h1, j) =~= readers_of(hs, j).remove(h));
        } else {
            assert(readers_of(h1, j) =~= readers_of(hs, j));
        }
    }
    assert forall|j: u64| (#[trigger] lock_of(l1, j)).has_writer == has_writer(h1, j) by {
        assert(lock_of(locks, j).has_writer == has_writer(hs, j));
    }
    assert(handle_view(h1) =~= handle_view(hs).remove(BlockStreamHandle(h)));
}

/// What a handle knows of its stream was brought up to date.
pub(crate) proof fn lemma_handle_updated(
    locks: Map<u64, LockState>,
    hs: Map<u64, HandleInfo>,
    h: u64,
    desc: StreamDescriptor,
)
    requires
        locks_ok(locks, hs),
        infos_exclusive(hs),
        hs.contains_key(h),
    ensures
        ({
            let h1 = hs.insert(
                h,
                HandleInfo {
                    stream_id: hs[h].stream_id,
                    mode: hs[h].mode,
                    cached_descriptor: desc,
                },
            );
            &&& locks_ok(locks, h1)
            &&& infos_exclusive(h1)
            &&& forall|id: u64| #[trigger] has_writer(h1, id) == has_writer(hs, id)
            &&& handle_view(h1) == handle_view(hs)
        }),
{
    let h1 = hs.insert(
        h,
        HandleInfo { stream_id: hs[h].stream_id, mode: hs[h].mode, cached_descriptor: desc },
    );
    assert forall|id: u64| #[trigger] has_writer(h1, id) == has_writer(hs, id) by {
        if has_writer(hs, id) {
            let g = choose|g: u64| #[trigger]
                hs.contains_key(g) && hs[g].stream_id == id && hs[g].mode is Write;
            assert(h1.contains_key(g));
        }
        if has_writer(h1, id) {
            let g = choose|g: u64| #[trigger]
                h1.contains_key(g) && h1[g].stream_id == id && h1[g].mode is Write;
            assert(hs.contains_key(g));
        }
    }
    assert forall|id: u64| (#[trigger] lock_of(locks, id)).readers == readers_of(h1, id).len() by {
        assert(readers_of(h1, id) =~= readers_of(hs, id));
    }
    assert forall|id: u64| (#[trigger] lock_of(locks, id)).has_writer == has_writer(h1, id) by {
        assert(has_writer(h1, id) == has_writer(hs, id));
    }
    assert(handle_view(h1) =~= handle_view(hs));
}

/// The handles exclude each other as the layers above see them too.
pub(crate) proof fn lemma_view_exclusive(hs: Map<u64, HandleInfo>)
    requires
        infos_exclusive(hs),
    ensures
        exclusive(handle_view(hs)),
{
    let hv = handle_view(hs);
    assert forall|g: BlockStreamHandle, h: BlockStreamHandle| #[trigger]
        hv.contains_key(g) && #[trigger] hv.contains_key(h) && g != h && hv[g].stream
            == hv[h].stream implies hv[g].mode is Read && hv[h].mode is Read by {
        assert(hs.contains_key(g.num()) && hs.contains_key(h.num()));
    }
}

} // verus!
