//! Locks on streams: one writer or many readers.

use crate::types::{text_num, OpenMode, SfsError};
use std::collections::HashMap;
use vstd::prelude::*;

verus! {

broadcast use vstd::std_specs::hash::group_hash_axioms;

/// Who holds the lock of one stream.
#[derive(Debug, Clone, Copy)]
pub struct LockState {
    pub readers: u32,
    pub has_writer: bool,
}

/// The locks that are held, by stream. A stream that nobody has open has no
/// entry.
pub(crate) struct LockTable {
    locks: HashMap<u64, LockState>,
}

/// The lock of stream `id`, free where there is no entry.
pub open spec fn lock_of(locks: Map<u64, LockState>, id: u64) -> LockState {
    if locks.contains_key(id) {
        locks[id]
    } else {
        LockState { readers: 0, has_writer: false }
    }
}

/// The lock can be taken in `mode`.
pub open spec fn lock_free(locks: Map<u64, LockState>, id: u64, mode: OpenMode) -> bool {
    let lock = lock_of(locks, id);
    &&& !lock.has_writer
    &&& mode is Write ==> lock.readers == 0
}

/// No more readers can be counted.
pub open spec fn lock_full(locks: Map<u64, LockState>, id: u64, mode: OpenMode) -> bool {
    mode is Read && lock_of(locks, id).readers == u32::MAX
}

/// The locks after the one of `id` was taken in `mode`.
pub open spec fn lock_taken(locks: Map<u64, LockState>, id: u64, mode: OpenMode) -> Map<
    u64,
    LockState,
> {
    let lock = lock_of(locks, id);
    locks.insert(
        id,
        match mode {
            OpenMode::Read => LockState {
                readers: (lock.readers + 1) as u32,
                has_writer: lock.has_writer,
            },
            OpenMode::Write => LockState { readers: lock.readers, has_writer: true },
        },
    )
}

/// The lock of one holder less.
pub open spec fn lock_less(lock: LockState, mode: OpenMode) -> LockState {
    match mode {
        OpenMode::Read => LockState {
            readers: if lock.readers == 0 {
                0
            } else {
                (lock.readers - 1) as u32
            },
            has_writer: lock.has_writer,
        },
        OpenMode::Write => LockState { readers: lock.readers, has_writer: false },
    }
}

/// The locks after the one of `id`, held in `mode`, was given back.
pub open spec fn lock_given_back(locks: Map<u64, LockState>, id: u64, mode: OpenMode) -> Map<
    u64,
    LockState,
> {
    if !locks.contains_key(id) {
        locks
    } else {
        let less = lock_less(locks[id], mode);
        if less.readers == 0 && !less.has_writer {
            locks.remove(id)
        } else {
            locks.insert(id, less)
        }
    }
}

impl View for LockTable {
    type V = Map<u64, LockState>;

    closed spec fn view(&self) -> Map<u64, LockState> {
        self.locks@
    }
}

impl LockTable {
    pub fn new() -> (table: LockTable)
        ensures
            table@ == Map::<u64, LockState>::empty(),
    {
        LockTable { locks: HashMap::new() }
    }

    pub(crate) fn get(&self, id: u64) -> (lock: LockState)
        ensures
            lock == lock_of(self@, id),
    {
        match self.locks.get(&id) {
            Some(lock) => *lock,
            None => LockState { readers: 0, has_writer: false },
        }
    }

    /// Takes the lock of stream `id`, or fails at once where it is held
    /// otherwise.
    pub fn acquire_lock(&mut self, id: u64, mode: OpenMode) -> (r: Result<(), SfsError>)
        ensures
            r is Ok <==> lock_free(old(self)@, id, mode) && !lock_full(old(self)@, id, mode),
            r is Ok ==> final(self)@ == lock_taken(old(self)@, id, mode),
            r matches Err(e) ==> {
                &&& final(self)@ == old(self)@
                &&& !lock_free(old(self)@, id, mode) ==> e is LockConflict
                &&& lock_free(old(self)@, id, mode) ==> e is IoError
            },
    {
        let lock: LockState = self.get(id);
        match mode {
            OpenMode::Read => {
                if !lock.has_writer {
                    if lock.readers == u32::MAX {
                        return Err(SfsError::IoError(text_num("too many readers of stream ", id, "")));
                    }
                    self.locks.insert(
                        id,
                        LockState { readers: lock.readers + 1, has_writer: lock.has_writer },
                    );
                    return Ok(());
                }
            },
            OpenMode::Write => {
                if !lock.has_writer && lock.readers == 0 {
                    self.locks.insert(id, LockState { readers: lock.readers, has_writer: true });
                    return Ok(());
                }
            },
        }
        Err(SfsError::LockConflict(text_num("lock conflict on stream ", id, "")))
    }

    /// Gives the lock of stream `id` back.
    pub fn release_lock(&mut self, id: u64, mode: OpenMode)
        ensures
            final(self)@ == lock_given_back(old(self)@, id, mode),
    {
        let lock: LockState = match self.locks.get(&id) {
            Some(lock) => *lock,
            None => {
                return ;
            },
        };
        let less: LockState = match mode {
            OpenMode::Read => LockState {
                readers: if lock.readers == 0 {
                    0
                } else {
                    lock.readers - 1
                },
                has_writer: lock.has_writer,
            },
            OpenMode::Write => LockState { readers: lock.readers, has_writer: false },
        };
        if less.readers == 0 && !less.has_writer {
            self.locks.remove(&id);
        } else {
            self.locks.insert(id, less);
        }
    }

    /// Somebody holds the lock of stream `id`.
    pub fn is_locked(&self, id: u64) -> (locked: bool)
        ensures
            locked == (lock_of(self@, id).has_writer || lock_of(self@, id).readers > 0),
    {
        let lock: LockState = self.get(id);
        lock.has_writer || lock.readers > 0
    }
}

/// One writer or many readers: a lock that a reader has taken can be taken by readers
/// only, and one that a writer has taken by nobody. The locks of other streams stay as
/// they are. With the last holder the lock is free again.
pub proof fn law_lock_sharing(locks: Map<u64, LockState>, id: u64, mode: OpenMode, other: u64)
    requires
        lock_free(locks, id, mode),
        !lock_full(locks, id, mode),
    ensures
        ({
            let taken = lock_taken(locks, id, mode);
            &&& lock_free(taken, id, OpenMode::Read) <==> mode is Read
            &&& !lock_free(taken, id, OpenMode::Write)
            &&& other != id ==> lock_of(taken, other) == lock_of(locks, other)
            &&& mode is Read ==> lock_of(taken, id).readers == lock_of(locks, id).readers + 1
                && !lock_of(taken, id).has_writer
            &&& mode is Write ==> lock_of(taken, id).readers == 0 && lock_of(taken, id).has_writer
            &&& lock_free(lock_given_back(taken, id, mode), id, OpenMode::Write) <==> lock_free(
                locks,
                id,
                OpenMode::Write,
            )
            &&& other != id ==> lock_of(lock_given_back(taken, id, mode), other) == lock_of(
                locks,
                other,
            )
        }),
        lock_free(Map::<u64, LockState>::empty(), other, mode),
{
}

/// A lock that is taken and given back leaves the locks as they were, where
/// every entry stands for somebody.
pub proof fn law_lock_round_trip(locks: Map<u64, LockState>, id: u64, mode: OpenMode)
    requires
        lock_free(locks, id, mode),
        !lock_full(locks, id, mode),
        locks.contains_key(id) ==> locks[id].has_writer || locks[id].readers > 0,
    ensures
        lock_given_back(lock_taken(locks, id, mode), id, mode) == locks,
{
    assert(lock_given_back(lock_taken(locks, id, mode), id, mode) =~= locks);
}

} // verus!
