//! Closing a file system and opening it again from its file.

use crate::block_layer::BlockLayer;
use crate::blocks_in_file::BlocksInFile;
use crate::file_layer::FileLayer;
use crate::handles::BlockStreamHandle;
use crate::sfs::{OpenView, Sfs};
use crate::sfs_model::World;
use crate::stream_layer::{OpenState, StreamLayer};
use crate::streams_from_blocks::StreamsFromBlocks;
use crate::types::{OpenMode, SfsError};
use vstd::prelude::*;

verus! {

/// Closes a file system that no stream is open in for writing, and opens it again
/// from nothing but the bytes of its file. What it held, it holds. Where the
/// medium fails no read, this always succeeds.
pub fn reopen<L1: FileLayer, const CACHE_BUDGET_BYTES: usize>(
    sfs: Sfs<StreamsFromBlocks<BlocksInFile<L1, CACHE_BUDGET_BYTES>>>,
    mode: OpenMode,
) -> (r: Result<Sfs<StreamsFromBlocks<BlocksInFile<L1, CACHE_BUDGET_BYTES>>>, SfsError>)
    requires
        sfs.wf(),
        sfs.only_readers(),
    ensures
        L1::reads_always() ==> r is Ok,
        r matches Ok(again) ==> {
            &&& again.wf()
            &&& sfs.tidy() ==> again.tidy()
            &&& again.world() == (World {
                handles: Map::<BlockStreamHandle, OpenState>::empty(),
                mode,
                ..sfs.world()
            })
            &&& again.open_views() == Map::<u64, OpenView>::empty()
        },
{
    let ghost before = sfs;
    let (layer3, closed) = sfs.into_layer();
    match closed {
        Ok(_) => {},
        Err(e) => {
            return Err(e);
        },
    }
    let ghost l3 = layer3;
    let layer2: BlocksInFile<L1, CACHE_BUDGET_BYTES> = layer3.into_layer();
    let ghost l2 = layer2;
    proof {
        if l2.wf() {
            l2.lemma_wf();
        }
    }
    let layer1: L1 = layer2.into_file();
    let again2: BlocksInFile<L1, CACHE_BUDGET_BYTES> = match BlocksInFile::open_on(layer1) {
        Ok(layer2) => layer2,
        Err(e) => {
            return Err(e);
        },
    };
    proof {
        StreamsFromBlocks::law_same_store(l2, again2);
    }
    let again3 = match StreamsFromBlocks::open_on(again2) {
        Ok(layer3) => layer3,
        Err(e) => {
            return Err(e);
        },
    };
    proof {
        assert forall|h: BlockStreamHandle| #[trigger]
            l3.handles().contains_key(h) implies l3.handles()[h].mode is Read by {
            assert(before.world().handles.contains_key(h));
        }
    }
    Sfs::open_on(again3, mode)
}

} // verus!
