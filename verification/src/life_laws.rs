//! Making a file system, closing it and opening it again: what it holds from one to the
//! next.

use crate::blocks_in_file::BlocksInFile;
use crate::dir_entries::Entry;
use crate::file_layer::FileLayer;
use crate::format_laws::{law_l4_header_bytes, spells};
use crate::reopen::reopen;
use crate::sfs::Sfs;
use crate::sfs_model::World;
use crate::stream_layer::StreamLayer;
use crate::streams_from_blocks::StreamsFromBlocks;
use crate::terms::{can_be_spelt, holds, leads, opens, reads, spelt};
use crate::types::{OpenMode, SfsError};
use vstd::arithmetic::power2::pow2;
use vstd::prelude::*;

verus! {

/// Nothing is open.
pub open spec fn idle<L3: StreamLayer>(sfs: Sfs<L3>) -> bool {
    &&& forall|k: u64| !#[trigger] sfs.open_views().contains_key(k)
    &&& forall|h: L3::Handle| !#[trigger] sfs.world().handles.contains_key(h)
}

/// A file system that has just been made holds one stream, the empty root directory, and
/// nothing is open in it; its measures are those that were asked for.
pub open spec fn just_made<L3: StreamLayer>(sfs: Sfs<L3>, width: u8, shift: u8, vbss: u8) -> bool {
    let wd = sfs.world();
    &&& sfs.wf()
    &&& sfs.tidy()
    &&& idle(sfs)
    &&& forall|i: u64| #[trigger] wd.streams.contains_key(i) <==> i == wd.root
    &&& holds(wd, Seq::empty(), OpenMode::Read, wd.root, Seq::<Entry>::empty())
    &&& wd.streams[wd.root].data.len() == 0
    &&& wd.streams[wd.root].reserved == 0
    &&& !wd.streams[wd.root].compressed
    &&& wd.root == 0
    &&& wd.mode is Write
    &&& wd.width == width
    &&& wd.plain_unit == pow2(shift as nat)
    &&& vbss > 0 ==> wd.packed_unit == pow2(vbss as nat)
    &&& wd.compression <==> vbss > 0
}

/// What a new file system is like.
pub proof fn law_call_sfs_created<L3: StreamLayer>(
    path: &str,
    width: u8,
    shift: u8,
    vbss: u8,
    r: Result<Sfs<L3>, SfsError>,
    plain: Result<Sfs<L3>, SfsError>,
)
    requires
        call_ensures(Sfs::<L3>::create_with_vbss, (path, width, shift, vbss), r),
        call_ensures(Sfs::<L3>::create, (path, width, shift), plain),
    ensures
        r matches Ok(sfs) ==> just_made(sfs, width, shift, vbss),
        plain matches Ok(sfs) ==> just_made(sfs, width, shift, 0),
{
    if r is Ok {
        lemma_just_made(r->Ok_0.world());
    }
    if plain is Ok {
        lemma_just_made(plain->Ok_0.world());
    }
}

proof fn lemma_just_made<H>(wd: World<H>)
    requires
        wd.root == 0,
        wd.streams.contains_key(wd.root),
        wd.streams[wd.root].data == Seq::<u8>::empty(),
        forall|h: H| !#[trigger] wd.handles.contains_key(h),
    ensures
        holds(wd, Seq::empty(), OpenMode::Read, wd.root, Seq::<Entry>::empty()),
{
    let none = Seq::<Entry>::empty();
    assert(spelt(none, wd.width) =~= Seq::<u8>::empty());
    assert(can_be_spelt(none, wd.width));
    assert(leads(wd, wd.root, Seq::empty(), wd.root));
    assert(opens(wd, wd.root, OpenMode::Read));
    assert(reads(wd, wd.root, OpenMode::Read, none));
}

/// A file system is opened on a stream layer if and only if the slot that is the first
/// for the layers above begins with the letters "filing" and the version. Its root
/// directory is the stream that the next eight bytes name; its streams are those of the
/// layer, and none of them is open through it.
pub proof fn law_call_sfs_opened<L3: StreamLayer>(
    layer3: L3,
    mode: OpenMode,
    r: Result<Sfs<L3>, SfsError>,
)
    requires
        layer3.wf() || layer3.usable(),
        call_ensures(Sfs::<L3>::open_on, (layer3, mode), r),
    ensures
        ({
            let first = layer3.first_slot() as int;
            let slot = layer3.slots()[first];
            &&& r is Ok <==> first < layer3.slots().len() && slot.len() >= 15 && slot.take(7)
                == seq![102u8, 105, 108, 105, 110, 103, 0]
            &&& r is Err ==> r->Err_0 is IoError
            &&& r matches Ok(sfs) ==> {
                let wd = sfs.world();
                &&& layer3.wf() ==> sfs.wf()
                &&& layer3.tidy() ==> sfs.tidy()
                &&& wd.streams == layer3.streams()
                &&& wd.handles == layer3.handles()
                &&& spells(slot, 7, 8, wd.root as nat)
                &&& wd.mode == mode
                &&& wd.width == layer3.iwidth()
                &&& wd.plain_unit == layer3.unit(false)
                &&& wd.packed_unit == layer3.unit(true)
                &&& wd.compression == layer3.compression()
                &&& sfs.faults() == layer3.faults()
                &&& forall|k: u64| !#[trigger] sfs.open_views().contains_key(k)
            }
        }),
{
    let slot = layer3.slots()[layer3.first_slot() as int];
    law_l4_header_bytes(0, slot);
}

/// Closing a file system leaves its streams in the layer below as they are, with the root
/// directory noted in the slot; where nothing is open for writing, it cannot fail.
pub proof fn law_call_sfs_closed<L3: StreamLayer>(sfs: Sfs<L3>, r: (L3, Result<(), SfsError>))
    requires
        sfs.wf(),
        call_ensures(Sfs::<L3>::into_layer, (sfs,), r),
    ensures
        ({
            let wd = sfs.world();
            let slot = r.0.slots()[r.0.first_slot() as int];
            &&& (forall|h: L3::Handle| #[trigger]
                wd.handles.contains_key(h) ==> wd.handles[h].mode is Read) ==> r.1 is Ok
            &&& r.1 is Ok ==> {
                &&& r.0.wf()
                &&& sfs.tidy() ==> r.0.tidy()
                &&& r.0.streams() == wd.streams
                &&& r.0.iwidth() == wd.width
                &&& r.0.unit(false) == wd.plain_unit
                &&& r.0.unit(true) == wd.packed_unit
                &&& r.0.compression() == wd.compression
                &&& r.0.first_slot() < r.0.slots().len()
                &&& slot.len() >= 15
                &&& slot.take(7) == seq![102u8, 105, 108, 105, 110, 103, 0]
                &&& spells(slot, 7, 8, wd.root as nat)
            }
        }),
{
    let slot = r.0.slots()[r.0.first_slot() as int];
    law_l4_header_bytes(0, slot);
}

/// What a file system holds that is closed, and opened again from nothing but its file, it
/// holds then: the same streams, and the same root directory. Where the medium fails no
/// read, that always succeeds.
pub proof fn law_call_reopened<L1: FileLayer, const N: usize>(
    sfs: Sfs<StreamsFromBlocks<BlocksInFile<L1, N>>>,
    mode: OpenMode,
    r: Result<Sfs<StreamsFromBlocks<BlocksInFile<L1, N>>>, SfsError>,
)
    requires
        sfs.wf(),
        sfs.only_readers(),
        call_ensures(reopen::<L1, N>, (sfs, mode), r),
    ensures
        L1::reads_always() ==> r is Ok,
        r matches Ok(again) ==> {
            let a = sfs.world();
            let b = again.world();
            &&& again.wf()
            &&& idle(again)
            &&& b.streams == a.streams
            &&& b.root == a.root
            &&& b.mode == mode
            &&& b.width == a.width
            &&& b.plain_unit == a.plain_unit
            &&& b.packed_unit == a.packed_unit
            &&& b.compression == a.compression
        },
{
}

} // verus!
