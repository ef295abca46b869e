//! Whole streams: put in, got out and deleted, one or many.

use crate::bytes::zeros;
use crate::names::text_bytes;
use crate::plain::too_large;
use crate::pyramid::ceil_div;
use crate::sfs::{OpenView, Sfs};
use crate::sfs_model::{
    follows, kind_of, left_open, made, passed_on, spliced, stream_found, stream_removed, unit_in,
    with_streams, ErrorKind, Outcome, World,
};
use crate::sfs_model::{law_making_spares_open, lemma_made_new};
use crate::stream_layer::{empty_stream, grown_capacity, OpenState, StreamLayer, StreamState};
use crate::types::{decimal, text_num, OpenMode, SfsError, StreamHandle};
use vstd::prelude::*;
use vstd::string::*;
use vstd::utf8::encode_utf8;

verus! {

/// A stream that holds `data`, written in one go.
pub open spec fn filled(data: Seq<u8>, packed: bool, unit: nat) -> StreamState {
    StreamState {
        data,
        reserved: if data.len() == 0 {
            0
        } else {
            grown_capacity(0, data.len(), unit)
        },
        compressed: packed,
    }
}

/// The streams after `data` was put into a new stream that `path` names.
pub open spec fn put<H>(wd: World<H>, path: Seq<u8>, data: Seq<u8>, packed: bool) -> Outcome<
    Map<u64, StreamState>,
> {
    match made(wd, path, false, packed) {
        Outcome::Done(done) => Outcome::Done(
            done.1.insert(done.0, filled(data, packed, unit_in(wd, packed))),
        ),
        out => passed_on(out),
    }
}

/// What the stream holds that `path` names, where it can be held in memory.
pub open spec fn got<H>(wd: World<H>, path: Seq<u8>) -> Outcome<Seq<u8>> {
    match stream_found(wd, path, OpenMode::Read) {
        Outcome::Done(id) => if wd.streams[id].data.len() > usize::MAX {
            Outcome::Partly(ErrorKind::IoError, wd.streams)
        } else {
            Outcome::Done(wd.streams[id].data)
        },
        out => passed_on(out),
    }
}

/// A handle was opened and one of the same kind closed: what is open is open as
/// it was.
pub open spec fn as_open<H>(h0: Map<H, OpenState>, h1: Map<H, OpenState>) -> bool {
    h1 == h0 || exists|a: H, b: H|
        !h0.contains_key(a) && h0.contains_key(b) && h1 == #[trigger] h0.insert(
            a,
            h0[b],
        ).remove(b)
}

proof fn lemma_as_open<H>(
    h0: Map<H, OpenState>,
    h1: Map<H, OpenState>,
    h2: Map<H, OpenState>,
    id: u64,
    mode: OpenMode,
)
    requires
        left_open(h0, h1, id, mode),
        left_open(h2, h1, id, mode),
    ensures
        as_open(h0, h2),
{
    let s = OpenState { stream: id, mode };
    let a = choose|h: H| !h0.contains_key(h) && h1 == #[trigger] h0.insert(h, s);
    let b = choose|h: H| !h2.contains_key(h) && h1 == #[trigger] h2.insert(h, s);
    assert(h2 =~= h1.remove(b));
    if a == b {
        assert(h2 =~= h0);
    } else {
        assert(h1.contains_key(b));
        assert(h0.contains_key(b));
        assert(h2.insert(b, s)[b] == s);
        assert(h0.insert(a, s)[b] == h0[b]);
        assert(h2 == h0.insert(a, h0[b]).remove(b));
    }
}

proof fn lemma_room(len: nat, unit: nat)
    requires
        len <= isize::MAX,
        1 <= unit <= 0x8000_0000,
    ensures
        !too_large(0, len, unit),
{
    if len > 0 {
        let n = ceil_div(len, unit);
        assert(n * unit < len + unit) by (nonlinear_arith)
            requires
                n == (len - 1) / unit as int + 1,
                unit >= 1,
                len >= 1,
        ;
    }
}

/// Creates a stream, compressed or not, with `data` in it. No slice is longer than
/// half of what can be addressed.
pub fn put_stream<L3: StreamLayer>(
    sfs: &mut Sfs<L3>,
    path: &str,
    data: &[u8],
    compressed: bool,
) -> (r: Result<usize, SfsError>)
    requires
        old(sfs).wf(),
        data@.len() <= isize::MAX,
    ensures
        final(sfs).faults() >= old(sfs).faults(),
        r is Ok ==> final(sfs).faults() == old(sfs).faults(),
        final(sfs).faults() == old(sfs).faults() ==> {
            let w0 = old(sfs).world();
            let w1 = final(sfs).world();
            let out = put(w0, text_bytes(path), data@, compressed);
            &&& match out {
                Outcome::Done(streams) => r == Ok::<usize, SfsError>(data@.len() as usize) && w1
                    == (World { streams, handles: w1.handles, ..w0 }) && as_open(
                    w0.handles,
                    w1.handles,
                ),
                _ => follows(out, w0, w1, r),
            }
            &&& !(out is TooLarge) ==> {
                &&& final(sfs).open_views() == old(sfs).open_views()
                &&& final(sfs).wf()
                &&& old(sfs).tidy() ==> final(sfs).tidy()
            }
        },
{
    let ghost a = *sfs;
    let ghost w0 = sfs.world();
    let ghost bytes = text_bytes(path);
    proof {
        a.lemma_world();
        law_making_spares_open(w0, bytes, false, compressed);
        lemma_made_new(w0, bytes, false, compressed);
    }
    let handle: StreamHandle = match sfs.create_stream_as(path, compressed) {
        Ok(handle) => handle,
        Err(e) => {
            return Err(e);
        },
    };
    let ghost b = *sfs;
    let ghost done = made(w0, bytes, false, compressed)->Done_0;
    let ghost view = OpenView { stream: done.0, position: 0, mode: OpenMode::Write };
    proof {
        assert(b.open_views()[handle.num()] == view);
        assert(b.world().streams[done.0] == empty_stream(compressed));
        lemma_room(data@.len(), unit_in(w0, compressed));
    }
    let n: usize = match sfs.write(&handle, data) {
        Ok(n) => n,
        Err(e) => {
            return Err(e);
        },
    };
    let ghost c = *sfs;
    match sfs.close_stream(handle) {
        Ok(_) => {},
        Err(e) => {
            return Err(e);
        },
    }
    proof {
        let s1 = filled(data@, compressed, unit_in(w0, compressed));
        assert(spliced(Seq::<u8>::empty(), 0, data@) =~= data@);
        assert(c.world().streams =~= done.1.insert(done.0, s1));
        assert(sfs.open_views() =~= a.open_views());
        lemma_as_open(
            w0.handles,
            c.world().handles,
            sfs.world().handles,
            done.0,
            OpenMode::Write,
        );
    }
    Ok(n)
}

/// What the stream holds that `path` names.
pub fn get_stream<L3: StreamLayer>(sfs: &mut Sfs<L3>, path: &str) -> (r: Result<Vec<u8>, SfsError>)
    requires
        old(sfs).wf(),
    ensures
        final(sfs).faults() >= old(sfs).faults(),
        r is Ok ==> final(sfs).faults() == old(sfs).faults(),
        final(sfs).faults() == old(sfs).faults() ==> {
            let w0 = old(sfs).world();
            let w1 = final(sfs).world();
            let out = got(w0, text_bytes(path));
            &&& match out {
                Outcome::Done(data) => r is Ok && r->Ok_0@ == data && w1 == (World {
                    handles: w1.handles,
                    ..w0
                }) && as_open(w0.handles, w1.handles),
                Outcome::Partly(kind, streams) => r is Err && kind_of(r->Err_0) == kind && w1
                    == (World { streams, handles: w1.handles, ..w0 }) && as_open(
                    w0.handles,
                    w1.handles,
                ),
                _ => follows(out, w0, w1, r),
            }
            &&& final(sfs).open_views() == old(sfs).open_views()
            &&& final(sfs).wf()
            &&& old(sfs).tidy() ==> final(sfs).tidy()
        },
{
    let ghost a = *sfs;
    let ghost w0 = sfs.world();
    let ghost bytes = text_bytes(path);
    let handle: StreamHandle = match sfs.open_stream(path, OpenMode::Read) {
        Ok(handle) => handle,
        Err(e) => {
            return Err(e);
        },
    };
    let ghost b = *sfs;
    let ghost id = stream_found(w0, bytes, OpenMode::Read)->Done_0;
    let length: u64 = match sfs.stream_length(&handle) {
        Ok(length) => length,
        Err(e) => {
            return Err(e);
        },
    };
    if length > usize::MAX as u64 {
        match sfs.close_stream(handle) {
            Ok(_) => {
                proof {
                    assert(sfs.open_views() =~= a.open_views());
                    lemma_as_open(
                        w0.handles,
                        b.world().handles,
                        sfs.world().handles,
                        id,
                        OpenMode::Read,
                    );
                }
            },
            Err(_) => {},
        }
        return Err(SfsError::IoError(text_num("stream too long: ", length, " bytes")));
    }
    let mut buffer: Vec<u8> = zeros(length as usize);
    match sfs.read(&handle, buffer.as_mut_slice()) {
        Ok(_) => {},
        Err(e) => {
            return Err(e);
        },
    }
    let ghost c = *sfs;
    match sfs.close_stream(handle) {
        Ok(_) => {},
        Err(e) => {
            return Err(e);
        },
    }
    proof {
        assert(buffer@ =~= w0.streams[id].data);
        assert(sfs.open_views() =~= a.open_views());
        lemma_as_open(
            w0.handles,
            c.world().handles,
            sfs.world().handles,
            id,
            OpenMode::Read,
        );
    }
    Ok(buffer)
}

// ---------------------------------------------------------------------------
// Many streams with numbers in their names
// ---------------------------------------------------------------------------

/// The zeros that stand before a number so that it has four digits.
pub open spec fn padding(n: nat) -> Seq<char> {
    if n < 10 {
        "000"@
    } else if n < 100 {
        "00"@
    } else if n < 1000 {
        "0"@
    } else {
        ""@
    }
}

/// The name of stream `n` of many. Where `wide`, its number has four digits at
/// least.
pub open spec fn numbered(prefix: Seq<char>, wide: bool, n: nat) -> Seq<char> {
    prefix + (if wide {
        padding(n)
    } else {
        ""@
    }) + decimal(n) + ".bin"@
}

/// The name of stream `n` of many.
pub fn numbered_name(prefix: &str, wide: bool, n: u64) -> (name: String)
    ensures
        name@ == numbered(prefix@, wide, n as nat),
{
    let zeros: &str = if !wide {
        ""
    } else if n < 10 {
        "000"
    } else if n < 100 {
        "00"
    } else if n < 1000 {
        "0"
    } else {
        ""
    };
    let before: String = prefix.to_owned().concat(zeros);
    text_num(before.as_str(), n, ".bin")
}

/// The streams after `data` was put into each of `count` new streams, the first
/// of them with number `first`; or how the first that fails ends.
pub open spec fn all_put<H>(
    wd: World<H>,
    prefix: Seq<char>,
    wide: bool,
    first: nat,
    count: nat,
    data: Seq<u8>,
    packed: bool,
) -> Outcome<Map<u64, StreamState>>
    decreases count,
{
    if count == 0 {
        Outcome::Done(wd.streams)
    } else {
        match put(wd, encode_utf8(numbered(prefix, wide, first)), data, packed) {
            Outcome::Done(streams) => all_put(
                with_streams(wd, streams),
                prefix,
                wide,
                first + 1,
                (count - 1) as nat,
                data,
                packed,
            ),
            out => out,
        }
    }
}

/// All of `count` streams, the first of them with number `first`, can be read.
pub open spec fn all_readable<H>(
    wd: World<H>,
    prefix: Seq<char>,
    wide: bool,
    first: nat,
    count: nat,
) -> bool {
    forall|n: nat|
        first <= n < first + count ==> (#[trigger] got(
            wd,
            encode_utf8(numbered(prefix, wide, n)),
        )) is Done
}

/// The streams after `count` of them were deleted, the first of them with number
/// `first`; or how the first that fails ends.
pub open spec fn all_removed<H>(
    wd: World<H>,
    prefix: Seq<char>,
    wide: bool,
    first: nat,
    count: nat,
) -> Outcome<
    Map<u64, StreamState>,
>
    decreases count,
{
    if count == 0 {
        Outcome::Done(wd.streams)
    } else {
        match stream_removed(wd, Set::empty(), encode_utf8(numbered(prefix, wide, first))) {
            Outcome::Done(streams) => all_removed(
                with_streams(wd, streams),
                prefix,
                wide,
                first + 1,
                (count - 1) as nat,
            ),
            out => out,
        }
    }
}

/// Puts `data` into each of `count` new streams, the first of them with number
/// `first`, while nothing is open.
pub fn put_all<L3: StreamLayer>(
    sfs: &mut Sfs<L3>,
    prefix: &str,
    wide: bool,
    first: u64,
    count: u64,
    data: &[u8],
    compressed: bool,
) -> (r: Result<(), SfsError>)
    requires
        old(sfs).wf(),
        old(sfs).world().handles == Map::<L3::Handle, OpenState>::empty(),
        data@.len() <= isize::MAX,
        first + count <= u64::MAX,
    ensures
        final(sfs).faults() >= old(sfs).faults(),
        r is Ok ==> final(sfs).faults() == old(sfs).faults(),
        final(sfs).faults() == old(sfs).faults() ==> {
            let out = all_put(
                old(sfs).world(),
                prefix@,
                wide,
                first as nat,
                count as nat,
                data@,
                compressed,
            );
            &&& r is Ok <==> out is Done
            &&& out matches Outcome::Done(streams) ==> {
                &&& final(sfs).wf()
                &&& old(sfs).tidy() ==> final(sfs).tidy()
                &&& final(sfs).world() == with_streams(old(sfs).world(), streams)
                &&& final(sfs).open_views() == old(sfs).open_views()
            }
        },
{
    let ghost w0 = sfs.world();
    let ghost f0 = sfs.faults();
    let ghost all = all_put(w0, prefix@, wide, first as nat, count as nat, data@, compressed);
    let mut i: u64 = 0;
    proof {
        assert(with_streams(w0, w0.streams) =~= w0);
    }
    while i < count
        invariant
            i <= count,
            first + count <= u64::MAX,
            data@.len() <= isize::MAX,
            w0 == old(sfs).world(),
            w0.handles == Map::<L3::Handle, OpenState>::empty(),
            f0 == old(sfs).faults(),
            sfs.wf(),
            old(sfs).tidy() ==> sfs.tidy(),
            sfs.faults() == f0,
            sfs.world() == with_streams(w0, sfs.world().streams),
            sfs.open_views() == old(sfs).open_views(),
            all == all_put(w0, prefix@, wide, first as nat, count as nat, data@, compressed),
            all == all_put(
                sfs.world(),
                prefix@,
                wide,
                (first + i) as nat,
                (count - i) as nat,
                data@,
                compressed,
            ),
        decreases count - i,
    {
        let name: String = numbered_name(prefix, wide, first + i);
        let ghost w1 = sfs.world();
        match put_stream(sfs, name.as_str(), data, compressed) {
            Ok(_) => {},
            Err(e) => {
                return Err(e);
            },
        }
        proof {
            assert(sfs.world().handles =~= Map::<L3::Handle, OpenState>::empty());
            assert(sfs.world() =~= with_streams(w1, sfs.world().streams));
        }
        i = i + 1;
    }
    Ok(())
}

/// Reads all of `count` streams, the first of them with number `first`, while
/// nothing is open.
pub fn get_all<L3: StreamLayer>(sfs: &mut Sfs<L3>, prefix: &str, wide: bool, first: u64, count: u64) -> (r:
    Result<(), SfsError>)
    requires
        old(sfs).wf(),
        old(sfs).world().handles == Map::<L3::Handle, OpenState>::empty(),
        first + count <= u64::MAX,
    ensures
        final(sfs).faults() >= old(sfs).faults(),
        r is Ok ==> final(sfs).faults() == old(sfs).faults(),
        final(sfs).faults() == old(sfs).faults() ==> {
            &&& r is Ok <==> all_readable(
                old(sfs).world(),
                prefix@,
                wide,
                first as nat,
                count as nat,
            )
            &&& final(sfs).wf()
            &&& old(sfs).tidy() ==> final(sfs).tidy()
            &&& final(sfs).open_views() == old(sfs).open_views()
            &&& r is Ok ==> final(sfs).world() == old(sfs).world()
        },
{
    let ghost w0 = sfs.world();
    let mut i: u64 = 0;
    while i < count
        invariant
            i <= count,
            first + count <= u64::MAX,
            w0 == old(sfs).world(),
            w0.handles == Map::<L3::Handle, OpenState>::empty(),
            sfs.wf(),
            old(sfs).tidy() ==> sfs.tidy(),
            sfs.faults() == old(sfs).faults(),
            sfs.world() == w0,
            sfs.open_views() == old(sfs).open_views(),
            all_readable(w0, prefix@, wide, first as nat, i as nat),
        decreases count - i,
    {
        let name: String = numbered_name(prefix, wide, first + i);
        match get_stream(sfs, name.as_str()) {
            Ok(_) => {},
            Err(e) => {
                proof {
                    let n = (first + i) as nat;
                    assert(!(got(w0, encode_utf8(numbered(prefix@, wide, n))) is Done)
                        || sfs.faults() > old(sfs).faults());
                }
                return Err(e);
            },
        }
        proof {
            assert(sfs.world().handles =~= Map::<L3::Handle, OpenState>::empty());
            assert(sfs.world() =~= w0);
        }
        i = i + 1;
    }
    Ok(())
}

/// Deletes `count` streams, the first of them with number `first`, while nothing is
/// open.
pub fn delete_all<L3: StreamLayer>(
    sfs: &mut Sfs<L3>,
    prefix: &str,
    wide: bool,
    first: u64,
    count: u64,
) -> (r: Result<(), SfsError>)
    requires
        old(sfs).wf(),
        old(sfs).open_views() == Map::<u64, OpenView>::empty(),
        first + count <= u64::MAX,
    ensures
        final(sfs).faults() >= old(sfs).faults(),
        r is Ok ==> final(sfs).faults() == old(sfs).faults(),
        final(sfs).faults() == old(sfs).faults() ==> {
            let out = all_removed(old(sfs).world(), prefix@, wide, first as nat, count as nat);
            &&& r is Ok <==> out is Done
            &&& out matches Outcome::Done(streams) ==> {
                &&& final(sfs).wf()
                &&& old(sfs).tidy() ==> final(sfs).tidy()
                &&& final(sfs).world() == with_streams(old(sfs).world(), streams)
                &&& final(sfs).open_views() == old(sfs).open_views()
            }
        },
{
    let ghost w0 = sfs.world();
    let ghost all = all_removed(w0, prefix@, wide, first as nat, count as nat);
    let mut i: u64 = 0;
    proof {
        assert(with_streams(w0, w0.streams) =~= w0);
    }
    while i < count
        invariant
            i <= count,
            first + count <= u64::MAX,
            w0 == old(sfs).world(),
            sfs.wf(),
            old(sfs).tidy() ==> sfs.tidy(),
            sfs.faults() == old(sfs).faults(),
            sfs.world() == with_streams(w0, sfs.world().streams),
            sfs.open_views() == Map::<u64, OpenView>::empty(),
            old(sfs).open_views() == Map::<u64, OpenView>::empty(),
            all == all_removed(w0, prefix@, wide, first as nat, count as nat),
            all == all_removed(sfs.world(), prefix@, wide, (first + i) as nat, (count - i) as nat),
        decreases count - i,
    {
        let name: String = numbered_name(prefix, wide, first + i);
        let ghost w1 = sfs.world();
        proof {
            assert(sfs.open_set() =~= Set::empty());
        }
        match sfs.delete_stream(name.as_str()) {
            Ok(_) => {},
            Err(e) => {
                return Err(e);
            },
        }
        i = i + 1;
    }
    Ok(())
}

} // verus!
