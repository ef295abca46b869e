//! What putting whole streams in and getting them out gives and changes, one stream or
//! many, from one state to the next.

use crate::call_laws::{in_use, law_grown_capacity, law_stream_opened, only_holds, stands_for};
use crate::dir_entries::Entry;
use crate::names::dirs_of;
use crate::sfs::{OpenView, Sfs};
use crate::sfs_laws::{full, lemma_created, refused, room_for_name};
use crate::sfs_model::{made, stream_found, with_streams, ErrorKind, Outcome};
use crate::stream_layer::{OpenState, StreamLayer};
use crate::terms::{capacity, holds, law_walk, name_free, says, shut, spelt_one};
use crate::transfer::{
    all_readable, as_open, delete_all, get_all, get_stream, got, numbered, numbered_name, put_all,
    put_stream,
};
use crate::types::{decimal, OpenMode, SfsError};
use crate::verify_laws::law_decimal;
use vstd::prelude::*;
use vstd::utf8::encode_utf8;

verus! {

// ---------------------------------------------------------------------------
// One stream
// ---------------------------------------------------------------------------

/// Stream `id` is new, holds `data` in the least capacity that is enough, and is named
/// at the end of directory `d`; nothing else has changed.
pub open spec fn put_there<L3: StreamLayer>(
    a: Sfs<L3>,
    b: Sfs<L3>,
    d: u64,
    id: u64,
    name: Seq<u8>,
    data: Seq<u8>,
    compressed: bool,
) -> bool {
    let wd = a.world();
    let streams = b.world().streams;
    let unit = if compressed {
        wd.packed_unit
    } else {
        wd.plain_unit
    };
    &&& !wd.streams.contains_key(id)
    &&& forall|j: u64| j < id ==> #[trigger] wd.streams.contains_key(j)
    &&& streams.contains_key(id)
    &&& streams[id].data == data
    &&& streams[id].compressed == compressed
    &&& capacity(0, data.len(), unit, streams[id].reserved)
    &&& only_holds(
        wd,
        streams.remove(id),
        d,
        wd.streams[d].data + spelt_one(Entry { id, name }, wd.width),
        wd.streams[d].reserved,
    )
}

/// The same streams are in use, and nothing else but the streams can have changed.
pub open spec fn open_as_before<L3: StreamLayer>(a: Sfs<L3>, b: Sfs<L3>) -> bool {
    &&& b.wf()
    &&& b.open_views() == a.open_views()
    &&& forall|i: u64| #[trigger] in_use(b.world(), i) <==> in_use(a.world(), i)
    &&& b.world().root == a.world().root
    &&& b.world().mode == a.world().mode
    &&& b.world().width == a.world().width
    &&& b.world().plain_unit == a.world().plain_unit
    &&& b.world().packed_unit == a.world().packed_unit
    &&& b.world().compression == a.world().compression
}

proof fn lemma_used_as_before<L3: StreamLayer>(a: Sfs<L3>, b: Sfs<L3>)
    requires
        as_open(a.world().handles, b.world().handles),
    ensures
        forall|i: u64| #[trigger] in_use(b.world(), i) <==> in_use(a.world(), i),
{
    let h0 = a.world().handles;
    let h1 = b.world().handles;
    if h1 != h0 {
        let (x, y) = choose|x: L3::Handle, y: L3::Handle|
            !h0.contains_key(x) && h0.contains_key(y) && h1 == #[trigger] h0.insert(
                x,
                h0[y],
            ).remove(y);
        assert forall|i: u64| #[trigger] in_use(b.world(), i) <==> in_use(a.world(), i) by {
            if in_use(b.world(), i) {
                let h = choose|h: L3::Handle| #[trigger]
                    h1.contains_key(h) && h1[h].stream == i;
                if h == x {
                    assert(h0.contains_key(y) && h0[y].stream == i);
                } else {
                    assert(h0.contains_key(h) && h0[h].stream == i);
                }
            }
            if in_use(a.world(), i) {
                let h = choose|h: L3::Handle| #[trigger]
                    h0.contains_key(h) && h0[h].stream == i;
                if h == y {
                    assert(h1.contains_key(x) && h1[x].stream == i);
                } else {
                    assert(h1.contains_key(h) && h1[h].stream == i);
                }
            }
        }
    }
}

/// Putting data into a new stream: the stream is there then, under its name, with that
/// data, and nothing else has changed; it is refused where a new stream cannot be made.
pub proof fn law_call_put_stream<L3: StreamLayer>(
    sfs: &mut Sfs<L3>,
    path: &str,
    data: &[u8],
    compressed: bool,
    r: Result<usize, SfsError>,
    names: Seq<Seq<u8>>,
    d: u64,
    es: Seq<Entry>,
    kind: ErrorKind,
)
    requires
        old(sfs).wf(),
        data@.len() <= isize::MAX,
        call_ensures(put_stream::<L3>, (sfs, path, data, compressed), r),
        final(sfs).faults() == old(sfs).faults(),
        says(encode_utf8(path@), names),
    ensures
        ({
            let a = *old(sfs);
            let b = *final(sfs);
            let wd = a.world();
            let name = names.last();
            let lacking = full(wd) || (compressed && !wd.compression);
            &&& wd.mode is Read ==> refused(a, b, r, ErrorKind::ReadOnly)
            &&& wd.mode is Write && shut(wd, names.drop_last(), OpenMode::Write, kind) ==> refused(
                a,
                b,
                r,
                kind,
            )
            &&& wd.mode is Write && holds(wd, names.drop_last(), OpenMode::Write, d, es) ==> {
                &&& !name_free(es, name) ==> refused(a, b, r, ErrorKind::AlreadyExists)
                &&& name_free(es, name) && lacking ==> refused(a, b, r, ErrorKind::IoError)
                &&& r is Ok <==> name_free(es, name) && !lacking && room_for_name(wd, d, name)
                &&& r is Ok ==> {
                    &&& r->Ok_0 == data@.len()
                    &&& open_as_before(a, b)
                    &&& exists|id: u64| #[trigger]
                        put_there(a, b, d, id, name, data@, compressed)
                }
            }
        }),
{
    old(sfs).lemma_world();
    let a = *old(sfs);
    let b = *final(sfs);
    let wd = a.world();
    lemma_created(a, path@, compressed, names, d, es, kind);
    if wd.mode is Write && holds(wd, names.drop_last(), OpenMode::Write, d, es) && r is Ok {
        match made(wd, encode_utf8(path@), false, compressed) {
            Outcome::Done((id, streams)) => {
                let unit = if compressed {
                    wd.packed_unit
                } else {
                    wd.plain_unit
                };
                law_grown_capacity(0, data@.len(), unit);
                lemma_used_as_before(a, b);
                assert(b.world().streams.remove(id) =~= streams.remove(id));
                assert(put_there(a, b, d, id, names.last(), data@, compressed));
            },
            _ => {},
        }
    }
}

/// Getting a stream gives the bytes of the one that the path names, and changes nothing;
/// it fails where the stream cannot be opened.
pub proof fn law_call_get_stream<L3: StreamLayer>(
    sfs: &mut Sfs<L3>,
    path: &str,
    r: Result<Vec<u8>, SfsError>,
    names: Seq<Seq<u8>>,
    id: u64,
)
    requires
        old(sfs).wf(),
        call_ensures(get_stream::<L3>, (sfs, path), r),
        final(sfs).faults() == old(sfs).faults(),
        says(encode_utf8(path@), names),
    ensures
        ({
            let a = *old(sfs);
            let b = *final(sfs);
            let wd = a.world();
            &&& b.world().streams == wd.streams
            &&& open_as_before(a, b)
            &&& stands_for(wd, names, OpenMode::Read, id) ==> {
                &&& r is Ok <==> wd.streams[id].data.len() <= usize::MAX
                &&& r is Ok ==> r->Ok_0@ == wd.streams[id].data
                &&& r is Err ==> r->Err_0 is IoError
            }
            &&& r is Ok ==> exists|i: u64| #[trigger] stands_for(wd, names, OpenMode::Read, i)
        }),
{
    old(sfs).lemma_world();
    let a = *old(sfs);
    let b = *final(sfs);
    let wd = a.world();
    law_stream_opened(wd, encode_utf8(path@), names, OpenMode::Read);
    law_walk(wd, wd.root, dirs_of(encode_utf8(path@)));
    if as_open(wd.handles, b.world().handles) {
        lemma_used_as_before(a, b);
    }
    match stream_found(wd, encode_utf8(path@), OpenMode::Read) {
        Outcome::Done(i) => {
            assert(stands_for(wd, names, OpenMode::Read, i));
        },
        _ => {},
    }
    if stands_for(wd, names, OpenMode::Read, id) {
        assert(stream_found(wd, encode_utf8(path@), OpenMode::Read)
            == Outcome::Done(id));
    }
}

// ---------------------------------------------------------------------------
// Many streams
// ---------------------------------------------------------------------------

/// The name of a stream of many is its prefix, its number in decimal, and an ending;
/// where it is to be wide, the number has zeros before it so that it takes four places.
pub proof fn law_call_numbered_name(prefix: &str, wide: bool, n: u64, name: String)
    requires
        call_ensures(numbered_name, (prefix, wide, n), name),
    ensures
        ({
            let digits = decimal(n as nat);
            let zeros = if wide && digits.len() < 4 {
                4 - digits.len()
            } else {
                0
            };
            let p = prefix@.len() as int;
            let s = name@;
            &&& s.len() == p + zeros + digits.len() + 4
            &&& s.take(p) == prefix@
            &&& forall|i: int| p <= i < p + zeros ==> s[i] == '0'
            &&& s.subrange(p + zeros, s.len() - 4) == digits
            &&& s.skip(s.len() - 4) == seq!['.', 'b', 'i', 'n']
        }),
{
    reveal_strlit("000");
    reveal_strlit("00");
    reveal_strlit("0");
    reveal_strlit("");
    reveal_strlit(".bin");
    let m = n as nat;
    law_decimal(m);
    law_decimal(m / 10);
    law_decimal(m / 100);
    law_decimal(m / 1000);
    assert(m / 10 / 10 == m / 100);
    assert(m / 100 / 10 == m / 1000);
    let p = prefix@.len() as int;
    let s = name@;
    let digits = decimal(m);
    assert(m >= 10 ==> digits.len() == decimal(m / 10).len() + 1);
    assert(m >= 100 ==> decimal(m / 10).len() == decimal(m / 100).len() + 1);
    assert(m >= 1000 ==> decimal(m / 100).len() == decimal(m / 1000).len() + 1);
    assert(s.take(p) =~= prefix@);
    assert(s.subrange(s.len() - 4 - digits.len(), s.len() - 4) =~= digits);
    assert(s.skip(s.len() - 4) =~= seq!['.', 'b', 'i', 'n']);
}

/// Putting many streams is putting the first and then the others, in the order of their
/// numbers: it succeeds if and only if each of these does, and ends with the same
/// streams. Putting none changes nothing.
pub proof fn law_call_put_all<L3: StreamLayer>(
    sfs: &mut Sfs<L3>,
    one: &mut Sfs<L3>,
    rest: &mut Sfs<L3>,
    prefix: &str,
    wide: bool,
    first: u64,
    count: u64,
    data: &[u8],
    compressed: bool,
    name: String,
    r: Result<(), SfsError>,
    r1: Result<usize, SfsError>,
    r2: Result<(), SfsError>,
)
    requires
        old(sfs).wf(),
        old(sfs).world().handles == Map::<L3::Handle, OpenState>::empty(),
        data@.len() <= isize::MAX,
        first + count <= u64::MAX,
        call_ensures(put_all::<L3>, (sfs, prefix, wide, first, count, data, compressed), r),
        final(sfs).faults() == old(sfs).faults(),
        *old(one) == *old(sfs),
        call_ensures(numbered_name, (prefix, wide, first), name),
        exists|path: &str| path@ == name@ && call_ensures(
            put_stream::<L3>,
            (one, path, data, compressed),
            r1,
        ),
        final(one).faults() == old(one).faults(),
        *old(rest) == *final(one),
        count > 0 ==> call_ensures(
            put_all::<L3>,
            (rest, prefix, wide, (first + 1) as u64, (count - 1) as u64, data, compressed),
            r2,
        ),
        final(rest).faults() == old(rest).faults(),
    ensures
        count == 0 ==> r is Ok && final(sfs).world() == old(sfs).world(),
        count > 0 ==> (r is Ok <==> r1 is Ok && r2 is Ok),
        count > 0 && r is Ok ==> final(sfs).world() == final(rest).world(),
        r is Ok ==> final(sfs).open_views() == old(sfs).open_views(),
{
    let w0 = old(sfs).world();
    if count > 0 {
        if r1 is Ok {
            assert(as_open(w0.handles, final(one).world().handles));
            assert(final(one).world().handles =~= w0.handles);
            assert(with_streams(w0, final(one).world().streams)
                =~= final(one).world());
        }
    } else {
        assert(with_streams(w0, w0.streams) =~= w0);
    }
}

/// Reading many streams succeeds if and only if the first can be read and the others
/// can, and changes nothing. None can always be read.
pub proof fn law_call_get_all<L3: StreamLayer>(
    sfs: &mut Sfs<L3>,
    one: &mut Sfs<L3>,
    rest: &mut Sfs<L3>,
    prefix: &str,
    wide: bool,
    first: u64,
    count: u64,
    name: String,
    r: Result<(), SfsError>,
    r1: Result<Vec<u8>, SfsError>,
    r2: Result<(), SfsError>,
)
    requires
        old(sfs).wf(),
        old(sfs).world().handles == Map::<L3::Handle, OpenState>::empty(),
        first + count <= u64::MAX,
        call_ensures(get_all::<L3>, (sfs, prefix, wide, first, count), r),
        final(sfs).faults() == old(sfs).faults(),
        *old(one) == *old(sfs),
        call_ensures(numbered_name, (prefix, wide, first), name),
        exists|path: &str| path@ == name@ && call_ensures(get_stream::<L3>, (one, path), r1),
        final(one).faults() == old(one).faults(),
        *old(rest) == *old(sfs),
        count > 0 ==> call_ensures(
            get_all::<L3>,
            (rest, prefix, wide, (first + 1) as u64, (count - 1) as u64),
            r2,
        ),
        final(rest).faults() == old(rest).faults(),
    ensures
        count == 0 ==> r is Ok,
        count > 0 ==> (r is Ok <==> r1 is Ok && r2 is Ok),
        r is Ok ==> final(sfs).world() == old(sfs).world(),
        final(sfs).open_views() == old(sfs).open_views(),
{
    let wd = old(sfs).world();
    let f = first as nat;
    let c = count as nat;
    if count > 0 {
        let whole = all_readable(wd, prefix@, wide, f, c);
        let others = all_readable(wd, prefix@, wide, f + 1, (c - 1) as nat);
        let begins = got(wd, encode_utf8(numbered(prefix@, wide, f))) is Done;
        if begins && others {
            assert forall|n: nat| f <= n < f + c implies (#[trigger] got(
                wd,
                encode_utf8(numbered(prefix@, wide, n)),
            )) is Done by {}
            assert(whole);
        }
        if whole {
            assert(begins && others);
        }
    }
}

/// Deleting many streams is deleting the first and then the others, in the order of
/// their numbers: it succeeds if and only if each of these does, and ends with the same
/// streams. Deleting none changes nothing.
pub proof fn law_call_delete_all<L3: StreamLayer>(
    sfs: &mut Sfs<L3>,
    one: &mut Sfs<L3>,
    rest: &mut Sfs<L3>,
    prefix: &str,
    wide: bool,
    first: u64,
    count: u64,
    name: String,
    r: Result<(), SfsError>,
    r1: Result<(), SfsError>,
    r2: Result<(), SfsError>,
)
    requires
        old(sfs).wf(),
        old(sfs).open_views() == Map::<u64, OpenView>::empty(),
        first + count <= u64::MAX,
        call_ensures(delete_all::<L3>, (sfs, prefix, wide, first, count), r),
        final(sfs).faults() == old(sfs).faults(),
        *old(one) == *old(sfs),
        call_ensures(numbered_name, (prefix, wide, first), name),
        exists|path: &str| path@ == name@ && call_ensures(Sfs::<L3>::delete_stream, (one, path), r1),
        final(one).faults() == old(one).faults(),
        *old(rest) == *final(one),
        count > 0 ==> call_ensures(
            delete_all::<L3>,
            (rest, prefix, wide, (first + 1) as u64, (count - 1) as u64),
            r2,
        ),
        final(rest).faults() == old(rest).faults(),
    ensures
        count == 0 ==> r is Ok && final(sfs).world() == old(sfs).world(),
        count > 0 ==> (r is Ok <==> r1 is Ok && r2 is Ok),
        count > 0 && r is Ok ==> final(sfs).world() == final(rest).world(),
        r is Ok ==> final(sfs).open_views() == old(sfs).open_views(),
{
    let w0 = old(sfs).world();
    assert(old(sfs).open_set() =~= Set::empty());
    if count == 0 {
        assert(with_streams(w0, w0.streams) =~= w0);
    }
}

} // verus!
