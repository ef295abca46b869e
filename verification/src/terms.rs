//! The terms in which the laws of the file system speak: bytes by their positions,
//! names by what stands between the slashes, directories by their entries. No code
//! and no contract is written in them, so that a law says on its own what a call
//! does.

use crate::bytes::{le_bytes, lemma_le_bytes_len, pow256};
use crate::dir_entries::{
    dir_bytes, entry_bytes, entry_fits, find, law_entries_round_trip, law_parsed_written,
    lemma_parsed_fits, parsed, without, Entry,
};
use crate::names::{components, dirs_of, first_slash, leaf_of, lemma_components, valid_path, SLASH};
use crate::sfs_model::{
    open_refused, path_refused, read_dir, walk, DirState, ErrorKind, Outcome, World,
};
use crate::types::OpenMode;
use vstd::arithmetic::power::{lemma_pow_adds, lemma_pow_positive, pow};
use vstd::prelude::*;
use vstd::utf8::valid_utf8;

verus! {

// ---------------------------------------------------------------------------
// Numbers
// ---------------------------------------------------------------------------

/// Byte `k` of a number, the least one first.
pub open spec fn byte_of(v: nat, k: nat) -> u8 {
    ((v as int / pow(256, k)) % 256) as u8
}

/// `c` is the capacity of a stream that had the capacity `before` and needs room for
/// `n` bytes: as it was where that is enough, and else the least number of whole
/// units.
pub open spec fn capacity(before: nat, n: nat, unit: nat, c: nat) -> bool {
    if n <= before {
        c == before
    } else {
        n <= c < n + unit && c % unit == 0
    }
}

/// A number of `w` bytes has the bytes of the number, the least one first.
pub proof fn law_le_bytes(v: nat, w: nat, i: int)
    requires
        0 <= i < w,
    ensures
        le_bytes(v, w).len() == w,
        le_bytes(v, w)[i] == byte_of(v, i as nat),
    decreases w,
{
    lemma_le_bytes_len(v, w);
    lemma_le_bytes_len(v / 256, (w - 1) as nat);
    vstd::arithmetic::power::lemma_pow0(256);
    if i > 0 {
        law_le_bytes(v / 256, (w - 1) as nat, i - 1);
        vstd::arithmetic::power::lemma_pow1(256);
        lemma_pow_adds(256, 1, (i - 1) as nat);
        lemma_pow_positive(256, (i - 1) as nat);
        vstd::arithmetic::div_mod::lemma_div_denominator(v as int, 256, pow(256, (i - 1) as nat));
    }
}

/// As many numbers fit into `w` bytes as there are.
pub proof fn law_pow256(w: nat)
    ensures
        pow256(w) == pow(256, w),
    decreases w,
{
    if w == 0 {
        vstd::arithmetic::power::lemma_pow0(256);
    } else {
        law_pow256((w - 1) as nat);
        vstd::arithmetic::power::lemma_pow1(256);
        lemma_pow_adds(256, 1, (w - 1) as nat);
    }
}

// ---------------------------------------------------------------------------
// Entries
// ---------------------------------------------------------------------------

/// The bytes of an entry: two bytes for the number of its bytes, `w` for the number
/// of the stream, and the name.
pub open spec fn spelt_one(e: Entry, w: nat) -> Seq<u8> {
    let n = 2 + w + e.name.len();
    Seq::new(
        n,
        |i: int|
            if i < 2 {
                byte_of(n, i as nat)
            } else if i < 2 + w {
                byte_of(e.id as nat, (i - 2) as nat)
            } else {
                e.name[i - 2 - w]
            },
    )
}

/// The bytes of entries, one behind the other.
pub open spec fn spelt(es: Seq<Entry>, w: nat) -> Seq<u8>
    decreases es.len(),
{
    if es.len() == 0 {
        Seq::empty()
    } else {
        spelt(es.drop_last(), w) + spelt_one(es.last(), w)
    }
}

/// The entries can be told from their bytes.
pub open spec fn can_be_spelt(es: Seq<Entry>, w: nat) -> bool {
    forall|i: int|
        0 <= i < es.len() ==> {
            let e = #[trigger] es[i];
            2 + w + e.name.len() < 65536 && (e.id as int) < pow(256, w) && valid_utf8(e.name)
        }
}

/// The bytes of an entry.
pub proof fn law_entry_spelt(e: Entry, w: nat)
    ensures
        entry_bytes(e, w) == spelt_one(e, w),
{
    let n = 2 + w + e.name.len();
    let m = (n % 65536) as nat;
    let bytes = entry_bytes(e, w);
    lemma_le_bytes_len(m, 2);
    lemma_le_bytes_len(e.id as nat, w);
    assert(bytes.len() == n);
    assert forall|i: int| 0 <= i < n implies bytes[i] == spelt_one(e, w)[i] by {
        if i < 2 {
            law_le_bytes(m, 2, i);
            vstd::arithmetic::power::lemma_pow0(256);
            vstd::arithmetic::power::lemma_pow1(256);
            assert(bytes[i] == le_bytes(m, 2)[i]);
            assert(n % 65536 % 256 == n % 256 && (n % 65536) / 256 % 256 == n / 256 % 256) by (
            nonlinear_arith);
        } else if i < 2 + w {
            law_le_bytes(e.id as nat, w, i - 2);
            assert(bytes[i] == le_bytes(e.id as nat, w)[i - 2]);
        }
    }
    assert(bytes =~= spelt_one(e, w));
}

/// A list of entries is written as its entries, one behind the other.
pub proof fn law_entries_spelt(es: Seq<Entry>, w: nat)
    ensures
        dir_bytes(es, w) == spelt(es, w),
    decreases es.len(),
{
    if es.len() > 0 {
        law_entries_spelt(es.drop_last(), w);
        law_entry_spelt(es.last(), w);
    }
}

/// Bytes are read as the entries that they spell, and as nothing else.
pub proof fn law_read_entries(data: Seq<u8>, w: nat)
    requires
        w <= 8,
    ensures
        forall|es: Seq<Entry>|
            parsed(data, w) == Some(es) <==> data == #[trigger] spelt(es, w) && can_be_spelt(es, w),
{
    law_pow256(w);
    assert forall|es: Seq<Entry>|
        parsed(data, w) == Some(es) <==> data == #[trigger] spelt(es, w) && can_be_spelt(
            es,
            w,
        ) by {
        law_entries_spelt(es, w);
        law_parsed_written(data, w);
        if parsed(data, w) == Some(es) {
            lemma_parsed_fits(data, w);
            assert forall|i: int| 0 <= i < es.len() implies {
                let e = #[trigger] es[i];
                2 + w + e.name.len() < 65536 && (e.id as int) < pow(256, w) && valid_utf8(e.name)
            } by {
                assert(entry_fits(parsed(data, w).unwrap()[i], w));
            }
        }
        if data == spelt(es, w) && can_be_spelt(es, w) {
            assert forall|i: int| 0 <= i < es.len() implies entry_fits(#[trigger] es[i], w) by {}
            law_entries_round_trip(es, w);
        }
    }
}

/// Entry `name` stands in the list, the first of them for stream `id`.
pub open spec fn first_named(es: Seq<Entry>, name: Seq<u8>, id: u64) -> bool {
    exists|i: int|
        {
            &&& 0 <= i < es.len()
            &&& (#[trigger] es[i]) == (Entry { id, name })
            &&& forall|j: int| 0 <= j < i ==> (#[trigger] es[j]).name != name
        }
}

/// No entry of that name stands in the list.
pub open spec fn unnamed(es: Seq<Entry>, name: Seq<u8>) -> bool {
    forall|i: int| 0 <= i < es.len() ==> (#[trigger] es[i]).name != name
}

/// Neither a stream nor a directory of that name stands in the list.
pub open spec fn name_free(es: Seq<Entry>, leaf: Seq<u8>) -> bool {
    forall|i: int|
        0 <= i < es.len() ==> (#[trigger] es[i]).name != leaf && es[i].name != leaf.push(47u8)
}

/// What is found is the first entry of that name.
pub proof fn law_find(es: Seq<Entry>, name: Seq<u8>)
    ensures
        forall|id: u64| find(es, name) == Some(id) <==> #[trigger] first_named(es, name, id),
        find(es, name) is None <==> unnamed(es, name),
    decreases es.len(),
{
    if es.len() > 0 {
        let rest = es.skip(1);
        law_find(rest, name);
        if es[0].name == name {
            assert(first_named(es, name, es[0].id));
            assert forall|id: u64| find(es, name) == Some(id) <==> #[trigger] first_named(
                es,
                name,
                id,
            ) by {}
        } else {
            assert forall|i: int| 0 < i < es.len() implies #[trigger] es[i] == rest[i - 1] by {}
            assert forall|id: u64| first_named(rest, name, id) <==> #[trigger] first_named(
                es,
                name,
                id,
            ) by {
                if first_named(rest, name, id) {
                    let i = choose|i: int|
                        {
                            &&& 0 <= i < rest.len()
                            &&& (#[trigger] rest[i]) == (Entry { id, name })
                            &&& forall|j: int| 0 <= j < i ==> (#[trigger] rest[j]).name != name
                        };
                    assert forall|j: int| 0 <= j < i + 1 implies (#[trigger] es[j]).name != name by {
                        if j > 0 {
                            assert(rest[j - 1] == es[j]);
                        }
                    }
                    assert(es[i + 1] == rest[i]);
                }
                if first_named(es, name, id) {
                    let i = choose|i: int|
                        {
                            &&& 0 <= i < es.len()
                            &&& (#[trigger] es[i]) == (Entry { id, name })
                            &&& forall|j: int| 0 <= j < i ==> (#[trigger] es[j]).name != name
                        };
                    assert(rest[i - 1] == es[i]);
                    assert forall|j: int| 0 <= j < i - 1 implies (#[trigger] rest[j]).name
                        != name by {
                        assert(es[j + 1] == rest[j]);
                    }
                }
            }
            if unnamed(rest, name) {
                assert(unnamed(es, name));
            }
            if unnamed(es, name) {
                assert forall|j: int| 0 <= j < rest.len() implies (#[trigger] rest[j]).name
                    != name by {
                    assert(es[j + 1] == rest[j]);
                }
            }
        }
    }
}

/// What is left without a name are all entries of other names, in their order.
pub proof fn law_without(es: Seq<Entry>, name: Seq<u8>)
    ensures
        without(es, name) == es.filter(|e: Entry| e.name != name),
    decreases es.len(),
{
    reveal(Seq::filter);
    if es.len() > 0 {
        law_without(es.drop_last(), name);
    }
}

// ---------------------------------------------------------------------------
// Paths
// ---------------------------------------------------------------------------

/// Names with a slash between them.
pub open spec fn joined(names: Seq<Seq<u8>>) -> Seq<u8>
    decreases names.len(),
{
    if names.len() == 0 {
        Seq::empty()
    } else if names.len() == 1 {
        names[0]
    } else {
        names[0] + seq![47u8] + joined(names.skip(1))
    }
}

/// `names` are what stands between the slashes of `path`.
pub open spec fn parts(path: Seq<u8>, names: Seq<Seq<u8>>) -> bool {
    &&& names.len() >= 1
    &&& joined(names) == path
    &&& forall|i: int| 0 <= i < names.len() ==> !(#[trigger] names[i]).contains(47u8)
}

/// `path` can be used, and `names` are its parts: each has a byte at least, and
/// 65,522 of them at most.
pub open spec fn says(path: Seq<u8>, names: Seq<Seq<u8>>) -> bool {
    &&& parts(path, names)
    &&& forall|i: int| 0 <= i < names.len() ==> 1 <= (#[trigger] names[i]).len() <= 65522
}

proof fn lemma_joined_back(p: Seq<u8>)
    ensures
        joined(components(p)) == p,
    decreases p.len(),
{
    lemma_components(p);
    crate::names::lemma_first_slash(p);
    let k = first_slash(p);
    if 0 <= k < p.len() {
        let rest = p.skip(k + 1);
        lemma_joined_back(rest);
        lemma_components(rest);
        let all = components(p);
        assert(all.skip(1) =~= components(rest));
        assert(p =~= p.take(k) + seq![47u8] + rest);
    }
}

proof fn lemma_parts_are(names: Seq<Seq<u8>>)
    requires
        names.len() >= 1,
        forall|i: int| 0 <= i < names.len() ==> !(#[trigger] names[i]).contains(47u8),
    ensures
        components(joined(names)) == names,
    decreases names.len(),
{
    let p = joined(names);
    let head = names[0];
    if names.len() == 1 {
        assert forall|i: int| 0 <= i < p.len() implies #[trigger] p[i] != SLASH by {
            assert(head.contains(p[i]));
        }
        crate::names::lemma_first_slash_is(p, p.len() as int);
        assert(components(p) =~= names);
    } else {
        let rest = names.skip(1);
        assert forall|i: int| 0 <= i < rest.len() implies !(#[trigger] rest[i]).contains(47u8) by {
            assert(rest[i] == names[i + 1]);
        }
        lemma_parts_are(rest);
        assert forall|i: int| 0 <= i < head.len() implies #[trigger] p[i] != SLASH by {
            assert(head.contains(head[i]));
            assert(p[i] == head[i]);
        }
        assert(p[head.len() as int] == SLASH);
        crate::names::lemma_first_slash_is(p, head.len() as int);
        assert(p.take(head.len() as int) =~= head);
        assert(p.skip(head.len() as int + 1) =~= joined(rest));
        assert(names =~= seq![head] + rest);
    }
}

/// A path is split into what stands between its slashes.
pub proof fn law_components(path: Seq<u8>)
    ensures
        forall|names: Seq<Seq<u8>>|
            components(path) == names <==> #[trigger] parts(path, names),
        parts(path, dirs_of(path).push(leaf_of(path))),
{
    lemma_joined_back(path);
    lemma_components(path);
    assert forall|names: Seq<Seq<u8>>| components(path) == names <==> #[trigger] parts(
        path,
        names,
    ) by {
        if parts(path, names) {
            lemma_parts_are(names);
        }
    }
    assert(dirs_of(path).push(leaf_of(path)) =~= components(path));
}

/// A path can be used where no part of it is empty or too long.
pub proof fn law_valid_path(path: Seq<u8>)
    ensures
        valid_path(path) <==> exists|names: Seq<Seq<u8>>| #[trigger] says(path, names),
        path.len() == 0 ==> !valid_path(path),
        forall|names: Seq<Seq<u8>>| #[trigger]
            says(path, names) ==> dirs_of(path) == names.drop_last() && leaf_of(path)
                == names.last() && components(path) == names,
{
    law_components(path);
    lemma_components(path);
    if valid_path(path) {
        let names = components(path);
        assert(parts(path, names));
        assert(says(path, names));
    }
    if path.len() == 0 {
        assert(components(path) =~= seq![path]);
        assert(components(path)[0].len() == 0);
    }
    assert forall|names: Seq<Seq<u8>>| #[trigger] says(path, names) implies dirs_of(path)
        == names.drop_last() && leaf_of(path) == names.last() && components(path) == names
        && valid_path(path) by {
        assert(parts(path, names));
    }
}

// ---------------------------------------------------------------------------
// Streams and directories
// ---------------------------------------------------------------------------

/// No open handle keeps stream `id` from being opened in `mode`: a reader stands
/// beside readers, and a writer alone.
pub open spec fn may_open<H>(wd: World<H>, id: u64, mode: OpenMode) -> bool {
    forall|h: H| #[trigger]
        wd.handles.contains_key(h) && wd.handles[h].stream == id ==> mode is Read
            && wd.handles[h].mode is Read
}

/// Stream `id` is there and can be opened in `mode`.
pub open spec fn opens<H>(wd: World<H>, id: u64, mode: OpenMode) -> bool {
    id != u64::MAX && may_open(wd, id, mode) && wd.streams.contains_key(id)
}

/// Stream `id` cannot be opened in `mode`, for this reason.
pub open spec fn barred<H>(wd: World<H>, id: u64, mode: OpenMode, kind: ErrorKind) -> bool {
    if id == u64::MAX {
        kind == ErrorKind::InvalidPath
    } else if !may_open(wd, id, mode) {
        kind == ErrorKind::LockConflict
    } else {
        !wd.streams.contains_key(id) && kind == ErrorKind::NotFound
    }
}

/// Stream `d` can be opened in `mode`, and its bytes spell these entries.
pub open spec fn reads<H>(wd: World<H>, d: u64, mode: OpenMode, es: Seq<Entry>) -> bool {
    &&& opens(wd, d, mode)
    &&& wd.streams[d].data.len() <= usize::MAX
    &&& wd.streams[d].data == spelt(es, wd.width)
    &&& can_be_spelt(es, wd.width)
}

/// The entries of stream `d` cannot be read, for this reason.
pub open spec fn unreadable<H>(wd: World<H>, d: u64, mode: OpenMode, kind: ErrorKind) -> bool {
    if opens(wd, d, mode) {
        kind == ErrorKind::IoError && forall|es: Seq<Entry>| !#[trigger] reads(wd, d, mode, es)
    } else {
        barred(wd, d, mode, kind)
    }
}

/// From directory `cur` the way by `names`, each that of a directory, leads to
/// directory `d`.
pub open spec fn leads<H>(wd: World<H>, cur: u64, names: Seq<Seq<u8>>, d: u64) -> bool
    decreases names.len(),
{
    if names.len() == 0 {
        d == cur
    } else {
        exists|es: Seq<Entry>, next: u64| #[trigger]
            reads(wd, cur, OpenMode::Read, es) && #[trigger] first_named(
                es,
                names[0].push(47u8),
                next,
            ) && leads(wd, next, names.skip(1), d)
    }
}

/// The way from directory `cur` by `names` ends too early, for this reason.
pub open spec fn stuck<H>(wd: World<H>, cur: u64, names: Seq<Seq<u8>>, kind: ErrorKind) -> bool
    decreases names.len(),
{
    if names.len() == 0 {
        false
    } else {
        ||| unreadable(wd, cur, OpenMode::Read, kind)
        ||| exists|es: Seq<Entry>| #[trigger]
            reads(wd, cur, OpenMode::Read, es) && unnamed(es, names[0].push(47u8)) && kind
                == ErrorKind::NotFound
        ||| exists|es: Seq<Entry>, next: u64| #[trigger]
            reads(wd, cur, OpenMode::Read, es) && #[trigger] first_named(
                es,
                names[0].push(47u8),
                next,
            ) && stuck(wd, next, names.skip(1), kind)
    }
}

/// The way by `dirs` leads to directory `d`, which can be opened in `mode` and holds
/// these entries.
pub open spec fn holds<H>(
    wd: World<H>,
    dirs: Seq<Seq<u8>>,
    mode: OpenMode,
    d: u64,
    es: Seq<Entry>,
) -> bool {
    leads(wd, wd.root, dirs, d) && reads(wd, d, mode, es)
}

/// The way by `dirs` leads to no directory that can be opened in `mode` and read, for
/// this reason.
pub open spec fn shut<H>(
    wd: World<H>,
    dirs: Seq<Seq<u8>>,
    mode: OpenMode,
    kind: ErrorKind,
) -> bool {
    ||| stuck(wd, wd.root, dirs, kind)
    ||| exists|d: u64| #[trigger]
        leads(wd, wd.root, dirs, d) && unreadable(wd, d, mode, kind)
}

/// A stream can be opened or not as the handles that are open tell.
pub proof fn law_open_refused<H>(wd: World<H>, id: u64, mode: OpenMode)
    ensures
        open_refused(wd, id, mode) is None <==> opens(wd, id, mode),
        forall|kind: ErrorKind|
            open_refused(wd, id, mode) == Some(kind) <==> !opens(wd, id, mode) && #[trigger] barred(
                wd,
                id,
                mode,
                kind,
            ),
{
    assert(crate::stream_layer::can_open(wd.handles, id, mode) == may_open(wd, id, mode));
}

/// A directory is read as the entries that its bytes spell.
pub proof fn law_read_dir<H>(wd: World<H>, d: u64, mode: OpenMode)
    requires
        wd.width <= 8,
    ensures
        forall|es: Seq<Entry>|
            read_dir(wd, d, mode) == DirState::Entries(es) <==> #[trigger] reads(wd, d, mode, es),
        forall|kind: ErrorKind|
            read_dir(wd, d, mode) == DirState::Refused(kind) <==> #[trigger] unreadable(
                wd,
                d,
                mode,
                kind,
            ),
{
    law_open_refused(wd, d, mode);
    let data = wd.streams[d].data;
    law_read_entries(data, wd.width);
    assert forall|es: Seq<Entry>|
        read_dir(wd, d, mode) == DirState::Entries(es) <==> #[trigger] reads(wd, d, mode, es) by {
        assert(parsed(data, wd.width) == Some(es) <==> data == spelt(es, wd.width) && can_be_spelt(
            es,
            wd.width,
        ));
    }
    assert forall|kind: ErrorKind|
        read_dir(wd, d, mode) == DirState::Refused(kind) <==> #[trigger] unreadable(
            wd,
            d,
            mode,
            kind,
        ) by {
        assert(open_refused(wd, d, mode) == Some(kind) <==> !opens(wd, d, mode) && barred(
            wd,
            d,
            mode,
            kind,
        ));
        if opens(wd, d, mode) {
            match read_dir(wd, d, mode) {
                DirState::Entries(es) => {
                    assert(reads(wd, d, mode, es));
                },
                DirState::Refused(_) => {
                    assert forall|es: Seq<Entry>| !#[trigger] reads(wd, d, mode, es) by {}
                },
            }
        }
    }
}

/// A walk goes the way that the names of directories lead, and ends where that does.
pub proof fn law_walk<H>(wd: World<H>, cur: u64, names: Seq<Seq<u8>>)
    requires
        wd.width <= 8,
    ensures
        forall|d: u64|
            walk(wd, cur, names) == Outcome::Done(d) <==> #[trigger] leads(wd, cur, names, d),
        forall|kind: ErrorKind|
            walk(wd, cur, names) == Outcome::<u64>::Refused(kind) <==> #[trigger] stuck(
                wd,
                cur,
                names,
                kind,
            ),
        walk(wd, cur, names) is Done || walk(wd, cur, names) is Refused,
    decreases names.len(),
{
    if names.len() > 0 {
        law_read_dir(wd, cur, OpenMode::Read);
        let name = names[0].push(47u8);
        match read_dir(wd, cur, OpenMode::Read) {
            DirState::Entries(es) => {
                assert(reads(wd, cur, OpenMode::Read, es));
                law_find(es, name);
                match find(es, name) {
                    Some(next) => {
                        law_walk(wd, next, names.skip(1));
                        assert(first_named(es, name, next));
                        assert forall|d: u64|
                            leads(wd, next, names.skip(1), d) <==> #[trigger] leads(
                                wd,
                                cur,
                                names,
                                d,
                            ) by {}
                        assert forall|kind: ErrorKind|
                            stuck(wd, next, names.skip(1), kind) <==> #[trigger] stuck(
                                wd,
                                cur,
                                names,
                                kind,
                            ) by {
                            assert(!unreadable(wd, cur, OpenMode::Read, kind));
                        }
                    },
                    None => {
                        assert forall|kind: ErrorKind|
                            kind == ErrorKind::NotFound <==> #[trigger] stuck(
                                wd,
                                cur,
                                names,
                                kind,
                            ) by {
                            assert(!unreadable(wd, cur, OpenMode::Read, kind));
                        }
                    },
                }
            },
            DirState::Refused(_) => {
                assert forall|es: Seq<Entry>| !#[trigger] reads(wd, cur, OpenMode::Read, es) by {}
            },
        }
    }
}

/// What is found at the end of a way: the directory and its entries.
pub proof fn law_dir_at<H>(wd: World<H>, dirs: Seq<Seq<u8>>, mode: OpenMode)
    requires
        wd.width <= 8,
    ensures
        forall|d: u64, es: Seq<Entry>| #[trigger]
            holds(wd, dirs, mode, d, es) <==> walk(wd, wd.root, dirs) == Outcome::Done(d)
                && read_dir(wd, d, mode) == DirState::Entries(es),
        forall|kind: ErrorKind| #[trigger]
            shut(wd, dirs, mode, kind) <==> (walk(wd, wd.root, dirs) == Outcome::<u64>::Refused(
                kind,
            ) || (walk(wd, wd.root, dirs) is Done && read_dir(
                wd,
                walk(wd, wd.root, dirs)->Done_0,
                mode,
            ) == DirState::Refused(kind))),
        walk(wd, wd.root, dirs) is Done || walk(wd, wd.root, dirs) is Refused,
{
    law_walk(wd, wd.root, dirs);
    assert forall|d: u64, es: Seq<Entry>| #[trigger]
        holds(wd, dirs, mode, d, es) <==> walk(wd, wd.root, dirs) == Outcome::Done(d) && read_dir(
            wd,
            d,
            mode,
        ) == DirState::Entries(es) by {
        law_read_dir(wd, d, mode);
        assert(walk(wd, wd.root, dirs) == Outcome::Done(d) <==> leads(wd, wd.root, dirs, d));
    }
    assert forall|kind: ErrorKind| #[trigger]
        shut(wd, dirs, mode, kind) <==> (walk(wd, wd.root, dirs) == Outcome::<u64>::Refused(kind)
            || (walk(wd, wd.root, dirs) is Done && read_dir(
            wd,
            walk(wd, wd.root, dirs)->Done_0,
            mode,
        ) == DirState::Refused(kind))) by {
        assert(walk(wd, wd.root, dirs) == Outcome::<u64>::Refused(kind) <==> stuck(
            wd,
            wd.root,
            dirs,
            kind,
        ));
        if walk(wd, wd.root, dirs) is Done {
            let d = walk(wd, wd.root, dirs)->Done_0;
            law_read_dir(wd, d, mode);
            assert(leads(wd, wd.root, dirs, d));
            assert(read_dir(wd, d, mode) == DirState::Refused(kind) <==> unreadable(
                wd,
                d,
                mode,
                kind,
            ));
        }
        assert forall|d: u64| #[trigger] leads(wd, wd.root, dirs, d) implies walk(
            wd,
            wd.root,
            dirs,
        ) == Outcome::Done(d) by {}
    }
}

/// A call is refused at once where it writes and the file was opened for reading, or
/// where the path cannot be used.
pub proof fn law_path_refused<H>(wd: World<H>, path: Seq<u8>, writes: bool)
    ensures
        path_refused(wd, path, writes) == if writes && wd.mode is Read {
            Some(ErrorKind::ReadOnly)
        } else if exists|names: Seq<Seq<u8>>| #[trigger] says(path, names) {
            None
        } else {
            Some(ErrorKind::InvalidPath)
        },
{
    law_valid_path(path);
}

/// The way from directory `cur` by `names` comes to a directory that does not have the
/// next name.
pub open spec fn misses<H>(wd: World<H>, cur: u64, names: Seq<Seq<u8>>) -> bool
    decreases names.len(),
{
    if names.len() == 0 {
        false
    } else {
        exists|es: Seq<Entry>| #[trigger]
            reads(wd, cur, OpenMode::Read, es) && (unnamed(es, names[0].push(47u8)) || exists|
                next: u64,
            | #[trigger]
                first_named(es, names[0].push(47u8), next) && misses(wd, next, names.skip(1)))
    }
}

/// A walk strays where a name of a directory on its way is missing.
pub proof fn law_strays<H>(wd: World<H>, cur: u64, names: Seq<Seq<u8>>)
    requires
        wd.width <= 8,
    ensures
        crate::sfs_model::strays(wd, cur, names) <==> misses(wd, cur, names),
    decreases names.len(),
{
    if names.len() > 0 {
        law_read_dir(wd, cur, OpenMode::Read);
        let name = names[0].push(47u8);
        match read_dir(wd, cur, OpenMode::Read) {
            DirState::Entries(es) => {
                assert(reads(wd, cur, OpenMode::Read, es));
                law_find(es, name);
                match find(es, name) {
                    Some(next) => {
                        law_strays(wd, next, names.skip(1));
                        assert(first_named(es, name, next));
                        assert(!unnamed(es, name));
                    },
                    None => {
                        assert(unnamed(es, name));
                    },
                }
            },
            DirState::Refused(_) => {
                assert forall|es: Seq<Entry>| !#[trigger] reads(wd, cur, OpenMode::Read, es) by {}
            },
        }
    }
}

} // verus!
