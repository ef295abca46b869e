//! Checks of the directories: which streams they name.

use crate::dir_entries::{entry_views, parse_entries, parsed, Entry, StreamEntry};
use crate::names::{names_dir, SLASH};
use crate::stream_layer::{StreamLayer, StreamState};
use crate::types::{text_num, SfsError};
use std::collections::HashSet;
use vstd::prelude::*;

verus! {

broadcast use vstd::std_specs::hash::group_hash_axioms;

/// A stream that some directory names, and whether as a directory.
#[derive(Debug, Clone, Copy)]
pub struct Claim {
    pub id: u64,
    pub dir: bool,
}

/// The entries of a directory; none where there are none to read.
pub open spec fn entries_of(streams: Map<u64, StreamState>, id: u64, w: nat) -> Option<Seq<Entry>> {
    if streams.contains_key(id) && !streams[id].compressed {
        parsed(streams[id].data, w)
    } else {
        None
    }
}

/// The streams that entries name.
pub open spec fn claims_in(es: Seq<Entry>) -> Seq<Claim> {
    Seq::new(es.len(), |i: int| Claim { id: es[i].id, dir: names_dir(es[i].name) })
}

/// `list`, and all that its directories name from number `i` on, and the
/// directories among that, and so on: none where a directory cannot be read, or
/// where `fuel` steps do not reach to the end.
pub open spec fn gathered(
    streams: Map<u64, StreamState>,
    w: nat,
    list: Seq<Claim>,
    i: nat,
    fuel: nat,
) -> Option<Seq<Claim>>
    decreases fuel,
{
    if i >= list.len() {
        Some(list)
    } else if fuel == 0 {
        None
    } else if list[i as int].dir {
        match entries_of(streams, list[i as int].id, w) {
            Some(es) => gathered(streams, w, list + claims_in(es), i + 1, (fuel - 1) as nat),
            None => None,
        }
    } else {
        gathered(streams, w, list, i + 1, (fuel - 1) as nat)
    }
}

/// The numbers of the streams that are claimed.
pub open spec fn claim_ids(list: Seq<Claim>) -> Seq<u64> {
    Seq::new(list.len(), |i: int| list[i].id)
}

/// The root alone.
pub open spec fn root_claim(root: u64) -> Seq<Claim> {
    seq![Claim { id: root, dir: true }]
}

/// `ids` are the streams that the directories name, the root among them, and no
/// stream is named twice.
pub open spec fn tree_names(
    streams: Map<u64, StreamState>,
    w: nat,
    root: u64,
    ids: Seq<u64>,
) -> bool {
    &&& ids.no_duplicates()
    &&& exists|fuel: nat|
        #[trigger] gathered(streams, w, root_claim(root), 0, fuel) is Some && claim_ids(
            gathered(streams, w, root_claim(root), 0, fuel).unwrap(),
        ) == ids
}

/// What was listed stays listed.
pub proof fn lemma_gathered_begin(
    streams: Map<u64, StreamState>,
    w: nat,
    list: Seq<Claim>,
    i: nat,
    fuel: nat,
)
    requires
        gathered(streams, w, list, i, fuel) is Some,
    ensures
        list.len() <= gathered(streams, w, list, i, fuel).unwrap().len(),
        gathered(streams, w, list, i, fuel).unwrap().take(list.len() as int) == list,
    decreases fuel,
{
    let all = gathered(streams, w, list, i, fuel).unwrap();
    if i >= list.len() {
        assert(all.take(list.len() as int) =~= list);
    } else if list[i as int].dir {
        let es = entries_of(streams, list[i as int].id, w).unwrap();
        let more = list + claims_in(es);
        lemma_gathered_begin(streams, w, more, i + 1, (fuel - 1) as nat);
        assert(all.take(list.len() as int) =~= all.take(more.len() as int).take(
            list.len() as int,
        ));
        assert(more.take(list.len() as int) =~= list);
    } else {
        lemma_gathered_begin(streams, w, list, i + 1, (fuel - 1) as nat);
    }
}

/// More steps than needed do no harm.
pub proof fn lemma_gathered_more(
    streams: Map<u64, StreamState>,
    w: nat,
    list: Seq<Claim>,
    i: nat,
    fuel: nat,
    more: nat,
)
    requires
        gathered(streams, w, list, i, fuel) is Some,
        fuel <= more,
    ensures
        gathered(streams, w, list, i, more) == gathered(streams, w, list, i, fuel),
    decreases fuel,
{
    if i < list.len() {
        if list[i as int].dir {
            let es = entries_of(streams, list[i as int].id, w).unwrap();
            lemma_gathered_more(
                streams,
                w,
                list + claims_in(es),
                i + 1,
                (fuel - 1) as nat,
                (more - 1) as nat,
            );
        } else {
            lemma_gathered_more(
                streams,
                w,
                list,
                i + 1,
                (fuel - 1) as nat,
                (more - 1) as nat,
            );
        }
    }
}

/// The directories name one list of streams at most.
pub proof fn lemma_names_unique(
    streams: Map<u64, StreamState>,
    w: nat,
    root: u64,
    a: Seq<u64>,
    b: Seq<u64>,
)
    requires
        tree_names(streams, w, root, a),
        tree_names(streams, w, root, b),
    ensures
        a == b,
{
    let init = root_claim(root);
    let f = choose|fuel: nat|
        #[trigger] gathered(streams, w, init, 0, fuel) is Some && claim_ids(
            gathered(streams, w, init, 0, fuel).unwrap(),
        ) == a;
    let g = choose|fuel: nat|
        #[trigger] gathered(streams, w, init, 0, fuel) is Some && claim_ids(
            gathered(streams, w, init, 0, fuel).unwrap(),
        ) == b;
    let most = if f < g {
        g
    } else {
        f
    };
    lemma_gathered_more(streams, w, init, 0, f, most);
    lemma_gathered_more(streams, w, init, 0, g, most);
}

/// Where two stores give the same entries, they name the same streams.
pub proof fn lemma_names_same(
    a: Map<u64, StreamState>,
    b: Map<u64, StreamState>,
    w: nat,
    root: u64,
    ids: Seq<u64>,
)
    requires
        forall|id: u64| #[trigger] entries_of(a, id, w) == entries_of(b, id, w),
    ensures
        tree_names(a, w, root, ids) == tree_names(b, w, root, ids),
{
    let init = root_claim(root);
    assert forall|fuel: nat| #[trigger]
        gathered(a, w, init, 0, fuel) == gathered(b, w, init, 0, fuel) by {
        lemma_gathered_same(a, b, w, init, 0, fuel);
    }
    if tree_names(a, w, root, ids) {
        let f = choose|fuel: nat|
            #[trigger] gathered(a, w, init, 0, fuel) is Some && claim_ids(
                gathered(a, w, init, 0, fuel).unwrap(),
            ) == ids;
        assert(gathered(b, w, init, 0, f) is Some);
    }
    if tree_names(b, w, root, ids) {
        let f = choose|fuel: nat|
            #[trigger] gathered(b, w, init, 0, fuel) is Some && claim_ids(
                gathered(b, w, init, 0, fuel).unwrap(),
            ) == ids;
        assert(gathered(a, w, init, 0, f) is Some);
    }
}

proof fn lemma_gathered_same(
    a: Map<u64, StreamState>,
    b: Map<u64, StreamState>,
    w: nat,
    list: Seq<Claim>,
    i: nat,
    fuel: nat,
)
    requires
        forall|id: u64| #[trigger] entries_of(a, id, w) == entries_of(b, id, w),
    ensures
        gathered(a, w, list, i, fuel) == gathered(b, w, list, i, fuel),
    decreases fuel,
{
    if i < list.len() && fuel > 0 {
        if list[i as int].dir {
            assert(entries_of(a, list[i as int].id, w) == entries_of(b, list[i as int].id, w));
            if let Some(es) = entries_of(a, list[i as int].id, w) {
                lemma_gathered_same(a, b, w, list + claims_in(es), i + 1, (fuel - 1) as nat);
            }
        } else {
            lemma_gathered_same(a, b, w, list, i + 1, (fuel - 1) as nat);
        }
    }
}

/// The walk has come to `list` and is to go on at number `i`.
spec fn walk_at(
    streams: Map<u64, StreamState>,
    w: nat,
    root: u64,
    list: Seq<Claim>,
    i: nat,
) -> bool {
    forall|fuel: nat| #[trigger]
        gathered(streams, w, list, i, fuel) == gathered(
            streams,
            w,
            root_claim(root),
            0,
            fuel + i,
        )
}

/// No list of streams fits the directories.
pub open spec fn no_names(streams: Map<u64, StreamState>, w: nat, root: u64) -> bool {
    forall|ids: Seq<u64>| !#[trigger] tree_names(streams, w, root, ids)
}

/// The walk cannot go on, or has found a stream twice.
proof fn lemma_walk_fails(
    streams: Map<u64, StreamState>,
    w: nat,
    root: u64,
    list: Seq<Claim>,
    i: nat,
)
    requires
        walk_at(streams, w, root, list, i),
        i < list.len(),
        list[i as int].dir,
        entries_of(streams, list[i as int].id, w) is None || !claim_ids(
            list + claims_in(entries_of(streams, list[i as int].id, w).unwrap()),
        ).no_duplicates(),
    ensures
        no_names(streams, w, root),
{
    let init = root_claim(root);
    assert forall|ids: Seq<u64>| !#[trigger] tree_names(streams, w, root, ids) by {
        if tree_names(streams, w, root, ids) {
            let f = choose|fuel: nat|
                #[trigger] gathered(streams, w, init, 0, fuel) is Some && claim_ids(
                    gathered(streams, w, init, 0, fuel).unwrap(),
                ) == ids;
            let more = f + 1;
            lemma_gathered_more(streams, w, init, 0, f, more + i);
            assert(gathered(streams, w, list, i, more) == gathered(
                streams,
                w,
                init,
                0,
                more + i,
            ));
            let es = entries_of(streams, list[i as int].id, w).unwrap();
            let next = list + claims_in(es);
            lemma_gathered_begin(streams, w, next, i + 1, (more - 1) as nat);
            let all = gathered(streams, w, next, i + 1, (more - 1) as nat).unwrap();
            assert(claim_ids(all) == ids);
            let part = claim_ids(next);
            assert forall|x: int, y: int| 0 <= x < y < part.len() implies part[x] != part[y] by {
                assert(all.take(next.len() as int)[x] == next[x]);
                assert(all.take(next.len() as int)[y] == next[y]);
                assert(ids[x] != ids[y]);
            }
            assert(part.no_duplicates());
        }
    }
}

proof fn lemma_walk_step(
    streams: Map<u64, StreamState>,
    w: nat,
    root: u64,
    list: Seq<Claim>,
    i: nat,
)
    requires
        walk_at(streams, w, root, list, i),
        i < list.len(),
        list[i as int].dir ==> entries_of(streams, list[i as int].id, w) is Some,
    ensures
        list[i as int].dir ==> walk_at(
            streams,
            w,
            root,
            list + claims_in(entries_of(streams, list[i as int].id, w).unwrap()),
            i + 1,
        ),
        !list[i as int].dir ==> walk_at(streams, w, root, list, i + 1),
{
    let init = root_claim(root);
    if list[i as int].dir {
        let next = list + claims_in(entries_of(streams, list[i as int].id, w).unwrap());
        assert forall|fuel: nat| #[trigger] gathered(streams, w, next, i + 1, fuel) == gathered(
            streams,
            w,
            init,
            0,
            fuel + (i + 1),
        ) by {
            assert(gathered(streams, w, list, i, fuel + 1) == gathered(
                streams,
                w,
                init,
                0,
                (fuel + 1) + i,
            ));
        }
    } else {
        assert forall|fuel: nat| #[trigger] gathered(streams, w, list, i + 1, fuel) == gathered(
            streams,
            w,
            init,
            0,
            fuel + (i + 1),
        ) by {
            assert(gathered(streams, w, list, i, fuel + 1) == gathered(
                streams,
                w,
                init,
                0,
                (fuel + 1) + i,
            ));
        }
    }
}

/// Whether an entry names a directory.
fn is_dir_entry(e: &StreamEntry) -> (dir: bool)
    ensures
        dir == names_dir(e.name@),
{
    let n: usize = e.name.len();
    n > 0 && e.name[n - 1] == SLASH
}

/// Notes the streams that entries name. A stream that is named again is
/// reported, and is no directory to go on with.
fn note_entries(
    list: &mut Vec<Claim>,
    seen: &mut HashSet<u64>,
    issues: &mut Vec<String>,
    entries: &Vec<StreamEntry>,
)
    requires
        forall|id: u64| #[trigger] old(seen)@.contains(id) <==> claim_ids(old(list)@).contains(id),
    ensures
        final(issues)@.len() >= old(issues)@.len(),
        final(list)@.len() >= old(list)@.len(),
        final(list)@.take(old(list)@.len() as int) == old(list)@,
        forall|id: u64| #[trigger]
            final(seen)@.contains(id) <==> claim_ids(final(list)@).contains(id),
        claim_ids(old(list)@).no_duplicates() ==> {
            let next = old(list)@ + claims_in(entry_views(entries@));
            &&& final(issues)@.len() == old(issues)@.len() <==> claim_ids(next).no_duplicates()
            &&& final(issues)@.len() == old(issues)@.len() ==> final(list)@ == next
        },
{
    let ghost l0 = list@;
    let ghost n0 = issues@.len();
    let ghost named = claims_in(entry_views(entries@));
    let mut k: usize = 0;
    proof {
        assert(list@.take(l0.len() as int) =~= l0);
        assert(list@ =~= l0 + named.take(0));
    }
    while k < entries.len()
        invariant
            k <= entries@.len(),
            named == claims_in(entry_views(entries@)),
            issues@.len() >= n0,
            list@.len() >= l0.len(),
            list@.take(l0.len() as int) == l0,
            forall|id: u64| #[trigger] seen@.contains(id) <==> claim_ids(list@).contains(id),
            claim_ids(l0).no_duplicates() ==> {
                &&& issues@.len() == n0 <==> claim_ids(
                    l0 + named.take(k as int),
                ).no_duplicates()
                &&& issues@.len() == n0 ==> list@ == l0 + named.take(k as int)
            },
        decreases entries@.len() - k,
    {
        let e: &StreamEntry = &entries[k];
        let id: u64 = e.id;
        let dir: bool = is_dir_entry(e);
        let ghost l1 = list@;
        let fresh: bool = seen.insert(id);
        if !fresh {
            issues.push(
                text_num("L4: stream ID ", id, " appears in multiple directory entries"),
            );
        }
        list.push(Claim { id, dir: dir && fresh });
        proof {
            lemma_id_pushed(l1, list@[l1.len() as int]);
            assert(list@ =~= l1.push(list@[l1.len() as int]));
            assert(list@.take(l0.len() as int) =~= l1.take(l0.len() as int));
            let s0 = l0 + named.take(k as int);
            let c = named[k as int];
            let s1 = l0 + named.take(k + 1);
            assert(s1 =~= s0.push(c));
            assert(c.id == id && c.dir == dir);
            lemma_id_pushed(s0, c);
        }
        k = k + 1;
    }
    proof {
        assert(named.take(k as int) =~= named);
    }
}

/// One more claim.
proof fn lemma_id_pushed(list: Seq<Claim>, c: Claim)
    ensures
        forall|id: u64| #[trigger]
            claim_ids(list.push(c)).contains(id) <==> claim_ids(list).contains(id) || id == c.id,
        claim_ids(list.push(c)).no_duplicates() <==> claim_ids(list).no_duplicates() && !claim_ids(
            list,
        ).contains(c.id),
{
    let a = claim_ids(list);
    let b = claim_ids(list.push(c));
    let n = list.len() as int;
    assert(b =~= a.push(c.id));
    assert(b[n] == c.id);
    assert forall|id: u64| #[trigger] b.contains(id) <==> a.contains(id) || id == c.id by {
        if a.contains(id) {
            let i = choose|i: int| 0 <= i < a.len() && a[i] == id;
            assert(b[i] == id);
        }
        if b.contains(id) {
            let i = choose|i: int| 0 <= i < b.len() && b[i] == id;
            if i < n {
                assert(a[i] == id);
            }
        }
    }
    if b.no_duplicates() {
        assert forall|x: int, y: int| 0 <= x < y < a.len() implies a[x] != a[y] by {
            assert(b[x] != b[y]);
        }
        if a.contains(c.id) {
            let i = choose|i: int| 0 <= i < a.len() && a[i] == c.id;
            assert(b[i] == b[n]);
        }
    }
    if a.no_duplicates() && !a.contains(c.id) {
        assert forall|x: int, y: int| 0 <= x < y < b.len() implies b[x] != b[y] by {
            if y < n {
                assert(a[x] != a[y]);
            } else {
                assert(a.contains(a[x]));
            }
        }
    }
}

/// The numbers of the streams that are claimed.
fn ids_of(list: &Vec<Claim>) -> (ids: Vec<u64>)
    ensures
        ids@ == claim_ids(list@),
{
    let mut ids: Vec<u64> = Vec::new();
    let mut i: usize = 0;
    while i < list.len()
        invariant
            i <= list@.len(),
            ids@ == claim_ids(list@).take(i as int),
        decreases list@.len() - i,
    {
        ids.push(list[i].id);
        i = i + 1;
        proof {
            assert(ids@ =~= claim_ids(list@).take(i as int));
        }
    }
    proof {
        assert(claim_ids(list@).take(i as int) =~= claim_ids(list@));
    }
    ids
}

/// Two states of a stream layer between which nothing was changed.
pub open spec fn same_layer<L3: StreamLayer>(a: L3, b: L3) -> bool {
    &&& b.wf() == a.wf()
    &&& b.tidy() == a.tidy()
    &&& b.usable() == a.usable()
    &&& b.iwidth() == a.iwidth()
    &&& b.first_slot() == a.first_slot()
    &&& b.unit(false) == a.unit(false)
    &&& b.unit(true) == a.unit(true)
    &&& b.compression() == a.compression()
    &&& b.streams() == a.streams()
    &&& b.handles() == a.handles()
    &&& b.slots() == a.slots()
    &&& b.stored() == a.stored()
    &&& b.faults() >= a.faults()
    &&& L3::reads_always() ==> b.faults() == a.faults()
    &&& forall|claimed: Seq<u64>| #[trigger] b.intact(claimed) == a.intact(claimed)
}

/// What is stored is in order, whatever streams it holds.
pub open spec fn in_order<L3: StreamLayer>(layer3: L3) -> bool {
    exists|claimed: Seq<u64>| #[trigger] layer3.intact(claimed)
}

/// Walks through all directories. Gives the streams that they name, the root
/// among them, and what there is to report: a directory that cannot be read, or
/// a stream that is named more than once.
pub(crate) fn collect_stream_ids<L3: StreamLayer>(layer3: &mut L3, root: u64) -> (r: (
    Vec<u64>,
    Vec<String>,
))
    requires
        old(layer3).wf() || old(layer3).usable(),
    ensures
        same_layer(*old(layer3), *final(layer3)),
        final(layer3).faults() > old(layer3).faults() ==> r.1@.len() > 0,
        r.0@.contains(root),
        in_order(*old(layer3)) && final(layer3).faults() == old(layer3).faults() ==> {
            let streams = old(layer3).stored();
            let w = old(layer3).iwidth();
            &&& r.1@.len() == 0 ==> tree_names(streams, w, root, r.0@)
            &&& r.1@.len() > 0 ==> no_names(streams, w, root)
        },
{
    let ghost streams = layer3.stored();
    let ghost w = layer3.iwidth();
    let ghost ok = in_order(*layer3);
    proof {
        if layer3.wf() {
            layer3.lemma_wf();
        }
        layer3.lemma_usable();
    }
    let width: u8 = layer3.block_index_width();
    let mut list: Vec<Claim> = Vec::new();
    let mut seen: HashSet<u64> = HashSet::new();
    let mut issues: Vec<String> = Vec::new();
    proof {
        lemma_id_pushed(Seq::empty(), Claim { id: root, dir: true });
    }
    list.push(Claim { id: root, dir: true });
    let _ = seen.insert(root);
    let mut i: usize = 0;
    proof {
        assert(list@ =~= root_claim(root));
        assert(list@ =~= Seq::<Claim>::empty().push(Claim { id: root, dir: true }));
        assert(walk_at(streams, w, root, list@, 0));
    }
    while i < list.len()
        invariant
            i <= list@.len(),
            list@.len() > 0,
            list@[0].id == root,
            layer3.wf() || layer3.usable(),
            same_layer(*old(layer3), *layer3),
            streams == old(layer3).stored(),
            w == old(layer3).iwidth(),
            ok == in_order(*old(layer3)),
            1 <= width == w <= 8,
            layer3.faults() > old(layer3).faults() ==> issues@.len() > 0,
            forall|id: u64| #[trigger] seen@.contains(id) <==> claim_ids(list@).contains(id),
            ok && layer3.faults() == old(layer3).faults() ==> {
                &&& issues@.len() == 0 ==> walk_at(streams, w, root, list@, i as nat) && claim_ids(
                    list@,
                ).no_duplicates()
                &&& issues@.len() > 0 ==> no_names(streams, w, root)
            },
        decreases usize::MAX - i,
    {
        let c: Claim = list[i];
        let ghost l0 = list@;
        let ghost n0 = issues@.len();
        let ghost clean = ok && n0 == 0;
        assert(list@.len() == list.len());
        if c.dir {
            proof {
                if ok {
                    let claimed = choose|claimed: Seq<u64>| #[trigger]
                        old(layer3).intact(claimed);
                    assert(layer3.intact(claimed));
                }
            }
            let found: Result<Vec<u8>, SfsError> = layer3.peek_stream(c.id);
            match found {
                Ok(data) => {
                    match parse_entries(data.as_slice(), width) {
                        Ok(entries) => {
                            proof {
                                if clean && layer3.faults() == old(layer3).faults() {
                                    lemma_walk_step(streams, w, root, l0, i as nat);
                                }
                            }
                            note_entries(&mut list, &mut seen, &mut issues, &entries);
                            proof {
                                assert(list@.take(l0.len() as int)[0] == l0[0]);
                                if clean && layer3.faults() == old(layer3).faults() {
                                    if issues@.len() > 0 {
                                        lemma_walk_fails(streams, w, root, l0, i as nat);
                                    }
                                }
                            }
                        },
                        Err(e) => {
                            issues.push(
                                text_num(
                                    "L4: failed to read entries from directory stream ",
                                    c.id,
                                    ": ",
                                ).concat(e.text().as_str()),
                            );
                            proof {
                                if clean && layer3.faults() == old(layer3).faults() {
                                    lemma_walk_fails(streams, w, root, l0, i as nat);
                                }
                            }
                        },
                    }
                },
                Err(e) => {
                    issues.push(
                        text_num(
                            "L4: failed to open directory stream ",
                            c.id,
                            " for verification: ",
                        ).concat(e.text().as_str()),
                    );
                    proof {
                        if clean && layer3.faults() == old(layer3).faults() {
                            lemma_walk_fails(streams, w, root, l0, i as nat);
                        }
                    }
                },
            }
        } else {
            proof {
                if clean && layer3.faults() == old(layer3).faults() {
                    lemma_walk_step(streams, w, root, l0, i as nat);
                }
            }
        }
        i = i + 1;
    }
    let ids: Vec<u64> = ids_of(&list);
    proof {
        assert(ids@[0] == root);
        if ok && layer3.faults() == old(layer3).faults() && issues@.len() == 0 {
            assert(gathered(streams, w, list@, i as nat, 0) == gathered(
                streams,
                w,
                root_claim(root),
                0,
                0nat + i as nat,
            ));
        }
    }
    (ids, issues)
}

} // verus!
