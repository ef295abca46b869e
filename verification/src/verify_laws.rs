//! What it means that a check finds nothing amiss: the directories are a tree, in which
//! every stream has one place.

use crate::dir_entries::{parsed, Entry};
use crate::names::names_dir;
use crate::sfs::Sfs;
use crate::stream_layer::{can_open, OpenState, tells_apart, StreamLayer, StreamState};
use crate::terms::{can_be_spelt, law_read_entries, spelt};
use crate::tree_check::{
    claim_ids, claims_in, entries_of, gathered, lemma_gathered_begin, root_claim, tree_names, Claim,
};
use crate::tree_shape::sound;
use crate::types::{decimal, OpenMode, SfsError};
use vstd::prelude::*;

verus! {

/// Stream `d` is a directory that holds these entries.
pub open spec fn is_dir(streams: Map<u64, StreamState>, w: nat, d: u64, es: Seq<Entry>) -> bool {
    &&& streams.contains_key(d)
    &&& !streams[d].compressed
    &&& streams[d].data == spelt(es, w)
    &&& can_be_spelt(es, w)
}

/// The streams `all` are a tree of directories from `root` down, `dirs` are the
/// directories among them, and `rank` grows on the way: every directory can be read, an
/// entry with a slash is a directory and one without is none, and every stream but the
/// root has one entry and no more.
pub open spec fn is_tree(
    streams: Map<u64, StreamState>,
    w: nat,
    root: u64,
    all: Set<u64>,
    dirs: Set<u64>,
    rank: Map<u64, nat>,
) -> bool {
    &&& dirs.contains(root)
    &&& all.contains(root)
    &&& forall|d: u64| #[trigger]
        dirs.contains(d) ==> all.contains(d) && exists|es: Seq<Entry>| is_dir(streams, w, d, es)
    &&& forall|d: u64, es: Seq<Entry>, i: int|
        #![trigger is_dir(streams, w, d, es), es[i]]
        dirs.contains(d) && is_dir(streams, w, d, es) && 0 <= i < es.len() ==> {
            &&& all.contains(es[i].id)
            &&& es[i].id != root
            &&& dirs.contains(es[i].id) <==> es[i].name.len() > 0 && es[i].name.last() == 47
            &&& rank[d] < rank[es[i].id]
        }
    &&& forall|id: u64| #[trigger]
        all.contains(id) && id != root ==> exists|d: u64, es: Seq<Entry>, i: int|
            #![trigger is_dir(streams, w, d, es), es[i]]
            dirs.contains(d) && is_dir(streams, w, d, es) && 0 <= i < es.len() && es[i].id == id
    &&& forall|d: u64, es: Seq<Entry>, i: int, d2: u64, es2: Seq<Entry>, i2: int|
        #![trigger is_dir(streams, w, d, es), es[i], is_dir(streams, w, d2, es2), es2[i2]]
        dirs.contains(d) && is_dir(streams, w, d, es) && 0 <= i < es.len() && dirs.contains(d2)
            && is_dir(streams, w, d2, es2) && 0 <= i2 < es2.len() && es[i].id == es2[i2].id ==> d
            == d2 && i == i2
}

/// How many claims a directory makes.
spec fn claims_of(streams: Map<u64, StreamState>, w: nat, c: Claim) -> nat {
    if c.dir {
        entries_of(streams, c.id, w).unwrap().len()
    } else {
        0
    }
}

/// Where the claims of number `k` begin.
spec fn place(streams: Map<u64, StreamState>, w: nat, all: Seq<Claim>, k: nat) -> nat
    decreases k,
{
    if k == 0 {
        1
    } else {
        place(streams, w, all, (k - 1) as nat) + claims_of(streams, w, all[k - 1])
    }
}

/// Where the claim of entry `e` of number `k` stands.
spec fn spot(streams: Map<u64, StreamState>, w: nat, all: Seq<Claim>, k: int, e: int) -> int {
    place(streams, w, all, k as nat) + e
}

spec fn claimed_there(
    streams: Map<u64, StreamState>,
    w: nat,
    all: Seq<Claim>,
    k: int,
    e: int,
) -> bool {
    let es = entries_of(streams, all[k].id, w).unwrap();
    let j = spot(streams, w, all, k, e);
    1 <= j < all.len() && all[j] == (Claim { id: es[e].id, dir: names_dir(es[e].name) })
}

proof fn lemma_places_grow(streams: Map<u64, StreamState>, w: nat, all: Seq<Claim>, j: nat, k: nat)
    requires
        j <= k,
    ensures
        place(streams, w, all, j) <= place(streams, w, all, k),
        j < k ==> place(streams, w, all, j) + claims_of(streams, w, all[j as int]) <= place(
            streams,
            w,
            all,
            k,
        ),
    decreases k,
{
    if j < k {
        lemma_places_grow(streams, w, all, j, (k - 1) as nat);
    }
}

/// The claim at place `j` is one of those of some number.
proof fn lemma_place_of(
    streams: Map<u64, StreamState>,
    w: nat,
    all: Seq<Claim>,
    n: nat,
    j: int,
) -> (k: nat)
    requires
        1 <= j < place(streams, w, all, n),
    ensures
        k < n,
        place(streams, w, all, k) <= j < place(streams, w, all, k) + claims_of(
            streams,
            w,
            all[k as int],
        ),
    decreases n,
{
    if n == 0 {
        0
    } else if j >= place(streams, w, all, (n - 1) as nat) {
        (n - 1) as nat
    } else {
        lemma_place_of(streams, w, all, (n - 1) as nat, j)
    }
}

/// All that was gathered: each directory can be read, and its claims stand at its place.
proof fn lemma_gathered_places(
    streams: Map<u64, StreamState>,
    w: nat,
    list: Seq<Claim>,
    i: nat,
    fuel: nat,
)
    requires
        gathered(streams, w, list, i, fuel) is Some,
        i <= list.len(),
        list.len() == place(streams, w, gathered(streams, w, list, i, fuel).unwrap(), i),
    ensures
        ({
            let all = gathered(streams, w, list, i, fuel).unwrap();
            &&& place(streams, w, all, all.len()) == all.len()
            &&& forall|k: int|
                i <= k < all.len() && (#[trigger] all[k]).dir ==> {
                    let es = entries_of(streams, all[k].id, w).unwrap();
                    let at = place(streams, w, all, k as nat) as int;
                    &&& entries_of(streams, all[k].id, w) is Some
                    &&& at + es.len() <= all.len()
                    &&& all.subrange(at, at + es.len()) == claims_in(es)
                }
        }),
    decreases fuel,
{
    let all = gathered(streams, w, list, i, fuel).unwrap();
    lemma_gathered_begin(streams, w, list, i, fuel);
    if i < list.len() {
        assert(all.take(list.len() as int)[i as int] == list[i as int]);
        if list[i as int].dir {
            let es = entries_of(streams, list[i as int].id, w).unwrap();
            let more = list + claims_in(es);
            lemma_gathered_begin(streams, w, more, i + 1, (fuel - 1) as nat);
            lemma_gathered_places(streams, w, more, i + 1, (fuel - 1) as nat);
            let at = list.len() as int;
            assert(all.subrange(at, at + es.len()) =~= claims_in(es)) by {
                assert forall|j: int| 0 <= j < es.len() implies all[at + j] == claims_in(es)[j] by {
                    assert(all.take(more.len() as int)[at + j] == more[at + j]);
                }
            }
        } else {
            lemma_gathered_places(streams, w, list, i + 1, (fuel - 1) as nat);
        }
    } else {
        assert(all == list);
    }
}

/// What a directory claims stands behind it.
proof fn lemma_place_behind(
    streams: Map<u64, StreamState>,
    w: nat,
    all: Seq<Claim>,
    k: nat,
    list: Seq<Claim>,
    fuel: nat,
)
    requires
        list.len() >= 1,
        gathered(streams, w, list, 0, fuel) == Some(all),
        list.len() == place(streams, w, all, 0),
        k < all.len(),
    ensures
        place(streams, w, all, k) > k,
{
    lemma_behind(streams, w, list, 0, fuel, k);
}

proof fn lemma_behind(
    streams: Map<u64, StreamState>,
    w: nat,
    list: Seq<Claim>,
    i: nat,
    fuel: nat,
    k: nat,
)
    requires
        gathered(streams, w, list, i, fuel) is Some,
        list.len() == place(streams, w, gathered(streams, w, list, i, fuel).unwrap(), i),
        i <= k < gathered(streams, w, list, i, fuel).unwrap().len(),
        i <= list.len(),
    ensures
        place(streams, w, gathered(streams, w, list, i, fuel).unwrap(), k) > k,
    decreases fuel,
{
    let all = gathered(streams, w, list, i, fuel).unwrap();
    lemma_gathered_begin(streams, w, list, i, fuel);
    if i < list.len() {
        assert(all.take(list.len() as int)[i as int] == list[i as int]);
        if k > i {
            if list[i as int].dir {
                let es = entries_of(streams, list[i as int].id, w).unwrap();
                lemma_behind(streams, w, list + claims_in(es), i + 1, (fuel - 1) as nat, k);
            } else {
                lemma_behind(streams, w, list, i + 1, (fuel - 1) as nat, k);
            }
        }
    }
}

/// `all` are the claims that were gathered, and `ids` their numbers, none of them twice.
#[verifier::opaque]
spec fn laid(
    streams: Map<u64, StreamState>,
    w: nat,
    root: u64,
    ids: Seq<u64>,
    all: Seq<Claim>,
) -> bool {
    &&& w <= 8
    &&& ids.no_duplicates()
    &&& claim_ids(all) == ids
    &&& all.len() > 0
    &&& all[0] == (Claim { id: root, dir: true })
    &&& exists|fuel: nat| gathered(streams, w, root_claim(root), 0, fuel) == Some(all)
}

/// Whether number `k` is a directory, and which stream it is.
proof fn lemma_laid(
    streams: Map<u64, StreamState>,
    w: nat,
    root: u64,
    ids: Seq<u64>,
    all: Seq<Claim>,
    k: int,
)
    requires
        laid(streams, w, root, ids, all),
        0 <= k < all.len(),
    ensures
        ids.len() == all.len(),
        ids[k] == all[k].id,
        ids.to_set().contains(all[k].id),
        forall|j: int| 0 <= j < all.len() && j != k ==> (#[trigger] all[j]).id != all[k].id,
        all[0] == (Claim { id: root, dir: true }),
        place(streams, w, all, k as nat) > k,
        place(streams, w, all, all.len()) == all.len(),
        all[k].dir ==> {
            let es = entries_of(streams, all[k].id, w).unwrap();
            &&& is_dir(streams, w, all[k].id, es)
            &&& forall|e2: Seq<Entry>| #[trigger] is_dir(streams, w, all[k].id, e2) ==> e2 == es
            &&& forall|e: int|
                0 <= e < es.len() && #[trigger] spot(streams, w, all, k, e) >= 0 ==> claimed_there(
                    streams,
                    w,
                    all,
                    k,
                    e,
                )
        },
{
    reveal(laid);
    let list = root_claim(root);
    let fuel = choose|fuel: nat| gathered(streams, w, list, 0, fuel) == Some(all);
    lemma_gathered_places(streams, w, list, 0, fuel);
    lemma_place_behind(streams, w, all, k as nat, list, fuel);
    assert(claim_ids(all)[k] == all[k].id);
    assert(ids.contains(ids[k]));
    assert forall|j: int| 0 <= j < all.len() && j != k implies (#[trigger] all[j]).id
        != all[k].id by {
        assert(claim_ids(all)[j] == all[j].id);
        assert(ids[j] != ids[k]);
    }
    if all[k].dir {
        let id = all[k].id;
        let es = entries_of(streams, id, w).unwrap();
        law_read_entries(streams[id].data, w);
        assert(parsed(streams[id].data, w) == Some(es));
        assert(spelt(es, w) == streams[id].data && can_be_spelt(es, w));
        assert forall|e2: Seq<Entry>| #[trigger] is_dir(streams, w, id, e2) implies e2 == es by {
            assert(spelt(e2, w) == streams[id].data);
        }
        let p = place(streams, w, all, k as nat) as int;
        assert forall|e: int|
            0 <= e < es.len() && #[trigger] spot(streams, w, all, k, e) >= 0 implies claimed_there(
            streams,
            w,
            all,
            k,
            e,
        ) by {
            lemma_places_grow(streams, w, all, 0, k as nat);
            assert(all.subrange(p, p + es.len())[e] == claims_in(es)[e]);
        }
    }
}

/// The directories among the claims.
spec fn dirs_in(all: Seq<Claim>) -> Set<u64> {
    Set::new(|d: u64| exists|k: int| 0 <= k < all.len() && (#[trigger] all[k]).dir && all[k].id == d)
}

/// Where a stream stands among the claims.
spec fn number_of(all: Seq<Claim>, id: u64) -> int {
    choose|k: int| 0 <= k < all.len() && (#[trigger] all[k]).id == id
}

proof fn lemma_entry_laid(
    streams: Map<u64, StreamState>,
    w: nat,
    root: u64,
    ids: Seq<u64>,
    all: Seq<Claim>,
    d: u64,
    es: Seq<Entry>,
    i: int,
) -> (kj: (int, int))
    requires
        laid(streams, w, root, ids, all),
        dirs_in(all).contains(d),
        is_dir(streams, w, d, es),
        0 <= i < es.len(),
    ensures
        0 <= kj.0 < all.len(),
        all[kj.0].dir && all[kj.0].id == d,
        kj.0 < kj.1 < all.len(),
        kj.1 == place(streams, w, all, kj.0 as nat) + i,
        claims_of(streams, w, all[kj.0]) == es.len(),
        all[kj.1] == (Claim { id: es[i].id, dir: names_dir(es[i].name) }),
{
    let k = choose|k: int| 0 <= k < all.len() && (#[trigger] all[k]).dir && all[k].id == d;
    lemma_laid(streams, w, root, ids, all, k);
    let j = spot(streams, w, all, k, i);
    assert(claimed_there(streams, w, all, k, i));
    (k, j)
}

proof fn lemma_entry_fits(
    streams: Map<u64, StreamState>,
    w: nat,
    root: u64,
    ids: Seq<u64>,
    all: Seq<Claim>,
    d: u64,
    es: Seq<Entry>,
    i: int,
)
    requires
        laid(streams, w, root, ids, all),
        dirs_in(all).contains(d),
        is_dir(streams, w, d, es),
        0 <= i < es.len(),
    ensures
        ids.to_set().contains(es[i].id),
        es[i].id != root,
        dirs_in(all).contains(es[i].id) <==> es[i].name.len() > 0 && es[i].name.last() == 47,
        0 <= number_of(all, d) < number_of(all, es[i].id),
{
    let (k, j) = lemma_entry_laid(streams, w, root, ids, all, d, es, i);
    lemma_laid(streams, w, root, ids, all, j);
    lemma_laid(streams, w, root, ids, all, k);
    let id = es[i].id;
    assert(all[0].id != all[j].id);
    assert(all[k].id == d && all[j].id == id);
    let a = number_of(all, d);
    let b = number_of(all, id);
    assert(all[a].id == d && all[b].id == id);
    assert(a == k && b == j);
    if dirs_in(all).contains(id) {
        let m = choose|m: int| 0 <= m < all.len() && (#[trigger] all[m]).dir && all[m].id == id;
        assert(m == j);
    }
}

proof fn lemma_named_there(
    streams: Map<u64, StreamState>,
    w: nat,
    root: u64,
    ids: Seq<u64>,
    all: Seq<Claim>,
    id: u64,
)
    requires
        laid(streams, w, root, ids, all),
        ids.to_set().contains(id),
        id != root,
    ensures
        exists|d: u64, es: Seq<Entry>, i: int|
            #![trigger is_dir(streams, w, d, es), es[i]]
            dirs_in(all).contains(d) && is_dir(streams, w, d, es) && 0 <= i < es.len() && es[i].id
                == id,
{
    reveal(laid);
    let j = choose|j: int| 0 <= j < ids.len() && ids[j] == id;
    lemma_laid(streams, w, root, ids, all, j);
    assert(j != 0);
    let k = lemma_place_of(streams, w, all, all.len(), j) as int;
    assert(all[k].dir);
    lemma_laid(streams, w, root, ids, all, k);
    let es = entries_of(streams, all[k].id, w).unwrap();
    let i = j - place(streams, w, all, k as nat);
    assert(spot(streams, w, all, k, i) == j);
    assert(claimed_there(streams, w, all, k, i));
    assert(is_dir(streams, w, all[k].id, es));
    assert(dirs_in(all).contains(all[k].id));
    assert(es[i].id == id);
}

proof fn lemma_named_once(
    streams: Map<u64, StreamState>,
    w: nat,
    root: u64,
    ids: Seq<u64>,
    all: Seq<Claim>,
    d: u64,
    es: Seq<Entry>,
    i: int,
    d2: u64,
    es2: Seq<Entry>,
    i2: int,
)
    requires
        laid(streams, w, root, ids, all),
        dirs_in(all).contains(d),
        is_dir(streams, w, d, es),
        0 <= i < es.len(),
        dirs_in(all).contains(d2),
        is_dir(streams, w, d2, es2),
        0 <= i2 < es2.len(),
        es[i].id == es2[i2].id,
    ensures
        d == d2,
        i == i2,
{
    let (k, j) = lemma_entry_laid(streams, w, root, ids, all, d, es, i);
    let (k2, j2) = lemma_entry_laid(streams, w, root, ids, all, d2, es2, i2);
    lemma_laid(streams, w, root, ids, all, j);
    assert(all[j].id == all[j2].id);
    assert(j == j2);
    if k < k2 {
        lemma_places_grow(streams, w, all, k as nat, k2 as nat);
    } else if k2 < k {
        lemma_places_grow(streams, w, all, k2 as nat, k as nat);
    }
}

/// Where the directories can be read and name every stream once, they are a tree.
pub proof fn law_named_tree(streams: Map<u64, StreamState>, w: nat, root: u64, ids: Seq<u64>)
    requires
        w <= 8,
        tree_names(streams, w, root, ids),
    ensures
        exists|dirs: Set<u64>, rank: Map<u64, nat>|
            is_tree(streams, w, root, ids.to_set(), dirs, rank),
        forall|i: int, j: int| 0 <= i < j < ids.len() ==> ids[i] != ids[j],
{
    let list = root_claim(root);
    let fuel = choose|fuel: nat|
        #[trigger] gathered(streams, w, list, 0, fuel) is Some && claim_ids(
            gathered(streams, w, list, 0, fuel).unwrap(),
        ) == ids;
    let all = gathered(streams, w, list, 0, fuel).unwrap();
    lemma_gathered_begin(streams, w, list, 0, fuel);
    assert(all.take(1)[0] == list[0]);
    assert(laid(streams, w, root, ids, all)) by {
        reveal(laid);
    }
    let named = ids.to_set();
    let dirs = dirs_in(all);
    let rank = Map::new(|id: u64| named.contains(id), |id: u64| number_of(all, id) as nat);
    lemma_laid(streams, w, root, ids, all, 0);
    assert(dirs.contains(root)) by {
        assert(all[0].dir && all[0].id == root);
    }
    assert forall|d: u64| #[trigger] dirs.contains(d) implies named.contains(d) && exists|
        es: Seq<Entry>,
    | is_dir(streams, w, d, es) by {
        let k = choose|k: int| 0 <= k < all.len() && (#[trigger] all[k]).dir && all[k].id == d;
        lemma_laid(streams, w, root, ids, all, k);
    }
    assert forall|d: u64, es: Seq<Entry>, i: int|
        #![trigger is_dir(streams, w, d, es), es[i]]
        dirs.contains(d) && is_dir(streams, w, d, es) && 0 <= i < es.len() implies ({
        &&& named.contains(es[i].id)
        &&& es[i].id != root
        &&& dirs.contains(es[i].id) <==> es[i].name.len() > 0 && es[i].name.last() == 47
        &&& rank[d] < rank[es[i].id]
    }) by {
        lemma_entry_fits(streams, w, root, ids, all, d, es, i);
    }
    assert forall|id: u64| #[trigger] named.contains(id) && id != root implies exists|
        d: u64,
        es: Seq<Entry>,
        i: int,
    |
        #![trigger is_dir(streams, w, d, es), es[i]]
        dirs.contains(d) && is_dir(streams, w, d, es) && 0 <= i < es.len() && es[i].id == id by {
        lemma_named_there(streams, w, root, ids, all, id);
    }
    assert forall|d: u64, es: Seq<Entry>, i: int, d2: u64, es2: Seq<Entry>, i2: int|
        #![trigger is_dir(streams, w, d, es), es[i], is_dir(streams, w, d2, es2), es2[i2]]
        dirs.contains(d) && is_dir(streams, w, d, es) && 0 <= i < es.len() && dirs.contains(d2)
            && is_dir(streams, w, d2, es2) && 0 <= i2 < es2.len() && es[i].id
            == es2[i2].id implies d == d2 && i == i2 by {
        lemma_named_once(streams, w, root, ids, all, d, es, i, d2, es2, i2);
    }
    assert(is_tree(streams, w, root, named, dirs, rank));
}

// ---------------------------------------------------------------------------
// The checks
// ---------------------------------------------------------------------------

/// Checking a file system, consistent and with no stream open for writing, finds nothing
/// amiss where its directories are a tree with every name once, and only where they are a
/// tree in which every stream there is has one place. It changes nothing.
pub proof fn law_call_verify<L3: StreamLayer>(sfs: &mut Sfs<L3>, r: Result<Vec<String>, SfsError>)
    requires
        old(sfs).wf(),
        old(sfs).tidy(),
        old(sfs).only_readers(),
        call_ensures(Sfs::<L3>::verify, (sfs,), r),
        final(sfs).faults() == old(sfs).faults(),
    ensures
        ({
            let wd = old(sfs).world();
            &&& final(sfs).world() == wd
            &&& final(sfs).open_views() == old(sfs).open_views()
            &&& final(sfs).wf()
            &&& r is Ok
            &&& sound(wd, old(sfs).open_set()) ==> r->Ok_0@.len() == 0
            &&& r->Ok_0@.len() == 0 ==> exists|dirs: Set<u64>, rank: Map<u64, nat>|
                is_tree(wd.streams, wd.width, wd.root, wd.streams.dom(), dirs, rank)
        }),
{
    let wd = old(sfs).world();
    old(sfs).lemma_world();
    old(sfs).law_intact();
    if sound(wd, old(sfs).open_set()) {
        old(sfs).law_tree_intact();
    }
    if r is Ok && r->Ok_0@.len() == 0 {
        let ids = choose|ids: Seq<u64>| #[trigger]
            tree_names(wd.streams, wd.width, wd.root, ids) && ids.to_set() == wd.streams.dom();
        law_named_tree(wd.streams, wd.width, wd.root, ids);
    }
}

/// Checking a file system that may be damaged finds nothing amiss only where the streams
/// that are stored are a tree below the root directory, every one of which has one place,
/// and the storage is in order and holds these streams and no others. It changes nothing.
pub proof fn law_call_verify_damaged<L3: StreamLayer>(
    sfs: &mut Sfs<L3>,
    r: Result<Vec<String>, SfsError>,
)
    requires
        old(sfs).wf() || old(sfs).usable(),
        old(sfs).world().width <= 8,
        call_ensures(Sfs::<L3>::verify, (sfs,), r),
        final(sfs).faults() == old(sfs).faults(),
    ensures
        ({
            let a = *old(sfs);
            let b = *final(sfs);
            &&& r is Ok
            &&& b.world() == a.world()
            &&& b.open_views() == a.open_views()
            &&& b.stored() == a.stored()
            &&& r->Ok_0@.len() == 0 ==> exists|ids: Seq<u64>, dirs: Set<u64>, rank: Map<u64, nat>|
                {
                    &&& #[trigger] is_tree(
                        a.stored(),
                        a.world().width,
                        a.world().root,
                        ids.to_set(),
                        dirs,
                        rank,
                    )
                    &&& ids.no_duplicates()
                    &&& a.store_intact(ids)
                }
        }),
{
    let a = *old(sfs);
    if r->Ok_0@.len() == 0 {
        let wd = a.world();
        let ids = choose|ids: Seq<u64>| #[trigger]
            tree_names(a.stored(), wd.width, wd.root, ids) && a.store_intact(ids);
        law_named_tree(a.stored(), wd.width, wd.root, ids);
        let (dirs, rank) = choose|dirs: Set<u64>, rank: Map<u64, nat>|
            is_tree(a.stored(), wd.width, wd.root, ids.to_set(), dirs, rank);
        assert(is_tree(a.stored(), wd.width, wd.root, ids.to_set(), dirs, rank));
    }
}

/// Where the directories of a consistent file system can be read, name no stream twice, and
/// its storage is in order, a check has a line for every number that they name and that is
/// no stream's, and for every stream that they do not name.
pub proof fn law_call_verify_tells<L3: StreamLayer>(
    sfs: &mut Sfs<L3>,
    r: Result<Vec<String>, SfsError>,
    ids: Seq<u64>,
    held: Seq<u64>,
    id: u64,
)
    requires
        old(sfs).wf(),
        call_ensures(Sfs::<L3>::verify, (sfs,), r),
        final(sfs).faults() == old(sfs).faults(),
        tree_names(old(sfs).stored(), old(sfs).world().width, old(sfs).world().root, ids),
        old(sfs).store_intact(held),
    ensures
        ({
            let there = old(sfs).world().streams.contains_key(id);
            let lines = r->Ok_0@;
            &&& r is Ok
            &&& ids.contains(id) && !there ==> exists|i: int|
                0 <= i < lines.len() && (#[trigger] lines[i])@ == "L3: stream "@ + decimal(
                    id as nat,
                ) + " claimed by L4 but not found in stream descriptors"@
            &&& there && !ids.contains(id) ==> exists|i: int|
                0 <= i < lines.len() && (#[trigger] lines[i])@ == "L3: stream "@ + decimal(
                    id as nat,
                ) + " exists in stream descriptors but is not claimed by L4 (orphaned stream)"@
        }),
{
    let a = *old(sfs);
    assert(tells_apart(r->Ok_0@, ids, a.world().streams.dom()));
    assert(a.world().streams.dom().contains(id) <==> a.world().streams.contains_key(id));
}

/// Looking into a file system whose storage may be damaged: where all is found to be in
/// order, it is consistent from then on with nothing open, its streams that are not
/// compressed are those that were stored, and the directories name every stream once. A
/// consistent one that is intact is always found to be in order.
pub proof fn law_call_examine<L3: StreamLayer>(
    sfs: &mut Sfs<L3>,
    r: Result<bool, SfsError>,
    id: u64,
)
    requires
        old(sfs).wf() || old(sfs).usable(),
        old(sfs).world().width <= 8,
        call_ensures(Sfs::<L3>::examine, (sfs,), r),
        final(sfs).faults() == old(sfs).faults(),
    ensures
        ({
            let a = *old(sfs);
            let b = *final(sfs);
            let wd = b.world();
            &&& r is Ok
            &&& wd.root == a.world().root
            &&& wd.handles == a.world().handles
            &&& b.open_views() == a.open_views()
            &&& b.stored() == a.stored()
            &&& a.wf() ==> b.wf() && wd == a.world()
            &&& r->Ok_0 ==> {
                &&& b.wf()
                &&& b.tidy()
                &&& forall|k: u64| !#[trigger] b.open_views().contains_key(k)
                &&& forall|h: L3::Handle| !#[trigger] wd.handles.contains_key(h)
                &&& a.stored().contains_key(id) <==> wd.streams.contains_key(id)
                    && !wd.streams[id].compressed
                &&& a.stored().contains_key(id) ==> wd.streams[id] == a.stored()[id]
                &&& exists|ids: Seq<u64>, dirs: Set<u64>, rank: Map<u64, nat>|
                    {
                        &&& #[trigger] is_tree(
                            a.stored(),
                            wd.width,
                            wd.root,
                            ids.to_set(),
                            dirs,
                            rank,
                        )
                        &&& ids.no_duplicates()
                        &&& b.store_intact(ids)
                    }
            }
            &&& a.wf() && a.tidy() && sound(a.world(), a.open_set()) && a.only_readers()
                && a.world().handles == Map::<L3::Handle, OpenState>::empty() ==> r->Ok_0
        }),
{
    let a = *old(sfs);
    let b = *final(sfs);
    if r->Ok_0 {
        let wd = b.world();
        let ids = choose|ids: Seq<u64>| #[trigger]
            tree_names(b.stored(), wd.width, wd.root, ids) && b.store_intact(ids);
        law_named_tree(b.stored(), wd.width, wd.root, ids);
        let (dirs, rank) = choose|dirs: Set<u64>, rank: Map<u64, nat>|
            is_tree(b.stored(), wd.width, wd.root, ids.to_set(), dirs, rank);
        assert(is_tree(a.stored(), wd.width, wd.root, ids.to_set(), dirs, rank));
    }
    if a.wf() && a.tidy() && sound(a.world(), a.open_set()) && a.only_readers() {
        a.lemma_world();
        a.law_tree_intact();
    }
}

/// Looking at the bytes of a stream that nobody writes gives what it holds, where it is
/// not compressed, and changes nothing.
pub proof fn law_call_peek<L3: StreamLayer>(layer: &mut L3, id: u64, r: Result<Vec<u8>, SfsError>)
    requires
        old(layer).wf(),
        call_ensures(L3::peek_stream, (layer, id), r),
        final(layer).faults() == old(layer).faults(),
        forall|h: L3::Handle| #[trigger]
            (*old(layer)).handles().contains_key(h) ==> (*old(layer)).handles()[h].mode is Read,
    ensures
        ({
            let a = *old(layer);
            let b = *final(layer);
            &&& b.streams() == a.streams()
            &&& b.handles() == a.handles()
            &&& b.slots() == a.slots()
            &&& r is Ok <==> a.streams().contains_key(id) && !a.streams()[id].compressed
            &&& r is Ok ==> r->Ok_0@ == a.streams()[id].data
            &&& r is Err ==> if a.streams().contains_key(id) {
                r->Err_0 is IoError
            } else {
                r->Err_0 is NotFound
            }
        }),
{
    let a = *old(layer);
    assert(can_open(a.handles(), id, OpenMode::Read));
}

/// The check of the streams reports every number that is claimed and is no stream's, and
/// every stream that is not claimed, by its number; with claims that name the streams,
/// and with no others, a consistent layer passes.
pub proof fn law_call_streams_verify<L3: StreamLayer>(
    layer: &mut L3,
    claimed: &[u64],
    r: Result<Vec<String>, SfsError>,
    id: u64,
)
    requires
        old(layer).wf(),
        call_ensures(L3::verify, (layer, claimed), r),
        final(layer).faults() == old(layer).faults(),
    ensures
        ({
            let there = old(layer).streams().contains_key(id);
            let said = exists|i: int| 0 <= i < claimed@.len() && claimed@[i] == id;
            &&& r is Ok
            &&& final(layer).streams() == old(layer).streams()
            &&& final(layer).handles() == old(layer).handles()
            &&& said && !there ==> exists|i: int|
                0 <= i < r->Ok_0@.len() && (#[trigger] r->Ok_0@[i])@ == "L3: stream "@ + decimal(
                    id as nat,
                ) + " claimed by L4 but not found in stream descriptors"@
            &&& there && !said ==> exists|i: int|
                0 <= i < r->Ok_0@.len() && (#[trigger] r->Ok_0@[i])@ == "L3: stream "@ + decimal(
                    id as nat,
                ) + " exists in stream descriptors but is not claimed by L4 (orphaned stream)"@
            &&& old(layer).tidy() && (forall|h: L3::Handle| #[trigger]
                old(layer).handles().contains_key(h) ==> old(layer).handles()[h].mode is Read)
                ==> (r->Ok_0@.len() == 0 <==> forall|j: u64|
                (exists|i: int| 0 <= i < claimed@.len() && claimed@[i] == j) <==> (
                #[trigger] (*old(layer)).streams().contains_key(j)))
        }),
{
    let c = claimed@;
    let a = *old(layer);
    assert(tells_apart(r->Ok_0@, c, a.streams().dom()));
    assert(c.contains(id) <==> exists|i: int| 0 <= i < c.len() && c[i] == id);
    assert(a.streams().dom().contains(id) <==> a.streams().contains_key(id));
    if a.tidy() && (forall|h: L3::Handle| #[trigger]
        a.handles().contains_key(h) ==> a.handles()[h].mode is Read) {
        old(layer).lemma_intact(c);
        assert forall|j: u64| (exists|i: int| 0 <= i < c.len() && c[i] == j) <==> #[trigger] c.contains(
            j,
        ) by {}
        if forall|j: u64|
            (exists|i: int| 0 <= i < c.len() && c[i] == j) <==> (
            #[trigger] a.streams().contains_key(j)) {
            assert forall|j: u64| #[trigger] c.contains(j) <==> a.streams().contains_key(j) by {}
        }
        if forall|j: u64| #[trigger] c.contains(j) <==> a.streams().contains_key(j) {
            assert forall|j: u64|
                (exists|i: int| 0 <= i < c.len() && c[i] == j) <==> (
                #[trigger] a.streams().contains_key(j)) by {
                assert(c.contains(j) <==> a.streams().contains_key(j));
            }
        }
    }
}

/// The digits of a number in decimal: its last digit stands last, behind those of a tenth
/// of it, and no number but a single digit begins with a zero.
pub proof fn law_decimal(n: nat)
    ensures
        decimal(n).len() >= 1,
        decimal(n).last() as nat == 48 + n % 10,
        n >= 10 ==> decimal(n).drop_last() == decimal(n / 10),
        n < 10 ==> decimal(n).len() == 1,
        n >= 10 ==> decimal(n)[0] as nat != 48,
    decreases n,
{
    if n >= 10 {
        law_decimal(n / 10);
        assert(decimal(n).drop_last() =~= decimal(n / 10));
        assert(decimal(n)[0] == decimal(n / 10)[0]);
    }
}

} // verus!
