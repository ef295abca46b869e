//! Checks of a file of blocks: the list of its free blocks, and what the layers
//! above claim.

use crate::block_file::{
    blocks_in, free_ok, lemma_trunks, on_list, read_raw_block, trunks, LARGEST_SHIFT,
    SMALLEST_SHIFT,
};
use crate::block_image::reaches;
use crate::file_layer::FileLayer;
use crate::free_chain::{
    covered, covered_at, extents_at, is_chain, is_free, link, list_ok,
};
use crate::free_list::{
    any_covers, extents_ok, parse_trunk, trunk_extents, trunk_next, TrunkExtent,
    BLOCK_INDEX_SENTINEL,
};
use crate::types::{decimal, lemma_still_mentioned, mentions, text_num, SfsError};
use std::collections::HashSet;
use vstd::arithmetic::power2::pow2;
use vstd::prelude::*;

verus! {

broadcast use vstd::std_specs::hash::group_hash_axioms;

/// The trunks of a list as far as they were walked: `current` comes next.
pub open spec fn walked(t: Seq<u64>, head: u32, current: u32, img: Seq<Seq<u8>>) -> bool {
    &&& head == if t.len() > 0 {
        t[0]
    } else {
        current as u64
    }
    &&& forall|i: int|
        #![trigger t[i]]
        0 <= i < t.len() ==> 1 <= t[i] < img.len() && trunk_next(img[t[i] as int]) == if i + 1
            < t.len() {
            t[i + 1]
        } else {
            current as u64
        }
    &&& t.no_duplicates()
}

/// What was walked is the begin of the chain, where there is one.
proof fn lemma_walked(
    t: Seq<u64>,
    head: u32,
    current: u32,
    img: Seq<Seq<u8>>,
    full: Seq<u64>,
    i: int,
)
    requires
        walked(t, head, current, img),
        is_chain(full, head, img),
        img.len() <= BLOCK_INDEX_SENTINEL,
        0 <= i <= t.len(),
    ensures
        i < t.len() ==> i < full.len() && full[i] == t[i],
        i == t.len() ==> link(full, i) == current && t.len() <= full.len(),
    decreases i,
{
    if i > 0 {
        lemma_walked(t, head, current, img, full, i - 1);
        assert(t[i - 1] == full[i - 1]);
    }
    if i < t.len() {
        assert(t[i] < img.len());
    }
}

/// A list of different numbers below `total`, none of them zero, is shorter than
/// `total`.
pub proof fn lemma_fewer(s: Seq<u64>, total: nat)
    requires
        s.no_duplicates(),
        total >= 1,
        forall|i: int| 0 <= i < s.len() ==> 1 <= #[trigger] s[i] < total,
    ensures
        s.len() < total,
{
    let m = s.map_values(|b: u64| b as int);
    assert forall|i: int, j: int| 0 <= i < j < m.len() implies m[i] != m[j] by {
        assert(s[i] != s[j]);
    }
    m.unique_seq_to_set();
    vstd::set_lib::lemma_int_range(1, total as int);
    let all = vstd::set_lib::set_int_range(1, total as int);
    assert forall|x: int| #[trigger] m.to_set().contains(x) implies all.contains(x) by {
        let i = choose|i: int| 0 <= i < m.len() && m[i] == x;
        assert(1 <= s[i] < total);
    }
    vstd::set_lib::lemma_len_subset(m.to_set(), all);
}

/// Notes the blocks of one extent as free.
fn note_extent(
    free: &mut HashSet<u64>,
    issues: &mut Vec<String>,
    trunk: u32,
    slot: usize,
    ext: TrunkExtent,
    total: u64,
)
    requires
        !ext.unused(),
        1 <= total <= BLOCK_INDEX_SENTINEL,
    ensures
        final(issues)@.len() >= old(issues)@.len(),
        forall|b: u64| #[trigger] old(free)@.contains(b) ==> final(free)@.contains(b),
        final(issues)@.len() == old(issues)@.len() <==> {
            &&& ext.length >= 1
            &&& 1 <= ext.start
            &&& ext.start + ext.length <= total
            &&& forall|b: u64| #[trigger] ext.covers(b) ==> !old(free)@.contains(b)
        },
        final(issues)@.len() == old(issues)@.len() ==> forall|b: u64| #[trigger]
            final(free)@.contains(b) <==> old(free)@.contains(b) || ext.covers(b),
{
    if ext.length == 0 {
        let place: String = text_num("L2: trunk ", trunk as u64, ", extent slot ");
        let what: String = text_num(place.as_str(), slot as u64, ": zero-length extent at start ");
        issues.push(text_num(what.as_str(), ext.start as u64, ""));
        return ;
    }
    let ghost n0 = issues@.len();
    let ghost f0 = free@;
    let mut j: u32 = 0;
    let mut beyond: bool = false;
    while j < ext.length && !beyond
        invariant
            j <= ext.length,
            1 <= total <= BLOCK_INDEX_SENTINEL,
            !beyond ==> j == 0 || ext.start + j <= total,
            beyond ==> ext.start + ext.length > total,
            issues@.len() >= n0,
            forall|b: u64| #[trigger] f0.contains(b) ==> free@.contains(b),
            beyond ==> issues@.len() > n0,
            !beyond && issues@.len() == n0 ==> j == 0 || ext.start >= 1,
            !beyond && issues@.len() == n0 ==> forall|b: u64|
                ext.start <= b < ext.start + j ==> !#[trigger] f0.contains(b),
            !beyond && issues@.len() > n0 ==> ext.start == 0 || exists|b: u64|
                ext.start <= b < ext.start + j && #[trigger] f0.contains(b),
            forall|b: u64|
                !beyond ==> (#[trigger] free@.contains(b) <==> f0.contains(b) || ext.start <= b
                    < ext.start + j),
        decreases ext.length - j, !beyond as int,
    {
        let b: u64 = ext.start as u64 + j as u64;
        if b >= total {
            let place: String = text_num("L2: extent in trunk ", trunk as u64, " references block ");
            let what: String = text_num(place.as_str(), b, " >= total_blocks (");
            issues.push(text_num(what.as_str(), total, ")"));
            beyond = true;
        } else {
            if b == 0 {
                issues.push("L2: block 0 found in free list extent".to_owned());
            }
            if !free.insert(b) {
                issues.push(text_num("L2: block ", b, " appears multiple times in free list"));
            }
            j = j + 1;
        }
    }
    proof {
        if !beyond {
            assert forall|b: u64| #[trigger] ext.covers(b) <==> ext.start <= b < ext.start + j by {}
            if issues@.len() > n0 && ext.start >= 1 {
                let b = choose|b: u64|
                    ext.start <= b < ext.start + j && #[trigger] f0.contains(b);
                assert(ext.covers(b));
            }
        }
    }
}

/// Notes the blocks of all extents of one trunk as free.
fn note_trunk(
    free: &mut HashSet<u64>,
    issues: &mut Vec<String>,
    trunk: u32,
    extents: &Vec<TrunkExtent>,
    total: u64,
)
    requires
        1 <= total <= BLOCK_INDEX_SENTINEL,
    ensures
        final(issues)@.len() >= old(issues)@.len(),
        forall|b: u64| #[trigger] old(free)@.contains(b) ==> final(free)@.contains(b),
        final(issues)@.len() == old(issues)@.len() <==> {
            &&& extents_ok(extents@, total as nat)
            &&& forall|b: u64| #[trigger] any_covers(extents@, b) ==> !old(free)@.contains(b)
        },
        final(issues)@.len() == old(issues)@.len() ==> forall|b: u64| #[trigger]
            final(free)@.contains(b) <==> old(free)@.contains(b) || any_covers(extents@, b),
{
    let ghost n0 = issues@.len();
    let ghost f0 = free@;
    let mut i: usize = 0;
    while i < extents.len()
        invariant
            i <= extents@.len(),
            1 <= total <= BLOCK_INDEX_SENTINEL,
            issues@.len() >= n0,
            forall|b: u64| #[trigger] f0.contains(b) ==> free@.contains(b),
            issues@.len() == n0 <==> {
                &&& extents_ok(extents@.take(i as int), total as nat)
                &&& forall|b: u64| #[trigger]
                    any_covers(extents@.take(i as int), b) ==> !f0.contains(b)
            },
            issues@.len() == n0 ==> forall|b: u64| #[trigger]
                free@.contains(b) <==> f0.contains(b) || any_covers(extents@.take(i as int), b),
        decreases extents@.len() - i,
    {
        let ext: TrunkExtent = extents[i];
        let ghost n1 = issues@.len();
        let ghost f1 = free@;
        let ghost before = extents@.take(i as int);
        let ghost after = extents@.take(i + 1);
        proof {
            assert(after =~= before.push(ext));
            lemma_extent_noted(before, ext, total as nat);
            assert forall|b: u64| #[trigger] any_covers(before, b) implies any_covers(after, b) by {}
        }
        if ext.start != BLOCK_INDEX_SENTINEL {
            note_extent(free, issues, trunk, i, ext, total);
            proof {
                if issues@.len() == n0 {
                    assert forall|b: u64| #[trigger] ext.covers(b) implies !any_covers(
                        before,
                        b,
                    ) by {
                        assert(!f1.contains(b));
                    }
                    assert forall|b: u64| #[trigger] any_covers(after, b) implies !f0.contains(
                        b,
                    ) by {
                        if ext.covers(b) {
                            assert(!f1.contains(b));
                        }
                    }
                } else if n1 == n0 {
                    if extents_ok(after, total as nat) && (forall|b: u64| #[trigger]
                        any_covers(after, b) ==> !f0.contains(b)) {
                        assert forall|b: u64| #[trigger] ext.covers(b) implies !f1.contains(b) by {
                            assert(any_covers(after, b));
                        }
                        assert(false);
                    }
                }
            }
        }
        i = i + 1;
    }
    proof {
        assert(extents@.take(i as int) =~= extents@);
    }
}

proof fn lemma_extent_noted(before: Seq<TrunkExtent>, ext: TrunkExtent, total: nat)
    ensures
        extents_ok(before.push(ext), total) <==> {
            &&& extents_ok(before, total)
            &&& !ext.unused() ==> {
                &&& 1 <= ext.start
                &&& ext.length >= 1
                &&& ext.start + ext.length <= total
            }
            &&& forall|b: u64| #[trigger] ext.covers(b) ==> !any_covers(before, b)
        },
        forall|b: u64| #[trigger]
            any_covers(before.push(ext), b) <==> any_covers(before, b) || ext.covers(b),
{
    let after = before.push(ext);
    let n = before.len() as int;
    assert(after[n] == ext);
    assert forall|i: int| 0 <= i < n implies #[trigger] after[i] == before[i] by {}
    assert forall|b: u64| #[trigger]
        any_covers(after, b) <==> any_covers(before, b) || ext.covers(b) by {
        if any_covers(before, b) {
            let i = choose|i: int| 0 <= i < before.len() && (#[trigger] before[i]).covers(b);
            assert(after[i].covers(b));
        }
        if ext.covers(b) {
            assert(after[n].covers(b));
        }
        if any_covers(after, b) {
            let i = choose|i: int| 0 <= i < after.len() && (#[trigger] after[i]).covers(b);
            if i < n {
                assert(before[i].covers(b));
            }
        }
    }
    if extents_ok(after, total) {
        assert forall|i: int| 0 <= i < n && !(#[trigger] before[i]).unused() implies 1
            <= before[i].start && before[i].length >= 1 && before[i].start + before[i].length
            <= total by {
            assert(after[i] == before[i]);
        }
        assert forall|i: int, j: int, b: u64|
            #![trigger before[i].covers(b), before[j].covers(b)]
            0 <= i < n && 0 <= j < n && before[i].covers(b) && before[j].covers(b) implies i == j by {
            assert(after[i].covers(b) && after[j].covers(b));
        }
        assert forall|b: u64| #[trigger] ext.covers(b) implies !any_covers(before, b) by {
            if any_covers(before, b) {
                let i = choose|i: int| 0 <= i < before.len() && (#[trigger] before[i]).covers(b);
                assert(after[i].covers(b) && after[n].covers(b));
            }
        }
    }
    if extents_ok(before, total) && (!ext.unused() ==> 1 <= ext.start && ext.length >= 1
        && ext.start + ext.length <= total) && (forall|b: u64| #[trigger]
        ext.covers(b) ==> !any_covers(before, b)) {
        assert forall|i: int, j: int, b: u64|
            #![trigger after[i].covers(b), after[j].covers(b)]
            0 <= i < after.len() && 0 <= j < after.len() && after[i].covers(b) && after[j].covers(
                b,
            ) implies i == j by {
            if i < n && j < n {
                assert(before[i].covers(b) && before[j].covers(b));
            } else if i < n {
                assert(before[i].covers(b));
                assert(any_covers(before, b));
            } else if j < n {
                assert(before[j].covers(b));
                assert(any_covers(before, b));
            }
        }
    }
}

/// One more trunk: whether the list is still in order.
proof fn lemma_trunk_noted(t: Seq<u64>, img: Seq<Seq<u8>>, b: u64)
    requires
        list_ok(t, img),
        b < img.len(),
        !is_free(t, img, b),
    ensures
        list_ok(t.push(b), img) <==> {
            &&& extents_ok(trunk_extents(img[b as int]), img.len())
            &&& forall|c: u64| #[trigger]
                any_covers(trunk_extents(img[b as int]), c) ==> !is_free(t, img, c) && c != b
        },
        forall|c: u64| #[trigger]
            is_free(t.push(b), img, c) <==> is_free(t, img, c) || c == b || any_covers(
                trunk_extents(img[b as int]),
                c,
            ),
{
    let u = t.push(b);
    let n = t.len() as int;
    let e = trunk_extents(img[b as int]);
    assert(u[n] == b);
    assert(extents_at(u, img, n) == e);
    assert forall|i: int| 0 <= i < n implies #[trigger] extents_at(u, img, i) == extents_at(
        t,
        img,
        i,
    ) by {}
    assert forall|i: int, c: u64| 0 <= i < n implies #[trigger] covered_at(u, img, i, c)
        == covered_at(t, img, i, c) by {
        assert(extents_at(u, img, i) == extents_at(t, img, i));
    }
    assert forall|c: u64| #[trigger] covered_at(u, img, n, c) == any_covers(e, c) by {}
    assert forall|c: u64| #[trigger] covered(u, img, c) <==> covered(t, img, c) || any_covers(
        e,
        c,
    ) by {
        if covered(u, img, c) {
            let i = choose|i: int| 0 <= i < u.len() && #[trigger] covered_at(u, img, i, c);
            if i < n {
                assert(covered_at(t, img, i, c));
            } else {
                assert(covered_at(u, img, n, c));
            }
        }
        if covered(t, img, c) {
            let i = choose|i: int| 0 <= i < t.len() && #[trigger] covered_at(t, img, i, c);
            assert(covered_at(u, img, i, c));
        }
        if any_covers(e, c) {
            assert(covered_at(u, img, n, c));
        }
    }
    assert forall|c: u64| #[trigger] u.contains(c) <==> t.contains(c) || c == b by {
        if t.contains(c) {
            let i = choose|i: int| 0 <= i < t.len() && t[i] == c;
            assert(u[i] == c);
        }
        if u.contains(c) {
            let i = choose|i: int| 0 <= i < u.len() && u[i] == c;
            if i < n {
                assert(t[i] == c);
            }
        }
        assert(u[n] == b);
    }
    if list_ok(u, img) {
        assert(extents_ok(extents_at(u, img, n), img.len()));
        assert forall|c: u64| #[trigger] any_covers(e, c) implies !is_free(t, img, c) && c != b by {
            assert(covered_at(u, img, n, c));
            assert(covered(u, img, c));
            if covered(t, img, c) {
                let i = choose|i: int| 0 <= i < t.len() && #[trigger] covered_at(t, img, i, c);
                assert(covered_at(u, img, i, c));
            }
            if t.contains(c) || c == b {
                assert(u.contains(c));
            }
        }
    }
    if extents_ok(e, img.len()) && (forall|c: u64| #[trigger]
        any_covers(e, c) ==> !is_free(t, img, c) && c != b) {
        assert forall|i: int| 0 <= i < u.len() implies extents_ok(
            #[trigger] extents_at(u, img, i),
            img.len(),
        ) by {
            if i < n {
                assert(extents_ok(extents_at(t, img, i), img.len()));
            }
        }
        assert forall|i: int, j: int, c: u64|
            #![trigger covered_at(u, img, i, c), covered_at(u, img, j, c)]
            0 <= i < u.len() && 0 <= j < u.len() && covered_at(u, img, i, c) && covered_at(
                u,
                img,
                j,
                c,
            ) implies i == j by {
            if i < n && j < n {
                assert(covered_at(t, img, i, c) && covered_at(t, img, j, c));
            } else if i < n {
                assert(covered_at(t, img, i, c));
                assert(covered(t, img, c));
                assert(any_covers(e, c));
            } else if j < n {
                assert(covered_at(t, img, j, c));
                assert(covered(t, img, c));
                assert(any_covers(e, c));
            }
        }
        assert forall|c: u64| #[trigger] u.contains(c) implies !covered(u, img, c) by {
            if any_covers(e, c) {
                assert(!is_free(t, img, c) && c != b);
            }
            if c == b {
                assert(!is_free(t, img, b));
            }
        }
    }
}

/// A list of which a begin is not in order is not in order itself.
proof fn lemma_begin_ok(t: Seq<u64>, img: Seq<Seq<u8>>, n: int)
    requires
        list_ok(t, img),
        0 <= n <= t.len(),
    ensures
        list_ok(t.take(n), img),
        forall|b: u64| #[trigger] is_free(t.take(n), img, b) ==> is_free(t, img, b),
{
    let u = t.take(n);
    assert forall|i: int| 0 <= i < n implies #[trigger] extents_at(u, img, i) == extents_at(
        t,
        img,
        i,
    ) by {}
    assert forall|i: int, c: u64| 0 <= i < n implies #[trigger] covered_at(u, img, i, c)
        == covered_at(t, img, i, c) by {
        assert(extents_at(u, img, i) == extents_at(t, img, i));
    }
    assert forall|c: u64| #[trigger] covered(u, img, c) implies covered(t, img, c) by {
        let i = choose|i: int| 0 <= i < u.len() && #[trigger] covered_at(u, img, i, c);
        assert(covered_at(t, img, i, c));
    }
    assert forall|c: u64| #[trigger] u.contains(c) implies t.contains(c) by {
        let i = choose|i: int| 0 <= i < u.len() && u[i] == c;
        assert(t[i] == c);
    }
    assert forall|i: int| 0 <= i < u.len() implies extents_ok(
        #[trigger] extents_at(u, img, i),
        img.len(),
    ) by {
        assert(extents_ok(extents_at(t, img, i), img.len()));
    }
    assert forall|i: int, j: int, c: u64|
        #![trigger covered_at(u, img, i, c), covered_at(u, img, j, c)]
        0 <= i < u.len() && 0 <= j < u.len() && covered_at(u, img, i, c) && covered_at(
            u,
            img,
            j,
            c,
        ) implies i == j by {
        assert(covered_at(t, img, i, c) && covered_at(t, img, j, c));
    }
}

/// The list of free blocks cannot be in order when what was walked of it is not,
/// or when the walk comes to a block that cannot be its next trunk.
proof fn lemma_walk_bad(t: Seq<u64>, head: u32, current: u32, img: Seq<Seq<u8>>)
    requires
        img.len() <= BLOCK_INDEX_SENTINEL,
        walked(t, head, current, img),
        !list_ok(t, img) || (current != BLOCK_INDEX_SENTINEL && (current == 0 || current
            >= img.len() || is_free(t, img, current as u64))),
    ensures
        !free_ok(head, img),
{
    if free_ok(head, img) {
        let full = trunks(head, img);
        let n = t.len() as int;
        lemma_walked(t, head, current, img, full, n);
        assert forall|i: int| 0 <= i < n implies t[i] == full[i] by {
            lemma_walked(t, head, current, img, full, i);
        }
        assert(t =~= full.take(n));
        lemma_begin_ok(full, img, n);
        if current != BLOCK_INDEX_SENTINEL {
            assert(n < full.len());
            assert(full[n] == current);
            lemma_begin_ok(full, img, n + 1);
            if is_free(t, img, current as u64) {
                if t.contains(current as u64) {
                    let i = choose|i: int| 0 <= i < t.len() && t[i] == current;
                    assert(full[i] == full[n]);
                } else {
                    assert(full.contains(full[n]));
                    let i = choose|i: int|
                        0 <= i < t.len() && #[trigger] covered_at(t, img, i, current as u64);
                    assert(extents_at(t, img, i) == extents_at(full, img, i));
                    assert(covered_at(full, img, i, current as u64));
                    assert(covered(full, img, current as u64));
                }
            }
        }
    }
}

/// Walks the list of free blocks. Gives the blocks on it, and what there is to
/// report: nothing if and only if the list is in order.
pub(crate) fn walk_free<L1: FileLayer>(
    layer1: &mut L1,
    shift: u8,
    head: u32,
    total: u64,
) -> (r: Result<(HashSet<u64>, Vec<String>), SfsError>)
    requires
        SMALLEST_SHIFT <= shift <= LARGEST_SHIFT,
        1 <= total <= BLOCK_INDEX_SENTINEL,
        reaches(old(layer1).bytes(), old(layer1).offset(), pow2(shift as nat), total as nat),
    ensures
        final(layer1).bytes() == old(layer1).bytes(),
        final(layer1).offset() == old(layer1).offset(),
        final(layer1).faults() >= old(layer1).faults(),
        (r is Ok) == (final(layer1).faults() == old(layer1).faults()),
        L1::reads_always() ==> r is Ok,
        r matches Ok(found) ==> {
            let img = blocks_in(*old(layer1), shift, total as nat);
            &&& found.1@.len() == 0 <==> free_ok(head, img)
            &&& found.1@.len() == 0 ==> forall|b: u64| #[trigger]
                found.0@.contains(b) <==> on_list(head, img, b)
        },
{
    let ghost img = blocks_in(*layer1, shift, total as nat);
    let ghost size = pow2(shift as nat);
    let mut free: HashSet<u64> = HashSet::new();
    let mut issues: Vec<String> = Vec::new();
    let mut current: u32 = head;
    let mut steps: u64 = 0;
    let mut stopped: bool = false;
    let ghost mut t: Seq<u64> = Seq::empty();
    proof {
        assert forall|b: u64| !is_free(t, img, b) by {}
    }
    proof {
        crate::block_file::lemma_sizes(shift);
    }
    while current != BLOCK_INDEX_SENTINEL && !stopped
        invariant
            SMALLEST_SHIFT <= shift <= LARGEST_SHIFT,
            1 <= total <= BLOCK_INDEX_SENTINEL,
            size == pow2(shift as nat),
            size >= 16,
            reaches(layer1.bytes(), layer1.offset(), size, total as nat),
            layer1.bytes() == old(layer1).bytes(),
            layer1.offset() == old(layer1).offset(),
            layer1.faults() == old(layer1).faults(),
            img == blocks_in(*old(layer1), shift, total as nat),
            img == blocks_in(*layer1, shift, total as nat),
            img.len() == total,
            walked(t, head, current, img),
            t.len() == steps,
            steps <= total,
            forall|b: u64| #[trigger] t.contains(b) ==> free@.contains(b),
            stopped ==> issues@.len() > 0,
            issues@.len() > 0 ==> !free_ok(head, img),
            issues@.len() == 0 ==> list_ok(t, img),
            issues@.len() == 0 ==> forall|b: u64| #[trigger]
                free@.contains(b) <==> is_free(t, img, b),
        decreases total - steps, !stopped as int,
    {
        if current as u64 >= total {
            proof {
                lemma_walk_bad(t, head, current, img);
            }
            let what: String = text_num(
                "L2: free list trunk ",
                current as u64,
                " is >= total_blocks (",
            );
            issues.push(text_num(what.as_str(), total, ")"));
            stopped = true;
        } else if current == 0 {
            proof {
                lemma_walk_bad(t, head, current, img);
            }
            issues.push("L2: block 0 (superblock) found as trunk on free list".to_owned());
            stopped = true;
        } else if !free.insert(current as u64) {
            proof {
                if issues@.len() == 0 {
                    assert(is_free(t, img, current as u64));
                    lemma_walk_bad(t, head, current, img);
                }
            }
            let what: String = text_num(
                "L2: trunk cycle detected at block ",
                current as u64,
                " after ",
            );
            issues.push(text_num(what.as_str(), steps, " trunks"));
            stopped = true;
        } else if steps >= total {
            proof {
                lemma_fewer(t, total as nat);
            }
            issues.push("L2: trunk chain longer than total_blocks (cycle likely)".to_owned());
            stopped = true;
        } else {
            let trunk: Vec<u8> = match read_raw_block(
                layer1,
                shift,
                current as u64,
                Ghost(total as nat),
            ) {
                Ok(trunk) => trunk,
                Err(e) => {
                    return Err(e);
                },
            };
            let (next, extents) = parse_trunk(trunk.as_slice());
            let ghost f1 = free@;
            let ghost n1 = issues@.len();
            assert(f1.contains(current as u64));
            let ghost u = t.push(current as u64);
            proof {
                if n1 == 0 {
                    assert(!is_free(t, img, current as u64));
                    lemma_trunk_noted(t, img, current as u64);
                }
            }
            note_trunk(&mut free, &mut issues, current, &extents, total);
            proof {
                assert(walked(u, head, next, img)) by {
                    assert forall|i: int, j: int| 0 <= i < j < u.len() implies u[i] != u[j] by {
                        if j == t.len() {
                            assert(t.contains(t[i]));
                        }
                    }
                }
                assert forall|b: u64| #[trigger] u.contains(b) implies free@.contains(b) by {
                    let i = choose|i: int| 0 <= i < u.len() && u[i] == b;
                    if i < t.len() {
                        assert(t[i] == b);
                        assert(t.contains(b));
                    }
                    assert(f1.contains(b));
                }
                if n1 == 0 && issues@.len() > 0 {
                    if list_ok(u, img) {
                        assert forall|b: u64| #[trigger]
                            any_covers(extents@, b) implies !f1.contains(b) by {
                            assert(!is_free(t, img, b) && b != current);
                        }
                        assert(false);
                    }
                    lemma_walk_bad(u, head, next, img);
                }
                if issues@.len() == 0 {
                    assert forall|b: u64| #[trigger] any_covers(extents@, b) implies !is_free(
                        t,
                        img,
                        b,
                    ) && b != current by {
                        assert(!f1.contains(b));
                    }
                    assert(list_ok(u, img));
                }
                t = u;
            }
            current = next;
            steps = steps + 1;
        }
    }
    proof {
        if issues@.len() == 0 {
            assert(is_chain(t, head, img));
            lemma_trunks(head, img, t);
        }
    }
    Ok((free, issues))
}

/// What is reported of a claimed block that the file does not reach to.
pub open spec fn beyond_text(b: u64, total: nat) -> Seq<char> {
    "L2: claimed block "@ + decimal(b as nat) + " is >= total_blocks ("@ + decimal(total) + ")"@
}

/// What is reported of a block that is claimed again.
pub open spec fn twice_text(b: u64) -> Seq<char> {
    "L2: block "@ + decimal(b as nat) + " claimed by multiple streams"@
}

/// What is reported of a block that is claimed and free.
pub open spec fn both_text(b: u64) -> Seq<char> {
    "L2: block "@ + decimal(b as nat) + " is both claimed by a stream and on the free list"@
}

/// What is reported of a block that is neither claimed nor free.
pub open spec fn lost_text(b: u64) -> Seq<char> {
    "L2: block "@ + decimal(b as nat)
        + " is orphaned (not claimed by any stream, not on free list)"@
}

/// Every claim that does not fit is reported, and every block that is missing
/// among the claims.
pub open spec fn tells_claims(
    issues: Seq<String>,
    claimed: Seq<u64>,
    free: Set<u64>,
    total: nat,
) -> bool {
    &&& told_claims(issues, claimed, free, total)
    &&& forall|b: u64|
        1 <= b < total && !free.contains(b) && !(#[trigger] claimed.contains(b)) ==> mentions(
            issues,
            lost_text(b),
        )
}

/// Every claim that does not fit is reported.
pub open spec fn told_claims(
    issues: Seq<String>,
    claimed: Seq<u64>,
    free: Set<u64>,
    total: nat,
) -> bool {
    &&& forall|i: int|
        0 <= i < claimed.len() && #[trigger] claimed[i] >= total ==> mentions(
            issues,
            beyond_text(claimed[i], total),
        )
    &&& forall|i: int|
        0 <= i < claimed.len() && free.contains(#[trigger] claimed[i]) ==> mentions(
            issues,
            both_text(claimed[i]),
        )
    &&& forall|i: int, j: int|
        0 <= i < j < claimed.len() && #[trigger] claimed[i] == #[trigger] claimed[j] ==> mentions(
            issues,
            twice_text(claimed[j]),
        )
}

/// Checks what the layers above claim: there is something to report unless they
/// claim all blocks that are not free, but for block 0, and each of them once.
pub(crate) fn check_claims(claimed: &[u64], free: &HashSet<u64>, total: u64) -> (issues: Vec<String>)
    requires
        total >= 1,
    ensures
        issues@.len() == 0 <==> {
            &&& claimed@.no_duplicates()
            &&& forall|b: u64| #[trigger]
                claimed@.contains(b) <==> 1 <= b < total && !free@.contains(b)
        },
        tells_claims(issues@, claimed@, free@, total as nat),
{
    let mut issues: Vec<String> = Vec::new();
    let mut seen: HashSet<u64> = HashSet::new();
    let _ = seen.insert(0);
    let count: usize = claimed.len();
    let mut i: usize = 0;
    proof {
        assert(claimed@.take(0) =~= Seq::<u64>::empty());
    }
    while i < count
        invariant
            i <= count == claimed@.len(),
            forall|b: u64| #[trigger]
                seen@.contains(b) <==> b == 0 || claimed@.take(i as int).contains(b),
            issues@.len() == 0 <==> {
                &&& claimed@.take(i as int).no_duplicates()
                &&& forall|b: u64| #[trigger]
                    claimed@.take(i as int).contains(b) ==> 1 <= b < total && !free@.contains(b)
            },
            told_claims(issues@, claimed@.take(i as int), free@, total as nat),
        decreases count - i,
    {
        let b: u64 = claimed[i];
        let ghost issues0 = issues@;
        let ghost before = claimed@.take(i as int);
        let ghost after = claimed@.take(i + 1);
        proof {
            assert(after =~= before.push(b));
            assert(after[i as int] == b);
            assert(after.contains(b));
            assert forall|c: u64| #[trigger] after.contains(c) <==> before.contains(c) || c == b by {
                if before.contains(c) {
                    let k = choose|k: int| 0 <= k < before.len() && before[k] == c;
                    assert(after[k] == c);
                }
                if after.contains(c) {
                    let k = choose|k: int| 0 <= k < after.len() && after[k] == c;
                    if k < i {
                        assert(before[k] == c);
                    }
                }
            }
            assert forall|c: u64| #[trigger] before.contains(c) implies after.contains(c) by {}
            assert(after.no_duplicates() <==> before.no_duplicates() && !before.contains(b)) by {
                if before.contains(b) {
                    let k = choose|k: int| 0 <= k < before.len() && before[k] == b;
                    assert(after[k] == after[i as int]);
                }
                if after.no_duplicates() {
                    assert forall|x: int, y: int| 0 <= x < y < before.len() implies before[x]
                        != before[y] by {
                        assert(after[x] != after[y]);
                    }
                }
                if before.no_duplicates() && !before.contains(b) {
                    assert forall|x: int, y: int| 0 <= x < y < after.len() implies after[x]
                        != after[y] by {
                        if y < i {
                            assert(before[x] != before[y]);
                        } else {
                            assert(before.contains(before[x]));
                        }
                    }
                }
            }
        }
        if b >= total {
            let what: String = text_num("L2: claimed block ", b, " is >= total_blocks (");
            issues.push(text_num(what.as_str(), total, ")"));
        }
        let ghost issues1 = issues@;
        if !seen.insert(b) {
            issues.push(text_num("L2: block ", b, " claimed by multiple streams"));
        }
        let ghost issues2 = issues@;
        if free.contains(&b) {
            issues.push(
                text_num(
                    "L2: block ",
                    b,
                    " is both claimed by a stream and on the free list",
                ),
            );
        }
        proof {
            assert(issues1.subrange(0, issues0.len() as int) =~= issues0);
            assert(issues2.subrange(0, issues1.len() as int) =~= issues1);
            assert(issues@.subrange(0, issues2.len() as int) =~= issues2);
            lemma_still_mentioned(issues0, issues1);
            lemma_still_mentioned(issues1, issues2);
            lemma_still_mentioned(issues2, issues@);
            if b >= total {
                assert(issues1.last()@ == beyond_text(b, total as nat));
                assert(mentions(issues1, beyond_text(b, total as nat)));
            }
            if before.contains(b) {
                assert(issues2.last()@ == twice_text(b));
                assert(mentions(issues2, twice_text(b)));
            }
            if free@.contains(b) {
                assert(issues@.last()@ == both_text(b));
                assert(mentions(issues@, both_text(b)));
            }
            assert forall|k: int, j: int|
                0 <= k < j < after.len() && #[trigger] after[k] == #[trigger] after[j] implies mentions(
                issues@,
                twice_text(after[j]),
            ) by {
                if j < i {
                    assert(before[k] == after[k] && before[j] == after[j]);
                } else {
                    assert(before[k] == b);
                    assert(before.contains(b));
                }
            }
            assert forall|k: int|
                0 <= k < after.len() && #[trigger] after[k] >= total implies mentions(
                issues@,
                beyond_text(after[k], total as nat),
            ) by {
                if k < i {
                    assert(before[k] == after[k]);
                }
            }
            assert forall|k: int|
                0 <= k < after.len() && free@.contains(#[trigger] after[k]) implies mentions(
                issues@,
                both_text(after[k]),
            ) by {
                if k < i {
                    assert(before[k] == after[k]);
                }
            }
        }
        i = i + 1;
    }
    proof {
        assert(claimed@.take(i as int) =~= claimed@);
    }
    let mut b: u64 = 1;
    while b < total
        invariant
            1 <= b <= total,
            forall|c: u64| #[trigger] seen@.contains(c) <==> c == 0 || claimed@.contains(c),
            issues@.len() == 0 <==> {
                &&& claimed@.no_duplicates()
                &&& forall|c: u64| #[trigger]
                    claimed@.contains(c) ==> 1 <= c < total && !free@.contains(c)
                &&& forall|c: u64|
                    1 <= c < b && !free@.contains(c) ==> #[trigger] claimed@.contains(c)
            },
            told_claims(issues@, claimed@, free@, total as nat),
            forall|c: u64|
                1 <= c < b && !free@.contains(c) && !(#[trigger] claimed@.contains(c))
                    ==> mentions(issues@, lost_text(c)),
        decreases total - b,
    {
        let ghost issues0 = issues@;
        if !seen.contains(&b) && !free.contains(&b) {
            issues.push(
                text_num(
                    "L2: block ",
                    b,
                    " is orphaned (not claimed by any stream, not on free list)",
                ),
            );
        }
        proof {
            assert(issues@.subrange(0, issues0.len() as int) =~= issues0);
            lemma_still_mentioned(issues0, issues@);
            if !claimed@.contains(b) && !free@.contains(b) {
                assert(issues@.last()@ == lost_text(b));
                assert(mentions(issues@, lost_text(b)));
            }
        }
        b = b + 1;
    }
    issues
}

} // verus!
