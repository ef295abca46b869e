//! Which blocks of a file are free: the chain of trunk blocks and what their
//! extents cover.

use crate::free_list::{
    any_covers, extents_ok, trunk_extents, trunk_next, TrunkExtent, BLOCK_INDEX_SENTINEL,
};
use vstd::prelude::*;

verus! {

/// The trunk at position `i` of a chain, or none behind its end.
pub open spec fn link(t: Seq<u64>, i: int) -> u64 {
    if i < t.len() {
        t[i]
    } else {
        BLOCK_INDEX_SENTINEL as u64
    }
}

/// The trunks of the list that begins at `head`, in their order. No trunk comes
/// twice.
pub open spec fn is_chain(t: Seq<u64>, head: u32, img: Seq<Seq<u8>>) -> bool {
    &&& head == link(t, 0)
    &&& forall|i: int|
        #![trigger t[i]]
        0 <= i < t.len() ==> 1 <= t[i] < img.len() && trunk_next(img[t[i] as int]) == link(t, i + 1)
    &&& t.no_duplicates()
}

/// The extents of trunk `i`.
pub open spec fn extents_at(t: Seq<u64>, img: Seq<Seq<u8>>, i: int) -> Seq<TrunkExtent> {
    trunk_extents(img[t[i] as int])
}

/// Trunk `i` covers `b`.
pub open spec fn covered_at(t: Seq<u64>, img: Seq<Seq<u8>>, i: int, b: u64) -> bool {
    any_covers(extents_at(t, img, i), b)
}

/// Some trunk covers `b`.
pub open spec fn covered(t: Seq<u64>, img: Seq<Seq<u8>>, b: u64) -> bool {
    exists|i: int| 0 <= i < t.len() && #[trigger] covered_at(t, img, i, b)
}

/// `b` is free: it is a trunk, or a trunk covers it.
pub open spec fn is_free(t: Seq<u64>, img: Seq<Seq<u8>>, b: u64) -> bool {
    t.contains(b) || covered(t, img, b)
}

/// The list of free blocks is in order: no block is on it twice.
pub open spec fn list_ok(t: Seq<u64>, img: Seq<Seq<u8>>) -> bool {
    &&& forall|i: int|
        0 <= i < t.len() ==> extents_ok(#[trigger] extents_at(t, img, i), img.len())
    &&& forall|i: int, j: int, b: u64|
        #![trigger covered_at(t, img, i, b), covered_at(t, img, j, b)]
        0 <= i < t.len() && 0 <= j < t.len() && covered_at(t, img, i, b) && covered_at(
            t,
            img,
            j,
            b,
        ) ==> i == j
    &&& forall|b: u64| #[trigger] t.contains(b) ==> !covered(t, img, b)
}

/// The blocks in use: all that are not free, but for block 0.
pub open spec fn in_use(t: Seq<u64>, img: Seq<Seq<u8>>) -> Map<u64, Seq<u8>> {
    Map::new(
        |b: u64| 1 <= b < img.len() && !is_free(t, img, b),
        |b: u64| img[b as int],
    )
}

/// Two chains of one list agree as far as both reach.
proof fn lemma_chain_prefix(a: Seq<u64>, b: Seq<u64>, head: u32, img: Seq<Seq<u8>>, i: int)
    requires
        is_chain(a, head, img),
        is_chain(b, head, img),
        img.len() <= BLOCK_INDEX_SENTINEL,
        0 <= i,
    ensures
        link(a, i) == link(b, i),
        i < a.len() <==> i < b.len(),
    decreases i,
{
    if i > 0 {
        lemma_chain_prefix(a, b, head, img, i - 1);
        if i - 1 < a.len() {
            assert(a[i - 1] == b[i - 1]);
        }
    }
    if i < a.len() {
        assert(a[i] < img.len());
    }
    if i < b.len() {
        assert(b[i] < img.len());
    }
}

/// A list has one chain.
pub proof fn lemma_chain_unique(a: Seq<u64>, b: Seq<u64>, head: u32, img: Seq<Seq<u8>>)
    requires
        is_chain(a, head, img),
        is_chain(b, head, img),
        img.len() <= BLOCK_INDEX_SENTINEL,
    ensures
        a == b,
{
    assert forall|i: int| 0 <= i implies link(a, i) == link(b, i) && (i < a.len() <==> i
        < b.len()) by {
        lemma_chain_prefix(a, b, head, img, i);
    }
    if a.len() < b.len() {
        lemma_chain_prefix(a, b, head, img, a.len() as int);
    } else if b.len() < a.len() {
        lemma_chain_prefix(a, b, head, img, b.len() as int);
    }
    assert forall|i: int| 0 <= i < a.len() implies a[i] == b[i] by {
        lemma_chain_prefix(a, b, head, img, i);
    }
    assert(a =~= b);
}

/// A free block lies in the file, behind block 0.
pub proof fn lemma_free_range(t: Seq<u64>, head: u32, img: Seq<Seq<u8>>, b: u64)
    requires
        is_chain(t, head, img),
        list_ok(t, img),
        is_free(t, img, b),
    ensures
        1 <= b < img.len(),
{
    if covered(t, img, b) {
        let i = choose|i: int| 0 <= i < t.len() && #[trigger] covered_at(t, img, i, b);
        let e = extents_at(t, img, i);
        let k = choose|k: int| 0 <= k < e.len() && (#[trigger] e[k]).covers(b);
        assert(extents_ok(e, img.len()));
        assert(!e[k].unused());
    }
}

/// A block that no trunk is can change, and the list stays.
pub proof fn lemma_list_frame(t: Seq<u64>, head: u32, img: Seq<Seq<u8>>, after: Seq<Seq<u8>>)
    requires
        is_chain(t, head, img),
        list_ok(t, img),
        after.len() == img.len(),
        forall|b: u64| #[trigger] t.contains(b) ==> after[b as int] == img[b as int],
    ensures
        is_chain(t, head, after),
        list_ok(t, after),
        forall|b: u64| #[trigger] is_free(t, after, b) == is_free(t, img, b),
{
    assert forall|i: int| 0 <= i < t.len() implies after[#[trigger] t[i] as int] == img[t[i] as int] by {
        assert(t.contains(t[i]));
    }
    assert forall|i: int| 0 <= i < t.len() implies #[trigger] extents_at(t, after, i) == extents_at(
        t,
        img,
        i,
    ) by {
        assert(after[t[i] as int] == img[t[i] as int]);
    }
    assert forall|i: int, b: u64| 0 <= i < t.len() implies #[trigger] covered_at(t, after, i, b)
        == covered_at(t, img, i, b) by {
        assert(extents_at(t, after, i) == extents_at(t, img, i));
    }
    assert forall|b: u64| #[trigger] covered(t, after, b) == covered(t, img, b) by {
        if covered(t, after, b) {
            let i = choose|i: int| 0 <= i < t.len() && #[trigger] covered_at(t, after, i, b);
            assert(covered_at(t, img, i, b));
        }
        if covered(t, img, b) {
            let i = choose|i: int| 0 <= i < t.len() && #[trigger] covered_at(t, img, i, b);
            assert(covered_at(t, after, i, b));
        }
    }
}

/// The file grows by blocks that are not free.
pub proof fn lemma_list_grown(t: Seq<u64>, head: u32, img: Seq<Seq<u8>>, more: Seq<Seq<u8>>)
    requires
        is_chain(t, head, img),
        list_ok(t, img),
    ensures
        is_chain(t, head, img + more),
        list_ok(t, img + more),
        forall|b: u64| #[trigger] is_free(t, img + more, b) == is_free(t, img, b),
{
    let after = img + more;
    assert forall|i: int| 0 <= i < t.len() implies after[#[trigger] t[i] as int] == img[t[i] as int]
        && t[i] < img.len() by {}
    assert forall|i: int| 0 <= i < t.len() implies #[trigger] extents_at(t, after, i) == extents_at(
        t,
        img,
        i,
    ) && extents_ok(extents_at(t, after, i), after.len()) by {
        assert(after[t[i] as int] == img[t[i] as int]);
        assert(extents_ok(extents_at(t, img, i), img.len()));
    }
    assert forall|i: int, b: u64| 0 <= i < t.len() implies #[trigger] covered_at(t, after, i, b)
        == covered_at(t, img, i, b) by {
        assert(extents_at(t, after, i) == extents_at(t, img, i));
    }
    assert forall|b: u64| #[trigger] covered(t, after, b) == covered(t, img, b) by {
        if covered(t, after, b) {
            let i = choose|i: int| 0 <= i < t.len() && #[trigger] covered_at(t, after, i, b);
            assert(covered_at(t, img, i, b));
        }
        if covered(t, img, b) {
            let i = choose|i: int| 0 <= i < t.len() && #[trigger] covered_at(t, img, i, b);
            assert(covered_at(t, after, i, b));
        }
    }
}

/// The free blocks are the first trunk, what it covers, and what the rest of the
/// list has. These lie apart.
pub proof fn lemma_list_split(t: Seq<u64>, head: u32, img: Seq<Seq<u8>>)
    requires
        is_chain(t, head, img),
        list_ok(t, img),
        t.len() > 0,
        img.len() <= BLOCK_INDEX_SENTINEL,
    ensures
        is_chain(t.skip(1), trunk_next(img[head as int]), img),
        list_ok(t.skip(1), img),
        extents_ok(trunk_extents(img[head as int]), img.len()),
        !is_free(t.skip(1), img, head as u64),
        !any_covers(trunk_extents(img[head as int]), head as u64),
        forall|b: u64| #[trigger]
            is_free(t, img, b) <==> b == head || any_covers(trunk_extents(img[head as int]), b)
                || is_free(t.skip(1), img, b),
        forall|b: u64|
            #![trigger any_covers(trunk_extents(img[head as int]), b)]
            #![trigger is_free(t.skip(1), img, b)]
            !(any_covers(trunk_extents(img[head as int]), b) && is_free(t.skip(1), img, b)),
{
    let r = t.skip(1);
    let e = trunk_extents(img[head as int]);
    assert(t[0] == head);
    assert(e == extents_at(t, img, 0));
    assert forall|i: int| 0 <= i < r.len() implies #[trigger] extents_at(r, img, i) == extents_at(
        t,
        img,
        i + 1,
    ) by {}
    assert forall|i: int, b: u64| 0 <= i < r.len() implies #[trigger] covered_at(r, img, i, b)
        == covered_at(t, img, i + 1, b) by {
        assert(extents_at(r, img, i) == extents_at(t, img, i + 1));
    }
    assert forall|i: int|
        #![trigger r[i]]
        0 <= i < r.len() implies r[i] == t[i + 1] && link(r, i + 1) == link(t, i + 2) by {}
    assert(link(r, 0) == link(t, 1));
    assert(is_chain(r, trunk_next(img[head as int]), img));
    assert forall|b: u64| #[trigger] r.contains(b) <==> t.contains(b) && b != head by {
        if r.contains(b) {
            let i = choose|i: int| 0 <= i < r.len() && r[i] == b;
            assert(t[i + 1] == b);
        }
        if t.contains(b) && b != head {
            let i = choose|i: int| 0 <= i < t.len() && t[i] == b;
            assert(r[i - 1] == b);
        }
    }
    assert(t.contains(head as u64));
    assert forall|b: u64| #[trigger] covered(r, img, b) implies covered(t, img, b) && !covered_at(
        t,
        img,
        0,
        b,
    ) by {
        let i = choose|i: int| 0 <= i < r.len() && #[trigger] covered_at(r, img, i, b);
        assert(covered_at(t, img, i + 1, b));
    }
    assert forall|b: u64| #[trigger] covered(t, img, b) && !covered_at(t, img, 0, b) implies covered(
        r,
        img,
        b,
    ) by {
        let i = choose|i: int| 0 <= i < t.len() && #[trigger] covered_at(t, img, i, b);
        assert(covered_at(r, img, i - 1, b));
    }
    assert(list_ok(r, img)) by {
        assert forall|i: int| 0 <= i < r.len() implies extents_ok(
            #[trigger] extents_at(r, img, i),
            img.len(),
        ) by {
            assert(extents_ok(extents_at(t, img, i + 1), img.len()));
        }
        assert forall|i: int, j: int, b: u64|
            #![trigger covered_at(r, img, i, b), covered_at(r, img, j, b)]
            0 <= i < r.len() && 0 <= j < r.len() && covered_at(r, img, i, b) && covered_at(
                r,
                img,
                j,
                b,
            ) implies i == j by {
            assert(covered_at(t, img, i + 1, b) && covered_at(t, img, j + 1, b));
        }
    }
    assert(extents_ok(extents_at(t, img, 0), img.len()));
    assert(!covered(t, img, head as u64));
    assert forall|b: u64| any_covers(e, b) implies covered(t, img, b) by {
        assert(covered_at(t, img, 0, b));
    }
    assert forall|b: u64|
        #![trigger any_covers(e, b)]
        #![trigger is_free(r, img, b)]
        !(any_covers(e, b) && is_free(r, img, b)) by {
        if any_covers(e, b) {
            assert(covered_at(t, img, 0, b));
            assert(covered(t, img, b));
        }
    }
    assert forall|b: u64| #[trigger]
        is_free(t, img, b) <==> b == head || any_covers(e, b) || is_free(r, img, b) by {
        assert(covered_at(t, img, 0, b) == any_covers(e, b));
    }
}

/// A trunk is put before a list: itself and what it covers become free.
pub proof fn lemma_list_joined(r: Seq<u64>, head: u32, img: Seq<Seq<u8>>)
    requires
        img.len() <= BLOCK_INDEX_SENTINEL,
        1 <= head < img.len(),
        is_chain(r, trunk_next(img[head as int]), img),
        list_ok(r, img),
        extents_ok(trunk_extents(img[head as int]), img.len()),
        !is_free(r, img, head as u64),
        !any_covers(trunk_extents(img[head as int]), head as u64),
        forall|b: u64|
            #![trigger any_covers(trunk_extents(img[head as int]), b)]
            #![trigger is_free(r, img, b)]
            !(any_covers(trunk_extents(img[head as int]), b) && is_free(r, img, b)),
    ensures
        is_chain(seq![head as u64] + r, head, img),
        list_ok(seq![head as u64] + r, img),
        forall|b: u64| #[trigger]
            is_free(seq![head as u64] + r, img, b) <==> b == head || any_covers(
                trunk_extents(img[head as int]),
                b,
            ) || is_free(r, img, b),
{
    let t = seq![head as u64] + r;
    let e = trunk_extents(img[head as int]);
    assert(e == extents_at(t, img, 0));
    assert forall|i: int| 0 < i < t.len() implies #[trigger] extents_at(t, img, i) == extents_at(
        r,
        img,
        i - 1,
    ) by {}
    assert forall|i: int, b: u64| 0 < i < t.len() implies #[trigger] covered_at(t, img, i, b)
        == covered_at(r, img, i - 1, b) by {
        assert(extents_at(t, img, i) == extents_at(r, img, i - 1));
    }
    assert forall|b: u64| #[trigger] r.contains(b) ==> t.contains(b) by {
        if r.contains(b) {
            let i = choose|i: int| 0 <= i < r.len() && r[i] == b;
            assert(t[i + 1] == b);
        }
    }
    assert forall|b: u64| #[trigger] t.contains(b) implies b == head || r.contains(b) by {
        let i = choose|i: int| 0 <= i < t.len() && t[i] == b;
        if i > 0 {
            assert(r[i - 1] == b);
        }
    }
    assert(t[0] == head);
    assert(is_chain(t, head, img)) by {
        assert forall|i: int|
            #![trigger t[i]]
            0 <= i < t.len() implies 1 <= t[i] < img.len() && trunk_next(img[t[i] as int]) == link(
            t,
            i + 1,
        ) by {
            if i > 0 {
                assert(t[i] == r[i - 1]);
                assert(link(t, i + 1) == link(r, i));
            } else {
                assert(link(t, 1) == link(r, 0));
            }
        }
        assert forall|i: int, j: int| 0 <= i < j < t.len() implies t[i] != t[j] by {
            assert(t[j] == r[j - 1]);
            assert(r.contains(r[j - 1]));
            if i > 0 {
                assert(t[i] == r[i - 1]);
            }
        }
    }
    assert forall|b: u64| #[trigger] covered(t, img, b) <==> any_covers(e, b) || covered(
        r,
        img,
        b,
    ) by {
        if covered(t, img, b) {
            let i = choose|i: int| 0 <= i < t.len() && #[trigger] covered_at(t, img, i, b);
            if i > 0 {
                assert(covered_at(r, img, i - 1, b));
            }
        }
        if any_covers(e, b) {
            assert(covered_at(t, img, 0, b));
        }
        if covered(r, img, b) {
            let i = choose|i: int| 0 <= i < r.len() && #[trigger] covered_at(r, img, i, b);
            assert(covered_at(t, img, i + 1, b));
        }
    }
    assert(list_ok(t, img)) by {
        assert forall|i: int| 0 <= i < t.len() implies extents_ok(
            #[trigger] extents_at(t, img, i),
            img.len(),
        ) by {
            if i > 0 {
                assert(extents_ok(extents_at(r, img, i - 1), img.len()));
            }
        }
        assert forall|i: int, j: int, b: u64|
            #![trigger covered_at(t, img, i, b), covered_at(t, img, j, b)]
            0 <= i < t.len() && 0 <= j < t.len() && covered_at(t, img, i, b) && covered_at(
                t,
                img,
                j,
                b,
            ) implies i == j by {
            if i > 0 && j > 0 {
                assert(covered_at(r, img, i - 1, b) && covered_at(r, img, j - 1, b));
            } else if i > 0 {
                assert(covered_at(r, img, i - 1, b));
                assert(is_free(r, img, b));
            } else if j > 0 {
                assert(covered_at(r, img, j - 1, b));
                assert(is_free(r, img, b));
            }
        }
        assert forall|b: u64| #[trigger] t.contains(b) implies !covered(t, img, b) by {
            if b != head {
                assert(r.contains(b));
                assert(is_free(r, img, b));
            } else {
                assert(!is_free(r, img, head as u64));
            }
        }
    }
}

} // verus!
