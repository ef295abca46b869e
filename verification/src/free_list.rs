//! The list of free blocks: a chain of trunk blocks, each with a number of
//! extents of free blocks.

use crate::block_layer::zero_bytes;
use crate::bytes::{
    get_le, law_le_round_trip, le_bytes, le_value, lemma_le_bytes_len, lemma_pow256_values, pow256,
    push_le, zeros,
};
use vstd::prelude::*;

verus! {

/// The index that marks "no block".
pub const BLOCK_INDEX_SENTINEL: u32 = 0xFFFF_FFFF;

/// The size of the pointer to the next trunk.
pub const TRUNK_NEXT_SIZE: u64 = 4;

/// The size of an extent.
pub const EXTENT_SIZE: u64 = 8;

/// A run of free blocks. One that starts at the sentinel is unused.
#[derive(Debug, Clone, Copy, PartialEq, Eq, Structural)]
pub struct TrunkExtent {
    pub start: u32,
    pub length: u32,
}

impl TrunkExtent {
    /// The extent stands for no blocks.
    pub open spec fn unused(self) -> bool {
        self.start == BLOCK_INDEX_SENTINEL
    }

    /// `b` is one of the blocks of the extent.
    pub open spec fn covers(self, b: u64) -> bool {
        !self.unused() && self.start <= b < self.start + self.length
    }
}

/// The extent that stands for no blocks.
pub open spec fn empty_extent() -> TrunkExtent {
    TrunkExtent { start: BLOCK_INDEX_SENTINEL, length: 0 }
}

/// The number of extents in a trunk block.
pub open spec fn extent_count(size: nat) -> nat {
    ((size - TRUNK_NEXT_SIZE) / EXTENT_SIZE as int) as nat
}

/// The next trunk behind a trunk block.
pub open spec fn trunk_next(block: Seq<u8>) -> u32 {
    le_value(block.subrange(0, 4)) as u32
}

/// Extent number `i` of a trunk block.
pub open spec fn trunk_extent(block: Seq<u8>, i: int) -> TrunkExtent {
    TrunkExtent {
        start: le_value(block.subrange(4 + 8 * i, 8 + 8 * i)) as u32,
        length: le_value(block.subrange(8 + 8 * i, 12 + 8 * i)) as u32,
    }
}

/// The extents of a trunk block.
pub open spec fn trunk_extents(block: Seq<u8>) -> Seq<TrunkExtent> {
    Seq::new(extent_count(block.len()), |i: int| trunk_extent(block, i))
}

/// The bytes of a list of extents.
pub open spec fn extent_bytes(extents: Seq<TrunkExtent>) -> Seq<u8>
    decreases extents.len(),
{
    if extents.len() == 0 {
        Seq::empty()
    } else {
        extent_bytes(extents.drop_last()) + le_bytes(extents.last().start as nat, 4) + le_bytes(
            extents.last().length as nat,
            4,
        )
    }
}

/// The bytes of a trunk block of `size` bytes.
pub open spec fn trunk_bytes(next: u32, extents: Seq<TrunkExtent>, size: nat) -> Seq<u8> {
    le_bytes(next as nat, 4) + extent_bytes(extents) + zero_bytes(
        (size - 4 - 8 * extents.len()) as nat,
    )
}

/// Some extent covers `b`.
pub open spec fn any_covers(extents: Seq<TrunkExtent>, b: u64) -> bool {
    exists|i: int| 0 <= i < extents.len() && (#[trigger] extents[i]).covers(b)
}

/// The extents are in order: none is empty, all lie between block 1 and
/// `total`, and none overlaps another.
pub open spec fn extents_ok(extents: Seq<TrunkExtent>, total: nat) -> bool {
    &&& forall|i: int|
        0 <= i < extents.len() && !(#[trigger] extents[i]).unused() ==> 1 <= extents[i].start
            && extents[i].length >= 1 && extents[i].start + extents[i].length <= total
    &&& forall|i: int, j: int, b: u64|
        #![trigger extents[i].covers(b), extents[j].covers(b)]
        0 <= i < extents.len() && 0 <= j < extents.len() && extents[i].covers(b)
            && extents[j].covers(b) ==> i == j
}

proof fn lemma_extent_bytes_len(extents: Seq<TrunkExtent>)
    ensures
        extent_bytes(extents).len() == 8 * extents.len(),
    decreases extents.len(),
{
    if extents.len() > 0 {
        lemma_extent_bytes_len(extents.drop_last());
        lemma_le_bytes_len(extents.last().start as nat, 4);
        lemma_le_bytes_len(extents.last().length as nat, 4);
    }
}

proof fn lemma_extent_at(extents: Seq<TrunkExtent>, i: int)
    requires
        0 <= i < extents.len(),
    ensures
        extent_bytes(extents).subrange(8 * i, 8 * i + 4) == le_bytes(
            extents[i].start as nat,
            4,
        ),
        extent_bytes(extents).subrange(8 * i + 4, 8 * i + 8) == le_bytes(
            extents[i].length as nat,
            4,
        ),
    decreases extents.len(),
{
    let less = extents.drop_last();
    let all = extent_bytes(extents);
    lemma_extent_bytes_len(less);
    lemma_extent_bytes_len(extents);
    lemma_le_bytes_len(extents.last().start as nat, 4);
    lemma_le_bytes_len(extents.last().length as nat, 4);
    if i < less.len() {
        lemma_extent_at(less, i);
        assert(all.subrange(8 * i, 8 * i + 4) =~= extent_bytes(less).subrange(8 * i, 8 * i + 4));
        assert(all.subrange(8 * i + 4, 8 * i + 8) =~= extent_bytes(less).subrange(
            8 * i + 4,
            8 * i + 8,
        ));
    } else {
        assert(all.subrange(8 * i, 8 * i + 4) =~= le_bytes(extents.last().start as nat, 4));
        assert(all.subrange(8 * i + 4, 8 * i + 8) =~= le_bytes(
            extents.last().length as nat,
            4,
        ));
    }
}

/// A trunk block read back from its own bytes gives what was written.
pub proof fn law_trunk_round_trip(next: u32, extents: Seq<TrunkExtent>, size: nat)
    requires
        size >= TRUNK_NEXT_SIZE,
        extents.len() == extent_count(size),
    ensures
        trunk_bytes(next, extents, size).len() == size,
        trunk_next(trunk_bytes(next, extents, size)) == next,
        trunk_extents(trunk_bytes(next, extents, size)) == extents,
{
    let block = trunk_bytes(next, extents, size);
    lemma_pow256_values();
    lemma_le_bytes_len(next as nat, 4);
    law_le_round_trip(next as nat, 4);
    lemma_extent_bytes_len(extents);
    assert(8 * extents.len() <= size - 4) by {
        vstd::arithmetic::div_mod::lemma_fundamental_div_mod(size - 4, 8);
    }
    assert(block.subrange(0, 4) =~= le_bytes(next as nat, 4));
    assert forall|i: int| 0 <= i < extents.len() implies trunk_extent(block, i) == extents[i] by {
        lemma_extent_at(extents, i);
        law_le_round_trip(extents[i].start as nat, 4);
        law_le_round_trip(extents[i].length as nat, 4);
        assert(block.subrange(4 + 8 * i, 8 + 8 * i) =~= extent_bytes(extents).subrange(
            8 * i,
            8 * i + 4,
        ));
        assert(block.subrange(8 + 8 * i, 12 + 8 * i) =~= extent_bytes(extents).subrange(
            8 * i + 4,
            8 * i + 8,
        ));
    }
    assert(trunk_extents(block) =~= extents);
}

/// Reads a trunk block: the next trunk, and the extents.
pub(crate) fn parse_trunk(block: &[u8]) -> (r: (u32, Vec<TrunkExtent>))
    requires
        block@.len() >= 4,
    ensures
        r.0 == trunk_next(block@),
        r.1@ == trunk_extents(block@),
{
    proof {
        lemma_pow256_values();
    }
    let next: u32 = get_le(block, 0, 4) as u32;
    let count: usize = (block.len() - 4) / 8;
    let mut extents: Vec<TrunkExtent> = Vec::new();
    let mut i: usize = 0;
    while i < count
        invariant
            i <= count,
            count == extent_count(block@.len()),
            8 * count + 4 <= block@.len() == block.len(),
            pow256(4) == 0x1_0000_0000,
            extents@ == trunk_extents(block@).take(i as int),
        decreases count - i,
    {
        let start: u32 = get_le(block, 4 + 8 * i, 4) as u32;
        let length: u32 = get_le(block, 8 + 8 * i, 4) as u32;
        extents.push(TrunkExtent { start, length });
        proof {
            assert(trunk_extents(block@)[i as int] == trunk_extent(block@, i as int));
            assert(extents@ =~= trunk_extents(block@).take(i + 1));
        }
        i = i + 1;
    }
    proof {
        assert(trunk_extents(block@).take(count as int) =~= trunk_extents(block@));
    }
    (next, extents)
}

/// Writes a trunk block down.
pub(crate) fn build_trunk(next: u32, extents: &Vec<TrunkExtent>, size: usize) -> (block: Vec<u8>)
    requires
        size >= 4,
        extents@.len() == extent_count(size as nat),
    ensures
        block@ == trunk_bytes(next, extents@, size as nat),
        block@.len() == size,
        trunk_next(block@) == next,
        trunk_extents(block@) == extents@,
{
    let mut block: Vec<u8> = Vec::new();
    push_le(&mut block, next as u64, 4);
    let ghost head = block@;
    let mut i: usize = 0;
    proof {
        lemma_le_bytes_len(next as nat, 4);
        assert(extents@.take(0) =~= Seq::<TrunkExtent>::empty());
        assert(block@ =~= head + extent_bytes(extents@.take(0)));
    }
    while i < extents.len()
        invariant
            i <= extents@.len(),
            block@ == head + extent_bytes(extents@.take(i as int)),
        decreases extents@.len() - i,
    {
        let ghost before = block@;
        push_le(&mut block, extents[i].start as u64, 4);
        push_le(&mut block, extents[i].length as u64, 4);
        proof {
            let more = extents@.take(i + 1);
            assert(more.drop_last() =~= extents@.take(i as int));
            assert(more.last() == extents@[i as int]);
            assert(block@ =~= head + extent_bytes(more));
        }
        i = i + 1;
    }
    proof {
        assert(extents@.take(i as int) =~= extents@);
        lemma_extent_bytes_len(extents@);
        law_trunk_round_trip(next, extents@, size as nat);
    }
    let mut rest: Vec<u8> = zeros(size - block.len());
    block.append(&mut rest);
    proof {
        assert(block@ =~= trunk_bytes(next, extents@, size as nat));
    }
    block
}

/// Extents that are all unused.
pub(crate) fn empty_extents(count: usize) -> (extents: Vec<TrunkExtent>)
    ensures
        extents@.len() == count,
        forall|i: int| 0 <= i < count ==> #[trigger] extents@[i] == empty_extent(),
{
    let mut extents: Vec<TrunkExtent> = Vec::new();
    let mut i: usize = 0;
    while i < count
        invariant
            i <= count,
            extents@.len() == i,
            forall|j: int| 0 <= j < i ==> #[trigger] extents@[j] == empty_extent(),
        decreases count - i,
    {
        extents.push(TrunkExtent { start: BLOCK_INDEX_SENTINEL, length: 0 });
        i = i + 1;
    }
    extents
}

/// Whether all extents are unused.
pub(crate) fn trunk_is_empty(extents: &Vec<TrunkExtent>) -> (empty: bool)
    ensures
        empty <==> forall|i: int| 0 <= i < extents@.len() ==> (#[trigger] extents@[i]).unused(),
{
    let mut i: usize = 0;
    while i < extents.len()
        invariant
            i <= extents@.len(),
            forall|j: int| 0 <= j < i ==> (#[trigger] extents@[j]).unused(),
        decreases extents@.len() - i,
    {
        if extents[i].start != BLOCK_INDEX_SENTINEL {
            return false;
        }
        i = i + 1;
    }
    true
}

// ---------------------------------------------------------------------------
// Taking blocks
// ---------------------------------------------------------------------------

/// The blocks of `part` are those that `before` covers and `after` does not.
pub open spec fn taken(
    before: Seq<TrunkExtent>,
    after: Seq<TrunkExtent>,
    part: Seq<u64>,
) -> bool {
    &&& part.no_duplicates()
    &&& forall|b: u64| #[trigger]
        any_covers(before, b) <==> any_covers(after, b) || part.contains(b)
    &&& forall|b: u64| #[trigger] part.contains(b) ==> !any_covers(after, b)
}

/// Takes the last `needed` blocks of one extent, or all where it has no more.
fn take_from_extent(ext: TrunkExtent, needed: u64, result: &mut Vec<u64>) -> (left: TrunkExtent)
    requires
        !ext.unused(),
        ext.length >= 1,
        ext.start + ext.length <= BLOCK_INDEX_SENTINEL,
        needed >= 1,
    ensures
        ({
            let n = if ext.length <= needed {
                ext.length as nat
            } else {
                needed as nat
            };
            &&& left == if ext.length <= needed {
                empty_extent()
            } else {
                TrunkExtent { start: ext.start, length: (ext.length - needed) as u32 }
            }
            &&& final(result)@ == old(result)@ + Seq::new(
                n,
                |j: int| (ext.start + (ext.length - n) + j) as u64,
            )
        }),
{
    let n: u32 = if ext.length as u64 <= needed {
        ext.length
    } else {
        needed as u32
    };
    let first: u64 = ext.start as u64 + (ext.length - n) as u64;
    let ghost r0 = result@;
    let mut j: u32 = 0;
    proof {
        assert(result@ =~= r0 + Seq::new(0nat, |k: int| (first + k) as u64));
    }
    while j < n
        invariant
            j <= n <= ext.length,
            first == ext.start + (ext.length - n),
            ext.start + ext.length <= BLOCK_INDEX_SENTINEL,
            result@ == r0 + Seq::new(j as nat, |k: int| (first + k) as u64),
        decreases n - j,
    {
        result.push(first + j as u64);
        j = j + 1;
        proof {
            assert(result@ =~= r0 + Seq::new(j as nat, |k: int| (first + k) as u64));
        }
    }
    proof {
        assert(result@ =~= r0 + Seq::new(
            n as nat,
            |k: int| (ext.start + (ext.length - n) + k) as u64,
        ));
    }
    if n == ext.length {
        TrunkExtent { start: BLOCK_INDEX_SENTINEL, length: 0 }
    } else {
        TrunkExtent { start: ext.start, length: ext.length - n }
    }
}

/// Takes blocks from the extents of a trunk until there are `count`, and tells
/// whether any were taken.
pub(crate) fn take_extents(
    extents: &mut Vec<TrunkExtent>,
    result: &mut Vec<u64>,
    count: u64,
    Ghost(total): Ghost<nat>,
) -> (modified: bool)
    requires
        extents_ok(old(extents)@, total),
        total <= BLOCK_INDEX_SENTINEL,
        old(result)@.len() < count,
    ensures
        final(extents)@.len() == old(extents)@.len(),
        extents_ok(final(extents)@, total),
        old(result)@.len() <= final(result)@.len() <= count,
        final(result)@.take(old(result)@.len() as int) == old(result)@,
        taken(
            old(extents)@,
            final(extents)@,
            final(result)@.skip(old(result)@.len() as int),
        ),
        final(result)@.len() < count ==> forall|i: int|
            0 <= i < final(extents)@.len() ==> (#[trigger] final(extents)@[i]).unused(),
        !modified ==> final(extents)@ == old(extents)@ && final(result)@ == old(result)@,
{
    let ghost e0 = extents@;
    let ghost r0 = result@;
    let mut modified: bool = false;
    let mut i: usize = 0;
    proof {
        assert(result@.take(r0.len() as int) =~= r0);
        assert(result@.skip(r0.len() as int) =~= Seq::<u64>::empty());
    }
    while i < extents.len() && (result.len() as u64) < count
        invariant
            i <= extents@.len() == e0.len(),
            total <= BLOCK_INDEX_SENTINEL,
            extents_ok(extents@, total),
            r0.len() <= result@.len() <= count,
            result@.take(r0.len() as int) == r0,
            taken(e0, extents@, result@.skip(r0.len() as int)),
            result@.len() < count ==> forall|j: int|
                0 <= j < i ==> (#[trigger] extents@[j]).unused(),
            !modified ==> extents@ == e0 && result@ == r0,
        decreases extents@.len() - i,
    {
        let ext: TrunkExtent = extents[i];
        if ext.start != BLOCK_INDEX_SENTINEL {
            let ghost e1 = extents@;
            let ghost r1 = result@;
            let needed: u64 = count - result.len() as u64;
            let left: TrunkExtent = take_from_extent(ext, needed, result);
            extents.set(i, left);
            modified = true;
            proof {
                lemma_extent_taken(e0, e1, r0, r1, i as int, needed as int, result@, extents@, total);
            }
        }
        i = i + 1;
    }
    modified
}

proof fn lemma_extent_taken(
    e0: Seq<TrunkExtent>,
    e1: Seq<TrunkExtent>,
    r0: Seq<u64>,
    r1: Seq<u64>,
    i: int,
    needed: int,
    r2: Seq<u64>,
    e2: Seq<TrunkExtent>,
    total: nat,
)
    requires
        0 <= i < e1.len(),
        extents_ok(e1, total),
        total <= BLOCK_INDEX_SENTINEL,
        !e1[i].unused(),
        needed >= 1,
        r0.len() <= r1.len(),
        r1.take(r0.len() as int) == r0,
        taken(e0, e1, r1.skip(r0.len() as int)),
        ({
            let ext = e1[i];
            let n = if ext.length <= needed {
                ext.length as nat
            } else {
                needed as nat
            };
            let left = if ext.length <= needed {
                empty_extent()
            } else {
                TrunkExtent { start: ext.start, length: (ext.length - needed) as u32 }
            };
            &&& e2 == e1.update(i, left)
            &&& r2 == r1 + Seq::new(n, |j: int| (ext.start + (ext.length - n) + j) as u64)
        }),
    ensures
        extents_ok(e2, total),
        r2.take(r0.len() as int) == r0,
        taken(e0, e2, r2.skip(r0.len() as int)),
{
    let ext = e1[i];
    let n = if ext.length <= needed {
        ext.length as int
    } else {
        needed
    };
    let left = e2[i];
    let p1 = r1.skip(r0.len() as int);
    let p2 = r2.skip(r0.len() as int);
    let first = ext.start + (ext.length - n);
    let add = Seq::new(n as nat, |j: int| (first + j) as u64);
    assert(p2 =~= p1 + add);
    assert(r2.take(r0.len() as int) =~= r0);
    // What the extent covered is what is left of it and what was taken.
    assert forall|b: u64| #[trigger] ext.covers(b) <==> left.covers(b) || add.contains(b) by {
        if ext.covers(b) && !left.covers(b) {
            assert(first <= b < first + n);
            assert(add[b - first] == b);
        }
        if add.contains(b) {
            let j = choose|j: int| 0 <= j < add.len() && add[j] == b;
        }
    }
    assert forall|b: u64| #[trigger] add.contains(b) implies !left.covers(b) && ext.covers(b) by {
        let j = choose|j: int| 0 <= j < add.len() && add[j] == b;
    }
    assert forall|b: u64| #[trigger] any_covers(e1, b) <==> any_covers(e2, b) || add.contains(b) by {
        if any_covers(e1, b) {
            let k = choose|k: int| 0 <= k < e1.len() && (#[trigger] e1[k]).covers(b);
            if k != i {
                assert(e2[k].covers(b));
            } else {
                assert(ext.covers(b));
                if left.covers(b) {
                    assert(e2[i].covers(b));
                }
            }
        }
        if any_covers(e2, b) {
            let k = choose|k: int| 0 <= k < e2.len() && (#[trigger] e2[k]).covers(b);
            if k != i {
                assert(e1[k].covers(b));
            } else {
                assert(ext.covers(b));
                assert(e1[i].covers(b));
            }
        }
        if add.contains(b) {
            assert(e1[i].covers(b));
        }
    }
    assert forall|b: u64| #[trigger] add.contains(b) implies !any_covers(e2, b) by {
        assert(ext.covers(b) && !left.covers(b));
        if any_covers(e2, b) {
            let k = choose|k: int| 0 <= k < e2.len() && (#[trigger] e2[k]).covers(b);
            if k != i {
                assert(e1[k].covers(b) && e1[i].covers(b));
            }
        }
    }
    assert forall|b: u64| #[trigger] p2.contains(b) <==> p1.contains(b) || add.contains(b) by {
        if p1.contains(b) {
            let j = choose|j: int| 0 <= j < p1.len() && p1[j] == b;
            assert(p2[j] == b);
        }
        if add.contains(b) {
            let j = choose|j: int| 0 <= j < add.len() && add[j] == b;
            assert(p2[p1.len() + j] == b);
        }
        if p2.contains(b) {
            let j = choose|j: int| 0 <= j < p2.len() && p2[j] == b;
            if j < p1.len() {
                assert(p1[j] == b);
            } else {
                assert(add[j - p1.len()] == b);
            }
        }
    }
    assert(p2.no_duplicates()) by {
        assert forall|x: int, y: int| 0 <= x < y < p2.len() implies p2[x] != p2[y] by {
            if y < p1.len() {
                assert(p1[x] != p1[y]);
            } else if x < p1.len() {
                assert(p1.contains(p1[x]));
                assert(add.contains(add[y - p1.len()]));
                assert(!any_covers(e1, p1[x]));
                assert(any_covers(e1, add[y - p1.len()]));
            }
        }
    }
    assert forall|b: u64| #[trigger] any_covers(e0, b) <==> any_covers(e2, b) || p2.contains(b) by {
        assert(any_covers(e1, b) <==> any_covers(e2, b) || add.contains(b));
    }
    assert forall|b: u64| #[trigger] p2.contains(b) implies !any_covers(e2, b) by {
        if p1.contains(b) {
            assert(!any_covers(e1, b));
            assert(any_covers(e1, b) <==> any_covers(e2, b) || add.contains(b));
        }
    }
    assert forall|k: int, l: int, b: u64|
        #![trigger e2[k].covers(b), e2[l].covers(b)]
        0 <= k < e2.len() && 0 <= l < e2.len() && e2[k].covers(b) && e2[l].covers(b) implies k
        == l by {
        assert(e1[k].covers(b)) by {
            if k == i {
                assert(ext.covers(b));
            }
        }
        assert(e1[l].covers(b)) by {
            if l == i {
                assert(ext.covers(b));
            }
        }
    }
}

// ---------------------------------------------------------------------------
// Giving blocks back
// ---------------------------------------------------------------------------

/// A list of numbers in ascending order, none of them twice.
pub open spec fn ascending(s: Seq<u64>) -> bool {
    forall|i: int, j: int| 0 <= i < j < s.len() ==> s[i] < s[j]
}

/// The last block of an extent, and one more.
pub open spec fn extent_end(e: TrunkExtent) -> int {
    e.start + e.length
}

/// Extents in ascending order, with a gap between any two.
pub open spec fn extents_ascend(extents: Seq<TrunkExtent>) -> bool {
    &&& forall|i: int|
        0 <= i < extents.len() ==> !(#[trigger] extents[i]).unused() && extents[i].length >= 1
            && extent_end(extents[i]) <= BLOCK_INDEX_SENTINEL
    &&& forall|i: int, j: int|
        #![trigger extents[i], extents[j]]
        0 <= i < j < extents.len() ==> extent_end(extents[i]) < extents[j].start
}

/// Joins sorted block numbers to as few extents as there can be.
pub fn coalesce_extents(sorted: &Vec<u64>) -> (extents: Vec<TrunkExtent>)
    requires
        ascending(sorted@),
        forall|i: int| 0 <= i < sorted@.len() ==> #[trigger] sorted@[i] < BLOCK_INDEX_SENTINEL,
    ensures
        extents_ascend(extents@),
        forall|b: u64| #[trigger] any_covers(extents@, b) <==> sorted@.contains(b),
{
    let mut extents: Vec<TrunkExtent> = Vec::new();
    if sorted.len() == 0 {
        return extents;
    }
    let mut start: u32 = sorted[0] as u32;
    let mut length: u32 = 1;
    let mut i: usize = 1;
    while i < sorted.len()
        invariant
            1 <= i <= sorted@.len(),
            ascending(sorted@),
            forall|j: int| 0 <= j < sorted@.len() ==> #[trigger] sorted@[j] < BLOCK_INDEX_SENTINEL,
            extents_ascend(extents@),
            forall|j: int|
                0 <= j < extents@.len() ==> extent_end(#[trigger] extents@[j]) < start,
            1 <= length <= i,
            start + length == sorted@[i - 1] + 1,
            forall|j: int| i - length <= j < i ==> #[trigger] sorted@[j] == start + (j - (i - length)),
            forall|b: u64| #[trigger]
                any_covers(extents@, b) <==> sorted@.take(i - length).contains(b),
        decreases sorted@.len() - i,
    {
        let index: u32 = sorted[i] as u32;
        if index == start + length {
            length = length + 1;
        } else {
            let ghost before = extents@;
            let e: TrunkExtent = TrunkExtent { start, length };
            extents.push(e);
            proof {
                lemma_extent_joined(before, sorted@, i as int, e);
            }
            start = index;
            length = 1;
        }
        i = i + 1;
    }
    let ghost before = extents@;
    let e: TrunkExtent = TrunkExtent { start, length };
    extents.push(e);
    proof {
        lemma_extent_joined(before, sorted@, i as int, e);
        assert(sorted@.take(i as int) =~= sorted@);
    }
    extents
}

proof fn lemma_extent_joined(
    before: Seq<TrunkExtent>,
    sorted: Seq<u64>,
    i: int,
    e: TrunkExtent,
)
    requires
        1 <= e.length <= i <= sorted.len(),
        !e.unused(),
        forall|j: int|
            i - e.length <= j < i ==> #[trigger] sorted[j] == e.start + (j - (i - e.length)),
        forall|b: u64| #[trigger]
            any_covers(before, b) <==> sorted.take(i - e.length).contains(b),
    ensures
        forall|b: u64| #[trigger]
            any_covers(before.push(e), b) <==> sorted.take(i).contains(b),
{
    let after = before.push(e);
    let from = i - e.length;
    assert forall|b: u64| #[trigger] any_covers(after, b) <==> sorted.take(i).contains(b) by {
        if any_covers(after, b) {
            let k = choose|k: int| 0 <= k < after.len() && (#[trigger] after[k]).covers(b);
            if k < before.len() {
                assert(before[k].covers(b));
                assert(any_covers(before, b));
                let j = choose|j: int|
                    0 <= j < sorted.take(from).len() && sorted.take(from)[j] == b;
                assert(sorted.take(i)[j] == b);
            } else {
                let j = from + (b - e.start);
                assert(sorted[j] == b);
                assert(sorted.take(i)[j] == b);
            }
        }
        if sorted.take(i).contains(b) {
            let j = choose|j: int| 0 <= j < sorted.take(i).len() && sorted.take(i)[j] == b;
            if j < from {
                assert(sorted.take(from)[j] == b);
                assert(any_covers(before, b));
                let k = choose|k: int| 0 <= k < before.len() && (#[trigger] before[k]).covers(b);
                assert(after[k].covers(b));
            } else {
                assert(sorted[j] == b);
                assert(after[before.len() as int].covers(b));
            }
        }
    }
}

/// The extents of ascending extents are in order.
pub proof fn lemma_ascending_ok(extents: Seq<TrunkExtent>, total: nat)
    requires
        extents_ascend(extents),
        forall|b: u64| #[trigger] any_covers(extents, b) ==> 1 <= b < total,
    ensures
        extents_ok(extents, total),
{
    assert forall|i: int| 0 <= i < extents.len() && !(#[trigger] extents[i]).unused() implies 1
        <= extents[i].start && extents[i].length >= 1 && extents[i].start + extents[i].length
        <= total by {
        let e = extents[i];
        assert(e.covers(e.start as u64));
        assert(any_covers(extents, e.start as u64));
        let last = (e.start + e.length - 1) as u64;
        assert(e.covers(last));
        assert(any_covers(extents, last));
    }
}

/// Puts extents, from number `from` on, where there is room. Tells the number
/// of the first that found none.
pub(crate) fn fill_extents(
    slots: &mut Vec<TrunkExtent>,
    extents: &Vec<TrunkExtent>,
    from: usize,
    Ghost(total): Ghost<nat>,
) -> (next: usize)
    requires
        from <= extents@.len(),
        extents_ok(old(slots)@, total),
        extents_ok(extents@.skip(from as int), total),
        forall|b: u64|
            #![trigger any_covers(old(slots)@, b)]
            #![trigger any_covers(extents@.skip(from as int), b)]
            !(any_covers(old(slots)@, b) && any_covers(extents@.skip(from as int), b)),
        forall|i: int| from <= i < extents@.len() ==> !(#[trigger] extents@[i]).unused(),
    ensures
        from <= next <= extents@.len(),
        final(slots)@.len() == old(slots)@.len(),
        next == from ==> final(slots)@ == old(slots)@,
        next < extents@.len() ==> forall|i: int|
            0 <= i < final(slots)@.len() ==> !(#[trigger] final(slots)@[i]).unused(),
        extents_ok(final(slots)@, total),
        forall|b: u64| #[trigger]
            any_covers(final(slots)@, b) <==> any_covers(old(slots)@, b) || any_covers(
                extents@.subrange(from as int, next as int),
                b,
            ),
{
    let ghost s0 = slots@;
    let mut next: usize = from;
    let mut i: usize = 0;
    proof {
        assert(extents@.subrange(from as int, from as int) =~= Seq::<TrunkExtent>::empty());
    }
    while i < slots.len() && next < extents.len()
        invariant
            i <= slots@.len() == s0.len(),
            from <= next <= extents@.len(),
            extents_ok(slots@, total),
            extents_ok(extents@.skip(from as int), total),
            forall|b: u64|
                #![trigger any_covers(s0, b)]
                #![trigger any_covers(extents@.skip(from as int), b)]
                !(any_covers(s0, b) && any_covers(extents@.skip(from as int), b)),
            forall|j: int| from <= j < extents@.len() ==> !(#[trigger] extents@[j]).unused(),
            forall|j: int| 0 <= j < i ==> !(#[trigger] slots@[j]).unused(),
            next == from ==> slots@ == s0,
            forall|b: u64| #[trigger]
                any_covers(slots@, b) <==> any_covers(s0, b) || any_covers(
                    extents@.subrange(from as int, next as int),
                    b,
                ),
        decreases slots@.len() - i,
    {
        if slots[i].start == BLOCK_INDEX_SENTINEL {
            let ghost before = slots@;
            let e: TrunkExtent = extents[next];
            slots.set(i, e);
            proof {
                let part = extents@.subrange(from as int, next as int);
                let all = extents@.skip(from as int);
                let k = next - from;
                assert(all[k] == e);
                assert(extents@.subrange(from as int, next + 1) =~= part.push(e));
                // The new extent meets none that was there.
                assert forall|b: u64| #[trigger] e.covers(b) implies !any_covers(before, b) by {
                    assert(all[k].covers(b));
                    assert(any_covers(all, b));
                    if any_covers(part, b) {
                        let j = choose|j: int| 0 <= j < part.len() && (#[trigger] part[j]).covers(b);
                        assert(all[j].covers(b));
                    }
                }
                assert forall|b: u64| #[trigger]
                    any_covers(part.push(e), b) <==> any_covers(part, b) || e.covers(b) by {
                    if any_covers(part, b) {
                        let j = choose|j: int| 0 <= j < part.len() && (#[trigger] part[j]).covers(b);
                        assert(part.push(e)[j].covers(b));
                    }
                    if e.covers(b) {
                        assert(part.push(e)[part.len() as int].covers(b));
                    }
                }
                lemma_slot_filled(before, i as int, e, total);
                assert(slots@ == before.update(i as int, e));
            }
            next = next + 1;
        }
        i = i + 1;
    }
    next
}

proof fn lemma_slot_filled(before: Seq<TrunkExtent>, i: int, e: TrunkExtent, total: nat)
    requires
        0 <= i < before.len(),
        before[i].unused(),
        !e.unused(),
        extents_ok(before, total),
        1 <= e.start,
        e.length >= 1,
        e.start + e.length <= total,
        forall|b: u64| #[trigger] e.covers(b) ==> !any_covers(before, b),
    ensures
        extents_ok(before.update(i, e), total),
        forall|b: u64| #[trigger]
            any_covers(before.update(i, e), b) <==> any_covers(before, b) || e.covers(b),
{
    let after = before.update(i, e);
    assert forall|b: u64| #[trigger]
        any_covers(after, b) <==> any_covers(before, b) || e.covers(b) by {
        if any_covers(after, b) {
            let k = choose|k: int| 0 <= k < after.len() && (#[trigger] after[k]).covers(b);
            if k != i {
                assert(before[k].covers(b));
            }
        }
        if any_covers(before, b) {
            let k = choose|k: int| 0 <= k < before.len() && (#[trigger] before[k]).covers(b);
            assert(after[k].covers(b));
        }
        if e.covers(b) {
            assert(after[i].covers(b));
        }
    }
    assert forall|k: int, l: int, b: u64|
        #![trigger after[k].covers(b), after[l].covers(b)]
        0 <= k < after.len() && 0 <= l < after.len() && after[k].covers(b) && after[l].covers(
            b,
        ) implies k == l by {
        if k == i && l != i {
            assert(before[l].covers(b));
        } else if k != i && l == i {
            assert(before[k].covers(b));
        } else if k != i {
            assert(before[k].covers(b) && before[l].covers(b));
        }
    }
}

} // verus!
