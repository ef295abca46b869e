//! How the blocks of a store lie in its file, and which of them are in use: told by the
//! bytes of the file and by where they stand.

use crate::block_file::{free_ok, lemma_sizes, lemma_trunks, trunks};
use crate::block_image::{block0_head, block0_ok, lemma_block_in_file};
use crate::block_layer::BlockLayer;
use crate::blocks_in_file::{blocks_of, file_ok, image_in, size_in, total_in, BlocksInFile};
use crate::bytes::le_value;
use crate::file_layer::{header_ok, FileLayer};
use crate::free_chain::{covered, covered_at, extents_at, is_chain, list_ok};
use crate::free_list::{any_covers, extent_count, trunk_extent, trunk_next};
use crate::types::{decimal, SfsError};
use vstd::arithmetic::power2::pow2;
use vstd::prelude::*;

verus! {

/// The number that no block has.
pub open spec fn no_block() -> int {
    0xFFFF_FFFF
}

/// The four bytes at a position as a number, the least one first.
pub open spec fn four(s: Seq<u8>, at: int) -> int {
    s[at] + 256 * s[at + 1] + 65536 * s[at + 2] + 16777216 * s[at + 3]
}

/// The size of a block: two to the power that the thirteenth byte of the file tells.
pub open spec fn block_len(file: Seq<u8>) -> int {
    pow2(file[12] as nat) as int
}

/// Where block `b` begins.
pub open spec fn begin_of(file: Seq<u8>, off: nat, b: int) -> int {
    off + b * block_len(file)
}

/// The first block of extent `e` of trunk `b`, or none.
pub open spec fn extent_from(file: Seq<u8>, off: nat, b: int, e: int) -> int {
    four(file, begin_of(file, off, b) + 4 + 8 * e)
}

/// The number of blocks of extent `e` of trunk `b`.
pub open spec fn extent_many(file: Seq<u8>, off: nat, b: int, e: int) -> int {
    four(file, begin_of(file, off, b) + 8 + 8 * e)
}

/// Trunk `b` has an extent number `e`.
pub open spec fn has_extent(file: Seq<u8>, e: int) -> bool {
    0 <= e && 12 + 8 * e <= block_len(file)
}

/// Block `c` lies in extent `e` of trunk `b`.
pub open spec fn lies_in(file: Seq<u8>, off: nat, b: int, e: int, c: int) -> bool {
    &&& has_extent(file, e)
    &&& extent_from(file, off, b, e) != no_block()
    &&& extent_from(file, off, b, e) <= c < extent_from(file, off, b, e) + extent_many(
        file,
        off,
        b,
        e,
    )
}

/// `t` are the trunks of the list of free blocks, in their order: block 0 tells the first
/// of them, and each tells the next.
pub open spec fn trunks_are(file: Seq<u8>, off: nat, total: int, t: Seq<u64>) -> bool {
    &&& four(file, off + 5int) == if t.len() > 0 {
        t[0] as int
    } else {
        no_block()
    }
    &&& forall|i: int|
        0 <= i < t.len() ==> 1 <= #[trigger] t[i] < total && four(
            file,
            begin_of(file, off, t[i] as int),
        ) == if i + 1 < t.len() {
            t[i + 1] as int
        } else {
            no_block()
        }
    &&& forall|i: int, j: int| 0 <= i < j < t.len() ==> t[i] != t[j]
}

/// No block is free twice: no two extents have a block in common, and none has a trunk.
/// All of them lie in the file.
pub open spec fn free_once(file: Seq<u8>, off: nat, total: int, t: Seq<u64>) -> bool {
    &&& forall|i: int, e: int|
        0 <= i < t.len() && has_extent(file, e) && #[trigger] extent_from(
            file,
            off,
            t[i] as int,
            e,
        ) != no_block() ==> {
            &&& 1 <= extent_from(file, off, t[i] as int, e)
            &&& 1 <= extent_many(file, off, t[i] as int, e)
            &&& extent_from(file, off, t[i] as int, e) + extent_many(file, off, t[i] as int, e)
                <= total
        }
    &&& forall|i: int, e: int, j: int, f: int, c: int|
        0 <= i < t.len() && 0 <= j < t.len() && #[trigger] lies_in(file, off, t[i] as int, e, c)
            && #[trigger] lies_in(file, off, t[j] as int, f, c) ==> i == j && e == f
    &&& forall|i: int, e: int, j: int|
        0 <= i < t.len() && 0 <= j < t.len() ==> !#[trigger] lies_in(
            file,
            off,
            t[i] as int,
            e,
            #[trigger] t[j] as int,
        )
}

/// A file is in order, with these trunks: it has whole blocks alone, and its list of free
/// blocks can be followed and has no block twice.
pub open spec fn sound_file(file: Seq<u8>, off: nat, total: int, t: Seq<u64>) -> bool {
    &&& header_ok(file, off)
    &&& 13 <= off <= 65535
    &&& 14 <= file.len() <= u64::MAX
    &&& 4 <= file[12] <= 31
    &&& file[13] != 1
    &&& 1 <= total <= no_block()
    &&& file.len() == off + total * block_len(file)
    &&& block0_ok(file.subrange(off as int, off + block_len(file)))
    &&& trunks_are(file, off, total, t)
    &&& free_once(file, off, total, t)
}

proof fn lemma_four(s: Seq<u8>, at: int)
    requires
        0 <= at,
        at + 4 <= s.len(),
    ensures
        le_value(s.subrange(at, at + 4)) == four(s, at),
        0 <= four(s, at) <= u32::MAX,
{
    let p = s.subrange(at, at + 4);
    reveal_with_fuel(le_value, 5);
    assert(p.skip(1)[0] == s[at + 1]);
    assert(p.skip(1).skip(1)[0] == s[at + 2]);
    assert(p.skip(1).skip(1).skip(1)[0] == s[at + 3]);
    assert(p.skip(1).skip(1).skip(1).skip(1).len() == 0);
}

/// What a block of the file holds at a position.
proof fn lemma_four_in_block(file: Seq<u8>, off: nat, total: nat, b: int, at: int)
    requires
        4 <= file[12] <= 31,
        total == total_in(file, off),
        off + total * size_in(file) <= file.len(),
        0 <= b < total,
        0 <= at,
        at + 4 <= size_in(file),
    ensures
        le_value(image_in(file, off)[b].subrange(at, at + 4)) == four(
            file,
            begin_of(file, off, b) + at,
        ),
        image_in(file, off)[b].len() == size_in(file),
        0 <= four(file, begin_of(file, off, b) + at) <= u32::MAX,
{
    lemma_block_in_file(off, size_in(file), total, b);
    let pos = begin_of(file, off, b) + at;
    assert(image_in(file, off)[b].subrange(at, at + 4) =~= file.subrange(pos, pos + 4));
    lemma_four(file, pos);
}

proof fn lemma_extents_in_file(file: Seq<u8>, off: nat, total: nat, b: int, e: int)
    requires
        4 <= file[12] <= 31,
        total == total_in(file, off),
        off + total * size_in(file) <= file.len(),
        0 <= b < total,
    ensures
        has_extent(file, e) <==> 0 <= e < extent_count(size_in(file)),
        image_in(file, off)[b].len() == size_in(file),
        has_extent(file, e) ==> {
            let x = trunk_extent(image_in(file, off)[b], e);
            &&& x.start == extent_from(file, off, b, e)
            &&& x.length == extent_many(file, off, b, e)
        },
        trunk_next(image_in(file, off)[b]) == four(file, begin_of(file, off, b)),
{
    lemma_sizes(file[12]);
    lemma_four_in_block(file, off, total, b, 0);
    if has_extent(file, e) {
        lemma_four_in_block(file, off, total, b, 4 + 8 * e);
        lemma_four_in_block(file, off, total, b, 8 + 8 * e);
    }
}

proof fn lemma_chain_in_file(file: Seq<u8>, off: nat, total: nat, t: Seq<u64>)
    requires
        4 <= file[12] <= 31,
        total == total_in(file, off),
        1 <= total <= no_block(),
        off + total * size_in(file) <= file.len(),
    ensures
        is_chain(t, block0_head(image_in(file, off)[0]), image_in(file, off)) <==> trunks_are(
            file,
            off,
            total as int,
            t,
        ),
{
    let img = image_in(file, off);
    lemma_sizes(file[12]);
    lemma_four_in_block(file, off, total, 0, 5);
    assert(0 * block_len(file) == 0) by (nonlinear_arith);
    assert(block0_head(img[0]) == four(file, off + 5int));
    assert forall|b: int| 0 <= b < total implies trunk_next(#[trigger] img[b]) == four(
        file,
        begin_of(file, off, b),
    ) by {
        lemma_extents_in_file(file, off, total, b, 0);
    }
    if trunks_are(file, off, total as int, t) {
        assert(t.no_duplicates());
        assert forall|i: int|
            #![trigger t[i]]
            0 <= i < t.len() implies 1 <= t[i] < img.len() && trunk_next(img[t[i] as int])
            == crate::free_chain::link(t, i + 1) by {}
    }
    if is_chain(t, block0_head(img[0]), img) {
        assert forall|i: int| 0 <= i < t.len() implies 1 <= #[trigger] t[i] < total && four(
            file,
            begin_of(file, off, t[i] as int),
        ) == if i + 1 < t.len() {
            t[i + 1] as int
        } else {
            no_block()
        } by {
            assert(trunk_next(img[t[i] as int]) == crate::free_chain::link(t, i + 1));
        }
    }
}

proof fn lemma_covered_in_file(
    file: Seq<u8>,
    off: nat,
    total: nat,
    t: Seq<u64>,
    i: int,
    e: int,
    c: u64,
)
    requires
        4 <= file[12] <= 31,
        total == total_in(file, off),
        off + total * size_in(file) <= file.len(),
        0 <= i < t.len(),
        1 <= t[i] < total,
    ensures
        lies_in(file, off, t[i] as int, e, c as int) <==> 0 <= e < extents_at(
            t,
            image_in(file, off),
            i,
        ).len() && extents_at(t, image_in(file, off), i)[e].covers(c),
{
    lemma_extents_in_file(file, off, total, t[i] as int, e);
}

proof fn lemma_list_in_file(file: Seq<u8>, off: nat, total: nat, t: Seq<u64>)
    requires
        4 <= file[12] <= 31,
        total == total_in(file, off),
        1 <= total <= no_block(),
        off + total * size_in(file) <= file.len(),
        trunks_are(file, off, total as int, t),
    ensures
        list_ok(t, image_in(file, off)) <==> free_once(file, off, total as int, t),
{
    let img = image_in(file, off);
    if list_ok(t, img) {
        lemma_list_sound(file, off, total, t);
    }
    if free_once(file, off, total as int, t) {
        assert forall|i: int| 0 <= i < t.len() implies crate::free_list::extents_ok(
            #[trigger] extents_at(t, img, i),
            img.len(),
        ) by {
            let x = extents_at(t, img, i);
            assert forall|e: int| 0 <= e < x.len() && !(#[trigger] x[e]).unused() implies 1
                <= x[e].start && x[e].length >= 1 && x[e].start + x[e].length <= img.len() by {
                lemma_extents_in_file(file, off, total, t[i] as int, e);
                assert(extent_from(file, off, t[i] as int, e) != no_block());
            }
            assert forall|e: int, f: int, b: u64|
                #![trigger x[e].covers(b), x[f].covers(b)]
                0 <= e < x.len() && 0 <= f < x.len() && x[e].covers(b) && x[f].covers(
                    b,
                ) implies e == f by {
                lemma_covered_in_file(file, off, total, t, i, e, b);
                lemma_covered_in_file(file, off, total, t, i, f, b);
                assert(lies_in(file, off, t[i] as int, e, b as int));
                assert(lies_in(file, off, t[i] as int, f, b as int));
            }
        }
        assert forall|i: int, j: int, b: u64|
            #![trigger covered_at(t, img, i, b), covered_at(t, img, j, b)]
            0 <= i < t.len() && 0 <= j < t.len() && covered_at(t, img, i, b) && covered_at(
                t,
                img,
                j,
                b,
            ) implies i == j by {
            let e = lemma_some_extent(file, off, total, t, i, b);
            let f = lemma_some_extent(file, off, total, t, j, b);
            assert(lies_in(file, off, t[i] as int, e, b as int));
            assert(lies_in(file, off, t[j] as int, f, b as int));
        }
        assert forall|b: u64| #[trigger] t.contains(b) implies !covered(t, img, b) by {
            if covered(t, img, b) {
                let i = choose|i: int| 0 <= i < t.len() && #[trigger] covered_at(t, img, i, b);
                let e = lemma_some_extent(file, off, total, t, i, b);
                let j = choose|j: int| 0 <= j < t.len() && t[j] == b;
                assert(lies_in(file, off, t[i] as int, e, t[j] as int));
            }
        }
    }
}

proof fn lemma_some_extent(
    file: Seq<u8>,
    off: nat,
    total: nat,
    t: Seq<u64>,
    i: int,
    b: u64,
) -> (e: int)
    requires
        4 <= file[12] <= 31,
        total == total_in(file, off),
        off + total * size_in(file) <= file.len(),
        0 <= i < t.len(),
        1 <= t[i] < total,
        covered_at(t, image_in(file, off), i, b),
    ensures
        lies_in(file, off, t[i] as int, e, b as int),
{
    let x = extents_at(t, image_in(file, off), i);
    assert(any_covers(x, b));
    let e = choose|e: int| 0 <= e < x.len() && (#[trigger] x[e]).covers(b);
    lemma_covered_in_file(file, off, total, t, i, e, b);
    e
}

proof fn lemma_list_sound(file: Seq<u8>, off: nat, total: nat, t: Seq<u64>)
    requires
        4 <= file[12] <= 31,
        total == total_in(file, off),
        1 <= total <= no_block(),
        off + total * size_in(file) <= file.len(),
        trunks_are(file, off, total as int, t),
        list_ok(t, image_in(file, off)),
    ensures
        free_once(file, off, total as int, t),
{
    let img = image_in(file, off);
    assert forall|i: int, e: int|
        0 <= i < t.len() && has_extent(file, e) && #[trigger] extent_from(
            file,
            off,
            t[i] as int,
            e,
        ) != no_block() implies ({
        &&& 1 <= extent_from(file, off, t[i] as int, e)
        &&& 1 <= extent_many(file, off, t[i] as int, e)
        &&& extent_from(file, off, t[i] as int, e) + extent_many(file, off, t[i] as int, e) <= total
    }) by {
        lemma_extents_in_file(file, off, total, t[i] as int, e);
        let x = extents_at(t, img, i);
        assert(!x[e].unused());
    }
    assert forall|i: int, e: int, j: int, f: int, c: int|
        0 <= i < t.len() && 0 <= j < t.len() && #[trigger] lies_in(file, off, t[i] as int, e, c)
            && #[trigger] lies_in(file, off, t[j] as int, f, c) implies i == j && e == f by {
        lemma_covers_both(file, off, total, t, i, e, c);
        lemma_covers_both(file, off, total, t, j, f, c);
        let b = c as u64;
        assert(covered_at(t, img, i, b) && covered_at(t, img, j, b));
        let x = extents_at(t, img, i);
        assert(x[e].covers(b) && x[f].covers(b));
    }
    assert forall|i: int, e: int, j: int| 0 <= i < t.len() && 0 <= j < t.len() implies !#[trigger] lies_in(
        file,
        off,
        t[i] as int,
        e,
        #[trigger] t[j] as int,
    ) by {
        if lies_in(file, off, t[i] as int, e, t[j] as int) {
            lemma_covers_both(file, off, total, t, i, e, t[j] as int);
            assert(covered_at(t, img, i, t[j]));
            assert(t.contains(t[j]));
        }
    }
}

proof fn lemma_covers_both(
    file: Seq<u8>,
    off: nat,
    total: nat,
    t: Seq<u64>,
    i: int,
    e: int,
    c: int,
)
    requires
        4 <= file[12] <= 31,
        total == total_in(file, off),
        off + total * size_in(file) <= file.len(),
        0 <= i < t.len(),
        1 <= t[i] < total,
        lies_in(file, off, t[i] as int, e, c),
    ensures
        0 <= c <= u64::MAX,
        0 <= e < extents_at(t, image_in(file, off), i).len(),
        extents_at(t, image_in(file, off), i)[e].covers(c as u64),
        covered_at(t, image_in(file, off), i, c as u64),
{
    lemma_extents_in_file(file, off, total, t[i] as int, e);
    lemma_covered_in_file(file, off, total, t, i, e, c as u64);
    let x = extents_at(t, image_in(file, off), i);
    assert(x[e].covers(c as u64));
}

/// A file counts as being in order if and only if there are trunks with which it is. Then
/// the blocks in use are all but block 0, the trunks, and the blocks of their extents; a
/// block holds the bytes of the file from where it begins.
pub proof fn law_file_in_order(file: Seq<u8>, off: nat, total: int, t: Seq<u64>, b: u64)
    ensures
        sound_file(file, off, total, t) ==> {
            &&& file_ok(file, off)
            &&& blocks_of(file, off).contains_key(b) <==> {
                &&& 1 <= b < total
                &&& !t.contains(b)
                &&& forall|i: int, e: int|
                    0 <= i < t.len() ==> !#[trigger] lies_in(file, off, t[i] as int, e, b as int)
            }
            &&& blocks_of(file, off).contains_key(b) ==> blocks_of(file, off)[b] == file.subrange(
                begin_of(file, off, b as int),
                begin_of(file, off, b + 1),
            )
        },
        file_ok(file, off) ==> exists|t2: Seq<u64>| #[trigger]
            sound_file(file, off, total_in(file, off) as int, t2),
{
    if sound_file(file, off, total, t) {
        lemma_sound_file(file, off, total, t, b);
    }
    if file_ok(file, off) {
        lemma_sizes(file[12]);
        let n = total_in(file, off);
        let img = image_in(file, off);
        lemma_total_positive(file, off);
        let t2 = trunks(block0_head(img[0]), img);
        assert(is_chain(t2, block0_head(img[0]), img) && list_ok(t2, img));
        lemma_chain_in_file(file, off, n, t2);
        lemma_list_in_file(file, off, n, t2);
        assert(0 * block_len(file) == 0) by (nonlinear_arith);
        assert(img[0] =~= file.subrange(off as int, off + block_len(file)));
        assert(sound_file(file, off, n as int, t2));
    }
}

proof fn lemma_total_positive(file: Seq<u8>, off: nat)
    requires
        off + size_in(file) <= file.len(),
        size_in(file) >= 1,
    ensures
        total_in(file, off) >= 1,
{
    let size = size_in(file) as int;
    vstd::arithmetic::div_mod::lemma_div_is_ordered(size, file.len() - off, size);
    assert(size / size == 1) by (nonlinear_arith)
        requires
            size >= 1,
    ;
}

proof fn lemma_sound_file(file: Seq<u8>, off: nat, total: int, t: Seq<u64>, b: u64)
    requires
        sound_file(file, off, total, t),
    ensures
        file_ok(file, off),
        blocks_of(file, off).contains_key(b) <==> {
            &&& 1 <= b < total
            &&& !t.contains(b)
            &&& forall|i: int, e: int|
                0 <= i < t.len() ==> !#[trigger] lies_in(file, off, t[i] as int, e, b as int)
        },
        blocks_of(file, off).contains_key(b) ==> blocks_of(file, off)[b] == file.subrange(
            begin_of(file, off, b as int),
            begin_of(file, off, b + 1),
        ),
{
    lemma_sizes(file[12]);
    let size = block_len(file);
    assert(total * size / size == total) by (nonlinear_arith)
        requires
            size >= 1,
    ;
    let n = total_in(file, off);
    assert(n == total);
    assert(total * size >= size) by (nonlinear_arith)
        requires
            total >= 1,
            size >= 1,
    ;
    let img = image_in(file, off);
    lemma_chain_in_file(file, off, n, t);
    lemma_list_in_file(file, off, n, t);
    assert(0 * size == 0) by (nonlinear_arith);
    assert(img[0] =~= file.subrange(off as int, off + size));
    lemma_trunks(block0_head(img[0]), img, t);
    assert(free_ok(block0_head(img[0]), img));
    if covered(t, img, b) {
        let i = choose|i: int| 0 <= i < t.len() && #[trigger] covered_at(t, img, i, b);
        let e = lemma_some_extent(file, off, n, t, i, b);
        assert(lies_in(file, off, t[i] as int, e, b as int));
    }
    if exists|i: int, e: int|
        0 <= i < t.len() && #[trigger] lies_in(file, off, t[i] as int, e, b as int) {
        let (i, e) = choose|i: int, e: int|
            0 <= i < t.len() && #[trigger] lies_in(file, off, t[i] as int, e, b as int);
        lemma_covers_both(file, off, n, t, i, e, b as int);
        assert(covered(t, img, b));
    }
    assert((b + 1) * size == b * size + size) by (nonlinear_arith);
}

/// A store that is opened on a file has the blocks that are in use in the file, and is
/// consistent if and only if the file is in order.
pub proof fn law_call_store_opened<L1: FileLayer, const N: usize>(
    layer1: L1,
    r: Result<BlocksInFile<L1, N>, SfsError>,
    total: int,
    t: Seq<u64>,
    b: u64,
)
    requires
        call_ensures(BlocksInFile::<L1, N>::open_on, (layer1,), r),
    ensures
        ({
            let file = layer1.bytes();
            let off = layer1.offset();
            &&& r matches Ok(store) ==> {
                &&& store.bsize() == pow2(file[12] as nat)
                &&& store.iwidth() == 4
                &&& store.wf() <==> exists|n: int, t2: Seq<u64>| #[trigger]
                    sound_file(file, off, n, t2)
                &&& sound_file(file, off, total, t) ==> {
                    &&& store.blocks().contains_key(b) <==> {
                        &&& 1 <= b < total
                        &&& !t.contains(b)
                        &&& forall|i: int, e: int|
                            0 <= i < t.len() ==> !#[trigger] lies_in(
                                file,
                                off,
                                t[i] as int,
                                e,
                                b as int,
                            )
                    }
                    &&& store.blocks().contains_key(b) ==> store.blocks()[b] == file.subrange(
                        begin_of(file, off, b as int),
                        begin_of(file, off, b + 1),
                    )
                }
            }
            &&& L1::reads_always() && sound_file(file, off, total, t) ==> r is Ok
            &&& L1::reads_always() && r is Err ==> r->Err_0 is IoError
        }),
{
    let file = layer1.bytes();
    let off = layer1.offset();
    law_file_in_order(file, off, total, t, b);
    if exists|n: int, t2: Seq<u64>| #[trigger] sound_file(file, off, n, t2) {
        let (n, t2) = choose|n: int, t2: Seq<u64>| #[trigger] sound_file(file, off, n, t2);
        law_file_in_order(file, off, n, t2, b);
    }
    if r is Ok && r->Ok_0.wf() {
        let n = total_in(file, off) as int;
        let t2 = choose|t2: Seq<u64>| #[trigger] sound_file(file, off, n, t2);
        assert(sound_file(file, off, n, t2));
    }
}

/// Taking blocks into use makes the file longer only by the blocks that free ones do not
/// make up for. Of these and the free ones they are, and they come in ascending order.
pub proof fn law_call_blocks_taken<L1: FileLayer, const N: usize>(
    store: &mut BlocksInFile<L1, N>,
    count: u64,
    r: Result<Vec<u64>, SfsError>,
    free: Set<u64>,
    i: int,
)
    requires
        old(store).wf(),
        call_ensures(BlocksInFile::<L1, N>::allocate_blocks, (store, count), r),
        final(store).faults() == old(store).faults(),
        forall|b: u64| #[trigger]
            free.contains(b) <==> 1 <= b < (*old(store)).total() && !(*old(
                store,
            )).blocks().contains_key(b),
    ensures
        ({
            let a = *old(store);
            let b = *final(store);
            &&& r is Ok
            &&& r->Ok_0@.len() == count
            &&& b.total() == if count <= free.len() {
                a.total()
            } else {
                (a.total() + (count - free.len())) as nat
            }
            &&& 0 <= i < count ==> free.contains(r->Ok_0@[i]) || a.total() <= r->Ok_0@[i]
                < b.total()
            &&& 0 < i < count ==> r->Ok_0@[i - 1] < r->Ok_0@[i]
        }),
{
    let a = *old(store);
    assert(free =~= a.free_blocks());
}

/// Giving blocks back leaves the file as long as it was.
pub proof fn law_call_blocks_given_back<L1: FileLayer, const N: usize>(
    store: &mut BlocksInFile<L1, N>,
    indices: &mut Vec<u64>,
    r: Result<(), SfsError>,
    b: u64,
)
    requires
        old(store).wf(),
        call_ensures(BlocksInFile::<L1, N>::deallocate_blocks, (store, indices), r),
        r is Ok,
    ensures
        final(store).total() == old(store).total(),
        final(store).file().len() == old(store).file().len(),
        1 <= b < final(store).total() ==> ({
            final(store).blocks().contains_key(b) <==> old(store).blocks().contains_key(b) && !old(
                indices,
            )@.contains(b)
        }),
{
    let s = old(indices)@;
    let a = *old(store);
    let c = *final(store);
    assert(c.free_blocks().contains(b) <==> a.free_blocks().union(s.to_set()).contains(b));
}

/// What a check of a consistent store says of the blocks that are claimed: one line for
/// each that the file does not have, that is free, or that was claimed before, and one
/// for each block in use that nobody claims.
pub proof fn law_call_claims_told<L1: FileLayer, const N: usize>(
    store: &mut BlocksInFile<L1, N>,
    claimed: &[u64],
    r: Result<Vec<String>, SfsError>,
    i: int,
    j: int,
    b: u64,
)
    requires
        old(store).wf(),
        call_ensures(BlocksInFile::<L1, N>::verify, (store, claimed), r),
        final(store).faults() == old(store).faults(),
    ensures
        ({
            let a = *old(store);
            let lines = r->Ok_0@;
            let c = claimed@;
            &&& r is Ok
            &&& 0 <= i < c.len() && c[i] >= a.total() ==> exists|k: int|
                0 <= k < lines.len() && (#[trigger] lines[k])@ == "L2: claimed block "@ + decimal(
                    c[i] as nat,
                ) + " is >= total_blocks ("@ + decimal(a.total()) + ")"@
            &&& 0 <= i < c.len() && 1 <= c[i] < a.total() && !a.blocks().contains_key(c[i])
                ==> exists|k: int|
                0 <= k < lines.len() && (#[trigger] lines[k])@ == "L2: block "@ + decimal(
                    c[i] as nat,
                ) + " is both claimed by a stream and on the free list"@
            &&& 0 <= i < j < c.len() && c[i] == c[j] ==> exists|k: int|
                0 <= k < lines.len() && (#[trigger] lines[k])@ == "L2: block "@ + decimal(
                    c[j] as nat,
                ) + " claimed by multiple streams"@
            &&& a.blocks().contains_key(b) && b < a.total() && b >= 1 && !c.contains(b) ==> exists|
                k: int,
            |
                0 <= k < lines.len() && (#[trigger] lines[k])@ == "L2: block "@ + decimal(b as nat)
                    + " is orphaned (not claimed by any stream, not on free list)"@
        }),
{
    let a = *old(store);
    let c = claimed@;
    assert(crate::block_check::tells_claims(r->Ok_0@, c, a.free_blocks(), a.total()));
    if 0 <= i < j < c.len() && c[i] == c[j] {
        assert(crate::types::mentions(r->Ok_0@, crate::block_check::twice_text(c[j])));
    }
    if a.blocks().contains_key(b) && 1 <= b < a.total() && !c.contains(b) {
        assert(!a.free_blocks().contains(b));
        assert(crate::types::mentions(r->Ok_0@, crate::block_check::lost_text(b)));
    }
    if 0 <= i < c.len() && 1 <= c[i] < a.total() && !a.blocks().contains_key(c[i]) {
        assert(a.free_blocks().contains(c[i]));
        assert(crate::types::mentions(r->Ok_0@, crate::block_check::both_text(c[i])));
    }
    if 0 <= i < c.len() && c[i] >= a.total() {
        assert(crate::types::mentions(
            r->Ok_0@,
            crate::block_check::beyond_text(c[i], a.total()),
        ));
    }
}

} // verus!
