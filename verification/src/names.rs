//! Names as bytes: UTF-8, order, and the parts of a path.

use crate::bytes::{copy_range, same_bytes};
use crate::types::SfsError;
use vstd::prelude::*;
use vstd::utf8::{
    decode_utf8, encode_utf8, is_continuation_byte, length_of_first_scalar, pop_first_scalar,
    valid_first_scalar, valid_utf8,
};

verus! {

/// The byte that separates the parts of a path.
pub const SLASH: u8 = 47;

/// The text that `bytes` encode, by the standard library's `from_utf8`: there
/// is one exactly where the bytes are valid UTF-8.
#[verifier::external_body]
pub(crate) fn utf8_text(bytes: &[u8]) -> (text: Option<String>)
    ensures
        text is Some <==> valid_utf8(bytes@),
        text matches Some(s) ==> s@ == decode_utf8(bytes@),
{
    match std::str::from_utf8(bytes) {
        Ok(s) => Some(s.to_owned()),
        Err(_) => None,
    }
}

// ---------------------------------------------------------------------------
// UTF-8
// ---------------------------------------------------------------------------

/// Behind the first byte of a character stand continuation bytes only.
proof fn lemma_first_scalar(s: Seq<u8>)
    requires
        s.len() > 0,
        valid_first_scalar(s),
    ensures
        1 <= length_of_first_scalar(s) <= s.len(),
        forall|i: int| 1 <= i < length_of_first_scalar(s) ==> is_continuation_byte(#[trigger] s[i]),
{
}

/// Text that starts with the same character.
proof fn lemma_same_first_scalar(s: Seq<u8>, t: Seq<u8>)
    requires
        s.len() > 0,
        valid_first_scalar(s),
        t.len() >= length_of_first_scalar(s),
        t.take(length_of_first_scalar(s)) == s.take(length_of_first_scalar(s)),
    ensures
        valid_first_scalar(t),
        length_of_first_scalar(t) == length_of_first_scalar(s),
{
    let k = length_of_first_scalar(s);
    lemma_first_scalar(s);
    assert forall|i: int| 0 <= i < k implies s[i] == t[i] by {
        assert(s.take(k)[i] == t.take(k)[i]);
    }
    assert(s[0] == t[0]);
    if k >= 2 {
        assert(s[1] == t[1]);
    }
    if k >= 3 {
        assert(s[2] == t[2]);
    }
    if k >= 4 {
        assert(s[3] == t[3]);
    }
}

/// Text split at a slash gives text on both sides.
pub proof fn lemma_utf8_split(a: Seq<u8>, b: Seq<u8>)
    requires
        valid_utf8(a + seq![SLASH] + b),
    ensures
        valid_utf8(a),
        valid_utf8(b),
    decreases a.len(),
{
    let s = a + seq![SLASH] + b;
    lemma_first_scalar(s);
    let k = length_of_first_scalar(s);
    if a.len() == 0 {
        assert(s[0] == SLASH);
        assert(pop_first_scalar(s) =~= b);
    } else {
        assert(k <= a.len()) by {
            if k > a.len() {
                assert(is_continuation_byte(s[a.len() as int]));
                assert(s[a.len() as int] == SLASH);
            }
        }
        assert(a.take(k) =~= s.take(k));
        lemma_same_first_scalar(s, a);
        assert(pop_first_scalar(s) =~= pop_first_scalar(a) + seq![SLASH] + b);
        lemma_utf8_split(pop_first_scalar(a), b);
    }
}

/// Two texts, one behind the other, are a text.
pub proof fn lemma_utf8_joined(a: Seq<u8>, b: Seq<u8>)
    requires
        valid_utf8(a),
        valid_utf8(b),
    ensures
        valid_utf8(a + b),
    decreases a.len(),
{
    if a.len() == 0 {
        assert(a + b =~= b);
    } else {
        let k = length_of_first_scalar(a);
        lemma_first_scalar(a);
        assert((a + b).take(k) =~= a.take(k));
        lemma_same_first_scalar(a, a + b);
        assert(pop_first_scalar(a + b) =~= pop_first_scalar(a) + b);
        lemma_utf8_joined(pop_first_scalar(a), b);
    }
}

/// A single slash is a text.
pub proof fn lemma_utf8_slash()
    ensures
        valid_utf8(seq![SLASH]),
{
    let s = seq![SLASH];
    assert(0x2fu8 & 0x7f == 0x2f) by (bit_vector);
    assert(pop_first_scalar(s) =~= Seq::<u8>::empty());
    assert(valid_utf8(Seq::<u8>::empty()));
}

// ---------------------------------------------------------------------------
// Order
// ---------------------------------------------------------------------------

/// Name `a` comes before name `b`: at the first byte where they differ `a` has
/// the smaller one, or `a` ends there.
pub open spec fn name_less(a: Seq<u8>, b: Seq<u8>) -> bool
    decreases a.len(),
{
    if b.len() == 0 {
        false
    } else if a.len() == 0 {
        true
    } else {
        a[0] < b[0] || (a[0] == b[0] && name_less(a.skip(1), b.skip(1)))
    }
}

/// Compares two names.
pub(crate) fn comes_before(a: &[u8], b: &[u8]) -> (less: bool)
    ensures
        less == name_less(a@, b@),
{
    let mut i: usize = 0;
    proof {
        assert(a@.skip(0) =~= a@);
        assert(b@.skip(0) =~= b@);
    }
    while i < a.len() && i < b.len()
        invariant
            i <= a@.len(),
            i <= b@.len(),
            name_less(a@, b@) == name_less(a@.skip(i as int), b@.skip(i as int)),
        decreases a@.len() - i,
    {
        let ghost x = a@.skip(i as int);
        let ghost y = b@.skip(i as int);
        proof {
            assert(x[0] == a@[i as int] && y[0] == b@[i as int]);
            assert(x.skip(1) =~= a@.skip(i + 1));
            assert(y.skip(1) =~= b@.skip(i + 1));
        }
        if a[i] < b[i] {
            return true;
        }
        if a[i] > b[i] {
            return false;
        }
        i = i + 1;
    }
    i < b.len()
}

/// Two names are equal unless one comes before the other.
pub proof fn law_names_ordered(a: Seq<u8>, b: Seq<u8>)
    ensures
        !(name_less(a, b) && name_less(b, a)),
        name_less(a, b) || name_less(b, a) || a == b,
    decreases a.len(),
{
    if a.len() > 0 && b.len() > 0 {
        law_names_ordered(a.skip(1), b.skip(1));
        if a.skip(1) == b.skip(1) && a[0] == b[0] {
            assert(a =~= seq![a[0]] + a.skip(1));
            assert(b =~= seq![b[0]] + b.skip(1));
        }
    } else if a.len() == 0 && b.len() == 0 {
        assert(a =~= b);
    }
}

/// What comes before a name comes before all that the name comes before.
pub proof fn law_order_transitive(a: Seq<u8>, b: Seq<u8>, c: Seq<u8>)
    requires
        name_less(a, b),
        name_less(b, c),
    ensures
        name_less(a, c),
    decreases a.len(),
{
    if a.len() > 0 && a[0] == b[0] && b[0] == c[0] {
        law_order_transitive(a.skip(1), b.skip(1), c.skip(1));
    }
}

// ---------------------------------------------------------------------------
// Paths
// ---------------------------------------------------------------------------

/// The bytes of a text.
pub open spec fn text_bytes(text: &str) -> Seq<u8> {
    encode_utf8(text@)
}

/// The contents of a list of byte strings.
pub open spec fn views(v: Seq<Vec<u8>>) -> Seq<Seq<u8>> {
    Seq::new(v.len(), |i: int| v[i]@)
}

/// Where the first slash stands; the length where there is none.
pub open spec fn first_slash(p: Seq<u8>) -> int
    decreases p.len(),
{
    if p.len() == 0 || p[0] == SLASH {
        0
    } else {
        1 + first_slash(p.skip(1))
    }
}

pub proof fn lemma_first_slash(p: Seq<u8>)
    ensures
        0 <= first_slash(p) <= p.len(),
        forall|i: int| 0 <= i < first_slash(p) ==> #[trigger] p[i] != SLASH,
        first_slash(p) < p.len() ==> p[first_slash(p)] == SLASH,
    decreases p.len(),
{
    if p.len() > 0 && p[0] != SLASH {
        let rest = p.skip(1);
        lemma_first_slash(rest);
        assert forall|i: int| 0 <= i < first_slash(p) implies #[trigger] p[i] != SLASH by {
            if i > 0 {
                assert(rest[i - 1] == p[i]);
            }
        }
    }
}

pub proof fn lemma_first_slash_is(p: Seq<u8>, k: int)
    requires
        0 <= k <= p.len(),
        forall|i: int| 0 <= i < k ==> #[trigger] p[i] != SLASH,
        k < p.len() ==> p[k] == SLASH,
    ensures
        first_slash(p) == k,
{
    lemma_first_slash(p);
    let f = first_slash(p);
    if f < k {
        assert(p[f] != SLASH);
    }
    if k < f {
        assert(p[k] != SLASH);
    }
}

/// The parts of a path, split at every slash.
pub open spec fn components(p: Seq<u8>) -> Seq<Seq<u8>>
    decreases p.len(),
{
    let k = first_slash(p);
    if 0 <= k < p.len() {
        seq![p.take(k)] + components(p.skip(k + 1))
    } else {
        seq![p]
    }
}

/// The most bytes that a name may have.
pub const MAX_NAME_LEN: usize = 65522;

/// A name that may stand in a path.
pub open spec fn name_ok(name: Seq<u8>) -> bool {
    0 < name.len() <= MAX_NAME_LEN
}

/// No part of the path is empty or too long.
pub open spec fn valid_path(p: Seq<u8>) -> bool {
    forall|i: int| 0 <= i < components(p).len() ==> name_ok(#[trigger] components(p)[i])
}

/// The directories on the way to what a path names.
pub open spec fn dirs_of(p: Seq<u8>) -> Seq<Seq<u8>> {
    components(p).drop_last()
}

/// The last part of a path.
pub open spec fn leaf_of(p: Seq<u8>) -> Seq<u8> {
    components(p).last()
}

/// The name under which a directory is listed.
pub open spec fn dir_name(name: Seq<u8>) -> Seq<u8> {
    name.push(SLASH)
}

/// The name is that of a directory.
pub open spec fn names_dir(name: Seq<u8>) -> bool {
    name.len() > 0 && name.last() == SLASH
}

/// A name without the slash that marks a directory.
pub open spec fn bare(name: Seq<u8>) -> Seq<u8> {
    if names_dir(name) {
        name.drop_last()
    } else {
        name
    }
}

/// Every part of a path that is text is text, and holds no slash.
pub proof fn lemma_components(p: Seq<u8>)
    ensures
        components(p).len() >= 1,
        forall|i: int|
            0 <= i < components(p).len() ==> (valid_utf8(p) ==> valid_utf8(
                #[trigger] components(p)[i],
            )) && !components(p)[i].contains(SLASH),
    decreases p.len(),
{
    lemma_first_slash(p);
    let k = first_slash(p);
    if k < p.len() {
        let head = p.take(k);
        let rest = p.skip(k + 1);
        lemma_components(rest);
        if valid_utf8(p) {
            assert(p =~= head + seq![SLASH] + rest);
            lemma_utf8_split(head, rest);
        }
        assert forall|i: int| 0 <= i < components(p).len() implies (valid_utf8(p) ==> valid_utf8(
            #[trigger] components(p)[i],
        )) && !components(p)[i].contains(SLASH) by {
            if i > 0 {
                assert(components(p)[i] == components(rest)[i - 1]);
            }
        }
    } else {
        assert(components(p) =~= seq![p]);
    }
}

/// Splits a path at every slash.
pub(crate) fn split_path(path: &[u8]) -> (parts: Vec<Vec<u8>>)
    ensures
        views(parts@) == components(path@),
        parts@.len() >= 1,
{
    let ghost p = path@;
    let mut parts: Vec<Vec<u8>> = Vec::new();
    let mut start: usize = 0;
    let mut i: usize = 0;
    proof {
        assert(p.skip(0) =~= p);
        assert(views(parts@) + components(p.skip(0)) =~= components(p));
    }
    while i < path.len()
        invariant
            p == path@,
            start <= i <= p.len(),
            forall|j: int| start <= j < i ==> #[trigger] p[j] != SLASH,
            views(parts@) + components(p.skip(start as int)) == components(p),
        decreases p.len() - i,
    {
        if path[i] == SLASH {
            let ghost before = parts@;
            let ghost rest = p.skip(start as int);
            let part: Vec<u8> = copy_range(path, start, i);
            proof {
                assert forall|j: int| 0 <= j < i - start implies #[trigger] rest[j] != SLASH by {
                    assert(p[start + j] != SLASH);
                }
                lemma_first_slash_is(rest, i - start);
                assert(rest.take(i - start) =~= part@);
                assert(rest.skip(i - start + 1) =~= p.skip(i + 1));
            }
            parts.push(part);
            proof {
                assert(views(parts@) =~= views(before).push(part@));
                assert(views(parts@) + components(p.skip(i + 1)) =~= views(before) + (seq![part@]
                    + components(p.skip(i + 1))));
            }
            start = i + 1;
        }
        i = i + 1;
    }
    let ghost before = parts@;
    let ghost rest = p.skip(start as int);
    let part: Vec<u8> = copy_range(path, start, path.len());
    proof {
        assert forall|j: int| 0 <= j < rest.len() implies #[trigger] rest[j] != SLASH by {
            assert(p[start + j] != SLASH);
        }
        lemma_first_slash_is(rest, rest.len() as int);
        assert(part@ =~= rest);
    }
    parts.push(part);
    proof {
        assert(views(parts@) =~= views(before) + seq![rest]);
    }
    parts
}

/// Checks that every part of a path may stand there.
pub(crate) fn validate_path(path: &[u8]) -> (r: Result<(), SfsError>)
    ensures
        r is Ok <==> valid_path(path@),
        r matches Err(e) ==> e is InvalidPath,
{
    let parts: Vec<Vec<u8>> = split_path(path);
    if parts[0].len() == 0 || parts[parts.len() - 1].len() == 0 {
        proof {
            let k = if parts@[0]@.len() == 0 {
                0
            } else {
                parts@.len() - 1
            };
            assert(parts@[k]@ == components(path@)[k]);
            assert(!name_ok(components(path@)[k]));
        }
        return Err(SfsError::InvalidPath("path must not start or end with /".to_owned()));
    }
    let mut i: usize = 0;
    while i < parts.len()
        invariant
            i <= parts@.len(),
            views(parts@) == components(path@),
            forall|j: int| 0 <= j < i ==> name_ok(#[trigger] components(path@)[j]),
        decreases parts@.len() - i,
    {
        let ghost part = components(path@)[i as int];
        assert(parts@[i as int]@ == part);
        if parts[i].len() == 0 {
            return Err(SfsError::InvalidPath("path contains empty component".to_owned()));
        }
        if parts[i].len() > MAX_NAME_LEN {
            return Err(SfsError::InvalidPath("path contains a name that is too long".to_owned()));
        }
        i = i + 1;
    }
    Ok(())
}

/// Splits "a/b/c" into the directories on the way, "a" and "b", and "c".
pub(crate) fn split_parent_leaf(path: &[u8]) -> (r: (Vec<Vec<u8>>, Vec<u8>))
    ensures
        views(r.0@) == dirs_of(path@),
        r.1@ == leaf_of(path@),
{
    let mut parts: Vec<Vec<u8>> = split_path(path);
    let ghost all = parts@;
    let leaf: Vec<u8> = match parts.pop() {
        Some(leaf) => leaf,
        None => Vec::new(),
    };
    proof {
        assert(views(parts@) =~= views(all).drop_last());
        assert(leaf@ == views(all).last());
    }
    (parts, leaf)
}

/// Whether the way by `dirs` leads through what a path names.
pub(crate) fn leads_through(path: &[u8], dirs: &Vec<Vec<u8>>) -> (found: bool)
    ensures
        found == components(path@).is_prefix_of(views(dirs@)),
{
    let parts: Vec<Vec<u8>> = split_path(path);
    if parts.len() > dirs.len() {
        return false;
    }
    let mut i: usize = 0;
    while i < parts.len()
        invariant
            i <= parts@.len() <= dirs@.len(),
            views(parts@) == components(path@),
            forall|j: int| 0 <= j < i ==> components(path@)[j] == #[trigger] views(dirs@)[j],
        decreases parts@.len() - i,
    {
        if !same_bytes(parts[i].as_slice(), dirs[i].as_slice()) {
            proof {
                assert(parts@[i as int]@ == components(path@)[i as int]);
                assert(views(dirs@)[i as int] == dirs@[i as int]@);
                if components(path@).is_prefix_of(views(dirs@)) {
                    assert(views(dirs@).subrange(0, parts@.len() as int)[i as int]
                        == views(dirs@)[i as int]);
                }
            }
            return false;
        }
        proof {
            assert(parts@[i as int]@ == components(path@)[i as int]);
            assert(views(dirs@)[i as int] == dirs@[i as int]@);
        }
        i = i + 1;
    }
    proof {
        assert(components(path@) =~= views(dirs@).subrange(0, parts@.len() as int));
    }
    true
}

/// The name under which a directory is listed.
pub(crate) fn with_slash(name: &[u8]) -> (dir: Vec<u8>)
    ensures
        dir@ == dir_name(name@),
{
    let mut dir: Vec<u8> = copy_range(name, 0, name.len());
    dir.push(SLASH);
    proof {
        assert(dir@ =~= dir_name(name@));
    }
    dir
}

} // verus!
