//! Little-endian integers of any width up to eight bytes, and in-place
//! updates of byte sequences.

use vstd::prelude::*;

verus! {

/// `256` to the power `w`: how many values fit in `w` bytes.
pub open spec fn pow256(w: nat) -> nat
    decreases w,
{
    if w == 0 {
        1
    } else {
        256 * pow256((w - 1) as nat)
    }
}

/// The number that a little-endian byte sequence stands for.
pub open spec fn le_value(s: Seq<u8>) -> nat
    decreases s.len(),
{
    if s.len() == 0 {
        0
    } else {
        s[0] as nat + 256 * le_value(s.skip(1))
    }
}

/// The low `w` bytes of `v`, least significant first.
pub open spec fn le_bytes(v: nat, w: nat) -> Seq<u8>
    decreases w,
{
    if w == 0 {
        Seq::empty()
    } else {
        seq![(v % 256) as u8] + le_bytes(v / 256, (w - 1) as nat)
    }
}

/// `s` with the bytes from `at` on replaced by `t`.
pub open spec fn overlay(s: Seq<u8>, at: int, t: Seq<u8>) -> Seq<u8> {
    Seq::new(s.len(), |i: int| if at <= i < at + t.len() { t[i - at] } else { s[i] })
}

/// How many bytes a read of `want` bytes at `pos` yields from `len` bytes.
pub open spec fn read_count(len: int, pos: int, want: int) -> int {
    if pos >= len {
        0
    } else if len - pos < want {
        len - pos
    } else {
        want
    }
}

/// A buffer after a read from `s` at `pos`: the bytes that were there, and
/// behind them what the buffer held before.
pub open spec fn after_read(s: Seq<u8>, pos: int, buf: Seq<u8>) -> Seq<u8> {
    Seq::new(
        buf.len(),
        |i: int|
            if i < read_count(s.len() as int, pos, buf.len() as int) {
                s[pos + i]
            } else {
                buf[i]
            },
    )
}

pub proof fn lemma_le_bytes_len(v: nat, w: nat)
    ensures
        le_bytes(v, w).len() == w,
    decreases w,
{
    if w > 0 {
        lemma_le_bytes_len(v / 256, (w - 1) as nat);
    }
}

/// A value read back from its own bytes is the value, when it fits.
pub proof fn law_le_round_trip(v: nat, w: nat)
    requires
        v < pow256(w),
    ensures
        le_value(le_bytes(v, w)) == v,
    decreases w,
{
    if w > 0 {
        law_le_round_trip(v / 256, (w - 1) as nat);
        lemma_le_bytes_len(v, w);
        assert(le_bytes(v, w).skip(1) =~= le_bytes(v / 256, (w - 1) as nat));
    }
}

/// Every byte sequence is the encoding of the value it stands for.
pub proof fn law_le_bytes_of_value(s: Seq<u8>)
    ensures
        le_bytes(le_value(s), s.len()) == s,
        le_value(s) < pow256(s.len()),
    decreases s.len(),
{
    if s.len() > 0 {
        law_le_bytes_of_value(s.skip(1));
        assert(s =~= seq![s[0]] + s.skip(1));
        assert(le_value(s) / 256 == le_value(s.skip(1)));
        assert(le_value(s) % 256 == s[0]);
    }
}

pub proof fn lemma_pow256_values()
    ensures
        pow256(0) == 1,
        pow256(1) == 0x100,
        pow256(2) == 0x1_0000,
        pow256(4) == 0x1_0000_0000,
        pow256(8) == 0x1_0000_0000_0000_0000,
{
    reveal_with_fuel(pow256, 9);
}

pub proof fn lemma_pow256_monotone(a: nat, b: nat)
    requires
        a <= b,
    ensures
        pow256(a) <= pow256(b),
        pow256(a) >= 1,
    decreases b,
{
    if a < b {
        lemma_pow256_monotone(a, (b - 1) as nat);
    } else if a > 0 {
        lemma_pow256_monotone((a - 1) as nat, (b - 1) as nat);
    }
}

/// The bytes of the largest `w`-byte value are all `0xFF`.
pub proof fn lemma_le_bytes_all_ones(w: nat)
    ensures
        le_bytes((pow256(w) - 1) as nat, w) == Seq::new(w, |i: int| 0xFFu8),
    decreases w,
{
    lemma_pow256_monotone(0, w);
    if w > 0 {
        lemma_pow256_monotone(0, (w - 1) as nat);
        lemma_le_bytes_all_ones((w - 1) as nat);
        let v = (pow256(w) - 1) as nat;
        assert(v % 256 == 255);
        assert(v / 256 == pow256((w - 1) as nat) - 1);
        assert(le_bytes(v, w) =~= Seq::new(w, |i: int| 0xFFu8));
    } else {
        assert(le_bytes((pow256(w) - 1) as nat, w) =~= Seq::new(w, |i: int| 0xFFu8));
    }
}

/// Reads the `w`-byte little-endian integer at `at`.
pub fn get_le(buf: &[u8], at: usize, w: usize) -> (v: u64)
    requires
        w <= 8,
        at + w <= buf@.len(),
    ensures
        v == le_value(buf@.subrange(at as int, at + w)),
        v < pow256(w as nat),
{
    let len: usize = buf.len();
    let mut v: u64 = 0;
    let mut i: usize = w;
    proof {
        assert(buf@.subrange(at + w, at + w).len() == 0);
        lemma_pow256_values();
    }
    while i > 0
        invariant
            i <= w <= 8,
            at + w <= len == buf@.len(),
            v == le_value(buf@.subrange(at + i, at + w)),
        decreases i,
    {
        proof {
            let s = buf@.subrange(at + i - 1, at + w);
            assert(s.skip(1) =~= buf@.subrange(at + i, at + w));
            law_le_bytes_of_value(s);
            lemma_pow256_monotone(s.len(), 8);
            lemma_pow256_values();
        }
        i = i - 1;
        v = buf[at + i] as u64 + 256 * v;
    }
    proof {
        law_le_bytes_of_value(buf@.subrange(at as int, at + w));
    }
    v
}

/// Appends the low `w` bytes of `v`.
pub fn push_le(buf: &mut Vec<u8>, v: u64, w: usize)
    requires
        w <= 8,
    ensures
        final(buf)@ == old(buf)@ + le_bytes(v as nat, w as nat),
{
    let mut rest: u64 = v;
    let mut i: usize = 0;
    proof {
        assert(buf@ + le_bytes(v as nat, w as nat) =~= old(buf)@ + le_bytes(v as nat, w as nat));
    }
    while i < w
        invariant
            i <= w <= 8,
            buf@ + le_bytes(rest as nat, (w - i) as nat) == old(buf)@ + le_bytes(v as nat, w as nat),
        decreases w - i,
    {
        let ghost before = buf@;
        let b: u8 = (rest % 256) as u8;
        proof {
            assert(le_bytes(rest as nat, (w - i) as nat) == seq![b] + le_bytes(
                (rest / 256) as nat,
                (w - i - 1) as nat,
            ));
        }
        buf.push(b);
        proof {
            assert(before + (seq![b] + le_bytes((rest / 256) as nat, (w - i - 1) as nat)) =~= buf@
                + le_bytes((rest / 256) as nat, (w - i - 1) as nat));
        }
        rest = rest / 256;
        i = i + 1;
    }
    proof {
        assert(buf@ + le_bytes(rest as nat, 0) =~= buf@);
    }
}

/// Overwrites `dst` from `at` on with `src`.
pub fn copy_into(dst: &mut [u8], at: usize, src: &[u8])
    requires
        at + src@.len() <= old(dst)@.len(),
    ensures
        final(dst)@ == overlay(old(dst)@, at as int, src@),
{
    let n: usize = src.len();
    let len: usize = dst.len();
    let mut i: usize = 0;
    while i < n
        invariant
            i <= n == src@.len(),
            at + n <= len == dst@.len(),
            dst@.len() == old(dst)@.len(),
            dst@ == overlay(old(dst)@, at as int, src@.take(i as int)),
        decreases n - i,
    {
        dst[at + i] = src[i];
        i = i + 1;
        proof {
            assert(dst@ =~= overlay(old(dst)@, at as int, src@.take(i as int)));
        }
    }
    proof {
        assert(src@.take(n as int) =~= src@);
    }
}

/// The bytes of `src` from `from` up to `to`.
pub fn copy_range(src: &[u8], from: usize, to: usize) -> (out: Vec<u8>)
    requires
        from <= to <= src@.len(),
    ensures
        out@ == src@.subrange(from as int, to as int),
{
    let mut out: Vec<u8> = Vec::new();
    let mut i: usize = from;
    while i < to
        invariant
            from <= i <= to <= src@.len(),
            out@ == src@.subrange(from as int, i as int),
        decreases to - i,
    {
        out.push(src[i]);
        i = i + 1;
        proof {
            assert(out@ =~= src@.subrange(from as int, i as int));
        }
    }
    out
}

/// Whether two byte slices hold the same bytes.
pub fn same_bytes(a: &[u8], b: &[u8]) -> (same: bool)
    ensures
        same == (a@ == b@),
{
    if a.len() != b.len() {
        return false;
    }
    let n: usize = a.len();
    let mut i: usize = 0;
    while i < n
        invariant
            i <= n == a@.len() == b@.len(),
            forall|j: int| 0 <= j < i ==> a@[j] == b@[j],
        decreases n - i,
    {
        if a[i] != b[i] {
            return false;
        }
        i = i + 1;
    }
    proof {
        assert(a@ =~= b@);
    }
    true
}

/// A buffer of `n` zero bytes.
pub fn zeros(n: usize) -> (out: Vec<u8>)
    ensures
        out@ == Seq::new(n as nat, |i: int| 0u8),
{
    let out: Vec<u8> = vec![0u8; n];
    proof {
        assert(out@ =~= Seq::new(n as nat, |i: int| 0u8));
    }
    out
}

} // verus!
