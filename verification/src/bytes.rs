//! Little-endian integers in byte sequences.

use vstd::prelude::*;

verus! {

/// The number that `s` spells, least significant byte first.
pub open spec fn le_value(s: Seq<u8>) -> nat
    decreases s.len(),
{
    if s.len() == 0 {
        0
    } else {
        s[0] as nat + 256 * le_value(s.skip(1))
    }
}

/// The low `n` bytes of `v`, least significant byte first.
pub open spec fn le_bytes(v: nat, n: nat) -> Seq<u8>
    decreases n,
{
    if n == 0 {
        Seq::empty()
    } else {
        seq![(v % 256) as u8] + le_bytes(v / 256, (n - 1) as nat)
    }
}

/// One more than the largest number that `n` bytes can spell.
pub open spec fn le_limit(n: nat) -> nat
    decreases n,
{
    if n == 0 {
        1
    } else {
        256 * le_limit((n - 1) as nat)
    }
}

/// `w` bytes of `buf` at `off`, read as a number.
pub open spec fn le_at(buf: Seq<u8>, off: int, w: int) -> nat {
    le_value(buf.subrange(off, off + w))
}

pub proof fn lemma_le_limits()
    ensures
        le_limit(1) == 0x100,
        le_limit(2) == 0x1_0000,
        le_limit(4) == 0x1_0000_0000,
        le_limit(8) == 0x1_0000_0000_0000_0000,
{
    reveal_with_fuel(le_limit, 9);
}

/// A byte sequence spells a number below the limit of its length.
pub proof fn lemma_le_value_bound(s: Seq<u8>)
    ensures
        le_value(s) < le_limit(s.len()),
    decreases s.len(),
{
    if s.len() > 0 {
        lemma_le_value_bound(s.skip(1));
    }
}

pub proof fn lemma_le_bytes_len(v: nat, n: nat)
    ensures
        le_bytes(v, n).len() == n,
    decreases n,
{
    if n > 0 {
        lemma_le_bytes_len(v / 256, (n - 1) as nat);
    }
}

/// Reading the bytes that were written for a number gives the number back.
pub proof fn lemma_le_round_trip(v: nat, n: nat)
    requires
        v < le_limit(n),
    ensures
        le_value(le_bytes(v, n)) == v,
        le_bytes(v, n).len() == n,
    decreases n,
{
    lemma_le_bytes_len(v, n);
    if n > 0 {
        let rest = le_bytes(v / 256, (n - 1) as nat);
        assert(v / 256 < le_limit((n - 1) as nat));
        lemma_le_round_trip(v / 256, (n - 1) as nat);
        assert(le_bytes(v, n).skip(1) =~= rest);
    }
}

/// Reads `w` bytes at `off` as a little-endian number.
pub fn read_le(buf: &[u8], off: usize, w: usize) -> (v: u64)
    requires
        off + w <= buf@.len(),
        w <= 8,
    ensures
        v == le_at(buf@, off as int, w as int),
        v < le_limit(w as nat),
{
    let len: usize = buf.len();
    let mut acc: u64 = 0;
    let mut i: usize = w;
    proof {
        lemma_le_limits();
    }
    while i > 0
        invariant
            i <= w <= 8,
            len == buf@.len(),
            off + w <= len,
            acc == le_value(buf@.subrange(off + i, off + w)),
        decreases i,
    {
        i = i - 1;
        let ghost here = buf@.subrange(off + i, off + w);
        proof {
            assert(here.skip(1) =~= buf@.subrange(off + i + 1, off + w));
            lemma_le_value_bound(here);
            lemma_limit_monotone(here.len(), 8);
            lemma_le_limits();
        }
        acc = acc * 256 + buf[off + i] as u64;
    }
    proof {
        lemma_le_value_bound(buf@.subrange(off as int, off + w));
    }
    acc
}

proof fn lemma_limit_monotone(a: nat, b: nat)
    requires
        a <= b,
    ensures
        le_limit(a) <= le_limit(b),
        le_limit(a) > 0,
    decreases b,
{
    if a < b {
        lemma_limit_monotone(a, (b - 1) as nat);
    } else if a > 0 {
        lemma_limit_monotone((a - 1) as nat, (a - 1) as nat);
    }
}

/// Appends the low `w` bytes of `v` to `out`, least significant first.
pub fn write_le(out: &mut Vec<u8>, v: u64, w: usize)
    ensures
        final(out)@ == old(out)@ + le_bytes(v as nat, w as nat),
{
    let mut rest: u64 = v;
    let mut i: usize = 0;
    proof {
        assert(out@ + le_bytes(v as nat, w as nat) =~= old(out)@ + le_bytes(v as nat, w as nat));
    }
    while i < w
        invariant
            i <= w,
            out@ + le_bytes(rest as nat, (w - i) as nat) == old(out)@ + le_bytes(
                v as nat,
                w as nat,
            ),
        decreases w - i,
    {
        let ghost before = out@;
        proof {
            assert(before + le_bytes(rest as nat, (w - i) as nat) =~= before.push(
                (rest % 256) as u8,
            ) + le_bytes((rest / 256) as nat, (w - i - 1) as nat));
        }
        out.push((rest % 256) as u8);
        rest = rest / 256;
        i = i + 1;
    }
    assert(out@ + le_bytes(rest as nat, 0) =~= out@);
}

/// Appends a copy of `src` to `out`.
pub fn append_bytes(out: &mut Vec<u8>, src: &[u8])
    ensures
        final(out)@ == old(out)@ + src@,
{
    let mut i: usize = 0;
    while i < src.len()
        invariant
            i <= src@.len(),
            out@ == old(out)@ + src@.take(i as int),
        decreases src@.len() - i,
    {
        proof {
            assert(src@.take(i + 1) =~= src@.take(i as int).push(src@[i as int]));
        }
        out.push(src[i]);
        i = i + 1;
    }
    assert(src@.take(src@.len() as int) =~= src@);
}

} // verus!
