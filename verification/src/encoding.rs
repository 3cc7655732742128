//! Little-endian integer encodings used throughout the wire format.
use vstd::prelude::*;
use vstd::arithmetic::div_mod::lemma_mod_breakdown;

verus! {

/// 256 raised to the power `n`.
pub open spec fn pow256(n: nat) -> nat
    decreases n,
{
    if n == 0 {
        1
    } else {
        256 * pow256((n - 1) as nat)
    }
}

/// The unsigned value of a little-endian byte sequence.
pub open spec fn le_value(s: Seq<u8>) -> nat
    decreases s.len(),
{
    if s.len() == 0 {
        0
    } else {
        s[0] as nat + 256 * le_value(s.drop_first())
    }
}

/// The `n` low little-endian bytes of `v` (`v` is reduced modulo 256^n).
pub open spec fn le_bytes(v: nat, n: nat) -> Seq<u8>
    decreases n,
{
    if n == 0 {
        Seq::empty()
    } else {
        seq![(v % 256) as u8] + le_bytes(v / 256, (n - 1) as nat)
    }
}

pub proof fn lemma_pow256_pos(n: nat)
    ensures
        pow256(n) >= 1,
    decreases n,
{
    if n > 0 {
        lemma_pow256_pos((n - 1) as nat);
    }
}

pub proof fn lemma_pow256_values()
    ensures
        pow256(2) == 0x1_0000,
        pow256(3) == 0x100_0000,
        pow256(4) == 0x1_0000_0000,
        pow256(5) == 0x100_0000_0000,
        pow256(8) == 0x1_0000_0000_0000_0000,
{
    reveal_with_fuel(pow256, 9);
}

pub proof fn lemma_le_bytes_len(v: nat, n: nat)
    ensures
        le_bytes(v, n).len() == n,
    decreases n,
{
    if n > 0 {
        lemma_le_bytes_len(v / 256, (n - 1) as nat);
    }
}

/// Decoding the encoding of `v` gives `v` modulo 256^n.
pub proof fn lemma_le_value_of_bytes(v: nat, n: nat)
    ensures
        le_value(le_bytes(v, n)) == v % pow256(n),
    decreases n,
{
    lemma_le_bytes_len(v, n);
    if n == 0 {
        assert(v % 1 == 0) by (nonlinear_arith);
    } else {
        let rest = le_bytes(v / 256, (n - 1) as nat);
        lemma_le_value_of_bytes(v / 256, (n - 1) as nat);
        let s = le_bytes(v, n);
        assert(s.drop_first() =~= rest);
        lemma_pow256_pos((n - 1) as nat);
        lemma_mod_breakdown(v as int, 256, pow256((n - 1) as nat) as int);
    }
}

/// A little-endian value is below 256^len.
pub proof fn lemma_le_value_bound(s: Seq<u8>)
    ensures
        le_value(s) < pow256(s.len()),
    decreases s.len(),
{
    if s.len() > 0 {
        lemma_le_value_bound(s.drop_first());
    }
}

/// Encoding the value of a byte sequence gives back the sequence.
pub proof fn lemma_bytes_of_le_value(s: Seq<u8>)
    ensures
        le_bytes(le_value(s), s.len()) == s,
    decreases s.len(),
{
    if s.len() > 0 {
        let r = le_value(s.drop_first());
        lemma_bytes_of_le_value(s.drop_first());
        let v = le_value(s);
        assert(v == s[0] as nat + 256 * r);
        assert(v % 256 == s[0] as nat) by (nonlinear_arith)
            requires
                v == s[0] as nat + 256 * r,
                s[0] < 256,
        ;
        assert(v / 256 == r) by (nonlinear_arith)
            requires
                v == s[0] as nat + 256 * r,
                s[0] < 256,
        ;
        assert(le_bytes(v, s.len()) =~= s);
    }
}

/// The value of a concatenation: the low part plus the high part shifted.
pub proof fn lemma_le_value_append(a: Seq<u8>, b: Seq<u8>)
    ensures
        le_value(a + b) == le_value(a) + pow256(a.len()) * le_value(b),
    decreases a.len(),
{
    if a.len() == 0 {
        assert(a + b =~= b);
    } else {
        lemma_le_value_append(a.drop_first(), b);
        assert((a + b).drop_first() =~= a.drop_first() + b);
        assert((a + b)[0] == a[0]);
        assert(pow256(a.len()) == 256 * pow256((a.len() - 1) as nat));
        let p = pow256((a.len() - 1) as nat);
        assert(256 * (le_value(a.drop_first()) + p * le_value(b)) == 256 * le_value(a.drop_first())
            + (256 * p) * le_value(b)) by (nonlinear_arith);
    }
}

/// Appends the `n` low little-endian bytes of `v` to `buf`.
pub fn push_le(buf: &mut Vec<u8>, v: u64, n: usize)
    ensures
        final(buf)@ == old(buf)@ + le_bytes(v as nat, n as nat),
    decreases n,
{
    if n > 0 {
        let ghost before = buf@;
        buf.push((v % 256) as u8);
        push_le(buf, v / 256, n - 1);
        assert(final(buf)@ =~= before + le_bytes(v as nat, n as nat));
    } else {
        assert(buf@ =~= old(buf)@ + le_bytes(v as nat, n as nat));
    }
}

/// Reads the unsigned little-endian value of `n <= 8` bytes starting at `start`.
pub fn read_le(buf: &[u8], start: usize, n: usize) -> (r: u64)
    requires
        start + n <= buf@.len(),
        n <= 8,
    ensures
        r as nat == le_value(buf@.subrange(start as int, start + n)),
    decreases n,
{
    let len = buf.len();
    if n == 0 {
        0
    } else {
        assert(start < len);
        let rest = read_le(buf, start + 1, n - 1);
        let ghost s = buf@.subrange(start as int, start + n);
        proof {
            assert(s.drop_first() =~= buf@.subrange(start + 1, start + n));
            lemma_le_value_bound(s.drop_first());
            lemma_pow256_values();
            lemma_pow256_mono((n - 1) as nat, 7);
        }
        buf[start] as u64 + 256 * rest
    }
}

pub proof fn lemma_pow256_mono(a: nat, b: nat)
    requires
        a <= b,
    ensures
        pow256(a) <= pow256(b),
    decreases b,
{
    if a < b {
        lemma_pow256_mono(a, (b - 1) as nat);
    }
}

/// Overwrites `n` bytes of `buf` at `pos` with the little-endian bytes of `v`.
pub fn write_le_at(buf: &mut [u8], pos: usize, v: u64, n: usize)
    requires
        pos + n <= old(buf)@.len(),
    ensures
        final(buf)@.len() == old(buf)@.len(),
        final(buf)@ == old(buf)@.subrange(0, pos as int) + le_bytes(v as nat, n as nat)
            + old(buf)@.subrange(pos + n, old(buf)@.len() as int),
    decreases n,
{
    if n > 0 {
        let ghost before = buf@;
        buf[pos] = (v % 256) as u8;
        write_le_at(buf, pos + 1, v / 256, n - 1);
        proof {
            lemma_le_bytes_len(v as nat, n as nat);
            assert(final(buf)@ =~= before.subrange(0, pos as int) + le_bytes(v as nat, n as nat)
                + before.subrange(pos + n, before.len() as int));
        }
    } else {
        assert(buf@ =~= old(buf)@.subrange(0, pos as int) + le_bytes(v as nat, n as nat)
            + old(buf)@.subrange(pos + n, old(buf)@.len() as int));
    }
}

} // verus!
