//! Fixed-width integers as bytes: little-endian for the wire's counters and
//! lengths, big-endian for event identifiers.
use vstd::prelude::*;

verus! {

pub open spec fn pow256(n: nat) -> nat
    decreases n,
{
    if n == 0 {
        1
    } else {
        256 * pow256((n - 1) as nat)
    }
}

/// The low `n` bytes of `x`, least significant first.
pub open spec fn le_bytes(x: nat, n: nat) -> Seq<u8>
    decreases n,
{
    if n == 0 {
        Seq::empty()
    } else {
        seq![(x % 256) as u8] + le_bytes(x / 256, (n - 1) as nat)
    }
}

/// The number that `s` spells, least significant byte first.
pub open spec fn le_value(s: Seq<u8>) -> nat
    decreases s.len(),
{
    if s.len() == 0 {
        0
    } else {
        s[0] as nat + 256 * le_value(s.subrange(1, s.len() as int))
    }
}

/// The low `n` bytes of `x`, most significant first.
pub open spec fn be_bytes(x: nat, n: nat) -> Seq<u8>
    decreases n,
{
    if n == 0 {
        Seq::empty()
    } else {
        be_bytes(x / 256, (n - 1) as nat).push((x % 256) as u8)
    }
}

/// The number that `s` spells, most significant byte first.
pub open spec fn be_value(s: Seq<u8>) -> nat
    decreases s.len(),
{
    if s.len() == 0 {
        0
    } else {
        be_value(s.drop_last()) * 256 + s.last() as nat
    }
}

pub proof fn lemma_pow256_values()
    ensures
        pow256(0) == 1,
        pow256(1) == 256,
        pow256(2) == 0x1_0000,
        pow256(4) == 0x1_0000_0000,
        pow256(8) == 0x1_0000_0000_0000_0000,
        pow256(16) == 0x1_0000_0000_0000_0000_0000_0000_0000_0000,
{
    reveal_with_fuel(pow256, 17);
}

pub proof fn lemma_pow256_mono(m: nat, n: nat)
    requires
        m <= n,
    ensures
        pow256(m) <= pow256(n),
    decreases n,
{
    if m < n {
        lemma_pow256_mono(m, (n - 1) as nat);
    }
}

proof fn lemma_div_below(x: nat, p: nat)
    requires
        x < 256 * p,
    ensures
        x / 256 < p,
        x == 256 * (x / 256) + x % 256,
{
    assert(x / 256 < p) by (nonlinear_arith)
        requires
            x < 256 * p,
    ;
}

proof fn lemma_split_byte(b: nat, r: nat)
    requires
        b < 256,
    ensures
        (b + 256 * r) % 256 == b,
        (b + 256 * r) / 256 == r,
        (256 * r + b) % 256 == b,
        (256 * r + b) / 256 == r,
{
    assert((b + 256 * r) % 256 == b && (b + 256 * r) / 256 == r) by (nonlinear_arith)
        requires
            b < 256,
    ;
}

pub proof fn lemma_le_len(x: nat, n: nat)
    ensures
        le_bytes(x, n).len() == n,
    decreases n,
{
    if n > 0 {
        lemma_le_len(x / 256, (n - 1) as nat);
    }
}

pub proof fn lemma_be_len(x: nat, n: nat)
    ensures
        be_bytes(x, n).len() == n,
    decreases n,
{
    if n > 0 {
        lemma_be_len(x / 256, (n - 1) as nat);
    }
}

pub proof fn lemma_le_value_bound(s: Seq<u8>)
    ensures
        le_value(s) < pow256(s.len()),
    decreases s.len(),
{
    if s.len() > 0 {
        let t = s.subrange(1, s.len() as int);
        lemma_le_value_bound(t);
        let r = le_value(t);
        let p = pow256(t.len());
        assert(s[0] as nat + 256 * r < 256 * p) by (nonlinear_arith)
            requires
                r < p,
                s[0] < 256,
        ;
    }
}

pub proof fn lemma_be_value_bound(s: Seq<u8>)
    ensures
        be_value(s) < pow256(s.len()),
    decreases s.len(),
{
    if s.len() > 0 {
        let t = s.drop_last();
        lemma_be_value_bound(t);
        let r = be_value(t);
        let p = pow256(t.len());
        assert(r * 256 + s.last() < 256 * p) by (nonlinear_arith)
            requires
                r < p,
                s.last() < 256,
        ;
    }
}

/// Reading back the bytes of a number that fits gives the number.
pub proof fn lemma_le_round_trip(x: nat, n: nat)
    requires
        x < pow256(n),
    ensures
        le_value(le_bytes(x, n)) == x,
        le_bytes(x, n).len() == n,
    decreases n,
{
    lemma_le_len(x, n);
    if n > 0 {
        let m = (n - 1) as nat;
        lemma_div_below(x, pow256(m));
        lemma_le_round_trip(x / 256, m);
        let s = le_bytes(x, n);
        assert(s.subrange(1, s.len() as int) =~= le_bytes(x / 256, m));
    }
}

pub proof fn lemma_be_round_trip(x: nat, n: nat)
    requires
        x < pow256(n),
    ensures
        be_value(be_bytes(x, n)) == x,
        be_bytes(x, n).len() == n,
    decreases n,
{
    lemma_be_len(x, n);
    if n > 0 {
        let m = (n - 1) as nat;
        lemma_div_below(x, pow256(m));
        lemma_be_round_trip(x / 256, m);
        let s = be_bytes(x, n);
        assert(s.drop_last() =~= be_bytes(x / 256, m));
    }
}

/// Spelling out the number that a byte string reads as gives the string back.
pub proof fn lemma_be_canonical(s: Seq<u8>)
    ensures
        be_bytes(be_value(s), s.len()) == s,
    decreases s.len(),
{
    if s.len() > 0 {
        let t = s.drop_last();
        lemma_be_canonical(t);
        lemma_split_byte(s.last() as nat, be_value(t));
        assert(be_value(s) == 256 * be_value(t) + s.last() as nat);
        assert(be_bytes(be_value(s), s.len()) =~= s);
    }
}

/// Appends the low `n` bytes of `x`, least significant first.
pub fn push_le(out: &mut Vec<u8>, x: u64, n: usize)
    requires
        n <= 8,
    ensures
        final(out)@ == old(out)@ + le_bytes(x as nat, n as nat),
    decreases n,
{
    if n == 0 {
        assert(old(out)@ + le_bytes(x as nat, 0) =~= old(out)@);
        return ;
    }
    out.push((x % 256) as u8);
    push_le(out, x / 256, n - 1);
    assert(final(out)@ =~= old(out)@ + le_bytes(x as nat, n as nat));
}

/// Appends the low `n` bytes of `x`, most significant first.
pub fn push_be(out: &mut Vec<u8>, x: u128, n: usize)
    requires
        n <= 16,
    ensures
        final(out)@ == old(out)@ + be_bytes(x as nat, n as nat),
    decreases n,
{
    if n == 0 {
        assert(old(out)@ + be_bytes(x as nat, 0) =~= old(out)@);
        return ;
    }
    push_be(out, x / 256, n - 1);
    out.push((x % 256) as u8);
    assert(final(out)@ =~= old(out)@ + be_bytes(x as nat, n as nat));
}

/// Reads `n` bytes at `pos` as a little-endian number.
pub fn read_le(b: &[u8], pos: usize, n: usize) -> (r: u64)
    requires
        n <= 8,
        pos + n <= b@.len(),
    ensures
        r as nat == le_value(b@.subrange(pos as int, pos + n)),
    decreases n,
{
    if n == 0 {
        return 0;
    }
    // A slice's length is a usize, so `pos + 1` below cannot overflow.
    let _len = b.len();
    let rest = read_le(b, pos + 1, n - 1);
    let ghost s = b@.subrange(pos as int, pos + n);
    assert(s.subrange(1, s.len() as int) =~= b@.subrange(pos + 1, pos + n));
    proof {
        lemma_le_value_bound(b@.subrange(pos + 1, pos + n));
        lemma_pow256_mono((n - 1) as nat, 7);
        lemma_pow256_values();
        reveal_with_fuel(pow256, 8);
    }
    b[pos] as u64 + 256 * rest
}

/// Reads `n` bytes at `pos` as a big-endian number.
pub fn read_be(b: &[u8], pos: usize, n: usize) -> (r: u128)
    requires
        n <= 16,
        pos + n <= b@.len(),
    ensures
        r as nat == be_value(b@.subrange(pos as int, pos + n)),
    decreases n,
{
    if n == 0 {
        return 0;
    }
    // A slice's length is a usize, so `pos + n - 1` below cannot overflow.
    let _len = b.len();
    let hi = read_be(b, pos, n - 1);
    let ghost s = b@.subrange(pos as int, pos + n);
    assert(s.drop_last() =~= b@.subrange(pos as int, pos + n - 1));
    proof {
        lemma_be_value_bound(b@.subrange(pos as int, pos + n - 1));
        lemma_pow256_mono((n - 1) as nat, 15);
        lemma_pow256_values();
        reveal_with_fuel(pow256, 16);
    }
    hi * 256 + b[pos + n - 1] as u128
}

} // verus!
