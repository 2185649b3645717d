//! Little-endian integers: how they are laid out and how they are read back.

use vstd::prelude::*;

verus! {

/// The `n` low bytes of `x`, least significant first.
pub open spec fn le(x: nat, n: nat) -> Seq<u8>
    decreases n,
{
    if n == 0 {
        Seq::empty()
    } else {
        seq![(x % 256) as u8] + le(x / 256, (n - 1) as nat)
    }
}

/// The number that a little-endian byte string stands for.
pub open spec fn le_value(s: Seq<u8>) -> nat
    decreases s.len(),
{
    if s.len() == 0 {
        0
    } else {
        s[0] as nat + 256 * le_value(s.drop_first())
    }
}

/// How many numbers fit in `n` bytes.
pub open spec fn le_range(n: nat) -> nat
    decreases n,
{
    if n == 0 {
        1
    } else {
        256 * le_range((n - 1) as nat)
    }
}

/// The `n`-byte number at position `at` of `s`.
pub open spec fn le_at(s: Seq<u8>, at: int, n: nat) -> nat {
    le_value(s.subrange(at, at + n))
}

pub broadcast proof fn lemma_le_len(x: nat, n: nat)
    ensures
        (#[trigger] le(x, n)).len() == n,
    decreases n,
{
    if n > 0 {
        lemma_le_len(x / 256, (n - 1) as nat);
    }
}

/// Reading a number back from its little-endian bytes gives the number, as
/// long as it fits in that many bytes.
pub proof fn law_le_round_trip(x: nat, n: nat)
    requires
        x < le_range(n),
    ensures
        le_value(le(x, n)) == x,
    decreases n,
{
    if n > 0 {
        law_le_round_trip(x / 256, (n - 1) as nat);
        let s = le(x, n);
        lemma_le_len(x / 256, (n - 1) as nat);
        assert(s.drop_first() =~= le(x / 256, (n - 1) as nat));
        assert(s[0] == (x % 256) as u8);
    }
}

pub proof fn lemma_le_range()
    ensures
        le_range(1) == 0x100,
        le_range(2) == 0x1_0000,
        le_range(4) == 0x1_0000_0000,
        le_range(8) == 0x1_0000_0000_0000_0000,
{
    reveal_with_fuel(le_range, 9);
}

/// A field that was laid out at `at` is read back from there.
pub proof fn lemma_le_at(s: Seq<u8>, at: int, x: nat, n: nat)
    requires
        x < le_range(n),
        0 <= at,
        at + n <= s.len(),
        s.subrange(at, at + n) == le(x, n),
    ensures
        le_at(s, at, n) == x,
{
    law_le_round_trip(x, n);
}

/// Appends `x` as two bytes, little-endian.
pub fn push_u16(out: &mut Vec<u8>, x: u16)
    ensures
        final(out)@ == old(out)@ + le(x as nat, 2),
{
    out.push((x % 256) as u8);
    out.push((x / 256) as u8);
    proof {
        reveal_with_fuel(le, 3);
        assert((x / 256) % 256 == x / 256);
        assert(out@ =~= old(out)@ + le(x as nat, 2));
    }
}

/// Appends `x` as four bytes, little-endian.
pub fn push_u32(out: &mut Vec<u8>, x: u32)
    ensures
        final(out)@ == old(out)@ + le(x as nat, 4),
{
    out.push((x % 256) as u8);
    out.push((x / 256 % 256) as u8);
    out.push((x / 256 / 256 % 256) as u8);
    out.push((x / 256 / 256 / 256) as u8);
    proof {
        reveal_with_fuel(le, 5);
        assert(out@ =~= old(out)@ + le(x as nat, 4));
    }
}

/// Appends `x` as eight bytes, little-endian.
pub fn push_u64(out: &mut Vec<u8>, x: u64)
    ensures
        final(out)@ == old(out)@ + le(x as nat, 8),
{
    let mut rest: u64 = x;
    let mut left: u64 = 8;
    while left > 0
        invariant
            left <= 8,
            out@ + le(rest as nat, left as nat) =~= old(out)@ + le(x as nat, 8),
        decreases left,
    {
        out.push((rest % 256) as u8);
        rest = rest / 256;
        left = left - 1;
    }
}

/// The little-endian `u32` at `at`.
pub fn read_u32(s: &[u8], at: usize) -> (x: u32)
    requires
        at + 4 <= s@.len(),
    ensures
        x as nat == le_at(s@, at as int, 4),
{
    let b0: u32 = s[at] as u32;
    let b1: u32 = s[at + 1] as u32;
    let b2: u32 = s[at + 2] as u32;
    let b3: u32 = s[at + 3] as u32;
    proof {
        reveal_with_fuel(le_value, 5);
        let w = s@.subrange(at as int, at + 4);
        assert(w.drop_first()[0] == b1);
        assert(w.drop_first().drop_first()[0] == b2);
        assert(w.drop_first().drop_first().drop_first()[0] == b3);
    }
    b0 + 256 * (b1 + 256 * (b2 + 256 * b3))
}

/// The little-endian `u64` at `at`.
pub fn read_u64(s: &[u8], at: usize) -> (x: u64)
    requires
        at + 8 <= s@.len(),
    ensures
        x as nat == le_at(s@, at as int, 8),
{
    let end: usize = s.len();
    assert(at + 8 <= end);
    let low: u64 = read_u32(s, at) as u64;
    let high: u64 = read_u32(s, at + 4) as u64;
    proof {
        reveal_with_fuel(le_value, 9);
        let w = s@.subrange(at as int, at + 8);
        let l = s@.subrange(at as int, at + 4);
        let h = s@.subrange(at + 4, at + 8);
        assert(w.drop_first().drop_first().drop_first().drop_first() =~= h);
        assert(l[0] == w[0] && l[1] == w[1] && l[2] == w[2] && l[3] == w[3]);
    }
    low + 0x1_0000_0000 * high
}

/// Byte `i` of a little-endian number is its digit `i` to the base of 256.
pub proof fn law_le_digits(x: nat, n: nat, i: nat)
    requires
        i < n,
    ensures
        le(x, n).len() == n,
        le(x, n)[i as int] as int == x as int / vstd::arithmetic::power::pow(256, i) % 256,
    decreases n,
{
    lemma_le_len(x, n);
    vstd::arithmetic::power::lemma_pow0(256);
    if i > 0 {
        law_le_digits(x / 256, (n - 1) as nat, (i - 1) as nat);
        lemma_le_len(x / 256, (n - 1) as nat);
        assert(le(x, n)[i as int] == le(x / 256, (n - 1) as nat)[i - 1]);
        let q = vstd::arithmetic::power::pow(256, (i - 1) as nat);
        vstd::arithmetic::power::lemma_pow1(256);
        vstd::arithmetic::power::lemma_pow_adds(256, 1, (i - 1) as nat);
        vstd::arithmetic::power::lemma_pow_positive(256, (i - 1) as nat);
        vstd::arithmetic::div_mod::lemma_div_denominator(x as int, 256, q);
    }
}

/// The number at some place is that of two, four or eight bytes, the least
/// significant one first.
pub proof fn law_le_at_bytes(s: Seq<u8>, at: int)
    requires
        0 <= at,
    ensures
        at + 2 <= s.len() ==> le_at(s, at, 2) == s[at] + 256 * s[at + 1],
        at + 4 <= s.len() ==> le_at(s, at, 4) == s[at] + 256 * (s[at + 1] + 256 * (s[at + 2] + 256
            * s[at + 3])),
        at + 8 <= s.len() ==> le_at(s, at, 8) == le_at(s, at, 4) + 0x1_0000_0000 * le_at(
            s,
            at + 4,
            4,
        ),
{
    reveal_with_fuel(le_value, 9);
    if at + 2 <= s.len() {
        let w = s.subrange(at, at + 2);
        assert(w.drop_first()[0] == s[at + 1]);
    }
    if at + 4 <= s.len() {
        let w = s.subrange(at, at + 4);
        assert(w.drop_first()[0] == s[at + 1]);
        assert(w.drop_first().drop_first()[0] == s[at + 2]);
        assert(w.drop_first().drop_first().drop_first()[0] == s[at + 3]);
    }
    if at + 8 <= s.len() {
        let w = s.subrange(at, at + 8);
        let l = s.subrange(at, at + 4);
        let h = s.subrange(at + 4, at + 8);
        assert(w.drop_first().drop_first().drop_first().drop_first() =~= h);
        assert(l[0] == w[0] && l[1] == w[1] && l[2] == w[2] && l[3] == w[3]);
    }
}

} // verus!
