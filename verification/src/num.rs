//! Integers in fewer bits, and integers in bytes.

use vstd::prelude::*;

verus! {

/// The values of 32 bits.
pub open spec fn two32() -> int {
    0x1_0000_0000
}

/// The low 32 bits of `x`.
pub fn low_u32(x: u64) -> (low: u32)
    ensures
        low == x as int % two32(),
        low == x as int % 0x1_0000_0000,
        x <= u32::MAX ==> low == x,
{
    assert(x as u32 == x % 0x1_0000_0000u64) by (bit_vector);
    #[verifier::truncate]
    (x as u32)
}

/// The low 32 bits of `x`, which may be negative.
pub fn low_u32_of_signed(x: i64) -> (low: u32)
    ensures
        low == x as int % two32(),
        low == x as int % 0x1_0000_0000,
{
    let wrapped: i64 = if x >= 0 {
        x % 0x1_0000_0000
    } else {
        let up: i64 = (-(x + 1)) % 0x1_0000_0000;
        0xffff_ffff - up
    };
    wrapped as u32
}

/// A number, but at least one.
pub open spec fn at_least_one(n: u32) -> u32 {
    if n == 0 {
        1
    } else {
        n
    }
}

/// A number, but at least one.
pub fn floor_to_one(n: u32) -> (floored: u32)
    ensures
        floored == at_least_one(n),
{
    if n == 0 {
        1
    } else {
        n
    }
}

/// The number that bytes stand for, the least significant byte first.
pub open spec fn le_value(bytes: Seq<u8>) -> nat
    decreases bytes.len(),
{
    if bytes.len() == 0 {
        0
    } else {
        bytes[0] as nat + 256 * le_value(bytes.drop_first())
    }
}

/// The `n` least significant bytes of a number, the least significant byte first.
pub open spec fn le_bytes(x: nat, n: nat) -> Seq<u8>
    decreases n,
{
    if n == 0 {
        Seq::empty()
    } else {
        seq![(x % 256) as u8] + le_bytes(x / 256, (n - 1) as nat)
    }
}

/// `256` to the power of `n`.
pub open spec fn pow256(n: nat) -> nat
    decreases n,
{
    if n == 0 {
        1
    } else {
        256 * pow256((n - 1) as nat)
    }
}

/// Bytes stand for a number that as many bytes can hold.
pub proof fn lemma_le_value_bound(bytes: Seq<u8>)
    ensures
        le_value(bytes) < pow256(bytes.len()),
    decreases bytes.len(),
{
    if bytes.len() > 0 {
        lemma_le_value_bound(bytes.drop_first());
    }
}

/// Bytes read back as the number that was written, if they are enough to hold it.
pub proof fn lemma_le_round_trip(x: nat, n: nat)
    requires
        x < pow256(n),
    ensures
        le_bytes(x, n).len() == n,
        le_value(le_bytes(x, n)) == x,
    decreases n,
{
    if n > 0 {
        lemma_le_round_trip(x / 256, (n - 1) as nat);
        assert(le_bytes(x, n).drop_first() =~= le_bytes(x / 256, (n - 1) as nat));
    }
}

/// So many bytes are asked for, so many come.
pub proof fn lemma_le_len(x: nat, n: nat)
    ensures
        le_bytes(x, n).len() == n,
    decreases n,
{
    if n > 0 {
        lemma_le_len(x / 256, (n - 1) as nat);
    }
}

/// The `n` least significant bytes of a number, the least significant byte first.
pub fn to_le_bytes(x: u128, n: usize) -> (bytes: Vec<u8>)
    ensures
        bytes@ == le_bytes(x as nat, n as nat),
{
    let mut bytes: Vec<u8> = Vec::new();
    let mut rest: u128 = x;
    let mut left: usize = n;
    while left > 0
        invariant
            left <= n,
            le_bytes(x as nat, n as nat) == bytes@ + le_bytes(rest as nat, left as nat),
        decreases left,
    {
        let ghost done = bytes@;
        let byte: u8 = (rest % 256) as u8;
        bytes.push(byte);
        proof {
            assert(bytes@ + le_bytes((rest / 256) as nat, (left - 1) as nat) =~= done + le_bytes(
                rest as nat,
                left as nat,
            ));
        }
        rest = rest / 256;
        left = left - 1;
    }
    assert(bytes@ + le_bytes(rest as nat, 0) =~= bytes@);
    bytes
}

proof fn lemma_pow256_15()
    ensures
        pow256(15) == 0x100_0000_0000_0000_0000_0000_0000_0000,
        pow256(16) == 0x1_0000_0000_0000_0000_0000_0000_0000_0000,
{
    reveal_with_fuel(pow256, 17);
}

proof fn lemma_pow256_monotone(a: nat, b: nat)
    requires
        a <= b,
    ensures
        pow256(a) <= pow256(b),
    decreases b,
{
    if a < b {
        lemma_pow256_monotone(a, (b - 1) as nat);
    }
}

/// Every number of 128 bits fits in 16 bytes.
pub proof fn lemma_u128_fits(x: u128)
    ensures
        (x as nat) < pow256(16),
{
    lemma_pow256_15();
}

/// The number that at most 16 bytes stand for, the least significant byte first.
pub fn from_le_bytes(bytes: &[u8]) -> (x: u128)
    requires
        bytes@.len() <= 16,
    ensures
        x == le_value(bytes@),
{
    let mut x: u128 = 0;
    let mut i: usize = bytes.len();
    while i > 0
        invariant
            i <= bytes@.len() <= 16,
            x == le_value(bytes@.skip(i as int)),
        decreases i,
    {
        proof {
            let rest = bytes@.skip(i as int);
            lemma_le_value_bound(rest);
            lemma_pow256_monotone(rest.len(), 15);
            lemma_pow256_15();
            assert(bytes@.skip(i - 1).drop_first() =~= rest);
        }
        i = i - 1;
        x = bytes[i] as u128 + 256 * x;
    }
    assert(bytes@.skip(0) =~= bytes@);
    x
}

/// A number that is raised to at least one is at least one, and is the number itself but for zero.
pub proof fn lemma_at_least_one(n: u32)
    ensures
        at_least_one(n) >= 1,
        n >= 1 ==> at_least_one(n) == n,
        n == 0 ==> at_least_one(n) == 1,
        two32() == 4294967296,
{
}

/// The byte numbered `i` of a number holds the digit of that place to the base of 256.
pub proof fn lemma_le_byte(x: nat, n: nat, i: int)
    requires
        0 <= i < n,
    ensures
        le_bytes(x, n).len() == n,
        le_bytes(x, n)[i] == (x as int / vstd::arithmetic::power::pow(256, i as nat)) % 256,
    decreases i,
{
    lemma_le_len(x, n);
    lemma_le_len(x / 256, (n - 1) as nat);
    if i == 0 {
        vstd::arithmetic::power::lemma_pow0(256);
    } else {
        let p = vstd::arithmetic::power::pow(256, (i - 1) as nat);
        lemma_le_byte(x / 256, (n - 1) as nat, i - 1);
        vstd::arithmetic::power::lemma_pow_positive(256, (i - 1) as nat);
        vstd::arithmetic::div_mod::lemma_div_denominator(x as int, 256, p);
        reveal(vstd::arithmetic::power::pow);
        assert(vstd::arithmetic::power::pow(256, i as nat) == 256 * p);
    }
}

/// Each byte adds its value times the power of 256 that is its place.
pub proof fn lemma_le_value_push(bytes: Seq<u8>, byte: u8)
    ensures
        le_value(Seq::empty()) == 0,
        le_value(bytes.push(byte)) == le_value(bytes) + byte * vstd::arithmetic::power::pow(
            256,
            bytes.len(),
        ),
    decreases bytes.len(),
{
    assert(le_value(Seq::empty()) == 0);
    if bytes.len() == 0 {
        vstd::arithmetic::power::lemma_pow0(256);
        assert(bytes.push(byte).drop_first() =~= Seq::empty());
        assert(bytes =~= Seq::empty());
    } else {
        let rest = bytes.drop_first();
        let p = vstd::arithmetic::power::pow(256, rest.len());
        lemma_le_value_push(rest, byte);
        assert(bytes.push(byte).drop_first() =~= rest.push(byte));
        reveal(vstd::arithmetic::power::pow);
        assert(vstd::arithmetic::power::pow(256, bytes.len()) == 256 * p);
        assert(256 * (byte * p) == byte * (256 * p)) by (nonlinear_arith);
    }
}

} // verus!
