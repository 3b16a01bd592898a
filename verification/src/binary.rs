//! Powers of two and bit lengths.

use vstd::arithmetic::div_mod::*;
use vstd::arithmetic::mul::*;
use vstd::arithmetic::power2::*;
use vstd::prelude::*;

verus! {

/// How many binary digits `n` has; zero has none.
pub open spec fn bit_length(n: nat) -> nat
    decreases n,
{
    if n == 0 {
        0
    } else {
        1 + bit_length(n / 2)
    }
}

/// A positive number lies between the power of two below its bit length and
/// the one at its bit length.
pub proof fn lemma_bit_length_bounds(n: nat)
    ensures
        n < pow2(bit_length(n)),
        n > 0 ==> bit_length(n) > 0 && pow2((bit_length(n) - 1) as nat) <= n,
    decreases n,
{
    lemma_pow2_pos(0);
    lemma2_to64();
    if n > 0 {
        lemma_bit_length_bounds(n / 2);
        lemma_pow2_unfold(bit_length(n));
        if n / 2 > 0 {
            lemma_pow2_unfold((bit_length(n) - 1) as nat);
        }
    }
}

/// Those bounds determine the bit length.
pub proof fn lemma_bit_length_unique(n: nat, k: nat)
    requires
        k > 0,
        pow2((k - 1) as nat) <= n < pow2(k),
    ensures
        bit_length(n) == k,
{
    lemma_bit_length_bounds(n);
    let b = bit_length(n);
    lemma_pow2_pos((k - 1) as nat);
    if b < k {
        if b < k - 1 {
            lemma_pow2_strictly_increases(b, (k - 1) as nat);
        }
    } else if b > k {
        if k < b - 1 {
            lemma_pow2_strictly_increases(k, (b - 1) as nat);
        }
    }
}

/// Scaling by a power of two adds to the bit length.
pub proof fn lemma_bit_length_scaled(n: nat, k: nat)
    requires
        n > 0,
    ensures
        bit_length(n * pow2(k)) == bit_length(n) + k,
{
    lemma_bit_length_bounds(n);
    let b = bit_length(n);
    let s = pow2(k);
    lemma_pow2_pos(k);
    lemma_pow2_adds((b - 1) as nat, k);
    lemma_pow2_adds(b, k);
    assert(pow2((b - 1) as nat) * s <= n * s) by (nonlinear_arith)
        requires
            pow2((b - 1) as nat) <= n,
            s > 0,
    ;
    assert(n * s < pow2(b) * s) by (nonlinear_arith)
        requires
            n < pow2(b),
            s > 0,
    ;
    assert((b - 1) as nat + k == (b + k - 1) as nat);
    lemma_bit_length_unique(n * s, b + k);
}

/// Dropping low bits takes them off the bit length.
pub proof fn lemma_bit_length_dropped(n: nat, k: nat)
    ensures
        bit_length(n / pow2(k)) == if bit_length(n) > k {
            (bit_length(n) - k) as nat
        } else {
            0
        },
{
    lemma_pow2_pos(k);
    lemma_bit_length_bounds(n);
    let b = bit_length(n);
    let s = pow2(k) as int;
    let q = n as int / s;
    lemma_fundamental_div_mod(n as int, s);
    lemma_div_pos_is_pos(n as int, s);
    if b > k {
        let c = (b - k) as nat;
        lemma_pow2_adds(c, k);
        lemma_pow2_adds((c - 1) as nat, k);
        assert((c - 1) as nat + k == (b - 1) as nat);
        assert(c + k == b);
        let hi = pow2(c) as int;
        let lo = pow2((c - 1) as nat) as int;
        assert(q < hi) by (nonlinear_arith)
            requires
                n as int == s * q + n as int % s,
                n as int % s >= 0,
                n < hi * s,
                s > 0,
        ;
        assert(lo <= q) by (nonlinear_arith)
            requires
                n as int == s * q + n as int % s,
                n as int % s < s,
                lo * s <= n,
                s > 0,
        ;
        lemma_bit_length_unique(n / pow2(k), c);
    } else {
        if b < k {
            lemma_pow2_strictly_increases(b, k);
        }
        lemma_basic_div(n as int, s);
    }
}

/// The `k`th power of two.
pub fn two_to(k: u32) -> (r: u128)
    requires
        k < 128,
    ensures
        r == pow2(k as nat),
{
    let r = 1u128 << k;
    proof {
        let k128 = k as u128;
        assert(r == 1u128 << k128);
        assert((1u128 << k128) >> k128 == 1 && (1u128 << k128) >= 1 && (((1u128 << k128) - 1) as u128) >> k128 == 0)
            by (bit_vector)
            requires
                k128 < 128,
        ;
        vstd::bits::lemma_u128_shr_is_div(r, k128);
        vstd::bits::lemma_u128_shr_is_div((r - 1) as u128, k128);
        lemma_pow2_pos(k as nat);
        let p = pow2(k as nat) as int;
        lemma_fundamental_div_mod(r as int, p);
        lemma_fundamental_div_mod(r - 1, p);
        assert(p * 1 == p);
        assert(p * 0 == 0);
    }
    r
}

/// How many binary digits `m` has.
pub fn length_of(m: u128) -> (r: u32)
    ensures
        r == bit_length(m as nat),
        r <= 128,
{
    let mut rest = m;
    let mut count: u32 = 0;
    let mut half: u32 = 64;
    proof {
        lemma2_to64();
        lemma2_to64_rest();
        lemma_pow2_adds(64, 64);
    }
    while half > 0
        invariant
            half <= 64,
            half == 0 || half == 1 || half == 2 || half == 4 || half == 8 || half == 16 || half == 32
                || half == 64,
            half > 0 ==> count + 2 * half <= 128,
            half == 0 ==> count <= 127,
            half > 0 ==> rest < pow2((2 * half) as nat),
            half == 0 ==> rest < 2,
            bit_length(m as nat) == count + bit_length(rest as nat),
            rest == 0 ==> m == 0 && count == 0,
        decreases half,
    {
        let scale = two_to(half);
        proof {
            lemma2_to64();
            lemma_pow2_adds(half as nat, half as nat);
            lemma_pow2_pos(half as nat);
        }
        if rest >= scale {
            proof {
                lemma_bit_length_dropped(rest as nat, half as nat);
                lemma_bit_length_bounds(rest as nat);
                if bit_length(rest as nat) <= half {
                    if bit_length(rest as nat) < half {
                        lemma_pow2_strictly_increases(bit_length(rest as nat), half as nat);
                    }
                }
                lemma_fundamental_div_mod(rest as int, scale as int);
                let q = rest as int / scale as int;
                assert(q < scale) by (nonlinear_arith)
                    requires
                        rest as int == scale * q + rest as int % scale as int,
                        rest as int % scale as int >= 0,
                        rest < scale * scale,
                        scale > 0,
                ;
                assert(q > 0) by (nonlinear_arith)
                    requires
                        rest as int == scale * q + rest as int % scale as int,
                        (rest as int % scale as int) < scale,
                        rest >= scale,
                        scale > 0,
                ;
            }
            rest = rest / scale;
            count = count + half;
        }
        half = half / 2;
    }
    proof {
        reveal_with_fuel(bit_length, 3);
        assert(bit_length(0) == 0);
        assert(bit_length(1) == 1);
    }
    count + rest as u32
}

} // verus!
