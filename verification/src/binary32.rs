//! IEEE 754 single-precision rounding of quotients of naturals, on
//! integers: the value nearest to `a / b`, ties going to the even
//! significand, and its bit pattern.
//!
//! A normal single-precision value is `m * 2^t` with a 24-bit significand
//! `2^23 <= m < 2^24`. Exponents are carried with a bias of 160, as
//! `e = t + 160`, so that every exponent met here is a natural number.
use vstd::prelude::*;
use vstd::arithmetic::power2::{pow2, lemma_pow2_pos, lemma_pow2_adds, lemma_pow2_strictly_increases, lemma2_to64};
use vstd::arithmetic::div_mod::{lemma_fundamental_div_mod, lemma_div_denominator, lemma_small_div_converse};

verus! {

/// `a / b` lies in `[2^23, 2^24) * 2^(e - 160)`.
pub open spec fn in_binade(a: nat, b: nat, e: nat) -> bool {
    &&& pow2(23) * (b * pow2(e)) <= a * pow2(160)
    &&& a * pow2(160) < pow2(24) * (b * pow2(e))
}

/// `m * 2^(e - 160)` is a value nearest to `a / b`, and on a tie `m` is
/// even.
pub open spec fn nearest_even(a: nat, b: nat, e: nat, m: nat) -> bool {
    let d = b * pow2(e);
    let n = a * pow2(160);
    &&& 2 * (m * d) <= 2 * n + d
    &&& 2 * n <= 2 * (m * d) + d
    &&& (2 * (m * d) == 2 * n + d || 2 * n == 2 * (m * d) + d) ==> m % 2 == 0
}

/// `a / b` rounds to `m * 2^(e - 160)`.
pub open spec fn rounds_to(a: nat, b: nat, e: nat, m: nat) -> bool {
    in_binade(a, b, e) && nearest_even(a, b, e, m)
}

/// The biased exponent and the significand that `a / b` rounds to (there
/// is one pair for `a, b >= 1`: see `lemma_rounding_unique`).
pub open spec fn rounding(a: nat, b: nat) -> (nat, nat) {
    choose|r: (nat, nat)| rounds_to(a, b, r.0, r.1)
}

/// The single-precision bit pattern of `a / b` rounded: 0 for 0; else the
/// biased exponent field `t + 23 + 127` above the 23 stored significand
/// bits (a carry out of the significand moves into the exponent field).
/// This is the IEEE pattern for quotients in the normal range, and the
/// pattern of infinity for one that rounds to `2^128`.
pub open spec fn quotient_bits(a: nat, b: nat) -> nat {
    if a == 0 {
        0
    } else {
        ((rounding(a, b).0 - 11) * pow2(23) + rounding(a, b).1) as nat
    }
}

/// The single-precision value nearest to the natural `n`, which is a
/// natural again.
pub open spec fn rounded_natural(n: nat) -> nat {
    if n == 0 {
        0
    } else {
        rounding(n, 1).1 * pow2(rounding(n, 1).0) / pow2(160)
    }
}

proof fn lemma_powers()
    ensures
        pow2(0) == 1,
        pow2(1) == 2,
        pow2(2) == 4,
        pow2(23) == 0x80_0000,
        pow2(24) == 0x100_0000,
        pow2(25) == 0x200_0000,
        pow2(26) == 0x400_0000,
        pow2(64) == 0x1_0000_0000_0000_0000,
        pow2(128) == 0x1_0000_0000_0000_0000 * 0x1_0000_0000_0000_0000,
{
    lemma2_to64();
    lemma_pow2_adds(64, 64);
}

/// A quotient rounds to one value only.
pub proof fn lemma_rounding_unique(a: nat, b: nat, e1: nat, m1: nat, e2: nat, m2: nat)
    requires
        b >= 1,
        rounds_to(a, b, e1, m1),
        rounds_to(a, b, e2, m2),
    ensures
        e1 == e2,
        m1 == m2,
{
    lemma_powers();
    assert forall|x: nat, y: nat| x < y && in_binade(a, b, x) implies !in_binade(a, b, y) by {
        lemma_pow2_adds(x, (y - x) as nat);
        lemma_pow2_strictly_increases(0, (y - x) as nat);
        let q = pow2((y - x) as nat);
        let bx = b * pow2(x);
        let big = a * pow2(160);
        assert(pow2(y) == pow2(x) * q);
        assert(b * pow2(y) == bx * q) by (nonlinear_arith)
            requires
                pow2(y) == pow2(x) * q,
                bx == b * pow2(x),
        ;
        assert(!(pow2(23) * (bx * q) <= big)) by (nonlinear_arith)
            requires
                q >= 2,
                big < pow2(24) * bx,
                pow2(23) == 0x80_0000,
                pow2(24) == 0x100_0000,
        ;
    }
    if e1 < e2 {
    } else if e2 < e1 {
    }
    assert(e1 == e2);
    let d = b * pow2(e1);
    let n = a * pow2(160);
    lemma_pow2_pos(e1);
    assert(d > 0) by (nonlinear_arith)
        requires
            b >= 1,
            pow2(e1) > 0,
            d == b * pow2(e1),
    ;
    assert(m1 <= m2 + 1 && m2 <= m1 + 1) by (nonlinear_arith)
        requires
            d > 0,
            2 * (m1 * d) <= 2 * n + d,
            2 * n <= 2 * (m1 * d) + d,
            2 * (m2 * d) <= 2 * n + d,
            2 * n <= 2 * (m2 * d) + d,
    ;
    if m1 == m2 + 1 {
        assert(2 * (m1 * d) == 2 * n + d && 2 * n == 2 * (m2 * d) + d) by (nonlinear_arith)
            requires
                m1 == m2 + 1,
                2 * (m1 * d) <= 2 * n + d,
                2 * n <= 2 * (m2 * d) + d,
        ;
    }
    if m2 == m1 + 1 {
        assert(2 * (m2 * d) == 2 * n + d && 2 * n == 2 * (m1 * d) + d) by (nonlinear_arith)
            requires
                m2 == m1 + 1,
                2 * (m2 * d) <= 2 * n + d,
                2 * n <= 2 * (m1 * d) + d,
        ;
    }
}

/// `a / b` rounds to `m * 2^(e - 160)` when, for some `f > 0`,
/// `a * 2^160 == n * f` and `b * 2^e == d * f`, and `n / d` rounds to `m`
/// within `[2^23, 2^24)`.
proof fn lemma_rounding_scales(a: nat, b: nat, e: nat, m: nat, n: nat, d: nat, f: nat)
    requires
        f > 0,
        a * pow2(160) == n * f,
        b * pow2(e) == d * f,
        pow2(23) * d <= n < pow2(24) * d,
        2 * (m * d) <= 2 * n + d,
        2 * n <= 2 * (m * d) + d,
        (2 * (m * d) == 2 * n + d || 2 * n == 2 * (m * d) + d) ==> m % 2 == 0,
    ensures
        rounds_to(a, b, e, m),
{
    let dd = b * pow2(e);
    let nn = a * pow2(160);
    assert(pow2(23) * dd <= nn && nn < pow2(24) * dd) by (nonlinear_arith)
        requires
            f > 0,
            nn == n * f,
            dd == d * f,
            pow2(23) * d <= n < pow2(24) * d,
    ;
    assert(2 * (m * dd) <= 2 * nn + dd && 2 * nn <= 2 * (m * dd) + dd) by (nonlinear_arith)
        requires
            f > 0,
            nn == n * f,
            dd == d * f,
            2 * (m * d) <= 2 * n + d,
            2 * n <= 2 * (m * d) + d,
    ;
    assert((2 * (m * dd) == 2 * nn + dd) ==> (2 * (m * d) == 2 * n + d)) by (nonlinear_arith)
        requires
            f > 0,
            nn == n * f,
            dd == d * f,
    ;
    assert((2 * nn == 2 * (m * dd) + dd) ==> (2 * n == 2 * (m * d) + d)) by (nonlinear_arith)
        requires
            f > 0,
            nn == n * f,
            dd == d * f,
    ;
}

/// A significand that a quotient rounds to has 24 bits, or is `2^24` when
/// the quotient rounds up to the next binade.
proof fn lemma_significand_range(a: nat, b: nat, e: nat, m: nat)
    requires
        b >= 1,
        rounds_to(a, b, e, m),
    ensures
        pow2(23) <= m <= pow2(24),
{
    lemma_powers();
    lemma_pow2_pos(e);
    let d = b * pow2(e);
    let x = a * pow2(160);
    assert(d > 0) by (nonlinear_arith)
        requires
            b >= 1,
            pow2(e) > 0,
            d == b * pow2(e),
    ;
    assert(0x80_0000 <= m <= 0x100_0000) by (nonlinear_arith)
        requires
            d > 0,
            0x80_0000 * d <= x,
            x < 0x100_0000 * d,
            2 * (m * d) <= 2 * x + d,
            2 * x <= 2 * (m * d) + d,
    ;
}

/// The first exponent from `e` down whose binade starts at or below
/// `a / b`.
spec fn binade_from(a: nat, b: nat, e: nat) -> nat
    decreases e,
{
    if pow2(23) * (b * pow2(e)) <= a * pow2(160) || e == 0 {
        e
    } else {
        binade_from(a, b, (e - 1) as nat)
    }
}

proof fn lemma_binade_from(a: nat, b: nat, e: nat)
    requires
        1 <= b,
        pow2(23) * b <= a * pow2(160),
        a * pow2(160) < pow2(24) * (b * pow2(e)),
    ensures
        in_binade(a, b, binade_from(a, b, e)),
    decreases e,
{
    lemma_powers();
    if pow2(23) * (b * pow2(e)) <= a * pow2(160) {
    } else if e == 0 {
        assert(b * pow2(0) == b);
    } else {
        lemma_pow2_adds((e - 1) as nat, 1);
        assert(a * pow2(160) < pow2(24) * (b * pow2((e - 1) as nat))) by (nonlinear_arith)
            requires
                a * pow2(160) < pow2(23) * (b * pow2(e)),
                pow2(e) == pow2((e - 1) as nat) * 2,
                pow2(23) == 0x80_0000,
                pow2(24) == 0x100_0000,
        ;
        lemma_binade_from(a, b, (e - 1) as nat);
    }
}

/// Every quotient of a natural below `2^128` by one from 1 to below
/// `2^100` rounds to some value.
pub proof fn lemma_rounding_exists(a: nat, b: nat)
    requires
        1 <= a < pow2(128),
        1 <= b < pow2(100),
    ensures
        rounds_to(a, b, rounding(a, b).0, rounding(a, b).1),
{
    lemma_powers();
    lemma_pow2_pos(160);
    lemma_pow2_adds(100, 60);
    lemma_pow2_adds(128, 160);
    lemma_pow2_adds(24, 264);
    lemma_pow2_adds(24, 100);
    lemma_pow2_adds(124, 164);
    lemma_pow2_pos(164);
    lemma_pow2_strictly_increases(23, 60);
    assert(pow2(23) * b <= a * pow2(160)) by (nonlinear_arith)
        requires
            b < pow2(100),
            a >= 1,
            pow2(160) == pow2(100) * pow2(60),
            pow2(60) >= pow2(23),
            pow2(23) == 0x80_0000,
    ;
    assert(a * pow2(160) < pow2(24) * (b * pow2(288))) by (nonlinear_arith)
        requires
            a < pow2(128),
            b >= 1,
            pow2(288) == pow2(128) * pow2(160),
            pow2(24) > 0,
            pow2(160) > 0,
    ;
    lemma_binade_from(a, b, 288);
    let e = binade_from(a, b, 288);
    let d = b * pow2(e);
    let x = a * pow2(160);
    lemma_pow2_pos(e);
    assert(d > 0) by (nonlinear_arith)
        requires
            b >= 1,
            pow2(e) > 0,
            d == b * pow2(e),
    ;
    let m0 = x / d;
    let f = x % d;
    lemma_fundamental_div_mod(x as int, d as int);
    vstd::arithmetic::div_mod::lemma_mod_pos_bound(x as int, d as int);
    let m: nat = if 2 * f < d || (2 * f == d && m0 % 2 == 0) { m0 } else { m0 + 1 };
    assert(2 * (m * d) <= 2 * x + d && 2 * x <= 2 * (m * d) + d) by (nonlinear_arith)
        requires
            x == d * m0 + f,
            0 <= f < d,
            m == m0 || m == m0 + 1,
            m == m0 ==> 2 * f <= d,
            m == m0 + 1 ==> 2 * f >= d,
    ;
    assert((2 * (m * d) == 2 * x + d || 2 * x == 2 * (m * d) + d) ==> 2 * f == d) by (nonlinear_arith)
        requires
            x == d * m0 + f,
            0 <= f < d,
            m == m0 || m == m0 + 1,
    ;
    let w = (e, m);
    assert(rounds_to(a, b, w.0, w.1));
}

/// The exponent of a rounded quotient of a natural from 1 on by one below
/// `2^100` is at least 37.
proof fn lemma_exponent_floor(a: nat, b: nat, e: nat, m: nat)
    requires
        a >= 1,
        1 <= b < pow2(100),
        rounds_to(a, b, e, m),
    ensures
        e >= 37,
{
    if e < 37 {
        lemma_powers();
        if e < 36 {
            lemma_pow2_strictly_increases(e, 36);
        }
        lemma_pow2_adds(24, 100);
        lemma_pow2_adds(124, 36);
        lemma_pow2_pos(e);
        assert(false) by (nonlinear_arith)
            requires
                a * pow2(160) < pow2(24) * (b * pow2(e)),
                a >= 1,
                b < pow2(100),
                pow2(e) <= pow2(36),
                pow2(124) == pow2(24) * pow2(100),
                pow2(160) == pow2(124) * pow2(36),
                pow2(24) > 0,
                pow2(e) > 0,
        ;
    }
}

/// Rounding is monotone: a larger quotient never gets a smaller bit
/// pattern (so patterns, which order as single-precision values do, sort
/// quotients as the quotients sort, up to quotients that round alike).
pub proof fn lemma_rounding_is_monotone(a1: nat, b1: nat, a2: nat, b2: nat)
    requires
        a1 < pow2(128),
        a2 < pow2(128),
        1 <= b1 < pow2(100),
        1 <= b2 < pow2(100),
        a1 * b2 <= a2 * b1,
    ensures
        quotient_bits(a1, b1) <= quotient_bits(a2, b2),
{
    if a1 == 0 {
        return;
    }
    assert(a2 >= 1) by (nonlinear_arith)
        requires
            a1 >= 1,
            b2 >= 1,
            b1 >= 1,
            a1 * b2 <= a2 * b1,
    ;
    lemma_powers();
    lemma_rounding_exists(a1, b1);
    lemma_rounding_exists(a2, b2);
    let (e1, m1) = rounding(a1, b1);
    let (e2, m2) = rounding(a2, b2);
    lemma_significand_range(a1, b1, e1, m1);
    lemma_significand_range(a2, b2, e2, m2);
    lemma_exponent_floor(a1, b1, e1, m1);
    lemma_exponent_floor(a2, b2, e2, m2);
    let p = pow2(160);
    let x1 = a1 * p;
    let x2 = a2 * p;
    lemma_pow2_pos(160);
    lemma_pow2_pos(e1);
    lemma_pow2_pos(e2);
    assert(x1 * b2 <= x2 * b1) by (nonlinear_arith)
        requires
            a1 * b2 <= a2 * b1,
            x1 == a1 * p,
            x2 == a2 * p,
            p > 0,
    ;
    if e1 > e2 {
        lemma_pow2_adds(e2, (e1 - e2) as nat);
        lemma_pow2_strictly_increases(0, (e1 - e2) as nat);
        let g = pow2((e1 - e2) as nat);
        assert(false) by (nonlinear_arith)
            requires
                0x80_0000 * (b1 * pow2(e1)) <= x1,
                x2 < 0x100_0000 * (b2 * pow2(e2)),
                x1 * b2 <= x2 * b1,
                pow2(e1) == pow2(e2) * g,
                g >= 2,
                b1 >= 1,
                b2 >= 1,
                pow2(e2) > 0,
        ;
    }
    if e1 == e2 {
        let big = pow2(e1);
        let d1 = b1 * big;
        let d2 = b2 * big;
        assert((2 * m1 - 1) * d1 * b2 <= 2 * x1 * b2) by (nonlinear_arith)
            requires
                2 * (m1 * d1) <= 2 * x1 + d1,
                b2 >= 1,
        ;
        assert(2 * x2 * b1 <= (2 * m2 + 1) * d2 * b1) by (nonlinear_arith)
            requires
                2 * x2 <= 2 * (m2 * d2) + d2,
                b1 >= 1,
        ;
        assert((2 * m1 - 1) * (b1 * b2 * big) <= (2 * m2 + 1) * (b1 * b2 * big)) by (nonlinear_arith)
            requires
                (2 * m1 - 1) * d1 * b2 <= 2 * x1 * b2,
                2 * x2 * b1 <= (2 * m2 + 1) * d2 * b1,
                x1 * b2 <= x2 * b1,
                d1 == b1 * big,
                d2 == b2 * big,
        ;
        assert(b1 * b2 * big > 0) by (nonlinear_arith)
            requires
                b1 >= 1,
                b2 >= 1,
                big > 0,
        ;
        assert(m1 <= m2 + 1) by (nonlinear_arith)
            requires
                (2 * m1 - 1) * (b1 * b2 * big) <= (2 * m2 + 1) * (b1 * b2 * big),
                b1 * b2 * big > 0,
        ;
        if m1 == m2 + 1 {
            assert(2 * (m1 * d1) == 2 * x1 + d1 && 2 * x2 == 2 * (m2 * d2) + d2) by (nonlinear_arith)
                requires
                    m1 == m2 + 1,
                    2 * (m1 * d1) <= 2 * x1 + d1,
                    2 * x2 <= 2 * (m2 * d2) + d2,
                    x1 * b2 <= x2 * b1,
                    d1 == b1 * big,
                    d2 == b2 * big,
                    b1 >= 1,
                    b2 >= 1,
                    big > 0,
            ;
        }
    }
    assert((e1 - 11) * pow2(23) + m1 <= (e2 - 11) * pow2(23) + m2) by (nonlinear_arith)
        requires
            pow2(23) == 0x80_0000,
            e1 <= e2,
            e1 == e2 ==> m1 <= m2,
            0x80_0000 <= m1 <= 0x100_0000,
            0x80_0000 <= m2 <= 0x100_0000,
    ;
}

/// A power of two at most `2^127`, as a `u128`.
fn power_of_two(k: u32) -> (p: u128)
    requires
        k < 128,
    ensures
        p == pow2(k as nat),
{
    proof {
        lemma_powers();
    }
    let mut p: u128 = 1;
    let mut i: u32 = 0;
    while i < k
        invariant
            i <= k < 128,
            p == pow2(i as nat),
            pow2(128) == 0x1_0000_0000_0000_0000 * 0x1_0000_0000_0000_0000,
        decreases k - i,
    {
        proof {
            lemma_pow2_adds(i as nat, 1);
            lemma2_to64();
            lemma_pow2_strictly_increases((i + 1) as nat, 128);
        }
        p = p * 2;
        i = i + 1;
    }
    p
}

/// The number of binary digits of `x`.
fn bit_length(x: u128) -> (l: u32)
    ensures
        l <= 128,
        x < pow2(l as nat),
        l > 0 ==> pow2((l - 1) as nat) <= x,
{
    proof {
        lemma_powers();
    }
    let mut y = x;
    let mut l: u32 = 0;
    while y > 0
        invariant
            l <= 128,
            y == x as int / pow2(l as nat) as int,
            l > 0 ==> pow2((l - 1) as nat) <= x,
            pow2(128) == 0x1_0000_0000_0000_0000 * 0x1_0000_0000_0000_0000,
        decreases y,
    {
        let ghost p = pow2(l as nat);
        proof {
            lemma_pow2_pos(l as nat);
            lemma_fundamental_div_mod(x as int, p as int);
            assert(x as int % p as int >= 0) by {
                vstd::arithmetic::div_mod::lemma_mod_pos_bound(x as int, p as int);
            }
            assert(p <= x) by (nonlinear_arith)
                requires
                    x as int == p * (x as int / p as int) + x as int % p as int,
                    y == x as int / p as int,
                    y >= 1,
                    x as int % p as int >= 0,
                    p > 0,
            ;
            if l >= 128 {
                if l > 128 {
                    lemma_pow2_strictly_increases(128, l as nat);
                }
                assert(false);
            }
            lemma_pow2_adds(l as nat, 1);
            lemma2_to64();
            lemma_div_denominator(x as int, p as int, 2);
            assert(pow2((l + 1) as nat) == p * 2);
        }
        y = y / 2;
        l = l + 1;
    }
    proof {
        lemma_pow2_pos(l as nat);
        lemma_small_div_converse(x as int, pow2(l as nat) as int);
    }
    l
}

/// `x` lies between the powers of two around its bit length.
proof fn lemma_bounds_scale(x: nat, l: nat, k: nat)
    requires
        l >= 1,
        pow2((l - 1) as nat) <= x < pow2(l),
    ensures
        pow2((l - 1 + k) as nat) <= x * pow2(k) < pow2(l + k),
{
    lemma_pow2_adds((l - 1) as nat, k);
    lemma_pow2_adds(l, k);
    lemma_pow2_pos(k);
    assert(pow2((l - 1) as nat) * pow2(k) <= x * pow2(k) < pow2(l) * pow2(k)) by (nonlinear_arith)
        requires
            pow2((l - 1) as nat) <= x < pow2(l),
            pow2(k) > 0,
    ;
}

/// The biased exponent and the significand that `a / b` rounds to.
fn round_quotient(a: u128, b: u128) -> (r: (u32, u128))
    requires
        a >= 1,
        1 <= b,
        b < pow2(100),
    ensures
        rounds_to(a as nat, b as nat, r.0 as nat, r.1 as nat),
        pow2(23) <= r.1 <= pow2(24),
        37 <= r.0 <= 264,
{
    proof {
        lemma_powers();
    }
    let la = bit_length(a);
    let lb = bit_length(b);
    proof {
        if la == 0 {
            assert(false);
        }
        if lb == 0 {
            assert(false);
        }
        if lb > 100 {
            lemma_pow2_strictly_increases(100, (lb - 1) as nat);
            assert(false);
        }
    }
    let ghost f: nat;
    let ghost e_base: nat;
    let e_base_exec: u32;
    let n: u128;
    let d: u128;
    if la <= 25 + lb {
        let k = 25 + lb - la;
        let pk = power_of_two(k);
        proof {
            lemma_bounds_scale(a as nat, la as nat, k as nat);
            lemma_bounds_scale(b as nat, lb as nat, 0);
            lemma_pow2_strictly_increases((la + k) as nat, 128);
            lemma_pow2_adds(k as nat, (160 - k) as nat);
            lemma_pow2_adds(24, lb as nat);
            lemma_pow2_adds(26, (lb - 1) as nat);
            assert(a * pk < pow2(128));
        }
        n = a * pk;
        d = b;
        e_base_exec = 160 - k;
        proof {
            f = pow2((160 - k) as nat);
            e_base = (160 - k) as nat;
            lemma_pow2_pos((160 - k) as nat);
            assert(a * pow2(160) == n * f) by (nonlinear_arith)
                requires
                    n == a * pk,
                    pow2(160) == pk * f,
            ;
            assert(pow2(24) * d < n) by (nonlinear_arith)
                requires
                    d < pow2(lb as nat),
                    pow2((24 + lb) as nat) == pow2(24) * pow2(lb as nat),
                    pow2((24 + lb) as nat) <= n,
                    pow2(24) > 0,
            ;
            lemma_pow2_strictly_increases(100, 103);
            assert(d < pow2(103));
            assert(n < pow2(26) * d) by (nonlinear_arith)
                requires
                    pow2((lb - 1) as nat) <= d,
                    pow2((26 + (lb - 1)) as nat) == pow2(26) * pow2((lb - 1) as nat),
                    n < pow2((25 + lb) as nat),
                    (26 + (lb - 1)) as nat == (25 + lb) as nat,
                    pow2(26) > 0,
            ;
        }
    } else {
        let j = la - 25 - lb;
        let pj = power_of_two(j);
        proof {
            lemma_bounds_scale(b as nat, lb as nat, j as nat);
            lemma_bounds_scale(a as nat, la as nat, 0);
            lemma_pow2_strictly_increases((lb + j) as nat, 128);
            lemma_pow2_adds(24, (lb + j) as nat);
            lemma_pow2_adds(26, (lb - 1 + j) as nat);
            lemma_pow2_adds(160, j as nat);
            assert(b * pj < pow2(128));
        }
        n = a;
        d = b * pj;
        e_base_exec = 160 + j;
        proof {
            f = pow2(160);
            e_base = (160 + j) as nat;
            lemma_pow2_pos(160);
            assert(a * pow2(160) == n * f);
            assert(b * pow2(e_base) == d * f) by (nonlinear_arith)
                requires
                    d == b * pj,
                    pow2(e_base) == pow2(160) * pj,
                    f == pow2(160),
            ;
            assert(pow2(24) * d < n) by (nonlinear_arith)
                requires
                    d < pow2((lb + j) as nat),
                    pow2((24 + (lb + j)) as nat) == pow2(24) * pow2((lb + j) as nat),
                    pow2((la - 1) as nat) <= n,
                    (24 + (lb + j)) as nat == (la - 1) as nat,
                    pow2(24) > 0,
            ;
            if lb + j < 103 {
                lemma_pow2_strictly_increases((lb + j) as nat, 103);
            }
            assert(d < pow2(103));
            assert(n < pow2(26) * d) by (nonlinear_arith)
                requires
                    pow2((lb - 1 + j) as nat) <= d,
                    pow2((26 + (lb - 1 + j)) as nat) == pow2(26) * pow2((lb - 1 + j) as nat),
                    n < pow2(la as nat),
                    (26 + (lb - 1 + j)) as nat == la as nat,
                    pow2(26) > 0,
            ;
        }
    }    let q = n / d;
    let r = n % d;
    proof {
        lemma_fundamental_div_mod(n as int, d as int);
        assert(0x100_0000 <= q < 0x400_0000) by (nonlinear_arith)
            requires
                n == d * q + r,
                0 <= r < d,
                0x100_0000 * d < n < 0x400_0000 * d,
        ;
    }
    let (s, two): (u32, u128) = if q >= 0x200_0000 { (2, 4) } else { (1, 2) };
    let m0 = q / two;
    let rem = q % two;
    proof {
        lemma_pow2_strictly_increases(103, 105);
        lemma_pow2_adds(2, 105);
        lemma_pow2_strictly_increases(107, 128);
        vstd::arithmetic::div_mod::lemma_mod_pos_bound(n as int, d as int);
        assert(rem * d + r < pow2(128)) by (nonlinear_arith)
            requires
                rem < 4,
                r < d,
                d < pow2(105),
                4 * pow2(105) <= pow2(128),
        ;
        assert(d * two < pow2(128)) by (nonlinear_arith)
            requires
                d < pow2(105),
                two <= 4,
                4 * pow2(105) <= pow2(128),
        ;
    }
    let d2 = d * two;
    let frac = rem * d + r;
    proof {
        assert(q == two * m0 + rem && 0 <= rem < two);
        assert(0x80_0000 <= m0 < 0x100_0000);
        assert(frac < d2 && n == m0 * d2 + frac) by (nonlinear_arith)
            requires
                n == d * q + r,
                0 <= r < d,
                q == two * m0 + rem,
                0 <= rem < two,
                frac == rem * d + r,
                d2 == d * two,
        ;
    }
    proof {
        lemma_pow2_adds(1, 107);
        lemma_pow2_strictly_increases(108, 128);
        assert(2 * frac < pow2(128)) by (nonlinear_arith)
            requires
                frac < d2,
                d2 == d * two,
                d < pow2(105),
                two <= 4,
                4 * pow2(105) == pow2(107),
                2 * pow2(107) == pow2(108),
                pow2(108) < pow2(128),
        ;
    }
    let up = 2 * frac > d2 || (2 * frac == d2 && m0 % 2 == 1);
    let m = if up { m0 + 1 } else { m0 };
    let e = s + e_base_exec;
    proof {
        assert(pow2(23) * d2 <= n < pow2(24) * d2) by (nonlinear_arith)
            requires
                n == m0 * d2 + frac,
                0 <= frac < d2,
                0x80_0000 <= m0 < 0x100_0000,
                pow2(23) == 0x80_0000,
                pow2(24) == 0x100_0000,
        ;
        assert(2 * (m * d2) <= 2 * n + d2 && 2 * n <= 2 * (m * d2) + d2) by (nonlinear_arith)
            requires
                n == m0 * d2 + frac,
                0 <= frac < d2,
                m == m0 || m == m0 + 1,
                m == m0 ==> 2 * frac <= d2,
                m == m0 + 1 ==> 2 * frac >= d2,
        ;
        assert((2 * (m * d2) == 2 * n + d2 || 2 * n == 2 * (m * d2) + d2) ==> 2 * frac == d2) by (nonlinear_arith)
            requires
                n == m0 * d2 + frac,
                0 <= frac < d2,
                m == m0 || m == m0 + 1,
        ;
        lemma_pow2_adds(s as nat, e_base);
        assert(b * pow2(e as nat) == d2 * f) by (nonlinear_arith)
            requires
                pow2(e as nat) == pow2(s as nat) * pow2(e_base),
                pow2(s as nat) == two,
                b * pow2(e_base) == d * f,
                d2 == d * two,
        ;
        lemma_rounding_scales(a as nat, b as nat, e as nat, m as nat, n as nat, d2 as nat, f);
    }
    (e, m)
}

proof fn lemma_high_powers()
    ensures
        pow2(103) == 0x80_0000_0000_0000_0000_0000_0000,
        pow2(104) == 0x100_0000_0000_0000_0000_0000_0000,
        pow2(105) == 0x200_0000_0000_0000_0000_0000_0000,
        pow2(127) == 0x8000_0000_0000_0000_0000_0000_0000_0000,
        pow2(128) == 0x1_0000_0000_0000_0000_0000_0000_0000_0000int,
{
    lemma2_to64();
    lemma_pow2_adds(64, 32);
    lemma_pow2_adds(96, 7);
    lemma_pow2_adds(96, 8);
    lemma_pow2_adds(96, 9);
    lemma_pow2_adds(96, 31);
    lemma_pow2_adds(64, 64);
}

/// The value that a natural `n < 2^128` rounds to is `m * 2^(e - 160)`
/// for its rounding `(e, m)`: at most `2n`, and below `2^128` unless it is
/// `2^128` itself, single precision's overflow to infinity.
proof fn lemma_rounded_natural_bounds(n: nat, e: nat, m: nat)
    requires
        n >= 1,
        n < pow2(128),
        rounds_to(n, 1, e, m),
        m <= pow2(24),
    ensures
        e <= 264,
        m * pow2(e) <= 2 * n * pow2(160),
        !(e == 264 && m == pow2(24)) ==> m * pow2(e) < pow2(128) * pow2(160),
{
    lemma_powers();
    lemma_high_powers();
    let p = pow2(160);
    let d = pow2(e);
    lemma_pow2_pos(160);
    lemma_pow2_pos(e);
    assert(1 * d == d);
    assert(m * d <= 2 * n * p) by (nonlinear_arith)
        requires
            0x80_0000 * d <= n * p,
            2 * (m * d) <= 2 * (n * p) + d,
            d > 0,
    ;
    if e > 264 {
        lemma_pow2_adds(105, 160);
        if e > 265 {
            lemma_pow2_strictly_increases(265, e);
        }
        assert(false) by (nonlinear_arith)
            requires
                0x80_0000 * d <= n * p,
                pow2(265) == pow2(105) * p,
                pow2(105) == 0x200_0000_0000_0000_0000_0000_0000,
                d >= pow2(265),
                n < pow2(128),
                pow2(128) == 0x1_0000_0000_0000_0000_0000_0000_0000_0000int,
                p > 0,
        ;
    }
    if !(e == 264 && m == pow2(24)) {
        if e == 264 {
            lemma_pow2_adds(104, 160);
            assert(m * d < pow2(128) * p) by (nonlinear_arith)
                requires
                    d == pow2(104) * p,
                    pow2(104) == 0x100_0000_0000_0000_0000_0000_0000,
                    pow2(128) == 0x1_0000_0000_0000_0000_0000_0000_0000_0000int,
                    m < 0x100_0000,
                    p > 0,
            ;
        } else {
            lemma_pow2_adds(103, 160);
            if e < 263 {
                lemma_pow2_strictly_increases(e, 263);
            }
            assert(m * d < pow2(128) * p) by (nonlinear_arith)
                requires
                    d <= pow2(263),
                    pow2(263) == pow2(103) * p,
                    pow2(103) == 0x80_0000_0000_0000_0000_0000_0000,
                    pow2(128) == 0x1_0000_0000_0000_0000_0000_0000_0000_0000int,
                    m <= 0x100_0000,
                    p > 0,
            ;
        }
    }
}

/// Below the bias a rounded natural is exact: `m` is `n` shifted left.
proof fn lemma_rounded_natural_exact(n: nat, e: nat, m: nat)
    requires
        n >= 1,
        e < 160,
        rounds_to(n, 1, e, m),
    ensures
        m == n * pow2((160 - e) as nat),
{
    let g = pow2((160 - e) as nat);
    let d = pow2(e);
    lemma_pow2_adds((160 - e) as nat, e);
    lemma_pow2_pos(e);
    assert(1 * d == d);
    let big = n * pow2(160);
    assert(big == (n * g) * d) by (nonlinear_arith)
        requires
            big == n * pow2(160),
            pow2(160) == g * d,
    ;
    let k = n * g;
    assert(m == k) by (nonlinear_arith)
        requires
            big == k * d,
            d > 0,
            2 * (m * d) <= 2 * big + d,
            2 * big <= 2 * (m * d) + d,
    ;
}

/// The choice in `rounding` is the pair that any rounding finds.
proof fn lemma_rounding_is(a: nat, b: nat, e: nat, m: nat)
    requires
        b >= 1,
        rounds_to(a, b, e, m),
    ensures
        rounding(a, b) == (e, m),
{
    let w = (e, m);
    assert(rounds_to(a, b, w.0, w.1));
    let r = rounding(a, b);
    lemma_rounding_unique(a, b, e, m, r.0, r.1);
}

/// The bit pattern of single precision's infinity.
pub open spec fn infinity_bits() -> nat {
    0x7f80_0000
}

/// The single-precision value nearest to `n`, as a natural; `None` where
/// it is infinity (for `n` from `2^128 - 2^103` on).
pub fn rounded(n: u128) -> (v: Option<u128>)
    ensures
        v is None <==> quotient_bits(n as nat, 1) == infinity_bits(),
        n < pow2(127) ==> v is Some,
        v matches Some(x) ==> x == rounded_natural(n as nat) && x <= 2 * n && (n >= 1 ==> x >= 1),
{
    if n == 0 {
        return Some(0);
    }
    proof {
        lemma_powers();
        lemma_pow2_strictly_increases(0, 100);
    }
    let (e, m) = round_quotient(n, 1);
    proof {
        lemma_rounding_is(n as nat, 1, e as nat, m as nat);
        lemma_rounded_natural_bounds(n as nat, e as nat, m as nat);
        lemma_pow2_pos(160);
        assert((quotient_bits(n as nat, 1) == infinity_bits()) <==> (e == 264 && m == 0x100_0000)) by (nonlinear_arith)
            requires
                quotient_bits(n as nat, 1) == (e - 11) * 0x80_0000 + m,
                37 <= e <= 264,
                0x80_0000 <= m <= 0x100_0000,
                infinity_bits() == 0x7f80_0000,
        ;
    }
    if e == 264 && m == 0x100_0000 {
        proof {
            lemma_high_powers();
            lemma_pow2_adds(104, 160);
            let p = pow2(160);
            assert(n >= pow2(127)) by (nonlinear_arith)
                requires
                    0x80_0000 * (1 * pow2(264)) <= n * p,
                    pow2(264) == pow2(104) * p,
                    pow2(104) == 0x100_0000_0000_0000_0000_0000_0000,
                    pow2(127) == 0x8000_0000_0000_0000_0000_0000_0000_0000,
                    p > 0,
            ;
        }
        return None;
    }
    if e >= 160 {
        let g = power_of_two(e - 160);
        proof {
            lemma_pow2_adds((e - 160) as nat, 160);
            let p = pow2(160);
            assert(m * g < pow2(128)) by (nonlinear_arith)
                requires
                    m * pow2(e as nat) < pow2(128) * p,
                    pow2(e as nat) == g * p,
                    p > 0,
            ;
            assert(m * g <= 2 * n) by (nonlinear_arith)
                requires
                    m * pow2(e as nat) <= 2 * n * p,
                    pow2(e as nat) == g * p,
                    p > 0,
            ;
            assert((m * g) * p == m * pow2(e as nat)) by (nonlinear_arith)
                requires
                    pow2(e as nat) == g * p,
            ;
            vstd::arithmetic::div_mod::lemma_div_by_multiple((m * g) as int, p as int);
            lemma_pow2_pos((e - 160) as nat);
            assert(m * g >= 1) by (nonlinear_arith)
                requires
                    m >= 1,
                    g >= 1,
            ;
        }
        Some(m * g)
    } else {
        let g = power_of_two(160 - e);
        proof {
            lemma_rounded_natural_exact(n as nat, e as nat, m as nat);
            lemma_pow2_pos((160 - e) as nat);
            vstd::arithmetic::div_mod::lemma_div_by_multiple(n as int, g as int);
            lemma_pow2_adds((160 - e) as nat, e as nat);
            let p = pow2(160);
            assert(m * pow2(e as nat) == n * p) by (nonlinear_arith)
                requires
                    m == n * g,
                    p == g * pow2(e as nat),
            ;
            vstd::arithmetic::div_mod::lemma_div_by_multiple(n as int, p as int);
            assert(m / g == n);
        }
        Some(m / g)
    }
}

/// The single-precision bit pattern of the exact quotient `a / b`, rounded
/// once (what a single-precision division gives when `a` and `b` are
/// single-precision values themselves).
pub fn quotient_pattern(a: u128, b: u128) -> (bits: u32)
    requires
        1 <= b,
        b < pow2(100),
    ensures
        bits == quotient_bits(a as nat, b as nat),
{
    if a == 0 {
        return 0;
    }
    let (e, m) = round_quotient(a, b);
    proof {
        lemma_powers();
        lemma_rounding_is(a as nat, b as nat, e as nat, m as nat);
        assert((e - 11) * 0x80_0000 + m <= 0xffff_ffff) by (nonlinear_arith)
            requires
                e <= 264,
                m <= 0x100_0000,
        ;
    }
    ((e - 11) * 0x80_0000 + m as u32) as u32
}

/// The single-precision bit pattern of the natural `n`.
pub fn natural_pattern(n: u64) -> (bits: u32)
    ensures
        bits == quotient_bits(n as nat, 1),
{
    proof {
        lemma_powers();
        lemma_pow2_strictly_increases(0, 100);
    }
    quotient_pattern(n as u128, 1)
}

/// The single-precision bit pattern of `sum / count` with both terms
/// rounded to single precision first: infinity where the sum is.
pub open spec fn mean_bits(sum: nat, count: nat) -> nat {
    if quotient_bits(sum, 1) == infinity_bits() {
        infinity_bits()
    } else {
        quotient_bits(rounded_natural(sum), rounded_natural(count))
    }
}

/// The single-precision bit pattern of `sum / count`, each term rounded
/// to single precision first, as a single-precision division of the two
/// conversions computes it.
pub fn mean_pattern(sum: u128, count: u64) -> (bits: u32)
    requires
        count >= 1,
    ensures
        bits == mean_bits(sum as nat, count as nat),
{
    proof {
        lemma_powers();
        lemma_pow2_strictly_increases(64, 127);
        lemma_pow2_adds(1, 64);
        lemma_pow2_strictly_increases(65, 100);
    }
    let c = match rounded(count as u128) {
        Some(c) => c,
        None => {
            return 0;
        },
    };
    match rounded(sum) {
        None => 0x7f80_0000,
        Some(s) => quotient_pattern(s, c),
    }
}

} // verus!
