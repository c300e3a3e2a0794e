//! Rounding to nearest, ties to even: what it means for a magnitude pattern to
//! be the rounding of an exact rational value, and the one routine through
//! which every arithmetic result is rounded.

use crate::scalar::Scalar;
use vstd::arithmetic::power2::{
    lemma2_to64, lemma_pow2_adds, lemma_pow2_pos, lemma_pow2_strictly_increases,
    lemma_pow2_unfold, pow2,
};
use vstd::prelude::*;

verus! {

/// The value of a magnitude pattern, counted in units of 2^-149 (the smallest
/// positive scalar). A pattern splits into a biased exponent `e` and a
/// fraction `f`; with `e == 0` the value is `f` units, else it is
/// `(2^23 + f) * 2^(e - 1)` units. The pattern of infinity thus stands for
/// 2^277 units, one step above the largest finite value.
pub open spec fn units(p: nat) -> nat {
    let e = p / 0x80_0000;
    let f = p % 0x80_0000;
    if e == 0 {
        f
    } else {
        (0x80_0000 + f) * pow2((e - 1) as nat)
    }
}

/// `p` is the largest magnitude pattern, up to infinity, whose value does not
/// exceed `num / den` units.
pub open spec fn is_floor(num: nat, den: nat, p: nat) -> bool {
    &&& p <= 0x7F80_0000
    &&& units(p) * den <= num
    &&& p < 0x7F80_0000 ==> num < units(p + 1) * den
}

/// The floor of `num / den` units among the magnitude patterns.
pub open spec fn floor_pattern(num: nat, den: nat) -> nat {
    choose|p: nat| is_floor(num, den, p)
}

/// The magnitude pattern nearest to `num / den` units. Of the two patterns on
/// either side of the value the closer one is taken, and on a tie the even
/// one. Values from 2^277 units on, and those that round up to it, give
/// infinity.
pub open spec fn nearest(num: nat, den: nat) -> nat {
    let p = floor_pattern(num, den);
    if p >= 0x7F80_0000 {
        0x7F80_0000
    } else {
        let twice = 2 * num;
        let middle = (units(p) + units(p + 1)) * den;
        if twice < middle {
            p
        } else if twice > middle {
            p + 1
        } else if p % 2 == 0 {
            p
        } else {
            p + 1
        }
    }
}

/// `2^s` where `s` is not negative, else 1.
pub open spec fn scale_up(s: int) -> nat {
    if s >= 0 {
        pow2(s as nat)
    } else {
        1
    }
}

/// `2^-s` where `s` is negative, else 1.
pub open spec fn scale_down(s: int) -> nat {
    if s < 0 {
        pow2((-s) as nat)
    } else {
        1
    }
}

/// `m * 2^s <= num / den < (m + 1) * 2^s`, with `inexact` telling whether the
/// first inequality is strict.
pub open spec fn brackets(m: nat, s: int, inexact: bool, num: nat, den: nat) -> bool {
    let lo = m * scale_up(s) * den;
    let hi = (m + 1) * scale_up(s) * den;
    let x = num * scale_down(s);
    lo <= x < hi && (inexact <==> lo < x)
}

/// The powers of two that the arithmetic names by their digits.
pub(crate) proof fn lemma_pow2_values()
    ensures
        pow2(0) == 1,
        pow2(1) == 2,
        pow2(23) == 0x80_0000,
        pow2(24) == 0x100_0000,
        pow2(25) == 0x200_0000,
        pow2(30) == 0x4000_0000,
        pow2(50) == 0x4_0000_0000_0000,
        pow2(64) == 0x1_0000_0000_0000_0000,
        pow2(100) == 0x10_0000_0000_0000_0000_0000_0000,
{
    lemma2_to64();
    lemma_pow2_adds(25, 25);
    assert(pow2(50) == pow2(25) * pow2(25));
    assert(0x200_0000 * 0x200_0000 == 0x4_0000_0000_0000) by (nonlinear_arith);
    lemma_pow2_adds(50, 50);
    assert(pow2(100) == pow2(50) * pow2(50));
    assert(0x4_0000_0000_0000 * 0x4_0000_0000_0000 == 0x10_0000_0000_0000_0000_0000_0000)
        by (nonlinear_arith);
}

/// A larger exponent gives no smaller power of two.
pub(crate) proof fn lemma_pow2_monotone(a: nat, b: nat)
    requires
        a <= b,
    ensures
        pow2(a) <= pow2(b),
        pow2(a) > 0,
{
    lemma_pow2_pos(a);
    if a < b {
        lemma_pow2_strictly_increases(a, b);
    }
}

/// A pattern written as exponent step `e` and significand `q` is worth
/// `q * 2^e` units.
pub proof fn lemma_units_of(e: nat, q: nat)
    requires
        q <= 0x100_0000,
        e == 0 || q >= 0x80_0000,
        e * 0x80_0000 + q <= 0x7F80_0000,
    ensures
        units(e * 0x80_0000 + q) == q * pow2(e),
{
    let p = e * 0x80_0000 + q;
    lemma_pow2_values();
    if q < 0x80_0000 {
        assert(p == q);
    } else if q < 0x100_0000 {
        let f = (q - 0x80_0000) as nat;
        assert(p == (e + 1) * 0x80_0000 + f);
        assert(p / 0x80_0000 == e + 1);
        assert(p % 0x80_0000 == f);
    } else {
        assert(p == (e + 2) * 0x80_0000);
        assert(p / 0x80_0000 == e + 2);
        assert(p % 0x80_0000 == 0);
        lemma_pow2_unfold(e + 1);
        assert(0x80_0000 * (2 * pow2(e)) == 0x100_0000 * pow2(e)) by (nonlinear_arith);
    }
}

/// The next pattern stands for a larger value.
pub proof fn lemma_units_step(p: nat)
    requires
        p < 0x7F80_0000,
    ensures
        units(p) < units(p + 1),
{
    let b = p / 0x80_0000;
    let f = p % 0x80_0000;
    let e: nat = if b == 0 { 0 } else { (b - 1) as nat };
    let q: nat = if b == 0 { f } else { f + 0x80_0000 };
    assert(p == e * 0x80_0000 + q);
    lemma_units_of(e, q);
    lemma_units_of(e, q + 1);
    lemma_pow2_pos(e);
    assert(q * pow2(e) < (q + 1) * pow2(e)) by (nonlinear_arith)
        requires
            pow2(e) > 0,
    ;
}

/// Larger patterns stand for larger values.
pub proof fn lemma_units_monotone(low: nat, high: nat)
    requires
        low <= high <= 0x7F80_0000,
    ensures
        units(low) <= units(high),
        low < high ==> units(low) < units(high),
    decreases high - low,
{
    if low < high {
        lemma_units_monotone(low, (high - 1) as nat);
        lemma_units_step((high - 1) as nat);
    }
}

/// At most one pattern is the floor of a value.
pub proof fn lemma_floor_unique(num: nat, den: nat, p: nat)
    requires
        den > 0,
        is_floor(num, den, p),
    ensures
        floor_pattern(num, den) == p,
{
    let c = floor_pattern(num, den);
    assert(is_floor(num, den, c));
    if c < p {
        lemma_units_monotone(c + 1, p);
        assert(units(c + 1) * den <= units(p) * den) by (nonlinear_arith)
            requires
                units(c + 1) <= units(p),
        ;
    } else if p < c {
        lemma_units_monotone(p + 1, c);
        assert(units(p + 1) * den <= units(c) * den) by (nonlinear_arith)
            requires
                units(p + 1) <= units(c),
        ;
    }
}

/// A value that a pattern stands for rounds to that pattern.
pub proof fn lemma_nearest_exact(p: nat, den: nat)
    requires
        p <= 0x7F80_0000,
        den > 0,
    ensures
        nearest(units(p) * den, den) == p,
{
    let num = units(p) * den;
    if p < 0x7F80_0000 {
        lemma_units_step(p);
        assert(units(p) * den < units(p + 1) * den) by (nonlinear_arith)
            requires
                units(p) < units(p + 1),
                den > 0,
        ;
        assert(2 * (units(p) * den) < (units(p) + units(p + 1)) * den) by (nonlinear_arith)
            requires
                units(p) < units(p + 1),
                den > 0,
        ;
    }
    assert(is_floor(num, den, p));
    lemma_floor_unique(num, den, p);
}

/// The rounded value lies within half a spacing of the exact one: the
/// pattern taken is the floor or the one above it, and twice its distance
/// from `num / den` units is no more than the distance between the two.
pub proof fn lemma_nearest_is_close(num: nat, den: nat, p: nat)
    requires
        den > 0,
        is_floor(num, den, p),
        p < 0x7F80_0000,
    ensures
        nearest(num, den) == p || nearest(num, den) == p + 1,
        nearest(num, den) == p ==> 2 * (num - units(p) * den) <= (units(p + 1) - units(p)) * den,
        nearest(num, den) == p + 1 ==> 2 * (units(p + 1) * den - num) <= (units(p + 1) - units(p))
            * den,
{
    lemma_floor_unique(num, den, p);
    let lo = units(p);
    let hi = units(p + 1);
    assert((lo + hi) * den == lo * den + hi * den) by (nonlinear_arith);
    assert((hi - lo) * den == hi * den - lo * den) by (nonlinear_arith);
}

/// `2^k` for `k <= 100`.
pub(crate) fn pow2_u128(k: u32) -> (r: u128)
    requires
        k <= 100,
    ensures
        r == pow2(k as nat),
        0 < r <= 0x10_0000_0000_0000_0000_0000_0000,
{
    let mut r: u128 = 1;
    let mut i: u32 = 0;
    proof {
        lemma_pow2_values();
    }
    while i < k
        invariant
            i <= k <= 100,
            r == pow2(i as nat),
            pow2(100) == 0x10_0000_0000_0000_0000_0000_0000,
        decreases k - i,
    {
        proof {
            lemma_pow2_unfold((i + 1) as nat);
            lemma_pow2_monotone((i + 1) as nat, 100);
        }
        r = r * 2;
        i = i + 1;
    }
    proof {
        lemma_pow2_monotone(k as nat, 100);
    }
    r
}

/// The position of the highest set bit.
pub(crate) fn floor_log2(m: u128) -> (l: u32)
    requires
        0 < m < 0x10_0000_0000_0000_0000_0000_0000,
    ensures
        l < 100,
        pow2(l as nat) <= m < pow2((l + 1) as nat),
{
    let mut l: u32 = 0;
    let mut p: u128 = 1;
    proof {
        lemma_pow2_values();
    }
    while p <= m / 2
        invariant
            p == pow2(l as nat),
            0 < p <= m,
            l < 100,
            m < 0x10_0000_0000_0000_0000_0000_0000,
            pow2(100) == 0x10_0000_0000_0000_0000_0000_0000,
        decreases m - p,
    {
        proof {
            lemma_pow2_unfold((l + 1) as nat);
            if l + 1 >= 100 {
                lemma_pow2_monotone(100, (l + 1) as nat);
            }
        }
        p = p * 2;
        l = l + 1;
    }
    proof {
        lemma_pow2_unfold((l + 1) as nat);
    }
    l
}

/// Splitting a shift into its part above and its part below the binary
/// point.
proof fn lemma_scale_identity(e: nat, s: int, shift: nat)
    requires
        e == s + shift,
    ensures
        pow2(e) * scale_down(s) == pow2(shift) * scale_up(s),
        scale_down(s) > 0,
        scale_up(s) > 0,
{
    if s >= 0 {
        lemma_pow2_adds(shift, s as nat);
        lemma_pow2_pos(s as nat);
        assert(e == shift + s as nat);
        assert(pow2(e) == pow2(shift) * pow2(s as nat));
        assert(pow2(e) * scale_down(s) == pow2(shift) * scale_up(s)) by (nonlinear_arith)
            requires
                scale_down(s) == 1,
                scale_up(s) == pow2(s as nat),
                pow2(e) == pow2(shift) * pow2(s as nat),
        ;
    } else {
        lemma_pow2_adds(e, (-s) as nat);
        lemma_pow2_pos((-s) as nat);
        assert(shift == e + (-s) as nat);
        assert(pow2(shift) == pow2(e) * pow2((-s) as nat));
        assert(pow2(e) * scale_down(s) == pow2(shift) * scale_up(s)) by (nonlinear_arith)
            requires
                scale_up(s) == 1,
                scale_down(s) == pow2((-s) as nat),
                pow2(shift) == pow2(e) * pow2((-s) as nat),
        ;
    }
}

/// Cutting `shift` low bits off `m` leaves the floor pattern, and the bits
/// cut off tell on which side of the middle the exact value lies.
proof fn lemma_round_cut(
    num: nat,
    den: nat,
    m: nat,
    s: int,
    inexact: bool,
    e: nat,
    shift: nat,
    q: nat,
    rem: nat,
)
    requires
        den > 0,
        brackets(m, s, inexact, num, den),
        e == s + shift,
        shift > 0,
        m == q * pow2(shift) + rem,
        rem < pow2(shift),
        q < 0x100_0000,
        e == 0 || q >= 0x80_0000,
        e <= 253,
    ensures
        ({
            let p = e * 0x80_0000 + q;
            let half = pow2((shift - 1) as nat);
            let middle = (units(p) + units(p + 1)) * den;
            &&& p < 0x7F80_0000
            &&& is_floor(num, den, p)
            &&& rem < half ==> 2 * num < middle
            &&& rem > half ==> 2 * num > middle
            &&& rem == half && inexact ==> 2 * num > middle
            &&& rem == half && !inexact ==> 2 * num == middle
        }),
{
    let p = e * 0x80_0000 + q;
    let up = scale_up(s);
    let dn = scale_down(s);
    let d = pow2(shift);
    let t = pow2(e);
    let half = pow2((shift - 1) as nat);
    let b = up * den;
    let a = num * dn;
    let lower = q * t * den;
    let upper = (q + 1) * t * den;
    let middle = (units(p) + units(p + 1)) * den;
    let c = q * d + half;
    lemma_scale_identity(e, s, shift);
    lemma_units_of(e, q);
    lemma_units_of(e, q + 1);
    lemma_pow2_unfold(shift);
    assert(b > 0) by (nonlinear_arith)
        requires
            b == up * den,
            up > 0,
            den > 0,
    ;
    assert(m * b == m * up * den && (m + 1) * b == (m + 1) * up * den) by (nonlinear_arith)
        requires
            b == up * den,
    ;
    assert(lower * dn == (q * d) * b) by (nonlinear_arith)
        requires
            lower == q * t * den,
            t * dn == d * up,
            b == up * den,
    ;
    assert(upper * dn == ((q + 1) * d) * b) by (nonlinear_arith)
        requires
            upper == (q + 1) * t * den,
            t * dn == d * up,
            b == up * den,
    ;
    assert(middle == lower + upper) by (nonlinear_arith)
        requires
            middle == (q * t + (q + 1) * t) * den,
            lower == q * t * den,
            upper == (q + 1) * t * den,
    ;
    assert((q + 1) * d == q * d + d) by (nonlinear_arith);
    assert(middle * dn == 2 * (c * b)) by (nonlinear_arith)
        requires
            middle == lower + upper,
            lower * dn == (q * d) * b,
            upper * dn == (q * d + d) * b,
            c == q * d + half,
            d == 2 * half,
    ;
    assert((q * d) * b <= m * b) by (nonlinear_arith)
        requires
            q * d <= m,
            b > 0,
    ;
    assert((m + 1) * b <= (q * d + d) * b) by (nonlinear_arith)
        requires
            m + 1 <= q * d + d,
            b > 0,
    ;
    assert(lower <= num) by (nonlinear_arith)
        requires
            lower * dn <= num * dn,
            dn > 0,
    ;
    assert(num < upper) by (nonlinear_arith)
        requires
            num * dn < upper * dn,
            dn > 0,
    ;
    if rem < half {
        assert((m + 1) * b <= c * b) by (nonlinear_arith)
            requires
                m + 1 <= c,
                b > 0,
        ;
        assert(2 * num < middle) by (nonlinear_arith)
            requires
                2 * (num * dn) < middle * dn,
                dn > 0,
        ;
    } else if rem > half {
        assert(c * b + b <= m * b) by (nonlinear_arith)
            requires
                c + 1 <= m,
                b > 0,
        ;
        assert(2 * num > middle) by (nonlinear_arith)
            requires
                2 * (num * dn) > middle * dn,
                dn > 0,
        ;
    } else {
        assert(c == m);
        if inexact {
            assert(2 * num > middle) by (nonlinear_arith)
                requires
                    2 * (num * dn) > middle * dn,
                    dn > 0,
            ;
        } else {
            assert(2 * num == middle) by (nonlinear_arith)
                requires
                    2 * (num * dn) == middle * dn,
                    dn > 0,
            ;
        }
    }
}

/// A value that is exactly `q * 2^e` units rounds to the pattern of `e` and
/// `q`.
proof fn lemma_round_exact(num: nat, den: nat, e: nat, q: nat)
    requires
        den > 0,
        num == q * pow2(e) * den,
        q < 0x100_0000,
        e == 0 || q >= 0x80_0000,
        e <= 253,
    ensures
        nearest(num, den) == e * 0x80_0000 + q,
{
    let p = e * 0x80_0000 + q;
    let t = pow2(e);
    lemma_units_of(e, q);
    lemma_units_of(e, q + 1);
    lemma_pow2_pos(e);
    assert(q * t * den < (q + 1) * t * den) by (nonlinear_arith)
        requires
            t > 0,
            den > 0,
    ;
    assert(2 * (q * t * den) < (q * t + (q + 1) * t) * den) by (nonlinear_arith)
        requires
            t > 0,
            den > 0,
    ;
    assert(is_floor(num, den, p));
    lemma_floor_unique(num, den, p);
}

/// Rounds the exact value `num / den` units, handed over as an integer `m`
/// and a binary scale `s` that bracket it, and attaches the sign. Where the
/// bracket is not exact, `m` must carry at least 26 bits, so that what lies
/// below it cannot decide a tie.
pub(crate) fn round_pack(
    negative: bool,
    m: u128,
    s: i32,
    inexact: bool,
    Ghost(num): Ghost<nat>,
    Ghost(den): Ghost<nat>,
) -> (r: Scalar)
    requires
        den > 0,
        m < 0x10_0000_0000_0000_0000_0000_0000,
        -400 <= s <= 400,
        inexact ==> m >= 0x200_0000,
        brackets(m as nat, s as int, inexact, num, den),
    ensures
        r == Scalar::compose(negative, nearest(num, den)),
        nearest(num, den) <= 0x7F80_0000,
{
    proof {
        lemma_pow2_values();
        if s < 0 {
            lemma_pow2_pos((-s) as nat);
        }
    }
    if m == 0 {
        proof {
            assert(!inexact);
            assert(m * scale_up(s as int) * den == 0) by (nonlinear_arith)
                requires
                    m == 0,
            ;
            assert(num * scale_down(s as int) == 0);
            assert(num == 0) by (nonlinear_arith)
                requires
                    num * scale_down(s as int) == 0,
                    scale_down(s as int) > 0,
            ;
            lemma_round_exact(0, den, 0, 0);
        }
        return Scalar::pack(negative, 0);
    }
    let l: i32 = floor_log2(m) as i32;
    let e: i32 = if l + s - 23 > 0 {
        l + s - 23
    } else {
        0
    };
    if e >= 254 {
        proof {
            lemma_round_overflow(num, den, m as nat, s as int, l as nat);
        }
        return Scalar::pack(negative, 0x7F80_0000);
    }
    let shift: i32 = e - s;
    if shift <= 0 {
        let k: u32 = (s - e) as u32;
        let f: u128 = pow2_u128(k);
        proof {
            lemma_pow2_adds(l as nat + 1, k as nat);
            lemma_pow2_adds(l as nat, k as nat);
            lemma_pow2_adds(k as nat, e as nat);
            lemma_pow2_monotone((l + 1 + k) as nat, 24);
            lemma_pow2_monotone((l + 1) as nat, 24);
            assert(!inexact);
            if e > 0 {
                lemma_pow2_monotone(23, (l + k) as nat);
            }
            assert(m * f < pow2(l as nat + 1) * f) by (nonlinear_arith)
                requires
                    m < pow2(l as nat + 1),
                    f > 0,
            ;
            assert(pow2(l as nat) * f <= m * f) by (nonlinear_arith)
                requires
                    pow2(l as nat) <= m,
                    f > 0,
            ;
        }
        let q: u128 = m * f;
        let p: u32 = (e as u32) * 0x80_0000 + (q as u32);
        proof {
            assert(num == m * pow2(s as nat) * den);
            assert(m * pow2(s as nat) * den == q * pow2(e as nat) * den) by (nonlinear_arith)
                requires
                    q == m * f,
                    pow2(s as nat) == f * pow2(e as nat),
            ;
            lemma_round_exact(num, den, e as nat, q as nat);
        }
        return Scalar::pack(negative, p);
    }
    if shift > l + 1 {
        proof {
            lemma_round_underflow(num, den, m as nat, s as int, l as nat);
        }
        return Scalar::pack(negative, 0);
    }
    let d: u128 = pow2_u128(shift as u32);
    let half: u128 = d / 2;
    let q: u128 = m / d;
    let rem: u128 = m % d;
    proof {
        lemma_pow2_unfold(shift as nat);
        lemma_pow2_adds(shift as nat, 24);
        lemma_pow2_monotone((l + 1) as nat, (shift + 24) as nat);
        assert(m == q * d + rem) by (nonlinear_arith)
            requires
                q == m / d,
                rem == m % d,
                d > 0,
        ;
        assert(q < 0x100_0000) by (nonlinear_arith)
            requires
                m == q * d + rem,
                m < d * 0x100_0000,
                d > 0,
        ;
        if e > 0 {
            lemma_pow2_adds(shift as nat, 23);
            assert(q >= 0x80_0000) by (nonlinear_arith)
                requires
                    m == q * d + rem,
                    rem < d,
                    m >= d * 0x80_0000,
                    d > 0,
            ;
        }
        lemma_round_cut(
            num,
            den,
            m as nat,
            s as int,
            inexact,
            e as nat,
            shift as nat,
            q as nat,
            rem as nat,
        );
        lemma_floor_unique(num, den, (e * 0x80_0000 + q) as nat);
    }
    let floor: u32 = (e as u32) * 0x80_0000 + (q as u32);
    let up: bool = rem > half || (rem == half && (inexact || q % 2 == 1));
    let p: u32 = if up {
        floor + 1
    } else {
        floor
    };
    Scalar::pack(negative, p)
}

/// A value of 2^277 units or more rounds to infinity.
proof fn lemma_round_overflow(num: nat, den: nat, m: nat, s: int, l: nat)
    requires
        den > 0,
        brackets(m, s, false, num, den) || brackets(m, s, true, num, den),
        pow2(l) <= m,
        l + s - 23 >= 254,
        l < 100,
    ensures
        nearest(num, den) == 0x7F80_0000,
{
    lemma_pow2_values();
    lemma_units_of(254, 0x80_0000);
    lemma_pow2_adds(23, 254);
    lemma_pow2_adds(l, s as nat);
    lemma_pow2_monotone(277, (l + s) as nat);
    let t = pow2(s as nat);
    assert(pow2(l) * t <= m * t) by (nonlinear_arith)
        requires
            pow2(l) <= m,
    ;
    assert(pow2(277) * den <= m * t * den) by (nonlinear_arith)
        requires
            pow2(277) <= m * t,
    ;
    assert(units(0x7F80_0000) == 0x80_0000 * pow2(254));
    assert(is_floor(num, den, 0x7F80_0000));
    lemma_floor_unique(num, den, 0x7F80_0000);
}

/// A value below half a unit rounds to zero.
proof fn lemma_round_underflow(num: nat, den: nat, m: nat, s: int, l: nat)
    requires
        den > 0,
        brackets(m, s, false, num, den) || brackets(m, s, true, num, den),
        m < pow2(l + 1),
        -s > l + 1,
    ensures
        nearest(num, den) == 0,
{
    let dn = pow2((-s) as nat);
    lemma_pow2_values();
    lemma_pow2_unfold((-s) as nat);
    lemma_pow2_monotone(l + 1, (-s - 1) as nat);
    let h = pow2((-s - 1) as nat);
    assert((m + 1) * den <= h * den) by (nonlinear_arith)
        requires
            m + 1 <= h,
    ;
    assert(2 * num < den) by (nonlinear_arith)
        requires
            num * (2 * h) < h * den,
            h > 0,
    ;
    assert(units(0) == 0);
    assert(units(1) == 1);
    assert(units(0) * den == 0);
    assert(units(1) * den == den);
    assert(num < den);
    assert(is_floor(num, den, 0));
    lemma_floor_unique(num, den, 0);
}

} // verus!
