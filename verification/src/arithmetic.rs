//! The four arithmetic operations on scalars, each the exact result rounded
//! to nearest with ties to even, computed on integers.

use crate::rounding::{
    brackets, lemma_nearest_exact, lemma_pow2_monotone, lemma_pow2_values, lemma_units_monotone,
    nearest, pow2_u128, round_pack, scale_down, scale_up, units,
};
use crate::scalar::{Scalar, INFINITY_MAG, NAN_BITS};
use vstd::arithmetic::power2::{lemma_pow2_adds, lemma_pow2_pos, pow2};
use vstd::prelude::*;

verus! {

/// The significand of a finite magnitude pattern: its fraction, with the
/// implicit leading bit where the biased exponent is not zero.
pub open spec fn significand(p: nat) -> nat {
    if p / 0x80_0000 == 0 {
        p % 0x80_0000
    } else {
        p % 0x80_0000 + 0x80_0000
    }
}

/// The binary exponent of a magnitude pattern's last place, in units.
pub open spec fn last_place(p: nat) -> nat {
    if p / 0x80_0000 == 0 {
        0
    } else {
        (p / 0x80_0000 - 1) as nat
    }
}

/// A pattern is worth its significand times two to the power of its last
/// place.
pub proof fn lemma_units_split(p: nat)
    ensures
        units(p) == significand(p) * pow2(last_place(p)),
{
    lemma_pow2_values();
    if p / 0x80_0000 == 0 {
        assert(significand(p) * 1 == significand(p));
    }
}

/// Splits a finite magnitude pattern into significand and exponent.
fn decode(p: u32) -> (r: (u32, i32))
    requires
        p < 0x7F80_0000,
    ensures
        r.0 == significand(p as nat),
        r.1 == last_place(p as nat),
        units(p as nat) == r.0 * pow2(r.1 as nat),
        r.0 < 0x100_0000,
        0 <= r.1 <= 253,
        r.1 > 0 ==> r.0 >= 0x80_0000,
        r.0 == 0 <==> p == 0,
{
    proof {
        lemma_units_split(p as nat);
    }
    let e: u32 = p / 0x80_0000;
    let f: u32 = p % 0x80_0000;
    if e == 0 {
        (f, 0)
    } else {
        (f + 0x80_0000, (e - 1) as i32)
    }
}

/// Adds two finite magnitudes, the first not smaller than the second, each
/// given as significand and exponent, and rounds the result.
fn sum_ordered(
    negative: bool,
    same_sign: bool,
    sh: u32,
    eh: i32,
    sl: u32,
    el: i32,
    Ghost(num): Ghost<nat>,
) -> (r: Scalar)
    requires
        sh < 0x100_0000,
        sl < 0x100_0000,
        0 <= el <= eh <= 253,
        eh > 0 ==> sh >= 0x80_0000,
        sh * pow2(eh as nat) >= sl * pow2(el as nat),
        same_sign ==> num == sh * pow2(eh as nat) + sl * pow2(el as nat),
        !same_sign ==> num == sh * pow2(eh as nat) - sl * pow2(el as nat),
    ensures
        r == if !same_sign && num == 0 {
            Scalar::zero()
        } else {
            Scalar::compose(negative, nearest(num, 1))
        },
{
    let d: i32 = eh - el;
    let ghost ph = pow2(eh as nat);
    let ghost pl = pow2(el as nat);
    proof {
        lemma_pow2_values();
        lemma_pow2_pos(el as nat);
        lemma_pow2_pos(eh as nat);
    }
    if d <= 64 {
        let f: u128 = pow2_u128(d as u32);
        proof {
            lemma_pow2_adds(d as nat, el as nat);
            lemma_pow2_monotone(d as nat, 64);
            assert(sh * f <= 0x100_0000 * 0x1_0000_0000_0000_0000) by (nonlinear_arith)
                requires
                    sh < 0x100_0000,
                    f <= 0x1_0000_0000_0000_0000,
            ;
            assert(sh * ph == (sh * f) * pl) by (nonlinear_arith)
                requires
                    ph == f * pl,
            ;
            assert(sh * f >= sl) by (nonlinear_arith)
                requires
                    (sh * f) * pl >= sl * pl,
                    pl > 0,
            ;
        }
        let big: u128 = (sh as u128) * f;
        let m: u128 = if same_sign {
            big + sl as u128
        } else {
            big - sl as u128
        };
        proof {
            assert(num == m * pl) by (nonlinear_arith)
                requires
                    same_sign ==> num == big * pl + sl * pl && m == big + sl,
                    !same_sign ==> num == big * pl - sl * pl && m == big - sl,
            ;
            assert(m == 0 <==> num == 0) by (nonlinear_arith)
                requires
                    num == m * pl,
                    pl > 0,
                    m >= 0,
            ;
        }
        if !same_sign && m == 0 {
            return Scalar { bits: 0 };
        }
        proof {
            assert(m * scale_up(el as int) * 1 == num * scale_down(el as int)) by (nonlinear_arith)
                requires
                    num == m * pl,
                    scale_up(el as int) == pl,
                    scale_down(el as int) == 1,
            ;
            assert((m + 1) * scale_up(el as int) * 1 > num * scale_down(el as int))
                by (nonlinear_arith)
                requires
                    num == m * pl,
                    scale_up(el as int) == pl,
                    scale_down(el as int) == 1,
                    pl > 0,
            ;
            assert(brackets(m as nat, el as int, false, num, 1));
        }
        round_pack(negative, m, el, false, Ghost(num), Ghost(1))
    } else {
        let big: u128 = (sh as u128) * 0x4000_0000;
        let inexact: bool = sl != 0;
        let m: u128 = if inexact && !same_sign {
            big - 1
        } else {
            big
        };
        let s: i32 = eh - 30;
        proof {
            let ps = pow2(s as nat);
            let ul = sl * pl;
            lemma_pow2_adds(30, s as nat);
            lemma_pow2_adds(24, el as nat);
            lemma_pow2_monotone((24 + el) as nat, s as nat);
            lemma_pow2_pos(s as nat);
            assert(sh * ph == big * ps) by (nonlinear_arith)
                requires
                    ph == 0x4000_0000 * ps,
                    big == sh * 0x4000_0000,
            ;
            assert(ul < 0x100_0000 * pl) by (nonlinear_arith)
                requires
                    ul == sl * pl,
                    sl < 0x100_0000,
                    pl > 0,
            ;
            assert(ul < ps);
            assert(ul > 0 <==> sl != 0) by (nonlinear_arith)
                requires
                    ul == sl * pl,
                    pl > 0,
                    sl >= 0,
            ;
            assert(m * ps == big * ps - (big - m) * ps) by (nonlinear_arith);
            assert((m + 1) * ps == m * ps + ps) by (nonlinear_arith);
            assert((big - m) * ps == if inexact && !same_sign {
                ps as int
            } else {
                0int
            }) by (nonlinear_arith)
                requires
                    big - m == if inexact && !same_sign {
                        1int
                    } else {
                        0int
                    },
            ;
            assert(big * ps >= 0x4000_0000 * ps) by (nonlinear_arith)
                requires
                    big >= 0x4000_0000,
                    ps > 0,
            ;
            assert(num > 0);
            assert(m * scale_up(s as int) * 1 == m * ps && (m + 1) * scale_up(s as int) * 1 == (m
                + 1) * ps && num * scale_down(s as int) == num) by (nonlinear_arith)
                requires
                    scale_up(s as int) == ps,
                    scale_down(s as int) == 1,
            ;
            assert(brackets(m as nat, s as int, inexact, num, 1));
        }
        round_pack(negative, m, s, inexact, Ghost(num), Ghost(1))
    }
}

impl Scalar {
    /// The product: the exact product of the two values, rounded. A NaN
    /// operand, or zero times infinity, gives NaN.
    #[verifier::opaque]
    pub open spec fn spec_mul(self, rhs: Scalar) -> Scalar {
        let negative = self.spec_is_negative() != rhs.spec_is_negative();
        if self.spec_is_nan() || rhs.spec_is_nan() {
            Scalar::nan()
        } else if self.spec_is_infinite() || rhs.spec_is_infinite() {
            if self.spec_is_zero() || rhs.spec_is_zero() {
                Scalar::nan()
            } else {
                Scalar::compose(negative, 0x7F80_0000)
            }
        } else {
            Scalar::compose(negative, nearest(units(self.mag()) * units(rhs.mag()), pow2(149)))
        }
    }

    /// The quotient: the exact quotient of the two values, rounded. A NaN
    /// operand, zero by zero and infinity by infinity give NaN; a value
    /// other than zero divided by zero gives infinity.
    #[verifier::opaque]
    pub open spec fn spec_div(self, rhs: Scalar) -> Scalar {
        let negative = self.spec_is_negative() != rhs.spec_is_negative();
        if self.spec_is_nan() || rhs.spec_is_nan() {
            Scalar::nan()
        } else if self.spec_is_infinite() {
            if rhs.spec_is_infinite() {
                Scalar::nan()
            } else {
                Scalar::compose(negative, 0x7F80_0000)
            }
        } else if rhs.spec_is_infinite() {
            Scalar::compose(negative, 0)
        } else if rhs.spec_is_zero() {
            if self.spec_is_zero() {
                Scalar::nan()
            } else {
                Scalar::compose(negative, 0x7F80_0000)
            }
        } else {
            Scalar::compose(negative, nearest(units(self.mag()) * pow2(149), units(rhs.mag())))
        }
    }

    /// The sum: the exact sum of the two values, rounded. A NaN operand, or
    /// infinities of opposite sign, give NaN. An exact zero sum of operands
    /// of opposite sign is positive zero.
    #[verifier::opaque]
    pub open spec fn spec_add(self, rhs: Scalar) -> Scalar {
        if self.spec_is_nan() || rhs.spec_is_nan() {
            Scalar::nan()
        } else if self.spec_is_infinite() {
            if rhs.spec_is_infinite() && self.spec_is_negative() != rhs.spec_is_negative() {
                Scalar::nan()
            } else {
                Scalar::compose(self.spec_is_negative(), 0x7F80_0000)
            }
        } else if rhs.spec_is_infinite() {
            Scalar::compose(rhs.spec_is_negative(), 0x7F80_0000)
        } else {
            let a = units(self.mag());
            let b = units(rhs.mag());
            if self.spec_is_negative() == rhs.spec_is_negative() {
                Scalar::compose(self.spec_is_negative(), nearest(a + b, 1))
            } else if a == b {
                Scalar::zero()
            } else if a > b {
                Scalar::compose(self.spec_is_negative(), nearest((a - b) as nat, 1))
            } else {
                Scalar::compose(rhs.spec_is_negative(), nearest((b - a) as nat, 1))
            }
        }
    }

    /// The difference: the sum of `self` and the negation of `rhs`.
    pub open spec fn spec_sub(self, rhs: Scalar) -> Scalar {
        self.spec_add(rhs.spec_neg())
    }

    /// `self * rhs`, rounded to nearest, ties to even.
    #[verifier::when_used_as_spec(spec_mul)]
    pub fn mul(self, rhs: Scalar) -> (r: Scalar)
        ensures
            r == self.spec_mul(rhs),
    {
        reveal(Scalar::spec_mul);
        let negative: bool = self.is_negative() != rhs.is_negative();
        if self.is_nan() || rhs.is_nan() {
            return Scalar { bits: NAN_BITS };
        }
        if self.is_infinite() || rhs.is_infinite() {
            if self.is_zero() || rhs.is_zero() {
                return Scalar { bits: NAN_BITS };
            }
            return Scalar::pack(negative, INFINITY_MAG);
        }
        let (sa, ea) = decode(self.magnitude());
        let (sb, eb) = decode(rhs.magnitude());
        proof {
            assert(sa * sb < 0x100_0000 * 0x100_0000) by (nonlinear_arith)
                requires
                    sa < 0x100_0000,
                    sb < 0x100_0000,
            ;
        }
        let m: u128 = (sa as u128) * (sb as u128);
        let s: i32 = ea + eb - 149;
        let ghost num: nat = units(self.mag()) * units(rhs.mag());
        let ghost den: nat = pow2(149);
        proof {
            let pa = pow2(ea as nat);
            let pb = pow2(eb as nat);
            let w = pow2((ea + eb) as nat);
            lemma_pow2_adds(ea as nat, eb as nat);
            lemma_pow2_pos(149);
            lemma_pow2_pos((ea + eb) as nat);
            assert(num == m * w) by (nonlinear_arith)
                requires
                    num == (sa * pa) * (sb * pb),
                    m == sa * sb,
                    w == pa * pb,
            ;
            if s >= 0 {
                lemma_pow2_adds(s as nat, 149);
                assert(w == pow2(s as nat) * den);
                assert(m * scale_up(s as int) * den == num * scale_down(s as int))
                    by (nonlinear_arith)
                    requires
                        num == m * w,
                        w == scale_up(s as int) * den,
                        scale_down(s as int) == 1,
                ;
                assert((m + 1) * scale_up(s as int) * den > num * scale_down(s as int))
                    by (nonlinear_arith)
                    requires
                        num == m * w,
                        w == scale_up(s as int) * den,
                        scale_down(s as int) == 1,
                        w > 0,
                ;
            } else {
                lemma_pow2_adds((ea + eb) as nat, (-s) as nat);
                assert(den == w * pow2((-s) as nat));
                assert(m * scale_up(s as int) * den == num * scale_down(s as int))
                    by (nonlinear_arith)
                    requires
                        num == m * w,
                        den == w * scale_down(s as int),
                        scale_up(s as int) == 1,
                ;
                assert((m + 1) * scale_up(s as int) * den > num * scale_down(s as int))
                    by (nonlinear_arith)
                    requires
                        num == m * w,
                        den == w * scale_down(s as int),
                        scale_up(s as int) == 1,
                        den > 0,
                ;
            }
            assert(brackets(m as nat, s as int, false, num, den));
        }
        round_pack(negative, m, s, false, Ghost(num), Ghost(den))
    }

    /// `self / rhs`, rounded to nearest, ties to even.
    #[verifier::when_used_as_spec(spec_div)]
    pub fn div(self, rhs: Scalar) -> (r: Scalar)
        ensures
            r == self.spec_div(rhs),
    {
        reveal(Scalar::spec_div);
        let negative: bool = self.is_negative() != rhs.is_negative();
        if self.is_nan() || rhs.is_nan() {
            return Scalar { bits: NAN_BITS };
        }
        if self.is_infinite() {
            if rhs.is_infinite() {
                return Scalar { bits: NAN_BITS };
            }
            return Scalar::pack(negative, INFINITY_MAG);
        }
        if rhs.is_infinite() {
            return Scalar::pack(negative, 0);
        }
        if rhs.is_zero() {
            if self.is_zero() {
                return Scalar { bits: NAN_BITS };
            }
            return Scalar::pack(negative, INFINITY_MAG);
        }
        let (sa, ea) = decode(self.magnitude());
        let (sb, eb) = decode(rhs.magnitude());
        proof {
            lemma_pow2_values();
        }
        let scaled: u128 = (sa as u128) * 0x4_0000_0000_0000;
        let divisor: u128 = sb as u128;
        let q: u128 = scaled / divisor;
        let rem: u128 = scaled % divisor;
        let s: i32 = ea - eb + 99;
        let inexact: bool = rem != 0;
        let ghost num: nat = units(self.mag()) * pow2(149);
        let ghost den: nat = units(rhs.mag());
        proof {
            let pa = pow2(ea as nat);
            let pb = pow2(eb as nat);
            let up = scale_up(s as int);
            let dn = scale_down(s as int);
            lemma_pow2_pos(ea as nat);
            lemma_pow2_pos(eb as nat);
            assert(scaled == q * divisor + rem && rem < divisor) by (nonlinear_arith)
                requires
                    q == scaled / divisor,
                    rem == scaled % divisor,
                    divisor > 0,
            ;
            assert(q <= scaled) by (nonlinear_arith)
                requires
                    scaled == q * divisor + rem,
                    divisor > 0,
                    q >= 0,
                    rem >= 0,
            ;
            if sa > 0 {
                assert(q >= 0x400_0000) by (nonlinear_arith)
                    requires
                        scaled == q * divisor + rem,
                        rem < divisor,
                        divisor < 0x100_0000,
                        scaled >= 0x4_0000_0000_0000,
                        q >= 0,
                ;
            }
            // A common factor `w` with `up * den == sb * w` and
            // `num * dn == scaled * w`.
            let w: nat = if s >= 0 {
                pow2((ea + 99) as nat)
            } else {
                pb
            };
            if s >= 0 {
                lemma_pow2_adds(s as nat, eb as nat);
                lemma_pow2_adds(ea as nat, 149);
                lemma_pow2_adds(50, (ea + 99) as nat);
                lemma_pow2_pos((ea + 99) as nat);
                assert(up * den == sb * w) by (nonlinear_arith)
                    requires
                        den == sb * pb,
                        w == up * pb,
                ;
                assert(num * dn == scaled * w) by (nonlinear_arith)
                    requires
                        num == (sa * pa) * pow2(149),
                        pa * pow2(149) == 0x4_0000_0000_0000 * w,
                        scaled == sa * 0x4_0000_0000_0000,
                        dn == 1,
                ;
            } else {
                lemma_pow2_adds(ea as nat, 149);
                lemma_pow2_adds((ea + 149) as nat, (-s) as nat);
                lemma_pow2_adds(50, eb as nat);
                assert(up * den == sb * w) by (nonlinear_arith)
                    requires
                        den == sb * pb,
                        w == pb,
                        up == 1,
                ;
                assert(num * dn == scaled * w) by (nonlinear_arith)
                    requires
                        num == (sa * pa) * pow2(149),
                        (pa * pow2(149)) * dn == 0x4_0000_0000_0000 * w,
                        scaled == sa * 0x4_0000_0000_0000,
                ;
            }
            assert(q * up * den == (q * divisor) * w) by (nonlinear_arith)
                requires
                    up * den == sb * w,
                    divisor == sb,
            ;
            assert((q + 1) * up * den == (q * divisor + divisor) * w) by (nonlinear_arith)
                requires
                    up * den == sb * w,
                    divisor == sb,
            ;
            assert((q * divisor) * w <= scaled * w < (q * divisor + divisor) * w)
                by (nonlinear_arith)
                requires
                    scaled == q * divisor + rem,
                    0 <= rem < divisor,
                    w > 0,
            ;
            assert(rem != 0 <==> (q * divisor) * w < scaled * w) by (nonlinear_arith)
                requires
                    scaled == q * divisor + rem,
                    0 <= rem,
                    w > 0,
            ;
            assert(den > 0) by (nonlinear_arith)
                requires
                    den == sb * pb,
                    sb > 0,
                    pb > 0,
            ;
            assert(brackets(q as nat, s as int, inexact, num, den));
        }
        round_pack(negative, q, s, inexact, Ghost(num), Ghost(den))
    }

    /// `self + rhs`, rounded to nearest, ties to even.
    #[verifier::when_used_as_spec(spec_add)]
    pub fn add(self, rhs: Scalar) -> (r: Scalar)
        ensures
            r == self.spec_add(rhs),
    {
        reveal(Scalar::spec_add);
        if self.is_nan() || rhs.is_nan() {
            return Scalar { bits: NAN_BITS };
        }
        if self.is_infinite() {
            if rhs.is_infinite() && self.is_negative() != rhs.is_negative() {
                return Scalar { bits: NAN_BITS };
            }
            return Scalar::pack(self.is_negative(), INFINITY_MAG);
        }
        if rhs.is_infinite() {
            return Scalar::pack(rhs.is_negative(), INFINITY_MAG);
        }
        let same_sign: bool = self.is_negative() == rhs.is_negative();
        let swap: bool = self.magnitude() < rhs.magnitude();
        let hi: Scalar = if swap {
            rhs
        } else {
            self
        };
        let lo: Scalar = if swap {
            self
        } else {
            rhs
        };
        let (sh, eh) = decode(hi.magnitude());
        let (sl, el) = decode(lo.magnitude());
        let ghost uh: nat = units(hi.mag());
        let ghost ul: nat = units(lo.mag());
        let ghost num: nat = if same_sign {
            uh + ul
        } else {
            (uh - ul) as nat
        };
        proof {
            lemma_units_monotone(lo.mag(), hi.mag());
        }
        sum_ordered(hi.is_negative(), same_sign, sh, eh, sl, el, Ghost(num))
    }

    /// `self - rhs`, rounded to nearest, ties to even.
    #[verifier::when_used_as_spec(spec_sub)]
    pub fn sub(self, rhs: Scalar) -> (r: Scalar)
        ensures
            r == self.spec_sub(rhs),
    {
        self.add(rhs.neg())
    }
}

/// The product does not depend on the order of its factors.
pub proof fn lemma_mul_commutes(a: Scalar, b: Scalar)
    ensures
        a.spec_mul(b) == b.spec_mul(a),
{
    reveal(Scalar::spec_mul);
    assert(units(a.mag()) * units(b.mag()) == units(b.mag()) * units(a.mag())) by (nonlinear_arith);
}

/// The sum does not depend on the order of its terms.
pub proof fn lemma_add_commutes(a: Scalar, b: Scalar)
    ensures
        a.spec_add(b) == b.spec_add(a),
{
    reveal(Scalar::spec_add);
}

/// Multiplying by one, or dividing by it, changes nothing but a NaN's
/// payload.
pub proof fn lemma_one_is_neutral(a: Scalar)
    requires
        !a.spec_is_nan(),
    ensures
        a.spec_mul(Scalar::one()) == a,
        Scalar::one().spec_mul(a) == a,
        a.spec_div(Scalar::one()) == a,
{
    reveal(Scalar::spec_mul);
    reveal(Scalar::spec_div);
    lemma_pow2_values();
    lemma_units_split(Scalar::one().mag());
    lemma_pow2_adds(23, 126);
    assert(units(Scalar::one().mag()) == pow2(149));
    lemma_pow2_pos(149);
    lemma_nearest_exact(a.mag(), pow2(149));
    lemma_mul_commutes(a, Scalar::one());
}

/// Adding positive zero changes nothing but negative zero, which it turns
/// into positive zero, and a NaN's payload.
pub proof fn lemma_zero_is_neutral(a: Scalar)
    requires
        !a.spec_is_nan(),
    ensures
        a.spec_add(Scalar::zero()) == if a.spec_is_zero() {
            Scalar::zero()
        } else {
            a
        },
{
    reveal(Scalar::spec_add);
    lemma_nearest_exact(a.mag(), 1);
    assert(units(a.mag()) * 1 == units(a.mag()));
    assert(units(0) == 0);
    if a.mag() > 0 {
        lemma_units_monotone(0, a.mag());
    }
}

/// A finite value less itself is positive zero.
pub proof fn lemma_sub_self(a: Scalar)
    requires
        a.spec_is_finite(),
    ensures
        a.spec_sub(a) == Scalar::zero(),
{
    reveal(Scalar::spec_add);
}

} // verus!
