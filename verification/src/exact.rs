//! The solvers in arithmetic without rounding. Over the real numbers the
//! models of the solvers can be held to the equations that they are meant to
//! solve; what is proved here of a model holds of the computation with
//! scalars up to the rounding of each of its steps.

use crate::grid::column_of;
use crate::number::Number;
use vstd::prelude::*;

verus! {

/// A real number.
pub struct Exact {
    pub value: real,
}

/// The product of two real numbers.
#[verifier::opaque]
pub open spec fn real_product(a: real, b: real) -> real {
    a * b
}

/// The quotient of two real numbers.
#[verifier::opaque]
pub open spec fn real_quotient(a: real, b: real) -> real {
    a / b
}

impl Number for Exact {
    open spec fn zero_element() -> Exact {
        Exact { value: 0real }
    }

    open spec fn one_element() -> Exact {
        Exact { value: 1real }
    }

    open spec fn tiny_element() -> Exact {
        Exact { value: real_quotient(1real, 100000000000000000000real) }
    }

    open spec fn plus(self, other: Exact) -> Exact {
        Exact { value: self.value + other.value }
    }

    open spec fn minus(self, other: Exact) -> Exact {
        Exact { value: self.value - other.value }
    }

    open spec fn times(self, other: Exact) -> Exact {
        Exact { value: real_product(self.value, other.value) }
    }

    open spec fn over(self, other: Exact) -> Exact {
        Exact { value: real_quotient(self.value, other.value) }
    }

    open spec fn absolute(self) -> Exact {
        Exact {
            value: if self.value < 0real {
                -self.value
            } else {
                self.value
            },
        }
    }

    open spec fn exceeds(self, other: Exact) -> bool {
        self.value > other.value
    }

    open spec fn vanishes(self) -> bool {
        self.value == 0real
    }
}

/// Zero times a number is zero, one times a number is that number, and a
/// number other than zero times its reciprocal is one.
pub proof fn lemma_products(x: real)
    ensures
        real_product(0real, x) == 0real,
        real_product(1real, x) == x,
        real_product(x, 0real) == 0real,
        real_product(x, 1real) == x,
        x != 0real ==> real_product(x, real_quotient(1real, x)) == 1real,
{
    reveal(real_product);
    reveal(real_quotient);
    assert(0real * x == 0real) by (nonlinear_arith);
    assert(1real * x == x) by (nonlinear_arith);
    assert(x * 0real == 0real) by (nonlinear_arith);
    assert(x * 1real == x) by (nonlinear_arith);
    if x != 0real {
        assert(x * (1real / x) == 1real) by (nonlinear_arith)
            requires
                x != 0real,
        ;
    }
}

/// A quotient times its divisor is the dividend, where the divisor is other
/// than zero.
pub proof fn lemma_quotient(x: real, y: real)
    requires
        y != 0real,
    ensures
        real_product(real_quotient(x, y), y) == x,
{
    reveal(real_product);
    reveal(real_quotient);
    assert((x / y) * y == x) by (nonlinear_arith)
        requires
            y != 0real,
    ;
}

/// The product of real numbers is commutative and associative, and
/// distributes over the sum.
pub proof fn lemma_product_laws(x: real, y: real, z: real)
    ensures
        real_product(x, y) == real_product(y, x),
        real_product(real_product(x, y), z) == real_product(x, real_product(y, z)),
        real_product(x + y, z) == real_product(x, z) + real_product(y, z),
        real_product(x, y + z) == real_product(x, y) + real_product(x, z),
{
    reveal(real_product);
    assert(x * y == y * x) by (nonlinear_arith);
    assert((x * y) * z == x * (y * z)) by (nonlinear_arith);
    assert((x + y) * z == x * z + y * z) by (nonlinear_arith);
    assert(x * (y + z) == x * y + x * z) by (nonlinear_arith);
}

/// The sum of the products `u[k] * v[k]` for `k` below `n`.
pub open spec fn dot(u: Seq<Exact>, v: Seq<Exact>, n: nat) -> real
    decreases n,
{
    if n == 0 {
        0real
    } else {
        dot(u, v, (n - 1) as nat) + real_product(u[n - 1].value, v[n - 1].value)
    }
}

/// `a * x == b`: every entry of `b` is the product of its row of `a` and its
/// column of `x`.
pub open spec fn is_product(
    a: Seq<Seq<Exact>>,
    x: Seq<Seq<Exact>>,
    b: Seq<Seq<Exact>>,
    width: nat,
) -> bool {
    forall|i: int, j: int|
        0 <= i < a.len() && 0 <= j < width ==> dot(a[i], column_of(x, j), x.len()) == (
        #[trigger] b[i][j]).value
}

/// The product with a row that was multiplied by `k` is the product,
/// multiplied by `k`.
pub proof fn lemma_dot_scaled(u: Seq<Exact>, w: Seq<Exact>, v: Seq<Exact>, k: real, n: nat)
    requires
        n <= u.len(),
        n <= w.len(),
        forall|i: int| 0 <= i < n ==> (#[trigger] w[i]).value == real_product(u[i].value, k),
    ensures
        dot(w, v, n) == real_product(dot(u, v, n), k),
    decreases n,
{
    reveal(real_product);
    if n > 0 {
        lemma_dot_scaled(u, w, v, k, (n - 1) as nat);
        let a = dot(u, v, (n - 1) as nat);
        let x = u[n - 1].value;
        let y = v[n - 1].value;
        assert(w[n - 1].value == x * k);
        assert(a * k + (x * k) * y == (a + x * y) * k) by (nonlinear_arith);
    } else {
        assert(0real * k == 0real) by (nonlinear_arith);
    }
}

/// The product with a row of which `f` times another row was taken off is
/// the product, less `f` times the product with the other row.
pub proof fn lemma_dot_reduced(
    u: Seq<Exact>,
    p: Seq<Exact>,
    w: Seq<Exact>,
    v: Seq<Exact>,
    f: real,
    n: nat,
)
    requires
        n <= u.len(),
        n <= p.len(),
        n <= w.len(),
        forall|i: int|
            0 <= i < n ==> (#[trigger] w[i]).value == u[i].value - real_product(p[i].value, f),
    ensures
        dot(w, v, n) == dot(u, v, n) - real_product(dot(p, v, n), f),
    decreases n,
{
    reveal(real_product);
    if n > 0 {
        lemma_dot_reduced(u, p, w, v, f, (n - 1) as nat);
        let a = dot(u, v, (n - 1) as nat);
        let b = dot(p, v, (n - 1) as nat);
        let x = u[n - 1].value;
        let q = p[n - 1].value;
        let y = v[n - 1].value;
        assert(w[n - 1].value == x - q * f);
        assert((a - b * f) + (x - q * f) * y == (a + x * y) - (b + q * y) * f)
            by (nonlinear_arith);
    } else {
        assert(0real * f == 0real) by (nonlinear_arith);
    }
}

/// The product with a row that holds one at `i` and zero elsewhere is the
/// entry at `i`.
pub proof fn lemma_dot_unit(u: Seq<Exact>, v: Seq<Exact>, i: int, n: nat)
    requires
        n <= u.len(),
        forall|k: int|
            0 <= k < n ==> (#[trigger] u[k]).value == if k == i {
                1real
            } else {
                0real
            },
    ensures
        dot(u, v, n) == if 0 <= i < n {
            v[i].value
        } else {
            0real
        },
    decreases n,
{
    if n > 0 {
        lemma_dot_unit(u, v, i, (n - 1) as nat);
        lemma_products(v[n - 1].value);
    }
}

} // verus!
