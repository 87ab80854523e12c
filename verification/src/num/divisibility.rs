//! Divisibility, greatest common divisors and Bezout's identity.
//!
//! The canonical form of a rational, numerator and denominator without a
//! common factor and a positive denominator, rests on two facts proved here:
//! dividing by the greatest common divisor leaves coprime parts, and a
//! fraction has only one coprime representation.

use vstd::prelude::*;
use vstd::arithmetic::div_mod::*;
use vstd::arithmetic::mul::*;

verus! {

/// Absolute value.
pub open spec fn abs(x: int) -> nat {
    if x < 0 { (-x) as nat } else { x as nat }
}

/// `d` divides `n`: `n` is an integer multiple of `d`.
pub open spec fn divides(d: int, n: int) -> bool {
    exists|k: int| n == #[trigger] (d * k)
}

/// Greatest common divisor by Euclid's algorithm, with `gcd(0, 0) == 0`.
pub open spec fn gcd_spec(a: nat, b: nat) -> nat
    decreases b,
{
    if b == 0 {
        a
    } else {
        gcd_spec(b, a % b)
    }
}

/// The coefficients `(x, y)` of Bezout's identity `a x + b y == gcd(a, b)`,
/// by the extended Euclidean algorithm.
pub open spec fn bezout(a: nat, b: nat) -> (int, int)
    decreases b,
{
    if b == 0 {
        (1, 0)
    } else {
        let (x, y) = bezout(b, a % b);
        (y, x - (a / b) as int * y)
    }
}

/// A pair in lowest terms with a positive second component.
pub open spec fn coprime(a: nat, b: nat) -> bool {
    gcd_spec(a, b) == 1
}

pub proof fn lemma_bezout(a: nat, b: nat)
    ensures
        a * bezout(a, b).0 + b * bezout(a, b).1 == gcd_spec(a, b),
    decreases b,
{
    if b != 0 {
        let q = (a / b) as int;
        let r = (a % b) as int;
        lemma_bezout(b, (a % b) as nat);
        let (x, y) = bezout(b, (a % b) as nat);
        lemma_fundamental_div_mod(a as int, b as int);
        assert(a as int == b * q + r);
        assert(a * y + b * (x - q * y) == b * x + r * y) by (nonlinear_arith)
            requires
                a as int == b * q + r,
        ;
    }
}

pub proof fn lemma_divides_refl_zero(d: int)
    ensures
        divides(d, d),
        divides(d, 0),
{
    assert(d == d * 1);
    assert(0 == d * 0);
}

/// A common divisor divides every integer combination.
pub proof fn lemma_divides_combination(d: int, a: int, b: int, x: int, y: int)
    requires
        divides(d, a),
        divides(d, b),
    ensures
        divides(d, a * x + b * y),
{
    let k1 = choose|k: int| a == #[trigger] (d * k);
    let k2 = choose|k: int| b == #[trigger] (d * k);
    assert(a * x + b * y == d * (k1 * x + k2 * y)) by (nonlinear_arith)
        requires
            a == d * k1,
            b == d * k2,
    ;
}

pub proof fn lemma_gcd_divides(a: nat, b: nat)
    ensures
        divides(gcd_spec(a, b) as int, a as int),
        divides(gcd_spec(a, b) as int, b as int),
    decreases b,
{
    if b == 0 {
        lemma_divides_refl_zero(a as int);
    } else {
        let g = gcd_spec(a, b) as int;
        lemma_gcd_divides(b, (a % b) as nat);
        lemma_fundamental_div_mod(a as int, b as int);
        let q = (a / b) as int;
        let r = (a % b) as int;
        assert(a as int == b * q + r);
        lemma_divides_combination(g, b as int, r, q, 1);
        assert(b * q + r * 1 == a as int) by (nonlinear_arith)
            requires
                a as int == b * q + r,
        ;
    }
}

pub proof fn lemma_gcd_positive(a: nat, b: nat)
    requires
        a > 0 || b > 0,
    ensures
        gcd_spec(a, b) > 0,
    decreases b,
{
    if b != 0 {
        lemma_gcd_positive(b, (a % b) as nat);
    }
}

pub proof fn lemma_gcd_zero(a: nat, b: nat)
    requires
        gcd_spec(a, b) == 0,
    ensures
        a == 0 && b == 0,
{
    if a > 0 || b > 0 {
        lemma_gcd_positive(a, b);
    }
}

/// A positive divisor of a positive number is no larger than it.
pub proof fn lemma_divisor_bounded(d: int, n: int)
    requires
        d > 0,
        n > 0,
        divides(d, n),
    ensures
        d <= n,
{
    let k = choose|k: int| n == #[trigger] (d * k);
    if k <= 0 {
        assert(d * k <= 0) by (nonlinear_arith)
            requires
                d > 0,
                k <= 0,
        ;
    } else {
        assert(d * k >= d) by (nonlinear_arith)
            requires
                d > 0,
                k >= 1,
        ;
    }
}

/// Every common divisor divides the greatest one.
pub proof fn lemma_common_divisor_divides_gcd(d: int, a: nat, b: nat)
    requires
        divides(d, a as int),
        divides(d, b as int),
    ensures
        divides(d, gcd_spec(a, b) as int),
{
    lemma_bezout(a, b);
    let (x, y) = bezout(a, b);
    lemma_divides_combination(d, a as int, b as int, x, y);
}

pub proof fn lemma_gcd_commutes(a: nat, b: nat)
    ensures
        gcd_spec(a, b) == gcd_spec(b, a),
{
    let g1 = gcd_spec(a, b);
    let g2 = gcd_spec(b, a);
    if a == 0 && b == 0 {
        assert(gcd_spec(0, 0) == 0);
    } else {
        lemma_gcd_positive(a, b);
        lemma_gcd_positive(b, a);
        lemma_gcd_divides(a, b);
        lemma_gcd_divides(b, a);
        lemma_common_divisor_divides_gcd(g1 as int, b, a);
        lemma_common_divisor_divides_gcd(g2 as int, a, b);
        lemma_divisor_bounded(g1 as int, g2 as int);
        lemma_divisor_bounded(g2 as int, g1 as int);
    }
}

/// A combination equal to one makes a pair coprime.
pub proof fn lemma_coprime_by_combination(a: nat, b: nat, x: int, y: int)
    requires
        a * x + b * y == 1,
    ensures
        coprime(a, b),
{
    let g = gcd_spec(a, b);
    if a == 0 && b == 0 {
        assert(a * x + b * y == 0) by (nonlinear_arith)
            requires
                a == 0 && b == 0,
        ;
    }
    lemma_gcd_positive(a, b);
    lemma_gcd_divides(a, b);
    lemma_divides_combination(g as int, a as int, b as int, x, y);
    lemma_divisor_bounded(g as int, 1);
}

/// Dividing both parts by their greatest common divisor leaves them coprime.
pub proof fn lemma_reduced_parts(a: nat, b: nat)
    requires
        a > 0 || b > 0,
    ensures
        gcd_spec(a, b) > 0,
        a == gcd_spec(a, b) * (a / gcd_spec(a, b)),
        b == gcd_spec(a, b) * (b / gcd_spec(a, b)),
        coprime(a / gcd_spec(a, b), b / gcd_spec(a, b)),
{
    let g = gcd_spec(a, b);
    lemma_gcd_positive(a, b);
    lemma_gcd_divides(a, b);
    let k1 = choose|k: int| a == #[trigger] (g * k);
    let k2 = choose|k: int| b == #[trigger] (g * k);
    lemma_div_multiples_vanish(k1, g as int);
    lemma_div_multiples_vanish(k2, g as int);
    assert(k1 >= 0) by (nonlinear_arith)
        requires
            a == g * k1,
            g > 0,
    ;
    assert(k2 >= 0) by (nonlinear_arith)
        requires
            b == g * k2,
            g > 0,
    ;
    lemma_bezout(a, b);
    let (x, y) = bezout(a, b);
    assert(g * (k1 * x + k2 * y) == g * 1) by (nonlinear_arith)
        requires
            a == g * k1,
            b == g * k2,
            a * x + b * y == g,
    ;
    lemma_mul_equality_converse(g as int, k1 * x + k2 * y, 1);
    lemma_coprime_by_combination(k1 as nat, k2 as nat, x, y);
}

/// Euclid's lemma: a divisor coprime to one factor divides the other.
pub proof fn lemma_euclid(d: nat, a: nat, b: int)
    requires
        d > 0,
        coprime(d, a),
        divides(d as int, a * b),
    ensures
        divides(d as int, b),
{
    lemma_bezout(d, a);
    let (x, y) = bezout(d, a);
    let k = choose|k: int| a * b == #[trigger] (d * k);
    assert(b == d * (b * x + k * y)) by (nonlinear_arith)
        requires
            d * x + a * y == 1,
            a * b == d * k,
    ;
}

/// Coprimality is kept under products.
pub proof fn lemma_coprime_product(a: nat, c: nat, b: nat)
    requires
        coprime(a, b),
        coprime(c, b),
    ensures
        coprime(a * c, b),
{
    lemma_bezout(a, b);
    lemma_bezout(c, b);
    let (x, y) = bezout(a, b);
    let (u, v) = bezout(c, b);
    assert((a * c) * (x * u) + b * (a * x * v + y * c * u + y * b * v) == 1) by (nonlinear_arith)
        requires
            a * x + b * y == 1,
            c * u + b * v == 1,
    ;
    lemma_coprime_by_combination((a * c) as nat, b, x * u, a * x * v + y * c * u + y * b * v);
}

/// Factors of two coprime numbers are coprime.
pub proof fn lemma_coprime_factors(a: nat, b: nat, g: nat, h: nat, a2: nat, b2: nat)
    requires
        coprime(a, b),
        a == g * a2,
        b == h * b2,
    ensures
        coprime(a2, b2),
{
    lemma_bezout(a, b);
    let (x, y) = bezout(a, b);
    assert(a2 * (g * x) + b2 * (h * y) == 1) by (nonlinear_arith)
        requires
            a * x + b * y == gcd_spec(a, b),
            gcd_spec(a, b) == 1,
            a == g * a2,
            b == h * b2,
    ;
    lemma_coprime_by_combination(a2, b2, g * x, h * y);
}

/// A fraction in lowest terms with a positive denominator.
pub open spec fn canonical(p: (int, int)) -> bool {
    p.1 > 0 && coprime(abs(p.0), p.1 as nat)
}

/// Two pairs denote the same fraction.
pub open spec fn same_value(p: (int, int), q: (int, int)) -> bool {
    p.0 * q.1 == q.0 * p.1
}

/// A fraction has exactly one canonical representation.
pub proof fn lemma_canonical_unique(p: (int, int), q: (int, int))
    requires
        canonical(p),
        canonical(q),
        same_value(p, q),
    ensures
        p == q,
{
    let a1 = abs(p.0);
    let a2 = abs(q.0);
    let d1 = p.1 as nat;
    let d2 = q.1 as nat;
    assert(a1 * d2 == a2 * d1) by (nonlinear_arith)
        requires
            p.0 * q.1 == q.0 * p.1,
            a1 == abs(p.0),
            a2 == abs(q.0),
            d1 == p.1,
            d2 == q.1,
            d1 > 0,
            d2 > 0,
    ;
    lemma_gcd_commutes(a1, d1);
    lemma_gcd_commutes(a2, d2);
    assert(divides(d1 as int, (a1 * d2) as int)) by {
        assert(a1 * d2 == d1 * a2) by (nonlinear_arith)
            requires
                a1 * d2 == a2 * d1,
        ;
    }
    lemma_euclid(d1, a1, d2 as int);
    assert(divides(d2 as int, (a2 * d1) as int)) by {
        assert(a2 * d1 == d2 * a1) by (nonlinear_arith)
            requires
                a1 * d2 == a2 * d1,
        ;
    }
    lemma_euclid(d2, a2, d1 as int);
    lemma_divisor_bounded(d1 as int, d2 as int);
    lemma_divisor_bounded(d2 as int, d1 as int);
    assert(d1 == d2);
    assert(p.1 * p.0 == p.1 * q.0) by (nonlinear_arith)
        requires
            p.0 * q.1 == q.0 * p.1,
            p.1 == q.1,
    ;
    lemma_mul_equality_converse(p.1, p.0, q.0);
}

/// Same value is an equivalence on pairs with nonzero second components.
pub proof fn lemma_same_value_transitive(p: (int, int), q: (int, int), r: (int, int))
    requires
        q.1 != 0,
        same_value(p, q),
        same_value(q, r),
    ensures
        same_value(p, r),
{
    assert(q.1 * (p.0 * r.1) == q.1 * (r.0 * p.1)) by (nonlinear_arith)
        requires
            p.0 * q.1 == q.0 * p.1,
            q.0 * r.1 == r.0 * q.1,
    ;
    lemma_mul_equality_converse(q.1, p.0 * r.1, r.0 * p.1);
}

} // verus!
