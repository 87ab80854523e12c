//! Exact rational arithmetic on i128, with checked operations.
//!
//! Butcher tableaux are published as exact fractions. Keeping them exact lets
//! the order conditions be verified as identities instead of being measured
//! against a tolerance.
//!
//! A `Rational` is always in canonical form: numerator and denominator share
//! no factor and the denominator is positive. Every operation states the exact
//! value it produces, and since a value has only one canonical form
//! (`lemma_canonical_unique`), that statement fixes the result completely.
//! An operation returns `None` exactly when one of its intermediate quantities
//! leaves the open range `(i128::MIN, i128::MAX]`.

use vstd::prelude::*;
use crate::num::divisibility::{
    abs, canonical, coprime, divides, gcd_spec, lemma_canonical_unique, lemma_coprime_factors,
    lemma_coprime_product,
    lemma_gcd_commutes, lemma_gcd_divides, lemma_gcd_zero,
    lemma_reduced_parts, lemma_same_value_transitive, same_value,
};

verus! {

/// A canonical fraction `num / den`.
#[derive(Copy, Clone, Debug, PartialEq, Eq, Structural)]
pub struct Rational {
    num: i128,
    den: i128,
}

/// The largest magnitude an intermediate quantity may have.
pub open spec fn fits(x: int) -> bool {
    i128::MIN < x <= i128::MAX
}

/// `b` to the power `e`.
pub open spec fn power(b: int, e: nat) -> int
    decreases e,
{
    if e == 0 {
        1
    } else {
        b * power(b, (e - 1) as nat)
    }
}

/// Whether `checked_add` can carry out the sum of `a` and `b` in i128: the
/// common denominator, the two rescaled numerators and their sum must fit.
pub open spec fn add_fits(a: (int, int), b: (int, int)) -> bool {
    let g = gcd_spec(a.1 as nat, b.1 as nat) as int;
    let l = (a.1 / g) * b.1;
    let x = a.0 * (l / a.1);
    let y = b.0 * (l / b.1);
    &&& l <= i128::MAX
    &&& i128::MIN <= x <= i128::MAX
    &&& i128::MIN <= y <= i128::MAX
    &&& fits(x + y)
}

/// Whether the product of `a` and `b` fits once the factors common to a
/// numerator and the opposite denominator are cancelled.
pub open spec fn mul_fits(a: (int, int), b: (int, int)) -> bool {
    let g1 = gcd_spec(abs(a.0), abs(b.1)) as int;
    let g2 = gcd_spec(abs(b.0), abs(a.1)) as int;
    &&& fits((a.0 / g1) * (b.0 / g2))
    &&& fits((a.1 / g2) * (b.1 / g1))
}

/// The sum of two fractions, over the product of their denominators.
pub open spec fn sum_pair(a: (int, int), b: (int, int)) -> (int, int) {
    (a.0 * b.1 + b.0 * a.1, a.1 * b.1)
}

/// The difference of two fractions, over the product of their denominators.
pub open spec fn difference_pair(a: (int, int), b: (int, int)) -> (int, int) {
    (a.0 * b.1 - b.0 * a.1, a.1 * b.1)
}

/// The product of two fractions.
pub open spec fn product_pair(a: (int, int), b: (int, int)) -> (int, int) {
    (a.0 * b.0, a.1 * b.1)
}

/// The quotient of two fractions.
pub open spec fn quotient_pair(a: (int, int), b: (int, int)) -> (int, int) {
    (a.0 * b.1, a.1 * b.0)
}

/// The reciprocal of a nonzero canonical pair, again canonical.
pub open spec fn reciprocal(p: (int, int)) -> (int, int) {
    if p.0 < 0 {
        (-p.1, -p.0)
    } else {
        (p.1, p.0)
    }
}

/// Whether `checked_powi` can raise the canonical pair `p` to the power
/// `m`: zero always can, otherwise both powers must fit.
pub open spec fn pow_fits(p: (int, int), m: nat) -> bool {
    p.0 == 0 || (abs(power(p.0, m)) <= i128::MAX && power(p.1, m) <= i128::MAX)
}

/// The canonical form of `p` raised to the power `m`.
pub open spec fn power_pair(p: (int, int), m: nat) -> (int, int) {
    if p.0 == 0 && m > 0 {
        (0, 1)
    } else {
        (power(p.0, m), power(p.1, m))
    }
}

impl View for Rational {
    type V = (int, int);

    closed spec fn view(&self) -> (int, int) {
        (self.num as int, self.den as int)
    }
}

/// Greatest common divisor of the magnitudes, or 1 when both are zero.
fn gcd(a: i128, b: i128) -> (g: i128)
    requires
        a > i128::MIN,
        b > i128::MIN,
    ensures
        g > 0,
        (a != 0 || b != 0) ==> g == gcd_spec(abs(a as int), abs(b as int)),
        (a == 0 && b == 0) ==> g == 1,
{
    let mut x: i128 = if a < 0 { -a } else { a };
    let mut y: i128 = if b < 0 { -b } else { b };
    while y != 0
        invariant
            0 <= x,
            0 <= y,
            gcd_spec(x as nat, y as nat) == gcd_spec(abs(a as int), abs(b as int)),
        decreases y,
    {
        let t = x % y;
        x = y;
        y = t;
    }
    if x == 0 {
        proof {
            lemma_gcd_zero(abs(a as int), abs(b as int));
        }
        1
    } else {
        x
    }
}

/// Exact division of `n` by a positive divisor of it.
fn div_exact(n: i128, d: i128) -> (q: i128)
    requires
        d > 0,
        n > i128::MIN,
        divides(d as int, n as int),
    ensures
        n == d * q,
        abs(q as int) <= abs(n as int),
        q as int == n as int / d as int,
{
    let ghost k = choose|k: int| n == #[trigger] (d * k);
    proof {
        vstd::arithmetic::div_mod::lemma_div_multiples_vanish(k, d as int);
        if n < 0 {
            assert(-n == d * (-k)) by (nonlinear_arith)
                requires
                    n == d * k,
            ;
            vstd::arithmetic::div_mod::lemma_div_multiples_vanish(-k, d as int);
        }
        assert(abs(k) <= abs(n as int)) by (nonlinear_arith)
            requires
                n == d * k,
                d > 0,
        ;
    }
    n / d
}

proof fn lemma_divides_abs(d: int, n: int)
    requires
        divides(d, abs(n) as int),
    ensures
        divides(d, n),
{
    let k = choose|k: int| abs(n) as int == #[trigger] (d * k);
    if n < 0 {
        assert(n == d * (-k)) by (nonlinear_arith)
            requires
                -n == d * k,
        ;
    }
}

/// The canonical form of `num / den` as parts.
fn normalize(num: i128, den: i128) -> (r: (i128, i128))
    requires
        num > i128::MIN,
        den > i128::MIN,
        den != 0,
    ensures
        canonical((r.0 as int, r.1 as int)),
        r.0 > i128::MIN,
        same_value((r.0 as int, r.1 as int), (num as int, den as int)),
{
    let g = gcd(num, den);
    proof {
        let a = abs(num as int);
        let b = abs(den as int);
        lemma_reduced_parts(a, b);
        lemma_gcd_divides(a, b);
        lemma_divides_abs(g as int, num as int);
        lemma_divides_abs(g as int, den as int);
    }
    let n = div_exact(num, g);
    let d = div_exact(den, g);
    proof {
        let a = abs(num as int);
        let b = abs(den as int);
        vstd::arithmetic::div_mod::lemma_div_multiples_vanish(abs(n as int) as int, g as int);
        vstd::arithmetic::div_mod::lemma_div_multiples_vanish(abs(d as int) as int, g as int);
        assert(a == g * abs(n as int)) by (nonlinear_arith)
            requires
                num == g * n,
                a == abs(num as int),
                g > 0,
        ;
        assert(b == g * abs(d as int)) by (nonlinear_arith)
            requires
                den == g * d,
                b == abs(den as int),
                g > 0,
        ;
        assert(n * den == num * d) by (nonlinear_arith)
            requires
                num == g * n,
                den == g * d,
        ;
        assert(d != 0) by (nonlinear_arith)
            requires
                den == g * d,
                den != 0,
        ;
        assert(a / gcd_spec(a, b) == abs(n as int));
        assert(b / gcd_spec(a, b) == abs(d as int));
        assert((-n) * den == num * (-d)) by (nonlinear_arith)
            requires
                n * den == num * d,
        ;
    }
    if d < 0 {
        proof {
            assert(abs(-n as int) == abs(n as int));
            assert(abs(-d as int) == abs(d as int));
        }
        (-n, -d)
    } else {
        (n, d)
    }
}

/// The product `(an / ad) * (bn / bd)`, cross reduced first to keep the
/// intermediates small.
fn mul_parts(an: i128, ad: i128, bn: i128, bd: i128) -> (r: Option<Rational>)
    requires
        an > i128::MIN,
        ad > i128::MIN,
        bn > i128::MIN,
        bd > i128::MIN,
        ad != 0,
        bd != 0,
    ensures
        r is Some <==> mul_fits((an as int, ad as int), (bn as int, bd as int)),
        r matches Some(q) ==> q.wf() && same_value(q@, (an * bn, ad * bd)),
{
    let g1 = gcd(an, bd);
    let g2 = gcd(bn, ad);
    proof {
        lemma_gcd_divides(abs(an as int), abs(bd as int));
        lemma_gcd_divides(abs(bn as int), abs(ad as int));
        lemma_divides_abs(g1 as int, an as int);
        lemma_divides_abs(g1 as int, bd as int);
        lemma_divides_abs(g2 as int, bn as int);
        lemma_divides_abs(g2 as int, ad as int);
    }
    let n1 = div_exact(an, g1);
    let d2 = div_exact(bd, g1);
    let n2 = div_exact(bn, g2);
    let d1 = div_exact(ad, g2);
    let num = match n1.checked_mul(n2) {
        Some(v) => v,
        None => return None,
    };
    let den = match d1.checked_mul(d2) {
        Some(v) => v,
        None => return None,
    };
    if num == i128::MIN || den == i128::MIN {
        return None;
    }
    proof {
        assert(d1 != 0 && d2 != 0) by (nonlinear_arith)
            requires
                ad == g2 * d1,
                bd == g1 * d2,
                ad != 0,
                bd != 0,
        ;
        assert(den != 0) by (nonlinear_arith)
            requires
                den == d1 * d2,
                d1 != 0,
                d2 != 0,
        ;
        assert(num * (ad * bd) == (an * bn) * den) by (nonlinear_arith)
            requires
                an == g1 * n1,
                bd == g1 * d2,
                bn == g2 * n2,
                ad == g2 * d1,
                num == n1 * n2,
                den == d1 * d2,
        ;
    }
    let (n, d) = normalize(num, den);
    proof {
        lemma_same_value_transitive(
            (n as int, d as int),
            (num as int, den as int),
            (an * bn, ad * bd),
        );
    }
    Some(Rational { num: n, den: d })
}

proof fn lemma_gcd_one(x: nat)
    ensures
        gcd_spec(1, x) == 1,
        gcd_spec(x, 1) == 1,
{
    assert(x % 1 == 0);
    assert(gcd_spec(x, 1) == gcd_spec(1, 0));
    if x > 1 {
        assert(1nat % x == 1) by {
            vstd::arithmetic::div_mod::lemma_small_mod(1, x);
        }
        assert(gcd_spec(1, x) == gcd_spec(x, 1));
    } else if x == 1 {
        assert(gcd_spec(1, 1) == gcd_spec(1, 0));
    }
}

proof fn lemma_power_succ(x: int, k: nat)
    ensures
        power(x, k + 1) == power(x, k) * x,
{
    assert(power(x, k + 1) == x * power(x, k));
    assert(x * power(x, k) == power(x, k) * x) by (nonlinear_arith);
}

proof fn lemma_power_abs(x: int, k: nat)
    ensures
        abs(power(x, k)) == power(abs(x) as int, k),
    decreases k,
{
    if k > 0 {
        lemma_power_abs(x, (k - 1) as nat);
        let p = power(x, (k - 1) as nat);
        assert(abs(x * p) == abs(x) * abs(p)) by (nonlinear_arith);
    }
}

pub proof fn lemma_power_positive(x: int, k: nat)
    requires
        x > 0,
    ensures
        power(x, k) > 0,
    decreases k,
{
    if k > 0 {
        lemma_power_positive(x, (k - 1) as nat);
        let p = power(x, (k - 1) as nat);
        assert(x * p > 0) by (nonlinear_arith)
            requires
                x > 0,
                p > 0,
        ;
    }
}

pub proof fn lemma_power_monotone(x: int, k: nat, m: nat)
    requires
        x >= 1,
        k <= m,
    ensures
        power(x, k) <= power(x, m),
    decreases m,
{
    if k < m {
        lemma_power_monotone(x, k, (m - 1) as nat);
        lemma_power_positive(x, (m - 1) as nat);
        let p = power(x, (m - 1) as nat);
        assert(x * p >= p) by (nonlinear_arith)
            requires
                x >= 1,
                p > 0,
        ;
    }
}

proof fn lemma_coprime_power_left(a: nat, b: nat, k: nat)
    requires
        coprime(a, b),
    ensures
        coprime(power(a as int, k) as nat, b),
        power(a as int, k) >= 0,
    decreases k,
{
    if k == 0 {
        lemma_gcd_one(b);
    } else {
        lemma_coprime_power_left(a, b, (k - 1) as nat);
        let p = power(a as int, (k - 1) as nat);
        lemma_coprime_product(a, p as nat, b);
        assert(a * p >= 0) by (nonlinear_arith)
            requires
                p >= 0,
        ;
    }
}

proof fn lemma_coprime_powers(a: nat, b: nat, k: nat, j: nat)
    requires
        coprime(a, b),
    ensures
        coprime(power(a as int, k) as nat, power(b as int, j) as nat),
{
    lemma_coprime_power_left(a, b, k);
    let pa = power(a as int, k) as nat;
    lemma_gcd_commutes(pa, b);
    lemma_coprime_power_left(b, pa, j);
    lemma_gcd_commutes(power(b as int, j) as nat, pa);
}

impl Rational {
    /// Well formed: canonical, and the numerator can be negated.
    pub open spec fn wf(self) -> bool {
        canonical(self@) && self@.0 > i128::MIN
    }

    pub proof fn lemma_view_bounds(self)
        ensures
            i128::MIN <= self@.0 <= i128::MAX,
            i128::MIN <= self@.1 <= i128::MAX,
    {
    }

    /// Zero.
    pub fn zero() -> (r: Rational)
        ensures
            r.wf(),
            r@ == (0int, 1int),
    {
        proof {
            assert(gcd_spec(0, 1) == gcd_spec(1, 0));
        }
        Rational { num: 0, den: 1 }
    }

    /// One.
    pub fn one() -> (r: Rational)
        ensures
            r.wf(),
            r@ == (1int, 1int),
    {
        proof {
            assert(gcd_spec(1, 1) == gcd_spec(1, 0));
        }
        Rational { num: 1, den: 1 }
    }

    /// Build a normalized rational, `None` if the denominator is zero.
    pub fn new(num: i128, den: i128) -> (r: Option<Rational>)
        requires
            num > i128::MIN,
            den > i128::MIN,
        ensures
            r is None <==> den == 0,
            r matches Some(q) ==> q.wf() && same_value(q@, (num as int, den as int)),
    {
        if den == 0 {
            return None;
        }
        let (n, d) = normalize(num, den);
        Some(Rational { num: n, den: d })
    }

    /// The integer `n`. `i128::MIN` is left out, as by every rational here:
    /// negating it, or taking its absolute value as each reduction does,
    /// overflows.
    pub fn integer(n: i128) -> (r: Rational)
        requires
            n > i128::MIN,
        ensures
            r.wf(),
            r@ == (n as int, 1int),
    {
        proof {
            assert(gcd_spec(abs(n as int), 1) == gcd_spec(1, 0)) by {
                assert(abs(n as int) % 1 == 0);
            }
        }
        Rational { num: n, den: 1 }
    }

    pub fn numerator(self) -> (n: i128)
        ensures
            n == self@.0,
    {
        self.num
    }

    pub fn denominator(self) -> (d: i128)
        ensures
            d == self@.1,
    {
        self.den
    }

    pub fn is_zero(self) -> (b: bool)
        ensures
            b == (self@.0 == 0),
    {
        self.num == 0
    }

    pub fn checked_add(self, rhs: Rational) -> (r: Option<Rational>)
        requires
            self.wf(),
            rhs.wf(),
        ensures
            r is Some <==> add_fits(self@, rhs@),
            r matches Some(q) ==> q.wf() && same_value(q@, sum_pair(self@, rhs@)),
    {
        let g = gcd(self.den, rhs.den);
        let ghost ad = self.den as int;
        let ghost bd = rhs.den as int;
        proof {
            lemma_reduced_parts(ad as nat, bd as nat);
        }
        let ghost p = ad / (g as int);
        let ghost q = bd / (g as int);
        let a1 = self.den / g;
        let lcm = match a1.checked_mul(rhs.den) {
            Some(l) => l,
            None => return None,
        };
        proof {
            assert(lcm == p * g * q) by (nonlinear_arith)
                requires
                    lcm == p * bd,
                    bd == g * q,
            ;
            assert(lcm == ad * q) by (nonlinear_arith)
                requires
                    lcm == p * g * q,
                    ad == g * p,
            ;
            assert(lcm == bd * p) by (nonlinear_arith)
                requires
                    lcm == p * g * q,
                    bd == g * q,
            ;
            vstd::arithmetic::div_mod::lemma_div_multiples_vanish(q, ad);
            vstd::arithmetic::div_mod::lemma_div_multiples_vanish(p, bd);
        }
        let ma = lcm / self.den;
        let mb = lcm / rhs.den;
        let a = match self.num.checked_mul(ma) {
            Some(v) => v,
            None => return None,
        };
        let b = match rhs.num.checked_mul(mb) {
            Some(v) => v,
            None => return None,
        };
        let s = match a.checked_add(b) {
            Some(v) => v,
            None => return None,
        };
        if s == i128::MIN {
            return None;
        }
        proof {
            assert(lcm > 0) by (nonlinear_arith)
                requires
                    lcm == ad * q,
                    ad > 0,
                    q >= 1,
            ;
            let an = self@.0;
            let bn = rhs@.0;
            assert(s == an * q + bn * p);
            assert(an * bd + bn * ad == g * (an * q + bn * p)) by (nonlinear_arith)
                requires
                    ad == g * p,
                    bd == g * q,
            ;
            assert(ad * bd == g * lcm) by (nonlinear_arith)
                requires
                    lcm == p * g * q,
                    ad == g * p,
                    bd == g * q,
            ;
            assert(s * (ad * bd) == (an * bd + bn * ad) * lcm) by (nonlinear_arith)
                requires
                    an * bd + bn * ad == g * s,
                    ad * bd == g * lcm,
            ;
        }
        let (n, d) = normalize(s, lcm);
        proof {
            let an = self@.0;
            let bn = rhs@.0;
            lemma_same_value_transitive(
                (n as int, d as int),
                (s as int, lcm as int),
                (an * bd + bn * ad, ad * bd),
            );
        }
        Some(Rational { num: n, den: d })
    }

    pub fn neg(self) -> (r: Rational)
        requires
            self.wf(),
        ensures
            r.wf(),
            r@ == (-self@.0, self@.1),
    {
        proof {
            assert(abs(-self@.0) == abs(self@.0));
        }
        Rational { num: -self.num, den: self.den }
    }

    pub fn checked_sub(self, rhs: Rational) -> (r: Option<Rational>)
        requires
            self.wf(),
            rhs.wf(),
        ensures
            r is Some <==> add_fits(self@, (-rhs@.0, rhs@.1)),
            r matches Some(q) ==> q.wf() && same_value(q@, difference_pair(self@, rhs@)),
    {
        let r = self.checked_add(rhs.neg());
        proof {
            assert(-rhs@.0 * self@.1 == -(rhs@.0 * self@.1)) by (nonlinear_arith);
        }
        r
    }

    pub fn checked_mul(self, rhs: Rational) -> (r: Option<Rational>)
        requires
            self.wf(),
            rhs.wf(),
        ensures
            r is Some <==> mul_fits(self@, rhs@),
            r matches Some(q) ==> q.wf() && same_value(q@, product_pair(self@, rhs@)),
    {
        mul_parts(self.num, self.den, rhs.num, rhs.den)
    }

    pub fn checked_div(self, rhs: Rational) -> (r: Option<Rational>)
        requires
            self.wf(),
            rhs.wf(),
        ensures
            rhs@.0 == 0 ==> r is None,
            rhs@.0 != 0 ==> (r is Some <==> mul_fits(self@, (rhs@.1, rhs@.0))),
            r matches Some(q) ==> q.wf() && same_value(q@, quotient_pair(self@, rhs@)),
    {
        if rhs.num == 0 {
            return None;
        }
        mul_parts(self.num, self.den, rhs.den, rhs.num)
    }

    /// The reciprocal, through `checked_div` as the powers need it.
    fn recip(self) -> (r: Option<Rational>)
        requires
            self.wf(),
        ensures
            self@.0 == 0 <==> r is None,
            r matches Some(q) ==> q.wf() && q@ == reciprocal(self@),
    {
        let one = Rational::one();
        let r = one.checked_div(self);
        proof {
            if self@.0 != 0 {
                let p = self@;
                lemma_gcd_one(abs(p.1));
                lemma_gcd_one(abs(p.0));
                assert(abs(1int) == 1);
                assert(p.0 / 1 == p.0 && p.1 / 1 == p.1 && 1int / 1 == 1);
                assert(gcd_spec(abs(1int), abs(p.0)) == 1);
                assert(gcd_spec(abs(p.1), abs(1int)) == 1);
                assert(mul_fits((1int, 1int), (p.1, p.0)));
                let q = r->0;
                let rp = reciprocal(p);
                lemma_gcd_commutes(abs(p.0), p.1 as nat);
                assert(abs(rp.0) == p.1 && rp.1 as nat == abs(p.0));
                assert(canonical(rp));
                assert(same_value(q@, rp)) by (nonlinear_arith)
                    requires
                        q@.0 * p.0 == 1 * p.1 * q@.1,
                        rp == reciprocal(p),
                        p.0 != 0,
                ;
                lemma_canonical_unique(q@, rp);
            }
        }
        r
    }

    /// One more factor of the base: `acc * base` with `acc` the `i`-th power.
    proof fn lemma_power_step(acc: Rational, base: Rational, i: nat)
        requires
            acc.wf(),
            base.wf(),
            acc@ == power_pair(base@, i),
        ensures
            mul_fits(acc@, base@) <==> pow_fits(base@, i + 1),
            pow_fits(base@, i + 1) ==> pow_fits(base@, i),
            canonical(power_pair(base@, i + 1)),
            same_value(power_pair(base@, i + 1), (acc@.0 * base@.0, acc@.1 * base@.1)),
    {
        let b = base@;
        lemma_power_succ(b.0, i);
        lemma_power_succ(b.1, i);
        if b.0 == 0 {
            assert((0nat) % (b.1 as nat) == 0);
            assert(gcd_spec(0, b.1 as nat) == gcd_spec(b.1 as nat, 0));
            assert(b.1 == 1);
            lemma_gcd_one(0);
            lemma_gcd_one(1);
            if i == 0 {
                assert(acc@ == (1int, 1int));
            }
        } else {
            lemma_coprime_powers(abs(b.0), b.1 as nat, i, 1);
            lemma_coprime_powers(abs(b.0), b.1 as nat, 1, i);
            lemma_coprime_powers(abs(b.0), b.1 as nat, i + 1, i + 1);
            lemma_power_abs(b.0, i);
            lemma_power_abs(b.0, 1);
            lemma_power_abs(b.0, i + 1);
            lemma_power_positive(b.1, i);
            lemma_power_positive(b.1, 1);
            lemma_power_positive(b.1, i + 1);
            assert(power(b.0, 0) == 1);
            assert(power(b.1, 0) == 1);
            assert(power(abs(b.0) as int, 0) == 1);
            assert(power(b.0, 1) == b.0 * 1);
            assert(power(b.1, 1) == b.1 * 1);
            assert(power(abs(b.0) as int, 1) == abs(b.0) * 1);
            assert(gcd_spec(abs(acc@.0), abs(b.1)) == 1);
            assert(gcd_spec(abs(b.0), abs(acc@.1)) == 1);
            assert(acc@.0 / 1 == acc@.0);
            assert(b.0 / 1 == b.0);
            assert(acc@.1 / 1 == acc@.1);
            assert(b.1 / 1 == b.1);
            lemma_power_monotone(abs(b.0) as int, i, i + 1);
            lemma_power_monotone(b.1, i, i + 1);
            assert(abs(power(b.0, i + 1)) == abs(acc@.0 * b.0)) by {
                assert(power(b.0, i + 1) == power(b.0, i) * b.0);
            }
            assert(abs(acc@.0 * b.0) == abs(acc@.0) * abs(b.0)) by (nonlinear_arith);
            lemma_power_monotone(abs(b.0) as int, 0, i);
            assert(abs(acc@.0) * abs(b.0) >= 1) by (nonlinear_arith)
                requires
                    abs(acc@.0) >= 1,
                    abs(b.0) >= 1,
            ;
        }
    }

    /// Raise to an integer power; a negative power inverts first.
    pub fn checked_powi(self, n: i32) -> (r: Option<Rational>)
        requires
            self.wf(),
        ensures
            ({
                let base = if n < 0 { reciprocal(self@) } else { self@ };
                let m = abs(n as int);
                &&& (n < 0 && self@.0 == 0) ==> r is None
                &&& !(n < 0 && self@.0 == 0) ==> (r is Some <==> pow_fits(base, m))
                &&& r matches Some(q) ==> q.wf() && q@ == power_pair(base, m)
            }),
    {
        let base = if n < 0 {
            match self.recip() {
                Some(b) => b,
                None => return None,
            }
        } else {
            self
        };
        let m: u32 = if n < 0 { (-(n as i64)) as u32 } else { n as u32 };
        let mut acc = Rational::one();
        let mut i: u32 = 0;
        proof {
            assert(power_pair(base@, 0) == (1int, 1int));
        }
        while i < m
            invariant
                base.wf(),
                acc.wf(),
                i <= m,
                acc@ == power_pair(base@, i as nat),
                pow_fits(base@, i as nat) || i == 0,
                m == abs(n as int),
                base@ == (if n < 0 { reciprocal(self@) } else { self@ }),
            decreases m - i,
        {
            proof {
                Rational::lemma_power_step(acc, base, i as nat);
            }
            let next = acc.checked_mul(base);
            match next {
                Some(v) => {
                    proof {
                        let x = (acc@.0 * base@.0, acc@.1 * base@.1);
                        let pp = power_pair(base@, (i + 1) as nat);
                        assert(acc@.1 * base@.1 != 0) by (nonlinear_arith)
                            requires
                                acc@.1 > 0,
                                base@.1 > 0,
                        ;
                        lemma_same_value_transitive(v@, x, pp);
                        lemma_canonical_unique(v@, pp);
                    }
                    acc = v;
                },
                None => {
                    proof {
                        assert(!mul_fits(acc@, base@));
                        assert(!pow_fits(base@, (i + 1) as nat));
                        Rational::lemma_fits_stops(base, (i + 1) as nat, m as nat);
                        assert(!pow_fits(base@, m as nat));
                        assert(m as nat == abs(n as int));
                    }
                    return None;
                },
            }
            i = i + 1;
        }
        proof {
            if m == 0 {
                assert(pow_fits(base@, 0)) by {
                    assert(power(base@.0, 0) == 1);
                    assert(power(base@.1, 0) == 1);
                }
            }
        }
        Some(acc)
    }

    /// Once a power no longer fits, no higher power does.
    proof fn lemma_fits_stops(base: Rational, k: nat, m: nat)
        requires
            base.wf(),
            k <= m,
            !pow_fits(base@, k),
        ensures
            !pow_fits(base@, m),
    {
        let b = base@;
        lemma_power_abs(b.0, k);
        lemma_power_abs(b.0, m);
        lemma_power_monotone(abs(b.0) as int, k, m);
        lemma_power_monotone(b.1, k, m);
    }
}

/// Two integers multiply without fault exactly when their product fits, and
/// the product is again an integer.
pub proof fn lemma_integer_product(a: (int, int), b: (int, int))
    requires
        a.1 == 1,
        b.1 == 1,
    ensures
        mul_fits(a, b) <==> fits(a.0 * b.0),
        product_pair(a, b) == (a.0 * b.0, 1int),
{
    lemma_gcd_one(abs(a.0));
    lemma_gcd_one(abs(b.0));
    assert(abs(1int) == 1);
    assert(a.0 / 1 == a.0 && b.0 / 1 == b.0 && 1int / 1 == 1);
    assert(gcd_spec(abs(a.0), abs(b.1)) == 1);
    assert(gcd_spec(abs(b.0), abs(a.1)) == 1);
}

/// A canonical rational whose value is an integer is that integer over one.
pub proof fn lemma_integer_value(q: Rational, n: int)
    requires
        q.wf(),
        same_value(q@, (n, 1)),
    ensures
        q@ == (n, 1int),
{
    lemma_gcd_one(abs(n));
    lemma_canonical_unique(q@, (n, 1));
}

/// Equal views are equal rationals.
proof fn lemma_view_injective(x: Rational, y: Rational)
    requires
        x@ == y@,
    ensures
        x == y,
{
}

/// Two canonical results of the same value are the same rational.
pub proof fn law_value_determines_result(x: Rational, y: Rational)
    requires
        x.wf(),
        y.wf(),
        same_value(x@, y@),
    ensures
        x == y,
{
    lemma_canonical_unique(x@, y@);
    lemma_view_injective(x, y);
}

/// Addition commutes: `a + b` succeeds exactly when `b + a` does, and then
/// both give the same rational.
pub proof fn law_add_commutes(a: Rational, b: Rational, x: Rational, y: Rational)
    requires
        a.wf(),
        b.wf(),
        x.wf(),
        y.wf(),
        same_value(x@, sum_pair(a@, b@)),
        same_value(y@, sum_pair(b@, a@)),
    ensures
        add_fits(a@, b@) == add_fits(b@, a@),
        x == y,
{
    let ad = a@.1;
    let bd = b@.1;
    lemma_gcd_commutes(ad as nat, bd as nat);
    lemma_reduced_parts(ad as nat, bd as nat);
    let g = gcd_spec(ad as nat, bd as nat) as int;
    let p = ad / g;
    let q = bd / g;
    assert(p * bd == q * ad) by (nonlinear_arith)
        requires
            ad == g * p,
            bd == g * q,
    ;
    assert(sum_pair(a@, b@) == sum_pair(b@, a@)) by (nonlinear_arith);
    assert(sum_pair(a@, b@).1 != 0) by (nonlinear_arith)
        requires
            ad > 0,
            bd > 0,
            sum_pair(a@, b@).1 == ad * bd,
    ;
    lemma_same_value_transitive(x@, sum_pair(a@, b@), y@);
    law_value_determines_result(x, y);
}

/// Multiplication commutes in the same sense as addition.
pub proof fn law_mul_commutes(a: Rational, b: Rational, x: Rational, y: Rational)
    requires
        a.wf(),
        b.wf(),
        x.wf(),
        y.wf(),
        same_value(x@, product_pair(a@, b@)),
        same_value(y@, product_pair(b@, a@)),
    ensures
        mul_fits(a@, b@) == mul_fits(b@, a@),
        x == y,
{
    assert(product_pair(a@, b@) == product_pair(b@, a@)) by (nonlinear_arith);
    assert(product_pair(a@, b@).1 != 0) by (nonlinear_arith)
        requires
            a@.1 > 0,
            b@.1 > 0,
            product_pair(a@, b@).1 == a@.1 * b@.1,
    ;
    let g1 = gcd_spec(abs(a@.0), abs(b@.1)) as int;
    let g2 = gcd_spec(abs(b@.0), abs(a@.1)) as int;
    assert((a@.0 / g1) * (b@.0 / g2) == (b@.0 / g2) * (a@.0 / g1)) by (nonlinear_arith);
    assert((a@.1 / g2) * (b@.1 / g1) == (b@.1 / g1) * (a@.1 / g2)) by (nonlinear_arith);
    lemma_same_value_transitive(x@, product_pair(a@, b@), y@);
    law_value_determines_result(x, y);
}

/// Subtraction undoes addition: `(a + b) - b == a` whenever both succeed.
pub proof fn law_sub_undoes_add(a: Rational, b: Rational, x: Rational, y: Rational)
    requires
        a.wf(),
        b.wf(),
        x.wf(),
        y.wf(),
        same_value(x@, sum_pair(a@, b@)),
        same_value(y@, difference_pair(x@, b@)),
    ensures
        y == a,
{
    let (an, ad) = a@;
    let (bn, bd) = b@;
    let (xn, xd) = x@;
    let (yn, yd) = y@;
    assert((xn * bd - bn * xd) * ad == xn * (ad * bd) - bn * ad * xd) by (nonlinear_arith);
    assert((an * bd + bn * ad) * xd == an * bd * xd + bn * ad * xd) by (nonlinear_arith);
    assert((xn * bd - bn * xd) * ad == an * bd * xd);
    assert((xd * bd) * (yn * ad) == (yn * (xd * bd)) * ad) by (nonlinear_arith);
    assert((yn * (xd * bd)) * ad == ((xn * bd - bn * xd) * yd) * ad);
    assert(((xn * bd - bn * xd) * yd) * ad == ((xn * bd - bn * xd) * ad) * yd) by (nonlinear_arith);
    assert(((xn * bd - bn * xd) * ad) * yd == (an * bd * xd) * yd);
    assert((an * bd * xd) * yd == (xd * bd) * (an * yd)) by (nonlinear_arith);
    assert(xd * bd != 0) by (nonlinear_arith)
        requires
            xd > 0,
            bd > 0,
    ;
    vstd::arithmetic::mul::lemma_mul_equality_converse(xd * bd, yn * ad, an * yd);
    law_value_determines_result(y, a);
}

/// Multiplication undoes division: `(a / b) * b == a` whenever both succeed.
pub proof fn law_mul_undoes_div(a: Rational, b: Rational, x: Rational, y: Rational)
    requires
        a.wf(),
        b.wf(),
        x.wf(),
        y.wf(),
        b@.0 != 0,
        same_value(x@, quotient_pair(a@, b@)),
        same_value(y@, product_pair(x@, b@)),
    ensures
        y == a,
{
    let (an, ad) = a@;
    let (bn, bd) = b@;
    let (xn, xd) = x@;
    let (yn, yd) = y@;
    assert((xd * bd) * (yn * ad) == (yn * (xd * bd)) * ad) by (nonlinear_arith);
    assert((yn * (xd * bd)) * ad == ((xn * bn) * yd) * ad);
    assert(((xn * bn) * yd) * ad == (xn * (ad * bn)) * yd) by (nonlinear_arith);
    assert((xn * (ad * bn)) * yd == ((an * bd) * xd) * yd);
    assert(((an * bd) * xd) * yd == (xd * bd) * (an * yd)) by (nonlinear_arith);
    assert(xd * bd != 0) by (nonlinear_arith)
        requires
            xd > 0,
            bd > 0,
    ;
    vstd::arithmetic::mul::lemma_mul_equality_converse(xd * bd, yn * ad, an * yd);
    law_value_determines_result(y, a);
}

/// A number that is `g` times `k` in size divides by `g` exactly, leaving
/// a quotient of size `k`.
proof fn lemma_exact_quotient(p: int, g: int, k: nat)
    requires
        g > 0,
        abs(p) == g * k,
    ensures
        p == g * (p / g),
        abs(p / g) == k,
{
    if p >= 0 {
        vstd::arithmetic::div_mod::lemma_div_multiples_vanish(k as int, g);
    } else {
        assert(p == g * (-(k as int))) by (nonlinear_arith)
            requires
                -p == g * k,
        ;
        vstd::arithmetic::div_mod::lemma_div_multiples_vanish(-(k as int), g);
    }
}

/// A quotient times its divisor always fits and gives back the dividend:
/// where `a / b` succeeds with `x`, `x * b` succeeds, and every canonical
/// result of it is `a`.
pub proof fn law_quotient_times_divisor(a: Rational, b: Rational, x: Rational)
    requires
        a.wf(),
        b.wf(),
        x.wf(),
        b@.0 != 0,
        same_value(x@, quotient_pair(a@, b@)),
    ensures
        mul_fits(x@, b@),
        forall|y: Rational| #![trigger same_value(y@, product_pair(x@, b@))]
            y.wf() && same_value(y@, product_pair(x@, b@)) ==> y == a,
{
    let (p, q) = x@;
    let (m, n) = b@;
    let (a0, a1) = a@;
    a.lemma_view_bounds();
    assert(abs(n) == n && abs(q) == q);
    let g1 = gcd_spec(abs(p), abs(n)) as int;
    let g2 = gcd_spec(abs(m), abs(q)) as int;
    lemma_reduced_parts(abs(p), abs(n));
    lemma_reduced_parts(abs(m), abs(q));
    let a1n = (abs(p) as int / g1) as nat;
    let b1n = (abs(n) as int / g1) as nat;
    let a2n = (abs(m) as int / g2) as nat;
    let b2n = (abs(q) as int / g2) as nat;
    lemma_exact_quotient(p, g1, a1n);
    lemma_exact_quotient(n, g1, b1n);
    lemma_exact_quotient(m, g2, a2n);
    lemma_exact_quotient(q, g2, b2n);
    let pp = p / g1;
    let nn = n / g1;
    let mm = m / g2;
    let qq = q / g2;
    // The cross reduced factors pair up coprime.
    lemma_coprime_factors(abs(p), q as nat, g1 as nat, g2 as nat, a1n, b2n);
    lemma_coprime_factors(abs(m), n as nat, g2 as nat, g1 as nat, a2n, b1n);
    lemma_coprime_product(a1n, a2n, b2n);
    lemma_coprime_product(a1n, a2n, b1n);
    lemma_gcd_commutes(a1n * a2n, b2n);
    lemma_gcd_commutes(a1n * a2n, b1n);
    lemma_coprime_product(b2n, b1n, a1n * a2n);
    lemma_gcd_commutes(b2n * b1n, a1n * a2n);
    assert(qq > 0 && nn > 0) by (nonlinear_arith)
        requires
            q == g2 * qq,
            n == g1 * nn,
            g1 > 0,
            g2 > 0,
            q > 0,
            n > 0,
    ;
    assert(abs(pp * mm) == a1n * a2n) by (nonlinear_arith)
        requires
            abs(pp) == a1n,
            abs(mm) == a2n,
    ;
    assert(qq * nn == b2n * b1n);
    assert(coprime(b2n * b1n, a1n * a2n));
    assert(coprime(a1n * a2n, b2n * b1n));
    assert(abs(pp * mm) == a1n * a2n);
    assert(((qq * nn) as nat) == b2n * b1n);
    assert(coprime(abs(pp * mm), (qq * nn) as nat));
    assert(qq * nn > 0) by (nonlinear_arith)
        requires
            qq > 0,
            nn > 0,
    ;
    assert(canonical((pp * mm, qq * nn)));
    // It has the value of the dividend.
    assert((pp * mm) * a1 == a0 * (qq * nn)) by (nonlinear_arith)
        requires
            p * (a1 * m) == (a0 * n) * q,
            p == g1 * pp,
            n == g1 * nn,
            m == g2 * mm,
            q == g2 * qq,
            g1 > 0,
            g2 > 0,
    ;
    lemma_canonical_unique((pp * mm, qq * nn), a@);
    assert forall|y: Rational| #![trigger same_value(y@, product_pair(x@, b@))]
        y.wf() && same_value(y@, product_pair(x@, b@)) implies y == a by {
        law_mul_undoes_div(a, b, x, y);
    }
}

/// Multiplying by one always succeeds and gives the same rational back;
/// multiplying by zero always succeeds and gives zero.
pub proof fn law_mul_by_one_and_zero(a: Rational, x: Rational, y: Rational)
    requires
        a.wf(),
        x.wf(),
        y.wf(),
        same_value(x@, product_pair(a@, (1, 1))),
        same_value(y@, product_pair(a@, (0, 1))),
    ensures
        mul_fits(a@, (1, 1)),
        mul_fits(a@, (0, 1)),
        x == a,
        y@ == (0int, 1int),
{
    let (an, ad) = a@;
    let n = abs(an) as nat;
    let d = ad as nat;
    assert(gcd_spec(n, 1) == gcd_spec(1, 0));
    if d > 1 {
        vstd::arithmetic::div_mod::lemma_small_mod(1, d);
        assert(gcd_spec(1, d) == gcd_spec(d, 1));
        assert(gcd_spec(d, 1) == gcd_spec(1, 0));
    } else {
        assert(gcd_spec(1, 1) == gcd_spec(1, 0));
    }
    assert(gcd_spec(0, d) == gcd_spec(d, 0));
    assert(ad / ad == 1) by (nonlinear_arith)
        requires
            ad > 0,
    ;
    assert(abs(ad) == ad && abs(1) == 1 && abs(0) == 0);
    assert(gcd_spec(abs(an) as nat, abs(1) as nat) == 1);
    assert(gcd_spec(abs(1) as nat, abs(ad) as nat) == 1);
    assert(an / 1 == an && ad / 1 == ad && 1int / 1 == 1);
    assert(gcd_spec(abs(0) as nat, abs(ad) as nat) == ad);
    assert(0int / ad == 0) by (nonlinear_arith)
        requires
            ad > 0,
    ;
    assert(product_pair(a@, (1, 1)) == a@);
    law_value_determines_result(x, a);
    assert(y@.0 == 0) by (nonlinear_arith)
        requires
            y@.0 * ad == 0 * y@.1,
            ad > 0,
    ;
    assert(gcd_spec(0, 1) == gcd_spec(1, 0));
    assert(canonical((0, 1)));
    lemma_canonical_unique(y@, (0, 1));
}

/// Negation is an involution.
pub proof fn law_neg_involution(a: Rational, x: Rational, y: Rational)
    requires
        a.wf(),
        x@ == (-a@.0, a@.1),
        y@ == (-x@.0, x@.1),
    ensures
        y == a,
{
    lemma_view_injective(y, a);
}

/// Scaling numerator and denominator by the same nonzero factor does not
/// change the rational that `new` builds.
pub proof fn law_new_ignores_common_factors(n: int, d: int, k: int, x: Rational, y: Rational)
    requires
        d != 0,
        k != 0,
        x.wf(),
        y.wf(),
        same_value(x@, (n, d)),
        same_value(y@, (n * k, d * k)),
    ensures
        x == y,
{
    assert(same_value((n, d), (n * k, d * k))) by (nonlinear_arith);
    lemma_same_value_transitive(x@, (n, d), (n * k, d * k));
    assert(same_value((n * k, d * k), y@));
    assert(d * k != 0) by (nonlinear_arith)
        requires
            d != 0,
            k != 0,
    ;
    lemma_same_value_transitive(x@, (n * k, d * k), y@);
    law_value_determines_result(x, y);
}

} // verus!
