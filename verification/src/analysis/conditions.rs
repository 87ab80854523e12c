//! The rooted tree order conditions of a Runge-Kutta method, checked in exact
//! rational arithmetic.
//!
//! A method with coefficients `A` and weights `b` has order `p` when every
//! tree `t` with at most `p` nodes satisfies `Phi(t) = 1 / gamma(t)`. The
//! elementary weight is `Phi(t) = sum_i b_i psi_i(t)`, where the stage weights
//! of a tree are built from those of its subtrees:
//! `psi_i(t) = prod_{children u} sum_j a_ij psi_j(u)`.
//!
//! Every operation is carried out in the rationals, in the order written
//! here, and a coefficient that is zero contributes nothing to a stage sum.
//! Where an operation overflows the exact arithmetic the weight is not known
//! exactly, and a condition that depends on it is left undecided.

use vstd::prelude::*;
use crate::analysis::order::{
    certified, level_shapes, lemma_levels_prefix, lemma_levels_sound, shape_density, shapes,
    trees_by_order, trees_of_order, trees_spec, levels_spec, SimplifyingAssumptions, Tree,
};
use crate::analysis::shape::{shape_order, Shape};
use crate::num::expr::{canonical_form, lemma_is_canonical_form};
use crate::num::rational::{
    add_fits, difference_pair, mul_fits, pow_fits, power_pair, product_pair, quotient_pair,
    sum_pair, Rational,
};

verus! {

/// The exact sum of two canonical rationals, `None` where it overflows.
pub open spec fn add_q(x: (int, int), y: (int, int)) -> Option<(int, int)> {
    if add_fits(x, y) {
        Some(canonical_form(sum_pair(x, y)))
    } else {
        None
    }
}

/// The exact product of two canonical rationals, `None` where it overflows.
pub open spec fn mul_q(x: (int, int), y: (int, int)) -> Option<(int, int)> {
    if mul_fits(x, y) {
        Some(canonical_form(product_pair(x, y)))
    } else {
        None
    }
}

/// A tableau as exact values: the rows of `A`.
pub open spec fn matrix_view(a: Seq<Vec<Rational>>) -> Seq<Seq<(int, int)>> {
    a.map_values(|row: Vec<Rational>| row@.map_values(|q: Rational| q@))
}

/// A list of exact values.
pub open spec fn vector_view(v: Seq<Rational>) -> Seq<(int, int)> {
    v.map_values(|q: Rational| q@)
}

/// A square tableau of `s` stages whose entries are well formed rationals,
/// with `s` weights.
pub open spec fn exact_tableau(a: Seq<Vec<Rational>>, b: Seq<Rational>) -> bool {
    &&& b.len() == a.len()
    &&& forall|i: int| 0 <= i < b.len() ==> (#[trigger] b[i]).wf()
    &&& forall|i: int| 0 <= i < a.len() ==> (#[trigger] a[i])@.len() == a.len()
    &&& forall|i: int, j: int| 0 <= i < a.len() && 0 <= j < a.len() ==> (#[trigger] a[i]@[j]).wf()
}

/// `sum_{j < k} a_j v_j` for a row `a` of `A`, skipping zero coefficients.
pub open spec fn dot(row: Seq<(int, int)>, v: Seq<(int, int)>, k: int) -> Option<(int, int)>
    decreases k,
{
    if k <= 0 {
        Some((0, 1))
    } else {
        match dot(row, v, k - 1) {
            Some(acc) => if row[k - 1].0 == 0 {
                Some(acc)
            } else {
                match mul_q(row[k - 1], v[k - 1]) {
                    Some(p) => add_q(acc, p),
                    None => None,
                }
            },
            None => None,
        }
    }
}

/// The stage weights `psi` of a node after one more child, whose stage
/// weights are `child`, for the stages below `j`.
pub open spec fn scaled(a: Seq<Seq<(int, int)>>, psi: Seq<(int, int)>, child: Seq<(int, int)>, j: int) -> Option<
    Seq<(int, int)>,
>
    decreases j,
{
    if j <= 0 {
        Some(psi)
    } else {
        match scaled(a, psi, child, j - 1) {
            Some(p) => match dot(a[j - 1], child, a.len() as int) {
                Some(d) => match mul_q(p[j - 1], d) {
                    Some(x) => Some(p.update(j - 1, x)),
                    None => None,
                },
                None => None,
            },
            None => None,
        }
    }
}

/// The stage weights of a tree.
pub open spec fn stage_weights_spec(a: Seq<Seq<(int, int)>>, t: Shape) -> Option<Seq<(int, int)>>
    decreases t,
{
    forest_weights(a, t.children)
}

/// The stage weights of a root over the subtrees `f`, one child after the
/// other.
pub open spec fn forest_weights(a: Seq<Seq<(int, int)>>, f: Seq<Shape>) -> Option<Seq<(int, int)>>
    decreases f,
{
    if f.len() == 0 {
        Some(Seq::new(a.len(), |i: int| (1int, 1int)))
    } else {
        match forest_weights(a, f.drop_last()) {
            Some(psi) => match stage_weights_spec(a, f.last()) {
                Some(child) => scaled(a, psi, child, a.len() as int),
                None => None,
            },
            None => None,
        }
    }
}

/// `sum_{i < k} b_i psi_i`.
pub open spec fn weighted(b: Seq<(int, int)>, psi: Seq<(int, int)>, k: int) -> Option<(int, int)>
    decreases k,
{
    if k <= 0 {
        Some((0, 1))
    } else {
        match weighted(b, psi, k - 1) {
            Some(acc) => match mul_q(b[k - 1], psi[k - 1]) {
                Some(p) => add_q(acc, p),
                None => None,
            },
            None => None,
        }
    }
}

/// The elementary weight `Phi(t)`.
pub open spec fn elementary_weight_spec(a: Seq<Seq<(int, int)>>, b: Seq<(int, int)>, t: Shape) -> Option<
    (int, int),
> {
    match stage_weights_spec(a, t) {
        Some(psi) => weighted(b, psi, b.len() as int),
        None => None,
    }
}

/// Whether the order condition of `t` holds: `Some(true)` or `Some(false)`
/// where it is decided exactly, `None` where it is not.
pub open spec fn condition(a: Seq<Seq<(int, int)>>, b: Seq<(int, int)>, t: Shape) -> Option<bool> {
    match elementary_weight_spec(a, b, t) {
        Some(w) => if shape_density(t) <= i128::MAX {
            Some(w == (1int, shape_density(t) as int))
        } else {
            None
        },
        None => None,
    }
}

/// The verdict on one order: `Some(false)` when some condition fails,
/// `Some(true)` when every one holds, `None` when none fails but some is
/// undecided.
pub open spec fn level_verdict(a: Seq<Seq<(int, int)>>, b: Seq<(int, int)>, trees: Seq<Shape>) -> Option<
    bool,
> {
    if exists|i: int| 0 <= i < trees.len() && #[trigger] condition(a, b, trees[i]) == Some(false) {
        Some(false)
    } else if exists|i: int| 0 <= i < trees.len() && #[trigger] condition(a, b, trees[i]) is None {
        None
    } else {
        Some(true)
    }
}

/// The order of the method from order `n` on, searching up to `max`.
pub open spec fn order_from(a: Seq<Seq<(int, int)>>, b: Seq<(int, int)>, n: nat, max: nat) -> Option<nat>
    decreases max + 1 - n,
{
    if n > max {
        Some(max)
    } else {
        match level_verdict(a, b, trees_spec(n)) {
            Some(true) => order_from(a, b, n + 1, max),
            Some(false) => Some((n - 1) as nat),
            None => None,
        }
    }
}

/// The exact sum of two rationals.
pub(crate) fn add_exact(x: Rational, y: Rational) -> (r: Option<Rational>)
    requires
        x.wf(),
        y.wf(),
    ensures
        r is Some <==> add_q(x@, y@) is Some,
        r matches Some(q) ==> q.wf() && q@ == add_q(x@, y@)->0,
{
    match x.checked_add(y) {
        Some(q) => {
            proof {
                assert(x@.1 * y@.1 != 0) by (nonlinear_arith)
                    requires
                        x@.1 > 0,
                        y@.1 > 0,
                ;
                lemma_is_canonical_form(q, sum_pair(x@, y@));
            }
            Some(q)
        },
        None => None,
    }
}

/// The exact product of two rationals.
pub(crate) fn mul_exact(x: Rational, y: Rational) -> (r: Option<Rational>)
    requires
        x.wf(),
        y.wf(),
    ensures
        r is Some <==> mul_q(x@, y@) is Some,
        r matches Some(q) ==> q.wf() && q@ == mul_q(x@, y@)->0,
{
    match x.checked_mul(y) {
        Some(q) => {
            proof {
                assert(x@.1 * y@.1 != 0) by (nonlinear_arith)
                    requires
                        x@.1 > 0,
                        y@.1 > 0,
                ;
                lemma_is_canonical_form(q, product_pair(x@, y@));
            }
            Some(q)
        },
        None => None,
    }
}

/// Every entry of a list is well formed.
pub open spec fn all_wf(v: Seq<Rational>) -> bool {
    forall|i: int| 0 <= i < v.len() ==> (#[trigger] v[i]).wf()
}

/// `sum_j a_ij v_j` over a row of `A`, skipping zero coefficients.
pub(crate) fn row_dot(row: &Vec<Rational>, v: &Vec<Rational>) -> (r: Option<Rational>)
    requires
        row@.len() == v@.len(),
        all_wf(row@),
        all_wf(v@),
    ensures
        r is Some <==> dot(vector_view(row@), vector_view(v@), row@.len() as int) is Some,
        r matches Some(q) ==> q.wf() && q@ == dot(vector_view(row@), vector_view(v@), row@.len() as int)->0,
{
    let ghost rv = vector_view(row@);
    let ghost vv = vector_view(v@);
    let mut acc = Rational::zero();
    let mut k: usize = 0;
    while k < row.len()
        invariant
            k <= row@.len(),
            row@.len() == v@.len(),
            all_wf(row@),
            all_wf(v@),
            rv == vector_view(row@),
            vv == vector_view(v@),
            acc.wf(),
            dot(rv, vv, k as int) == Some(acc@),
        decreases row@.len() - k,
    {
        assert(rv[k as int] == row@[k as int]@);
        assert(vv[k as int] == v@[k as int]@);
        assert(row@[k as int].wf());
        assert(v@[k as int].wf());
        if !row[k].is_zero() {
            match mul_exact(row[k], v[k]) {
                Some(p) => match add_exact(acc, p) {
                    Some(q) => {
                        acc = q;
                    },
                    None => {
                        proof {
                            lemma_dot_stays_none(rv, vv, k as int + 1, row@.len() as int);
                        }
                        return None;
                    },
                },
                None => {
                    proof {
                        lemma_dot_stays_none(rv, vv, k as int + 1, row@.len() as int);
                    }
                    return None;
                },
            }
        }
        k = k + 1;
    }
    Some(acc)
}

proof fn lemma_dot_stays_none(row: Seq<(int, int)>, v: Seq<(int, int)>, k: int, m: int)
    requires
        1 <= k <= m,
        dot(row, v, k) is None,
    ensures
        dot(row, v, m) is None,
    decreases m - k,
{
    if k < m {
        lemma_dot_stays_none(row, v, k, m - 1);
    }
}

proof fn lemma_scaled_stays_none(a: Seq<Seq<(int, int)>>, psi: Seq<(int, int)>, child: Seq<(int, int)>, j: int, m: int)
    requires
        1 <= j <= m,
        scaled(a, psi, child, j) is None,
    ensures
        scaled(a, psi, child, m) is None,
    decreases m - j,
{
    if j < m {
        lemma_scaled_stays_none(a, psi, child, j, m - 1);
    }
}

proof fn lemma_weighted_stays_none(b: Seq<(int, int)>, psi: Seq<(int, int)>, k: int, m: int)
    requires
        1 <= k <= m,
        weighted(b, psi, k) is None,
    ensures
        weighted(b, psi, m) is None,
    decreases m - k,
{
    if k < m {
        lemma_weighted_stays_none(b, psi, k, m - 1);
    }
}

/// The stage weights after one more child, whose stage weights are `child`.
pub(crate) fn scale_by_child(a: &Vec<Vec<Rational>>, psi: Vec<Rational>, child: &Vec<Rational>) -> (r: Option<Vec<Rational>>)
    requires
        forall|i: int| 0 <= i < a@.len() ==> (#[trigger] a@[i])@.len() == a@.len(),
        forall|i: int| 0 <= i < a@.len() ==> all_wf((#[trigger] a@[i])@),
        psi@.len() == a@.len(),
        child@.len() == a@.len(),
        all_wf(psi@),
        all_wf(child@),
    ensures
        r is Some <==> scaled(matrix_view(a@), vector_view(psi@), vector_view(child@), a@.len() as int) is Some,
        r matches Some(v) ==> all_wf(v@) && v@.len() == a@.len() && vector_view(v@) == scaled(
            matrix_view(a@),
            vector_view(psi@),
            vector_view(child@),
            a@.len() as int,
        )->0,
{
    let ghost m = matrix_view(a@);
    let ghost p0 = vector_view(psi@);
    let ghost cv = vector_view(child@);
    let mut out = psi;
    let n = a.len();
    let mut j: usize = 0;
    while j < n
        invariant
            n == a@.len(),
            j <= n,
            forall|i: int| 0 <= i < a@.len() ==> (#[trigger] a@[i])@.len() == a@.len(),
            forall|i: int| 0 <= i < a@.len() ==> all_wf((#[trigger] a@[i])@),
            child@.len() == n,
            all_wf(child@),
            out@.len() == n,
            all_wf(out@),
            m == matrix_view(a@),
            cv == vector_view(child@),
            p0 == vector_view(psi@),
            scaled(m, p0, cv, j as int) == Some(vector_view(out@)),
        decreases n - j,
    {
        let row = &a[j];
        assert(m[j as int] == vector_view(row@));
        match row_dot(row, child) {
            Some(d) => {
                assert(out@[j as int].wf());
                assert(vector_view(out@)[j as int] == out@[j as int]@);
                match mul_exact(out[j], d) {
                    Some(x) => {
                        let ghost before = out@;
                        out.set(j, x);
                        proof {
                            assert(vector_view(out@) =~= vector_view(before).update(j as int, x@));
                            assert forall|i: int| 0 <= i < out@.len() implies (#[trigger] out@[i]).wf() by {
                                if i != j {
                                    assert(out@[i] == before[i]);
                                }
                            }
                        }
                    },
                    None => {
                        proof {
                            assert(scaled(m, p0, cv, j as int + 1) is None);
                            lemma_scaled_stays_none(m, p0, cv, j as int + 1, n as int);
                        }
                        return None;
                    },
                }
            },
            None => {
                proof {
                    assert(row@.len() == n);
                    assert(scaled(m, p0, cv, j as int + 1) is None);
                    lemma_scaled_stays_none(m, p0, cv, j as int + 1, n as int);
                }
                return None;
            },
        }
        j = j + 1;
    }
    Some(out)
}

/// `psi(t)`, the stage weights of a tree, exactly; `None` where the exact
/// arithmetic overflows.
pub fn stage_weights(a: &Vec<Vec<Rational>>, t: &Tree) -> (r: Option<Vec<Rational>>)
    requires
        forall|i: int| 0 <= i < a@.len() ==> (#[trigger] a@[i])@.len() == a@.len(),
        forall|i: int| 0 <= i < a@.len() ==> all_wf((#[trigger] a@[i])@),
    ensures
        r is Some <==> stage_weights_spec(matrix_view(a@), t@) is Some,
        r matches Some(v) ==> all_wf(v@) && v@.len() == a@.len() && vector_view(v@)
            == stage_weights_spec(matrix_view(a@), t@)->0,
    decreases t,
{
    let ghost m = matrix_view(a@);
    let ghost f = t@.children;
    let n = a.len();
    let mut psi: Vec<Rational> = Vec::new();
    let mut i: usize = 0;
    while i < n
        invariant
            n == a@.len(),
            i <= n,
            psi@.len() == i,
            all_wf(psi@),
            forall|k: int| 0 <= k < i ==> (#[trigger] psi@[k])@ == (1int, 1int),
        decreases n - i,
    {
        psi.push(Rational::one());
        i = i + 1;
    }
    proof {
        assert(vector_view(psi@) =~= Seq::new(m.len(), |i: int| (1int, 1int)));
        assert(f.take(0) =~= Seq::<Shape>::empty());
    }
    let mut k: usize = 0;
    while k < t.children.len()
        invariant
            k <= t.children@.len(),
            f == t@.children,
            m == matrix_view(a@),
            forall|i: int| 0 <= i < a@.len() ==> (#[trigger] a@[i])@.len() == a@.len(),
            forall|i: int| 0 <= i < a@.len() ==> all_wf((#[trigger] a@[i])@),
            psi@.len() == a@.len(),
            all_wf(psi@),
            forest_weights(m, f.take(k as int)) == Some(vector_view(psi@)),
        decreases t.children@.len() - k,
    {
        proof {
            assert(f.take(k + 1).drop_last() =~= f.take(k as int));
            assert(f.take(k + 1).last() == f[k as int]);
            assert(f[k as int] == t.children@[k as int]@);
        }
        match stage_weights(a, &t.children[k]) {
            Some(child) => match scale_by_child(a, psi, &child) {
                Some(next) => {
                    psi = next;
                },
                None => {
                    proof {
                        lemma_forest_stays_none(m, f, k as int + 1);
                    }
                    return None;
                },
            },
            None => {
                proof {
                    lemma_forest_stays_none(m, f, k as int + 1);
                }
                return None;
            },
        }
        k = k + 1;
    }
    proof {
        assert(f.take(k as int) =~= f);
    }
    Some(psi)
}

proof fn lemma_forest_stays_none(a: Seq<Seq<(int, int)>>, f: Seq<Shape>, k: int)
    requires
        1 <= k <= f.len(),
        forest_weights(a, f.take(k)) is None,
    ensures
        forest_weights(a, f) is None,
    decreases f.len() - k,
{
    if k < f.len() {
        assert(f.take(k + 1).drop_last() =~= f.take(k));
        lemma_forest_stays_none(a, f, k + 1);
    } else {
        assert(f.take(k) =~= f);
    }
}

/// `Phi(t) = sum_i b_i psi_i(t)`, the elementary weight of a tree, exactly;
/// `None` where the exact arithmetic overflows.
pub fn elementary_weight(a: &Vec<Vec<Rational>>, b: &Vec<Rational>, t: &Tree) -> (r: Option<Rational>)
    requires
        exact_tableau(a@, b@),
    ensures
        r is Some <==> elementary_weight_spec(matrix_view(a@), vector_view(b@), t@) is Some,
        r matches Some(q) ==> q.wf() && q@ == elementary_weight_spec(matrix_view(a@), vector_view(b@), t@)->0,
{
    let ghost bv = vector_view(b@);
    proof {
        assert forall|i: int| 0 <= i < a@.len() implies all_wf((#[trigger] a@[i])@) by {
            assert forall|j: int| 0 <= j < a@[i]@.len() implies (#[trigger] a@[i]@[j]).wf() by {
                assert(a@[i]@[j].wf());
            }
        }
    }
    let psi = match stage_weights(a, t) {
        Some(p) => p,
        None => {
            return None;
        },
    };
    let ghost pv = vector_view(psi@);
    let mut acc = Rational::zero();
    let mut k: usize = 0;
    while k < b.len()
        invariant
            k <= b@.len(),
            b@.len() == psi@.len(),
            all_wf(psi@),
            forall|i: int| 0 <= i < b@.len() ==> (#[trigger] b@[i]).wf(),
            bv == vector_view(b@),
            pv == vector_view(psi@),
            stage_weights_spec(matrix_view(a@), t@) == Some(pv),
            acc.wf(),
            weighted(bv, pv, k as int) == Some(acc@),
        decreases b@.len() - k,
    {
        assert(bv[k as int] == b@[k as int]@);
        assert(pv[k as int] == psi@[k as int]@);
        assert(psi@[k as int].wf());
        match mul_exact(b[k], psi[k]) {
            Some(p) => match add_exact(acc, p) {
                Some(q) => {
                    acc = q;
                },
                None => {
                    proof {
                        assert(weighted(bv, pv, k as int + 1) is None);
                        lemma_weighted_stays_none(bv, pv, k as int + 1, b@.len() as int);
                    }
                    return None;
                },
            },
            None => {
                proof {
                    assert(weighted(bv, pv, k as int + 1) is None);
                    lemma_weighted_stays_none(bv, pv, k as int + 1, b@.len() as int);
                }
                return None;
            },
        }
        k = k + 1;
    }
    Some(acc)
}

/// Whether the order condition of `t` holds, `None` where it cannot be
/// decided exactly.
pub fn check_condition(a: &Vec<Vec<Rational>>, b: &Vec<Rational>, t: &Tree) -> (r: Option<bool>)
    requires
        exact_tableau(a@, b@),
        shape_order(t@) <= usize::MAX,
    ensures
        r == condition(matrix_view(a@), vector_view(b@), t@),
{
    let w = match elementary_weight(a, b, t) {
        Some(w) => w,
        None => {
            return None;
        },
    };
    match t.density() {
        Some(d) => {
            proof {
                w.lemma_view_bounds();
            }
            Some(w.numerator() == 1 && w.denominator() == d.numerator())
        },
        None => None,
    }
}

/// The order of a Runge-Kutta method with coefficients `a` and weights `b`,
/// searching the conditions up to `max_order`: the highest order up to
/// which every condition holds exactly. `None` when the search reaches an
/// order at which no condition fails but some cannot be decided exactly.
pub fn exact_order(a: &Vec<Vec<Rational>>, b: &Vec<Rational>, max_order: usize) -> (r: Option<usize>)
    requires
        exact_tableau(a@, b@),
    ensures
        r is Some <==> order_from(matrix_view(a@), vector_view(b@), 1, max_order as nat) is Some,
        r matches Some(p) ==> p == order_from(matrix_view(a@), vector_view(b@), 1, max_order as nat)->0,
{
    let ghost am = matrix_view(a@);
    let ghost bv = vector_view(b@);
    let levels = trees_by_order(max_order);
    proof {
        lemma_levels_sound(max_order as nat);
    }
    let mut k: usize = 0;
    while k < max_order
        invariant
            k <= max_order,
            exact_tableau(a@, b@),
            am == matrix_view(a@),
            bv == vector_view(b@),
            level_shapes(levels@) == levels_spec(max_order as nat),
            levels_spec(max_order as nat).len() == max_order + 1,
            forall|m: int, i: int| 0 <= m <= max_order && 0 <= i < levels_spec(max_order as nat)[m].len()
                ==> shape_order(#[trigger] levels_spec(max_order as nat)[m][i]) == m,
            order_from(am, bv, 1, max_order as nat) == order_from(am, bv, k as nat + 1, max_order as nat),
        decreases max_order - k,
    {
        let n = k + 1;
        let ghost trees = trees_spec(n as nat);
        proof {
            lemma_levels_prefix(max_order as nat, n as nat);
            assert(levels_spec(max_order as nat)[n as int] == trees);
            assert(level_shapes(levels@)[n as int] == shapes(levels@[n as int]@));
        }
        let level = &levels[n];
        assert(shapes(level@) == trees);
        let mut failed = false;
        let mut open = false;
        let mut i: usize = 0;
        while i < level.len()
            invariant
                i <= level@.len(),
                exact_tableau(a@, b@),
                am == matrix_view(a@),
                bv == vector_view(b@),
                shapes(level@) == trees,
                forall|j: int| 0 <= j < trees.len() ==> shape_order(#[trigger] trees[j]) == n,
                n <= max_order,
                failed == (exists|j: int| 0 <= j < i && #[trigger] condition(am, bv, trees[j]) == Some(false)),
                open == (exists|j: int| 0 <= j < i && #[trigger] condition(am, bv, trees[j]) is None),
            decreases level@.len() - i,
        {
            assert(trees[i as int] == level@[i as int]@);
            assert(shape_order(trees[i as int]) == n);
            match check_condition(a, b, &level[i]) {
                Some(true) => {},
                Some(false) => {
                    failed = true;
                },
                None => {
                    open = true;
                },
            }
            i = i + 1;
        }
        proof {
            assert(trees.len() == level@.len());
        }
        if failed {
            return Some(k);
        }
        if open {
            return None;
        }
        k = k + 1;
    }
    Some(max_order)
}

/// The trees of a list whose order condition fails exactly, in list order.
pub open spec fn failing_spec(a: Seq<Seq<(int, int)>>, b: Seq<(int, int)>, trees: Seq<Shape>) -> Seq<Shape>
    decreases trees.len(),
{
    if trees.len() == 0 {
        Seq::empty()
    } else {
        let rest = failing_spec(a, b, trees.drop_last());
        if condition(a, b, trees.last()) == Some(false) {
            rest.push(trees.last())
        } else {
            rest
        }
    }
}

/// The trees with `n` nodes whose order condition fails exactly, in the
/// order the enumeration lists them: at the order just above the one a method attains, the
/// conditions it misses.
pub fn failing_conditions(a: &Vec<Vec<Rational>>, b: &Vec<Rational>, n: usize) -> (r: Vec<Tree>)
    requires
        exact_tableau(a@, b@),
        n >= 1,
    ensures
        shapes(r@) == failing_spec(matrix_view(a@), vector_view(b@), trees_spec(n as nat)),
{
    let ghost am = matrix_view(a@);
    let ghost bv = vector_view(b@);
    let ghost trees = trees_spec(n as nat);
    let level = trees_of_order(n);
    proof {
        lemma_levels_sound(n as nat);
    }
    let mut out: Vec<Tree> = Vec::new();
    let mut i: usize = 0;
    while i < level.len()
        invariant
            i <= level@.len(),
            exact_tableau(a@, b@),
            am == matrix_view(a@),
            bv == vector_view(b@),
            shapes(level@) == trees,
            forall|j: int| 0 <= j < trees.len() ==> shape_order(#[trigger] trees[j]) == n,
            shapes(out@) == failing_spec(am, bv, trees.take(i as int)),
        decreases level@.len() - i,
    {
        assert(trees[i as int] == level@[i as int]@);
        assert(shape_order(trees[i as int]) == n);
        let verdict = check_condition(a, b, &level[i]);
        proof {
            assert(trees.take(i as int + 1).drop_last() =~= trees.take(i as int));
            assert(trees.take(i as int + 1).last() == trees[i as int]);
        }
        if verdict == Some(false) {
            let t = level[i].duplicate();
            out.push(t);
            proof {
                assert(shapes(out@) =~= shapes(out@.drop_last()).push(t@));
            }
        }
        i = i + 1;
    }
    proof {
        assert(trees.take(level@.len() as int) =~= trees);
    }
    out
}

/// The order settled from the tree search and from Butcher's theorem: a
/// search that stopped short of `max_order` found a condition that fails,
/// which settles the order; one that ran to the limit only means the search
/// ended, and the simplifying assumptions may certify more.
pub open spec fn settled_order(tree_order: nat, max_order: nat, certified: nat) -> nat {
    if tree_order < max_order {
        tree_order
    } else if tree_order >= certified {
        tree_order
    } else {
        certified
    }
}

/// The order of a method and where it came from.
#[derive(Copy, Clone, Debug, PartialEq, Eq, Structural)]
pub struct SettledOrder {
    pub order: usize,
    /// The rooted tree conditions settled it, rather than Butcher's theorem.
    pub from_trees: bool,
}

/// Settle the order from the order `tree_order` the tree search reached,
/// searching up to `max_order`, and the order `certified` by the simplifying
/// assumptions.
pub fn settle_order(tree_order: usize, max_order: usize, certified: usize) -> (s: SettledOrder)
    ensures
        s.order == settled_order(tree_order as nat, max_order as nat, certified as nat),
        s.from_trees == (tree_order < max_order || certified <= tree_order),
{
    let found_a_failure = tree_order < max_order;
    let order = if found_a_failure {
        tree_order
    } else if tree_order >= certified {
        tree_order
    } else {
        certified
    };
    SettledOrder { order, from_trees: found_a_failure || certified <= tree_order }
}

/// `sum_{j < k} a_j`, the row sum of a row of `A`.
pub open spec fn row_sum(row: Seq<(int, int)>, k: int) -> Option<(int, int)>
    decreases k,
{
    if k <= 0 {
        Some((0, 1))
    } else {
        match row_sum(row, k - 1) {
            Some(acc) => add_q(acc, row[k - 1]),
            None => None,
        }
    }
}

/// Row `i` of `A` sums, exactly, to something other than `c_i`.
pub open spec fn row_differs(a: Seq<Seq<(int, int)>>, c: Seq<(int, int)>, i: int) -> bool {
    match row_sum(a[i], a.len() as int) {
        Some(x) => x != c[i],
        None => false,
    }
}

/// Whether `c` is the row sum of `A`: `Some(false)` when a row is decided to
/// differ, `None` where a row sum overflows and none differs.
pub open spec fn abscissae_verdict(a: Seq<Seq<(int, int)>>, c: Seq<(int, int)>) -> Option<bool> {
    if exists|i: int| 0 <= i < a.len() && #[trigger] row_differs(a, c, i) {
        Some(false)
    } else if exists|i: int| 0 <= i < a.len() && #[trigger] row_sum(a[i], a.len() as int) is None {
        None
    } else {
        Some(true)
    }
}

proof fn lemma_row_sum_stays_none(row: Seq<(int, int)>, k: int, m: int)
    requires
        1 <= k <= m,
        row_sum(row, k) is None,
    ensures
        row_sum(row, m) is None,
    decreases m - k,
{
    if k < m {
        lemma_row_sum_stays_none(row, k, m - 1);
    }
}

/// The sum of a row of `A`, exactly.
fn sum_of_row(row: &Vec<Rational>) -> (r: Option<Rational>)
    requires
        all_wf(row@),
    ensures
        r is Some <==> row_sum(vector_view(row@), row@.len() as int) is Some,
        r matches Some(q) ==> q.wf() && q@ == row_sum(vector_view(row@), row@.len() as int)->0,
{
    let ghost rv = vector_view(row@);
    let mut acc = Rational::zero();
    let mut k: usize = 0;
    while k < row.len()
        invariant
            k <= row@.len(),
            all_wf(row@),
            rv == vector_view(row@),
            acc.wf(),
            row_sum(rv, k as int) == Some(acc@),
        decreases row@.len() - k,
    {
        assert(rv[k as int] == row@[k as int]@);
        assert(row@[k as int].wf());
        match add_exact(acc, row[k]) {
            Some(q) => {
                acc = q;
            },
            None => {
                proof {
                    assert(row_sum(rv, k as int + 1) is None);
                    lemma_row_sum_stays_none(rv, k as int + 1, row@.len() as int);
                }
                return None;
            },
        }
        k = k + 1;
    }
    Some(acc)
}

/// Whether the abscissae `c` are the row sums of `A`, exactly; `None` where
/// a row sum overflows and no row is found to differ.
pub fn abscissae_consistent(a: &Vec<Vec<Rational>>, c: &Vec<Rational>) -> (r: Option<bool>)
    requires
        c@.len() == a@.len(),
        forall|i: int| 0 <= i < a@.len() ==> all_wf((#[trigger] a@[i])@),
        forall|i: int| 0 <= i < a@.len() ==> (#[trigger] a@[i])@.len() == a@.len(),
    ensures
        r == abscissae_verdict(matrix_view(a@), vector_view(c@)),
{
    let ghost am = matrix_view(a@);
    let ghost cv = vector_view(c@);
    let mut differs = false;
    let mut open = false;
    let mut i: usize = 0;
    while i < a.len()
        invariant
            i <= a@.len(),
            c@.len() == a@.len(),
            forall|k: int| 0 <= k < a@.len() ==> all_wf((#[trigger] a@[k])@),
            forall|k: int| 0 <= k < a@.len() ==> (#[trigger] a@[k])@.len() == a@.len(),
            am == matrix_view(a@),
            cv == vector_view(c@),
            differs == (exists|k: int| 0 <= k < i && #[trigger] row_differs(am, cv, k)),
            open == (exists|k: int| 0 <= k < i && #[trigger] row_sum(am[k], am.len() as int) is None),
        decreases a@.len() - i,
    {
        let row = &a[i];
        assert(am[i as int] == vector_view(row@));
        assert(cv[i as int] == c@[i as int]@);
        assert(row@.len() == a@.len());
        assert(am.len() == a@.len());
        match sum_of_row(row) {
            Some(x) => {
                let same = x.numerator() == c[i].numerator() && x.denominator() == c[i].denominator();
                assert(row_differs(am, cv, i as int) == !same);
                if !same {
                    differs = true;
                }
            },
            None => {
                open = true;
            },
        }
        i = i + 1;
    }
    if differs {
        Some(false)
    } else if open {
        None
    } else {
        Some(true)
    }
}

/// `x^m` exactly, `None` where it overflows.
pub open spec fn pow_q(x: (int, int), m: nat) -> Option<(int, int)> {
    if pow_fits(x, m) {
        Some(power_pair(x, m))
    } else {
        None
    }
}

/// `x / n` exactly for a positive integer `n`, `None` where it overflows.
pub open spec fn div_q(x: (int, int), n: int) -> Option<(int, int)> {
    if mul_fits(x, (1, n)) {
        Some(canonical_form(quotient_pair(x, (n, 1))))
    } else {
        None
    }
}

/// `sum_{j < k} a_ij c_j^(q-1)` for a row of `A`.
pub open spec fn stage_sum(row: Seq<(int, int)>, c: Seq<(int, int)>, q: nat, k: int) -> Option<(int, int)>
    decreases k,
{
    if k <= 0 {
        Some((0, 1))
    } else {
        match stage_sum(row, c, q, k - 1) {
            Some(acc) => match pow_q(c[k - 1], (q - 1) as nat) {
                Some(p) => match mul_q(row[k - 1], p) {
                    Some(t) => add_q(acc, t),
                    None => None,
                },
                None => None,
            },
            None => None,
        }
    }
}

/// Whether stage `i` integrates `t^(q-1)` exactly:
/// `sum_j a_ij c_j^(q-1) = c_i^q / q`, `None` where it cannot be decided
/// exactly.
pub open spec fn stage_condition(a: Seq<Seq<(int, int)>>, c: Seq<(int, int)>, q: nat, i: int) -> Option<bool> {
    match (stage_sum(a[i], c, q, a.len() as int), pow_q(c[i], q)) {
        (Some(sum), Some(p)) => match div_q(p, q as int) {
            Some(target) => Some(sum == target),
            None => None,
        },
        _ => None,
    }
}

/// The verdict on `C(q)` for every stage, as for the order conditions.
pub open spec fn stage_verdict(a: Seq<Seq<(int, int)>>, c: Seq<(int, int)>, q: nat) -> Option<bool> {
    if exists|i: int| 0 <= i < a.len() && #[trigger] stage_condition(a, c, q, i) == Some(false) {
        Some(false)
    } else if exists|i: int| 0 <= i < a.len() && #[trigger] stage_condition(a, c, q, i) is None {
        None
    } else {
        Some(true)
    }
}

/// The stage order from `q` on, searching up to `max`.
pub open spec fn stage_order_from(a: Seq<Seq<(int, int)>>, c: Seq<(int, int)>, q: nat, max: nat) -> Option<nat>
    decreases max + 1 - q,
{
    if q > max {
        Some(max)
    } else {
        match stage_verdict(a, c, q) {
            Some(true) => stage_order_from(a, c, q + 1, max),
            Some(false) => Some((q - 1) as nat),
            None => None,
        }
    }
}

proof fn lemma_stage_sum_stays_none(row: Seq<(int, int)>, c: Seq<(int, int)>, q: nat, k: int, m: int)
    requires
        1 <= k <= m,
        stage_sum(row, c, q, k) is None,
    ensures
        stage_sum(row, c, q, m) is None,
    decreases m - k,
{
    if k < m {
        lemma_stage_sum_stays_none(row, c, q, k, m - 1);
    }
}

/// `x^m`, exactly.
fn pow_exact(x: Rational, m: i32) -> (r: Option<Rational>)
    requires
        x.wf(),
        m >= 0,
    ensures
        r is Some <==> pow_q(x@, m as nat) is Some,
        r matches Some(p) ==> p.wf() && p@ == pow_q(x@, m as nat)->0,
{
    x.checked_powi(m)
}

/// `sum_j a_ij c_j^(q-1)` for one row, exactly.
fn stage_sum_of(row: &Vec<Rational>, c: &Vec<Rational>, q: i32) -> (r: Option<Rational>)
    requires
        row@.len() == c@.len(),
        all_wf(row@),
        all_wf(c@),
        q >= 1,
    ensures
        r is Some <==> stage_sum(vector_view(row@), vector_view(c@), q as nat, row@.len() as int) is Some,
        r matches Some(x) ==> x.wf() && x@ == stage_sum(vector_view(row@), vector_view(c@), q as nat, row@.len() as int)->0,
{
    let ghost rv = vector_view(row@);
    let ghost cv = vector_view(c@);
    let mut acc = Rational::zero();
    let mut k: usize = 0;
    while k < row.len()
        invariant
            k <= row@.len(),
            row@.len() == c@.len(),
            all_wf(row@),
            all_wf(c@),
            q >= 1,
            rv == vector_view(row@),
            cv == vector_view(c@),
            acc.wf(),
            stage_sum(rv, cv, q as nat, k as int) == Some(acc@),
        decreases row@.len() - k,
    {
        assert(rv[k as int] == row@[k as int]@);
        assert(cv[k as int] == c@[k as int]@);
        assert(row@[k as int].wf());
        assert(c@[k as int].wf());
        let step = match pow_exact(c[k], q - 1) {
            Some(p) => match mul_exact(row[k], p) {
                Some(t) => add_exact(acc, t),
                None => None,
            },
            None => None,
        };
        match step {
            Some(x) => {
                acc = x;
            },
            None => {
                proof {
                    assert(stage_sum(rv, cv, q as nat, k as int + 1) is None);
                    lemma_stage_sum_stays_none(rv, cv, q as nat, k as int + 1, row@.len() as int);
                }
                return None;
            },
        }
        k = k + 1;
    }
    Some(acc)
}

/// Whether stage `i` integrates `t^(q-1)` exactly.
fn check_stage(a: &Vec<Vec<Rational>>, c: &Vec<Rational>, q: i32, i: usize) -> (r: Option<bool>)
    requires
        c@.len() == a@.len(),
        i < a@.len(),
        all_wf(c@),
        forall|k: int| 0 <= k < a@.len() ==> all_wf((#[trigger] a@[k])@),
        forall|k: int| 0 <= k < a@.len() ==> (#[trigger] a@[k])@.len() == a@.len(),
        q >= 1,
    ensures
        r == stage_condition(matrix_view(a@), vector_view(c@), q as nat, i as int),
{
    let ghost am = matrix_view(a@);
    let ghost cv = vector_view(c@);
    let row = &a[i];
    assert(am[i as int] == vector_view(row@));
    assert(row@.len() == a@.len());
    assert(cv[i as int] == c@[i as int]@);
    assert(c@[i as int].wf());
    let sum = stage_sum_of(row, c, q);
    let power = pow_exact(c[i], q);
    match (sum, power) {
        (Some(x), Some(p)) => {
            let n = Rational::integer(q as i128);
            match p.checked_div(n) {
                Some(target) => {
                    proof {
                        assert(p@.1 * n@.0 != 0) by (nonlinear_arith)
                            requires
                                p@.1 > 0,
                                n@.0 >= 1,
                        ;
                        lemma_is_canonical_form(target, quotient_pair(p@, n@));
                    }
                    Some(x.numerator() == target.numerator() && x.denominator() == target.denominator())
                },
                None => None,
            }
        },
        _ => None,
    }
}

/// The stage order of a Runge-Kutta method with coefficients `a` and
/// abscissae `c`, searching up to `max_order`: the largest `q` such that
/// every stage integrates polynomials of degree below `q` exactly. `None`
/// when the search reaches a `q` at which no stage fails but some cannot be
/// decided exactly.
pub fn exact_stage_order(a: &Vec<Vec<Rational>>, c: &Vec<Rational>, max_order: usize) -> (r: Option<usize>)
    requires
        c@.len() == a@.len(),
        all_wf(c@),
        forall|k: int| 0 <= k < a@.len() ==> all_wf((#[trigger] a@[k])@),
        forall|k: int| 0 <= k < a@.len() ==> (#[trigger] a@[k])@.len() == a@.len(),
        max_order <= i32::MAX,
    ensures
        r is Some <==> stage_order_from(matrix_view(a@), vector_view(c@), 1, max_order as nat) is Some,
        r matches Some(p) ==> p == stage_order_from(matrix_view(a@), vector_view(c@), 1, max_order as nat)->0,
{
    let ghost am = matrix_view(a@);
    let ghost cv = vector_view(c@);
    let mut k: usize = 0;
    while k < max_order
        invariant
            k <= max_order,
            max_order <= i32::MAX,
            c@.len() == a@.len(),
            all_wf(c@),
            forall|m: int| 0 <= m < a@.len() ==> all_wf((#[trigger] a@[m])@),
            forall|m: int| 0 <= m < a@.len() ==> (#[trigger] a@[m])@.len() == a@.len(),
            am == matrix_view(a@),
            cv == vector_view(c@),
            stage_order_from(am, cv, 1, max_order as nat) == stage_order_from(am, cv, k as nat + 1, max_order as nat),
        decreases max_order - k,
    {
        let q = (k + 1) as i32;
        let mut failed = false;
        let mut open = false;
        let mut i: usize = 0;
        while i < a.len()
            invariant
                i <= a@.len(),
                q == k + 1,
                q >= 1,
                c@.len() == a@.len(),
                all_wf(c@),
                forall|m: int| 0 <= m < a@.len() ==> all_wf((#[trigger] a@[m])@),
                forall|m: int| 0 <= m < a@.len() ==> (#[trigger] a@[m])@.len() == a@.len(),
                am == matrix_view(a@),
                cv == vector_view(c@),
                failed == (exists|j: int| 0 <= j < i && #[trigger] stage_condition(am, cv, q as nat, j) == Some(false)),
                open == (exists|j: int| 0 <= j < i && #[trigger] stage_condition(am, cv, q as nat, j) is None),
            decreases a@.len() - i,
        {
            match check_stage(a, c, q, i) {
                Some(true) => {},
                Some(false) => {
                    failed = true;
                },
                None => {
                    open = true;
                },
            }
            i = i + 1;
        }
        assert(am.len() == a@.len());
        if failed {
            return Some(k);
        }
        if open {
            return None;
        }
        k = k + 1;
    }
    Some(max_order)
}

/// `x - y` exactly, `None` where it overflows.
pub open spec fn sub_q(x: (int, int), y: (int, int)) -> Option<(int, int)> {
    if add_fits(x, (-y.0, y.1)) {
        Some(canonical_form(difference_pair(x, y)))
    } else {
        None
    }
}

/// `sum_{i < m} b_i c_i^(k-1)`.
pub open spec fn quadrature_sum(b: Seq<(int, int)>, c: Seq<(int, int)>, k: nat, m: int) -> Option<(int, int)>
    decreases m,
{
    if m <= 0 {
        Some((0, 1))
    } else {
        match quadrature_sum(b, c, k, m - 1) {
            Some(acc) => match pow_q(c[m - 1], (k - 1) as nat) {
                Some(p) => match mul_q(b[m - 1], p) {
                    Some(t) => add_q(acc, t),
                    None => None,
                },
                None => None,
            },
            None => None,
        }
    }
}

/// `B(k)`: `sum_i b_i c_i^(k-1) = 1/k`, `None` where it cannot be decided
/// exactly.
pub open spec fn quadrature_condition(b: Seq<(int, int)>, c: Seq<(int, int)>, k: nat) -> Option<bool> {
    match quadrature_sum(b, c, k, b.len() as int) {
        Some(sum) => Some(sum == (1int, k as int)),
        None => None,
    }
}

/// The largest `p` up to `max` with `B(k)` for every `k` from `k` to `p`.
pub open spec fn quadrature_from(b: Seq<(int, int)>, c: Seq<(int, int)>, k: nat, max: nat) -> Option<nat>
    decreases max + 1 - k,
{
    if k > max {
        Some(max)
    } else {
        match quadrature_condition(b, c, k) {
            Some(true) => quadrature_from(b, c, k + 1, max),
            Some(false) => Some((k - 1) as nat),
            None => None,
        }
    }
}

/// `sum_{i < m} b_i c_i^(k-1) a_ij`.
pub open spec fn adjoint_sum(a: Seq<Seq<(int, int)>>, b: Seq<(int, int)>, c: Seq<(int, int)>, k: nat, j: int, m: int) -> Option<
    (int, int),
>
    decreases m,
{
    if m <= 0 {
        Some((0, 1))
    } else {
        match adjoint_sum(a, b, c, k, j, m - 1) {
            Some(acc) => match pow_q(c[m - 1], (k - 1) as nat) {
                Some(p) => match mul_q(b[m - 1], p) {
                    Some(t) => match mul_q(t, a[m - 1][j]) {
                        Some(u) => add_q(acc, u),
                        None => None,
                    },
                    None => None,
                },
                None => None,
            },
            None => None,
        }
    }
}

/// `D(k)` for column `j`: `sum_i b_i c_i^(k-1) a_ij = b_j (1 - c_j^k) / k`,
/// `None` where it cannot be decided exactly.
pub open spec fn adjoint_condition(a: Seq<Seq<(int, int)>>, b: Seq<(int, int)>, c: Seq<(int, int)>, k: nat, j: int) -> Option<
    bool,
> {
    match adjoint_sum(a, b, c, k, j, a.len() as int) {
        Some(sum) => match pow_q(c[j], k) {
            Some(p) => match sub_q((1, 1), p) {
                Some(d) => match mul_q(b[j], d) {
                    Some(t) => match div_q(t, k as int) {
                        Some(target) => Some(sum == target),
                        None => None,
                    },
                    None => None,
                },
                None => None,
            },
            None => None,
        },
        None => None,
    }
}

/// The verdict on `D(k)` for every column, as for the order conditions.
pub open spec fn adjoint_verdict(a: Seq<Seq<(int, int)>>, b: Seq<(int, int)>, c: Seq<(int, int)>, k: nat) -> Option<bool> {
    if exists|j: int| 0 <= j < a.len() && #[trigger] adjoint_condition(a, b, c, k, j) == Some(false) {
        Some(false)
    } else if exists|j: int| 0 <= j < a.len() && #[trigger] adjoint_condition(a, b, c, k, j) is None {
        None
    } else {
        Some(true)
    }
}

/// The largest `r` up to `max` with `D(k)` for every `k` from `k` to `r`.
pub open spec fn adjoint_from(a: Seq<Seq<(int, int)>>, b: Seq<(int, int)>, c: Seq<(int, int)>, k: nat, max: nat) -> Option<nat>
    decreases max + 1 - k,
{
    if k > max {
        Some(max)
    } else {
        match adjoint_verdict(a, b, c, k) {
            Some(true) => adjoint_from(a, b, c, k + 1, max),
            Some(false) => Some((k - 1) as nat),
            None => None,
        }
    }
}

proof fn lemma_quadrature_stays_none(b: Seq<(int, int)>, c: Seq<(int, int)>, k: nat, m: int, n: int)
    requires
        1 <= m <= n,
        quadrature_sum(b, c, k, m) is None,
    ensures
        quadrature_sum(b, c, k, n) is None,
    decreases n - m,
{
    if m < n {
        lemma_quadrature_stays_none(b, c, k, m, n - 1);
    }
}

proof fn lemma_adjoint_stays_none(a: Seq<Seq<(int, int)>>, b: Seq<(int, int)>, c: Seq<(int, int)>, k: nat, j: int, m: int, n: int)
    requires
        1 <= m <= n,
        adjoint_sum(a, b, c, k, j, m) is None,
    ensures
        adjoint_sum(a, b, c, k, j, n) is None,
    decreases n - m,
{
    if m < n {
        lemma_adjoint_stays_none(a, b, c, k, j, m, n - 1);
    }
}

/// `x - y`, exactly.
fn sub_exact(x: Rational, y: Rational) -> (r: Option<Rational>)
    requires
        x.wf(),
        y.wf(),
    ensures
        r is Some <==> sub_q(x@, y@) is Some,
        r matches Some(q) ==> q.wf() && q@ == sub_q(x@, y@)->0,
{
    match x.checked_sub(y) {
        Some(q) => {
            proof {
                assert(x@.1 * y@.1 != 0) by (nonlinear_arith)
                    requires
                        x@.1 > 0,
                        y@.1 > 0,
                ;
                lemma_is_canonical_form(q, difference_pair(x@, y@));
            }
            Some(q)
        },
        None => None,
    }
}

/// `x / k` for a positive integer `k`, exactly.
fn div_exact(x: Rational, k: i32) -> (r: Option<Rational>)
    requires
        x.wf(),
        k >= 1,
    ensures
        r is Some <==> div_q(x@, k as int) is Some,
        r matches Some(q) ==> q.wf() && q@ == div_q(x@, k as int)->0,
{
    let n = Rational::integer(k as i128);
    match x.checked_div(n) {
        Some(q) => {
            proof {
                assert(x@.1 * n@.0 != 0) by (nonlinear_arith)
                    requires
                        x@.1 > 0,
                        n@.0 >= 1,
                ;
                lemma_is_canonical_form(q, quotient_pair(x@, n@));
            }
            Some(q)
        },
        None => None,
    }
}

/// `B(k)`, exactly.
fn check_quadrature(b: &Vec<Rational>, c: &Vec<Rational>, k: i32) -> (r: Option<bool>)
    requires
        b@.len() == c@.len(),
        all_wf(b@),
        all_wf(c@),
        k >= 1,
    ensures
        r == quadrature_condition(vector_view(b@), vector_view(c@), k as nat),
{
    let ghost bv = vector_view(b@);
    let ghost cv = vector_view(c@);
    let mut acc = Rational::zero();
    let mut m: usize = 0;
    while m < b.len()
        invariant
            m <= b@.len(),
            b@.len() == c@.len(),
            all_wf(b@),
            all_wf(c@),
            k >= 1,
            bv == vector_view(b@),
            cv == vector_view(c@),
            acc.wf(),
            quadrature_sum(bv, cv, k as nat, m as int) == Some(acc@),
        decreases b@.len() - m,
    {
        assert(bv[m as int] == b@[m as int]@);
        assert(cv[m as int] == c@[m as int]@);
        assert(b@[m as int].wf());
        assert(c@[m as int].wf());
        let step = match pow_exact(c[m], k - 1) {
            Some(p) => match mul_exact(b[m], p) {
                Some(t) => add_exact(acc, t),
                None => None,
            },
            None => None,
        };
        match step {
            Some(x) => {
                acc = x;
            },
            None => {
                proof {
                    assert(quadrature_sum(bv, cv, k as nat, m as int + 1) is None);
                    lemma_quadrature_stays_none(bv, cv, k as nat, m as int + 1, b@.len() as int);
                }
                return None;
            },
        }
        m = m + 1;
    }
    proof {
        acc.lemma_view_bounds();
    }
    Some(acc.numerator() == 1 && acc.denominator() == k as i128)
}

/// `D(k)` for column `j`, exactly.
fn check_adjoint(a: &Vec<Vec<Rational>>, b: &Vec<Rational>, c: &Vec<Rational>, k: i32, j: usize) -> (r: Option<bool>)
    requires
        b@.len() == a@.len(),
        c@.len() == a@.len(),
        j < a@.len(),
        all_wf(b@),
        all_wf(c@),
        forall|i: int| 0 <= i < a@.len() ==> all_wf((#[trigger] a@[i])@),
        forall|i: int| 0 <= i < a@.len() ==> (#[trigger] a@[i])@.len() == a@.len(),
        k >= 1,
    ensures
        r == adjoint_condition(matrix_view(a@), vector_view(b@), vector_view(c@), k as nat, j as int),
{
    let ghost am = matrix_view(a@);
    let ghost bv = vector_view(b@);
    let ghost cv = vector_view(c@);
    let mut acc = Rational::zero();
    let mut m: usize = 0;
    while m < a.len()
        invariant
            m <= a@.len(),
            b@.len() == a@.len(),
            c@.len() == a@.len(),
            j < a@.len(),
            all_wf(b@),
            all_wf(c@),
            forall|i: int| 0 <= i < a@.len() ==> all_wf((#[trigger] a@[i])@),
            forall|i: int| 0 <= i < a@.len() ==> (#[trigger] a@[i])@.len() == a@.len(),
            k >= 1,
            am == matrix_view(a@),
            bv == vector_view(b@),
            cv == vector_view(c@),
            acc.wf(),
            adjoint_sum(am, bv, cv, k as nat, j as int, m as int) == Some(acc@),
        decreases a@.len() - m,
    {
        assert(bv[m as int] == b@[m as int]@);
        assert(cv[m as int] == c@[m as int]@);
        assert(b@[m as int].wf());
        assert(c@[m as int].wf());
        let row = &a[m];
        assert(am[m as int] == vector_view(row@));
        assert(row@.len() == a@.len());
        assert(am[m as int][j as int] == row@[j as int]@);
        assert(row@[j as int].wf());
        let step = match pow_exact(c[m], k - 1) {
            Some(p) => match mul_exact(b[m], p) {
                Some(t) => match mul_exact(t, row[j]) {
                    Some(u) => add_exact(acc, u),
                    None => None,
                },
                None => None,
            },
            None => None,
        };
        match step {
            Some(x) => {
                acc = x;
            },
            None => {
                proof {
                    assert(adjoint_sum(am, bv, cv, k as nat, j as int, m as int + 1) is None);
                    lemma_adjoint_stays_none(am, bv, cv, k as nat, j as int, m as int + 1, a@.len() as int);
                }
                return None;
            },
        }
        m = m + 1;
    }
    assert(am.len() == a@.len());
    assert(bv[j as int] == b@[j as int]@);
    assert(cv[j as int] == c@[j as int]@);
    assert(b@[j as int].wf());
    assert(c@[j as int].wf());
    let target = match pow_exact(c[j], k) {
        Some(p) => match sub_exact(Rational::one(), p) {
            Some(d) => match mul_exact(b[j], d) {
                Some(t) => div_exact(t, k),
                None => None,
            },
            None => None,
        },
        None => None,
    };
    match target {
        Some(t) => Some(acc.numerator() == t.numerator() && acc.denominator() == t.denominator()),
        None => None,
    }
}

proof fn lemma_quadrature_bound(b: Seq<(int, int)>, c: Seq<(int, int)>, k: nat, max: nat)
    requires
        k >= 1,
    ensures
        quadrature_from(b, c, k, max) matches Some(p) ==> p <= max,
    decreases max + 1 - k,
{
    if k <= max {
        lemma_quadrature_bound(b, c, k + 1, max);
    }
}

proof fn lemma_stage_bound(a: Seq<Seq<(int, int)>>, c: Seq<(int, int)>, k: nat, max: nat)
    requires
        k >= 1,
    ensures
        stage_order_from(a, c, k, max) matches Some(p) ==> p <= max,
    decreases max + 1 - k,
{
    if k <= max {
        lemma_stage_bound(a, c, k + 1, max);
    }
}

proof fn lemma_adjoint_bound(a: Seq<Seq<(int, int)>>, b: Seq<(int, int)>, c: Seq<(int, int)>, k: nat, max: nat)
    requires
        k >= 1,
    ensures
        adjoint_from(a, b, c, k, max) matches Some(p) ==> p <= max,
    decreases max + 1 - k,
{
    if k <= max {
        lemma_adjoint_bound(a, b, c, k + 1, max);
    }
}

/// The largest `p` up to `max_order` with `B(1)` to `B(p)`, exactly.
fn quadrature_order(b: &Vec<Rational>, c: &Vec<Rational>, max_order: usize) -> (r: Option<usize>)
    requires
        b@.len() == c@.len(),
        all_wf(b@),
        all_wf(c@),
        max_order <= i32::MAX,
    ensures
        r is Some <==> quadrature_from(vector_view(b@), vector_view(c@), 1, max_order as nat) is Some,
        r matches Some(p) ==> p == quadrature_from(vector_view(b@), vector_view(c@), 1, max_order as nat)->0,
{
    let ghost bv = vector_view(b@);
    let ghost cv = vector_view(c@);
    let mut k: usize = 0;
    while k < max_order
        invariant
            k <= max_order,
            max_order <= i32::MAX,
            b@.len() == c@.len(),
            all_wf(b@),
            all_wf(c@),
            bv == vector_view(b@),
            cv == vector_view(c@),
            quadrature_from(bv, cv, 1, max_order as nat) == quadrature_from(bv, cv, k as nat + 1, max_order as nat),
        decreases max_order - k,
    {
        match check_quadrature(b, c, (k + 1) as i32) {
            Some(true) => {},
            Some(false) => {
                return Some(k);
            },
            None => {
                return None;
            },
        }
        k = k + 1;
    }
    Some(max_order)
}

/// The largest `r` up to `max_order` with `D(1)` to `D(r)`, exactly.
fn adjoint_order(a: &Vec<Vec<Rational>>, b: &Vec<Rational>, c: &Vec<Rational>, max_order: usize) -> (r: Option<usize>)
    requires
        b@.len() == a@.len(),
        c@.len() == a@.len(),
        all_wf(b@),
        all_wf(c@),
        forall|i: int| 0 <= i < a@.len() ==> all_wf((#[trigger] a@[i])@),
        forall|i: int| 0 <= i < a@.len() ==> (#[trigger] a@[i])@.len() == a@.len(),
        max_order <= i32::MAX,
    ensures
        r is Some <==> adjoint_from(matrix_view(a@), vector_view(b@), vector_view(c@), 1, max_order as nat) is Some,
        r matches Some(p) ==> p == adjoint_from(matrix_view(a@), vector_view(b@), vector_view(c@), 1, max_order as nat)->0,
{
    let ghost am = matrix_view(a@);
    let ghost bv = vector_view(b@);
    let ghost cv = vector_view(c@);
    let mut k: usize = 0;
    while k < max_order
        invariant
            k <= max_order,
            max_order <= i32::MAX,
            b@.len() == a@.len(),
            c@.len() == a@.len(),
            all_wf(b@),
            all_wf(c@),
            forall|i: int| 0 <= i < a@.len() ==> all_wf((#[trigger] a@[i])@),
            forall|i: int| 0 <= i < a@.len() ==> (#[trigger] a@[i])@.len() == a@.len(),
            am == matrix_view(a@),
            bv == vector_view(b@),
            cv == vector_view(c@),
            adjoint_from(am, bv, cv, 1, max_order as nat) == adjoint_from(am, bv, cv, k as nat + 1, max_order as nat),
        decreases max_order - k,
    {
        let q = (k + 1) as i32;
        let mut failed = false;
        let mut open = false;
        let mut j: usize = 0;
        while j < a.len()
            invariant
                j <= a@.len(),
                q == k + 1,
                q >= 1,
                b@.len() == a@.len(),
                c@.len() == a@.len(),
                all_wf(b@),
                all_wf(c@),
                forall|i: int| 0 <= i < a@.len() ==> all_wf((#[trigger] a@[i])@),
                forall|i: int| 0 <= i < a@.len() ==> (#[trigger] a@[i])@.len() == a@.len(),
                am == matrix_view(a@),
                bv == vector_view(b@),
                cv == vector_view(c@),
                failed == (exists|i: int| 0 <= i < j && #[trigger] adjoint_condition(am, bv, cv, q as nat, i) == Some(false)),
                open == (exists|i: int| 0 <= i < j && #[trigger] adjoint_condition(am, bv, cv, q as nat, i) is None),
            decreases a@.len() - j,
        {
            match check_adjoint(a, b, c, q, j) {
                Some(true) => {},
                Some(false) => {
                    failed = true;
                },
                None => {
                    open = true;
                },
            }
            j = j + 1;
        }
        assert(am.len() == a@.len());
        if failed {
            return Some(k);
        }
        if open {
            return None;
        }
        k = k + 1;
    }
    Some(max_order)
}

/// How far `B`, `C` and `D` hold, searching up to `max_order`, when that
/// can be decided exactly for all three.
pub open spec fn assumptions_spec(a: Seq<Seq<(int, int)>>, b: Seq<(int, int)>, c: Seq<(int, int)>, max: nat) -> Option<
    (nat, nat, nat),
> {
    match (quadrature_from(b, c, 1, max), stage_order_from(a, c, 1, max), adjoint_from(a, b, c, 1, max)) {
        (Some(p), Some(q), Some(r)) => Some((p, q, r)),
        _ => None,
    }
}

/// How far the simplifying assumptions `B`, `C` and `D` hold for a method
/// with coefficients `a`, weights `b` and abscissae `c`, searching up to
/// `max_order`; `None` where one of them cannot be decided exactly.
pub fn exact_assumptions(a: &Vec<Vec<Rational>>, b: &Vec<Rational>, c: &Vec<Rational>, max_order: usize) -> (r:
    Option<SimplifyingAssumptions>)
    requires
        exact_tableau(a@, b@),
        c@.len() == a@.len(),
        all_wf(c@),
        max_order <= i32::MAX,
    ensures
        r is Some <==> assumptions_spec(matrix_view(a@), vector_view(b@), vector_view(c@), max_order as nat) is Some,
        r matches Some(s) ==> assumptions_spec(matrix_view(a@), vector_view(b@), vector_view(c@), max_order as nat)
            == Some((s.quadrature as nat, s.stage as nat, s.adjoint as nat)),
        r matches Some(s) ==> s.quadrature <= max_order && s.stage <= max_order && s.adjoint <= max_order,
{
    let ghost am = matrix_view(a@);
    let ghost bv = vector_view(b@);
    let ghost cv = vector_view(c@);
    proof {
        assert forall|i: int| 0 <= i < a@.len() implies all_wf((#[trigger] a@[i])@) by {
            assert forall|j: int| 0 <= j < a@[i]@.len() implies (#[trigger] a@[i]@[j]).wf() by {
                assert(a@[i]@[j].wf());
            }
        }
        assert(all_wf(b@));
    }
    let stage = match exact_stage_order(a, c, max_order) {
        Some(q) => q,
        None => {
            return None;
        },
    };
    let quadrature = match quadrature_order(b, c, max_order) {
        Some(p) => p,
        None => {
            return None;
        },
    };
    let adjoint = match adjoint_order(a, b, c, max_order) {
        Some(r) => r,
        None => {
            return None;
        },
    };
    proof {
        lemma_quadrature_bound(bv, cv, 1, max_order as nat);
        lemma_stage_bound(am, cv, 1, max_order as nat);
        lemma_adjoint_bound(am, bv, cv, 1, max_order as nat);
    }
    Some(SimplifyingAssumptions { quadrature, stage, adjoint })
}

/// How far the simplifying assumptions are checked: well past where the tree
/// search stops, since they are cheap.
pub const ASSUMPTION_LIMIT: usize = 24;

/// The order certified by the assumptions found, as a natural number.
pub open spec fn certified_of(t: (nat, nat, nat)) -> nat {
    certified(t.0 as int, t.1 as int, t.2 as int) as nat
}

/// The order of a set of weights: the tree search up to `max`, settled with
/// the simplifying assumptions checked up to the limit.
pub open spec fn weights_order(a: Seq<Seq<(int, int)>>, b: Seq<(int, int)>, c: Seq<(int, int)>, max: nat) -> Option<nat> {
    match (order_from(a, b, 1, max), assumptions_spec(a, b, c, ASSUMPTION_LIMIT as nat)) {
        (Some(t), Some(s)) => Some(settled_order(t, max, certified_of(s))),
        _ => None,
    }
}

/// The embedded order: the tree search alone where it finds a failing
/// condition, settled with the assumptions where it runs to the limit.
pub open spec fn embedded_spec(a: Seq<Seq<(int, int)>>, b: Seq<(int, int)>, c: Seq<(int, int)>, max: nat) -> Option<nat> {
    match order_from(a, b, 1, max) {
        Some(t) => if t < max {
            Some(t)
        } else {
            match assumptions_spec(a, b, c, ASSUMPTION_LIMIT as nat) {
                Some(s) => Some(settled_order(t, max, certified_of(s))),
                None => None,
            }
        },
        None => None,
    }
}

/// Everything the coefficients of a Runge-Kutta method say about its order,
/// established in exact arithmetic.
#[derive(Clone, Debug)]
pub struct ExactReport {
    /// Highest order established, by whichever route got furthest.
    pub order: usize,
    /// The same for the embedded weights, if there are any.
    pub embedded_order: Option<usize>,
    /// Largest `q` with `sum_j a_ij c_j^(q-1) = c_i^q / q` for every stage.
    pub stage_order: usize,
    /// How far the simplifying assumptions hold for the weights.
    pub assumptions: SimplifyingAssumptions,
    /// The rooted tree conditions settled the order, rather than Butcher's
    /// theorem.
    pub from_trees: bool,
    /// `c` is the row sum of `A`.
    pub consistent_abscissae: bool,
    /// The trees of the first order the tree search finds a failing condition
    /// at whose conditions fail, in the order the enumeration lists them;
    /// empty where the search runs to its limit.
    pub failing: Vec<Tree>,
}

/// Verify a Runge-Kutta method with coefficients `a`, weights `b`,
/// abscissae `c` and, where it has them, embedded weights, in exact
/// arithmetic: the rooted tree conditions up to `max_order`, settled with the
/// simplifying assumptions where the search runs to its limit, the stage
/// order and whether `c` is the row sum of `A`. `None` where any of these
/// cannot be decided exactly.
pub fn verify_exact(
    a: &Vec<Vec<Rational>>,
    b: &Vec<Rational>,
    c: &Vec<Rational>,
    b_embedded: Option<&Vec<Rational>>,
    max_order: usize,
) -> (r: Option<ExactReport>)
    requires
        exact_tableau(a@, b@),
        c@.len() == a@.len(),
        all_wf(c@),
        b_embedded matches Some(e) ==> exact_tableau(a@, e@),
        max_order <= i32::MAX,
    ensures
        ({
            let am = matrix_view(a@);
            let bv = vector_view(b@);
            let cv = vector_view(c@);
            let embedded_ok = match b_embedded {
                Some(e) => embedded_spec(am, vector_view(e@), cv, max_order as nat) is Some,
                None => true,
            };
            &&& r is Some <==> (weights_order(am, bv, cv, max_order as nat) is Some && stage_order_from(am, cv, 1, max_order as nat) is Some
                && abscissae_verdict(am, cv) is Some && embedded_ok)
            &&& r matches Some(rep) ==> {
                &&& rep.order == weights_order(am, bv, cv, max_order as nat)->0
                &&& rep.from_trees == (order_from(am, bv, 1, max_order as nat)->0 < max_order
                    || certified_of(assumptions_spec(am, bv, cv, ASSUMPTION_LIMIT as nat)->0)
                    <= order_from(am, bv, 1, max_order as nat)->0)
                &&& assumptions_spec(am, bv, cv, ASSUMPTION_LIMIT as nat) == Some(
                    (rep.assumptions.quadrature as nat, rep.assumptions.stage as nat, rep.assumptions.adjoint as nat),
                )
                &&& rep.stage_order == stage_order_from(am, cv, 1, max_order as nat)->0
                &&& rep.consistent_abscissae == abscissae_verdict(am, cv)->0
                &&& shapes(rep.failing@) == (if order_from(am, bv, 1, max_order as nat)->0 < max_order {
                    failing_spec(am, bv, trees_spec(order_from(am, bv, 1, max_order as nat)->0 + 1))
                } else {
                    Seq::empty()
                })
                &&& match b_embedded {
                    Some(e) => rep.embedded_order matches Some(x) && x == embedded_spec(am, vector_view(e@), cv, max_order as nat)->0,
                    None => rep.embedded_order is None,
                }
            }
        }),
{
    let ghost am = matrix_view(a@);
    let ghost bv = vector_view(b@);
    let ghost cv = vector_view(c@);
    proof {
        assert forall|i: int| 0 <= i < a@.len() implies all_wf((#[trigger] a@[i])@) by {
            assert forall|j: int| 0 <= j < a@[i]@.len() implies (#[trigger] a@[i]@[j]).wf() by {
                assert(a@[i]@[j].wf());
            }
        }
    }
    let tree_order = exact_order(a, b, max_order);
    let assumptions = exact_assumptions(a, b, c, ASSUMPTION_LIMIT);
    let stage_order = exact_stage_order(a, c, max_order);
    let consistent = abscissae_consistent(a, c);
    let embedded: Option<Option<usize>> = match b_embedded {
        Some(e) => match exact_order(a, e, max_order) {
            Some(t) => {
                if t < max_order {
                    Some(Some(t))
                } else {
                    match exact_assumptions(a, e, c, ASSUMPTION_LIMIT) {
                        Some(s) => {
                            let cert = s.certified_order();
                            Some(Some(settle_order(t, max_order, cert).order))
                        },
                        None => None,
                    }
                }
            },
            None => None,
        },
        None => Some(None),
    };
    match (tree_order, assumptions, stage_order, consistent, embedded) {
        (Some(t), Some(s), Some(q), Some(ok), Some(e)) => {
            let cert = s.certified_order();
            let settled = settle_order(t, max_order, cert);
            let failing = if t < max_order {
                failing_conditions(a, b, t + 1)
            } else {
                let none: Vec<Tree> = Vec::new();
                proof {
                    assert(shapes(none@) =~= Seq::<Shape>::empty());
                }
                none
            };
            Some(
                ExactReport {
                    order: settled.order,
                    embedded_order: e,
                    stage_order: q,
                    assumptions: s,
                    from_trees: settled.from_trees,
                    consistent_abscissae: ok,
                    failing,
                },
            )
        },
        _ => None,
    }
}

/// The order the search finds is where the conditions stop holding: every
/// condition of every order up to it holds exactly, and, where the search
/// stopped short of its limit, some condition of the next order fails
/// exactly.
pub proof fn law_order_is_where_a_condition_fails(a: Seq<Seq<(int, int)>>, b: Seq<(int, int)>, max: nat)
    requires
        order_from(a, b, 1, max) is Some,
    ensures
        ({
            let p = order_from(a, b, 1, max)->0;
            &&& p <= max
            &&& forall|n: nat, i: int|
                1 <= n <= p && 0 <= i < trees_spec(n).len() ==> #[trigger] condition(a, b, trees_spec(n)[i])
                    == Some(true)
            &&& p < max ==> exists|i: int|
                0 <= i < trees_spec(p + 1).len() && #[trigger] condition(a, b, trees_spec(p + 1)[i]) == Some(false)
        }),
{
    lemma_order_from_sound(a, b, 1, max);
}

proof fn lemma_order_from_sound(a: Seq<Seq<(int, int)>>, b: Seq<(int, int)>, n: nat, max: nat)
    requires
        1 <= n <= max + 1,
        order_from(a, b, n, max) is Some,
    ensures
        ({
            let p = order_from(a, b, n, max)->0;
            &&& n - 1 <= p <= max
            &&& forall|m: nat, i: int|
                n <= m <= p && 0 <= i < trees_spec(m).len() ==> #[trigger] condition(a, b, trees_spec(m)[i])
                    == Some(true)
            &&& p < max ==> exists|i: int|
                0 <= i < trees_spec(p + 1).len() && #[trigger] condition(a, b, trees_spec(p + 1)[i]) == Some(false)
        }),
    decreases max + 1 - n,
{
    if n <= max {
        let v = level_verdict(a, b, trees_spec(n));
        if v == Some(true) {
            lemma_order_from_sound(a, b, n + 1, max);
            let p = order_from(a, b, n, max)->0;
            assert forall|m: nat, i: int|
                n <= m <= p && 0 <= i < trees_spec(m).len() implies #[trigger] condition(a, b, trees_spec(m)[i])
                    == Some(true) by {
                if m == n {
                    let t = trees_spec(n);
                    if condition(a, b, t[i]) == Some(false) {
                        assert(exists|j: int| 0 <= j < t.len() && #[trigger] condition(a, b, t[j]) == Some(false));
                    }
                    if condition(a, b, t[i]) is None {
                        assert(exists|j: int| 0 <= j < t.len() && #[trigger] condition(a, b, t[j]) is None);
                    }
                }
            }
        } else if v == Some(false) {
            let p = order_from(a, b, n, max)->0;
            assert(p == n - 1);
            assert(p + 1 == n);
        }
    }
}

/// A search that finds a failing condition below its limit finds the same
/// order with any larger limit.
pub proof fn law_order_settled_below_the_limit(a: Seq<Seq<(int, int)>>, b: Seq<(int, int)>, max: nat, larger: nat)
    requires
        max <= larger,
        order_from(a, b, 1, max) matches Some(p) && p < max,
    ensures
        order_from(a, b, 1, larger) == order_from(a, b, 1, max),
{
    lemma_order_from_larger(a, b, 1, max, larger);
}

proof fn lemma_order_from_larger(a: Seq<Seq<(int, int)>>, b: Seq<(int, int)>, n: nat, max: nat, larger: nat)
    requires
        1 <= n,
        max <= larger,
        order_from(a, b, n, max) matches Some(p) && p < max,
    ensures
        order_from(a, b, n, larger) == order_from(a, b, n, max),
    decreases max + 1 - n,
{
    if n <= max {
        if level_verdict(a, b, trees_spec(n)) == Some(true) {
            lemma_order_from_larger(a, b, n + 1, max, larger);
        }
    }
}

} // verus!
