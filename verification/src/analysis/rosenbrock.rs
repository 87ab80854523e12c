//! The order conditions of a Rosenbrock method, checked in exact rational
//! arithmetic.
//!
//! A Rosenbrock (ROW) method is a single Newton step of a diagonally implicit
//! Runge-Kutta method, and its stage weights follow from the B-series of the
//! stage increments: a node multiplies, for each child, the `alpha` combination
//! of the child's weights, and a node with exactly one child adds the `gamma`
//! combination of it, the term the Jacobian carries.
//!
//! Stage order is not reported here: a Rosenbrock stage is an increment, not
//! an approximation of the solution at its abscissa.

use vstd::prelude::*;
use crate::analysis::conditions::{
    add_exact, add_q, all_wf, condition, dot, elementary_weight_spec, exact_tableau, forest_weights,
    level_verdict, matrix_view, mul_exact, mul_q, order_from, scaled, stage_weights_spec,
    vector_view, weighted,
};
use crate::analysis::order::{
    level_shapes, lemma_levels_prefix, lemma_levels_sound, shape_density, shapes, trees_by_order,
    trees_spec, levels_spec, Tree,
};
use crate::analysis::shape::{shape_order, Shape};
use crate::num::divisibility::{canonical, gcd_spec, lemma_canonical_unique, lemma_same_value_transitive, same_value};
use crate::num::expr::{canonical_form, lemma_canonical_form_exists};
use crate::num::rational::{product_pair, sum_pair, Rational};

verus! {

/// The product over the first `m` children of the `alpha` combination of
/// their weights, for stage `i`.
pub open spec fn ros_product(al: Seq<Seq<(int, int)>>, psis: Seq<Seq<(int, int)>>, i: int, m: int) -> Option<(int, int)>
    decreases m,
{
    if m <= 0 {
        Some((1, 1))
    } else {
        match ros_product(al, psis, i, m - 1) {
            Some(k) => match dot(al[i], psis[m - 1], al.len() as int) {
                Some(d) => mul_q(k, d),
                None => None,
            },
            None => None,
        }
    }
}

/// The weight of stage `i` of a node whose children have the weights
/// `psis`. The Jacobian term of a node with one child is added unless it is
/// zero, which leaves the weight as it is.
pub open spec fn ros_entry(al: Seq<Seq<(int, int)>>, ga: Seq<Seq<(int, int)>>, psis: Seq<Seq<(int, int)>>, i: int) -> Option<
    (int, int),
> {
    match ros_product(al, psis, i, psis.len() as int) {
        Some(k) => if psis.len() == 1 {
            match dot(ga[i], psis[0], al.len() as int) {
                Some(g) => if g.0 == 0 {
                    Some(k)
                } else {
                    add_q(k, g)
                },
                None => None,
            }
        } else {
            Some(k)
        },
        None => None,
    }
}

/// The weights of a node whose children have the weights `psis`.
pub open spec fn ros_node(al: Seq<Seq<(int, int)>>, ga: Seq<Seq<(int, int)>>, psis: Seq<Seq<(int, int)>>) -> Option<
    Seq<(int, int)>,
> {
    if forall|i: int| 0 <= i < al.len() ==> #[trigger] ros_entry(al, ga, psis, i) is Some {
        Some(Seq::new(al.len(), |i: int| ros_entry(al, ga, psis, i)->0))
    } else {
        None
    }
}

/// The stage weights of a tree.
pub open spec fn ros_weights_spec(al: Seq<Seq<(int, int)>>, ga: Seq<Seq<(int, int)>>, t: Shape) -> Option<Seq<(int, int)>>
    decreases t,
{
    match ros_children(al, ga, t.children) {
        Some(psis) => ros_node(al, ga, psis),
        None => None,
    }
}

/// The stage weights of each tree of a list.
pub open spec fn ros_children(al: Seq<Seq<(int, int)>>, ga: Seq<Seq<(int, int)>>, f: Seq<Shape>) -> Option<
    Seq<Seq<(int, int)>>,
>
    decreases f,
{
    if f.len() == 0 {
        Some(Seq::empty())
    } else {
        match ros_children(al, ga, f.drop_last()) {
            Some(ps) => match ros_weights_spec(al, ga, f.last()) {
                Some(p) => Some(ps.push(p)),
                None => None,
            },
            None => None,
        }
    }
}

/// The elementary weight of a tree.
pub open spec fn ros_weight_spec(al: Seq<Seq<(int, int)>>, ga: Seq<Seq<(int, int)>>, b: Seq<(int, int)>, t: Shape) -> Option<
    (int, int),
> {
    match ros_weights_spec(al, ga, t) {
        Some(psi) => weighted(b, psi, b.len() as int),
        None => None,
    }
}

/// Whether the order condition of `t` holds, `None` where it cannot be
/// decided exactly.
pub open spec fn ros_condition(al: Seq<Seq<(int, int)>>, ga: Seq<Seq<(int, int)>>, b: Seq<(int, int)>, t: Shape) -> Option<
    bool,
> {
    match ros_weight_spec(al, ga, b, t) {
        Some(w) => if shape_density(t) <= i128::MAX {
            Some(w == (1int, shape_density(t) as int))
        } else {
            None
        },
        None => None,
    }
}

/// The verdict on one order.
pub open spec fn ros_verdict(al: Seq<Seq<(int, int)>>, ga: Seq<Seq<(int, int)>>, b: Seq<(int, int)>, trees: Seq<Shape>) -> Option<
    bool,
> {
    if exists|i: int| 0 <= i < trees.len() && #[trigger] ros_condition(al, ga, b, trees[i]) == Some(false) {
        Some(false)
    } else if exists|i: int| 0 <= i < trees.len() && #[trigger] ros_condition(al, ga, b, trees[i]) is None {
        None
    } else {
        Some(true)
    }
}

/// The order from order `n` on, searching up to `max`.
pub open spec fn ros_order_from(al: Seq<Seq<(int, int)>>, ga: Seq<Seq<(int, int)>>, b: Seq<(int, int)>, n: nat, max: nat) -> Option<
    nat,
>
    decreases max + 1 - n,
{
    if n > max {
        Some(max)
    } else {
        match ros_verdict(al, ga, b, trees_spec(n)) {
            Some(true) => ros_order_from(al, ga, b, n + 1, max),
            Some(false) => Some((n - 1) as nat),
            None => None,
        }
    }
}

/// A Rosenbrock tableau of `s` stages: square `alpha` and `gamma` and `s`
/// weights, all well formed.
pub open spec fn exact_rosenbrock(al: Seq<Vec<Rational>>, ga: Seq<Vec<Rational>>, b: Seq<Rational>) -> bool {
    &&& exact_tableau(al, b)
    &&& exact_tableau(ga, b)
}

proof fn lemma_rows_wf(a: Seq<Vec<Rational>>, b: Seq<Rational>)
    requires
        exact_tableau(a, b),
    ensures
        forall|i: int| 0 <= i < a.len() ==> all_wf((#[trigger] a[i])@),
{
    assert forall|i: int| 0 <= i < a.len() implies all_wf((#[trigger] a[i])@) by {
        assert forall|j: int| 0 <= j < a[i]@.len() implies (#[trigger] a[i]@[j]).wf() by {
            assert(a[i]@[j].wf());
        }
    }
}

proof fn lemma_product_stays_none(al: Seq<Seq<(int, int)>>, psis: Seq<Seq<(int, int)>>, i: int, m: int, n: int)
    requires
        1 <= m <= n,
        ros_product(al, psis, i, m) is None,
    ensures
        ros_product(al, psis, i, n) is None,
    decreases n - m,
{
    if m < n {
        lemma_product_stays_none(al, psis, i, m, n - 1);
    }
}

proof fn lemma_children_stays_none(al: Seq<Seq<(int, int)>>, ga: Seq<Seq<(int, int)>>, f: Seq<Shape>, k: int)
    requires
        1 <= k <= f.len(),
        ros_children(al, ga, f.take(k)) is None,
    ensures
        ros_children(al, ga, f) is None,
    decreases f.len() - k,
{
    if k < f.len() {
        assert(f.take(k + 1).drop_last() =~= f.take(k));
        lemma_children_stays_none(al, ga, f, k + 1);
    } else {
        assert(f.take(k) =~= f);
    }
}

proof fn lemma_weighted_none(b: Seq<(int, int)>, psi: Seq<(int, int)>, k: int, m: int)
    requires
        1 <= k <= m,
        weighted(b, psi, k) is None,
    ensures
        weighted(b, psi, m) is None,
    decreases m - k,
{
    if k < m {
        lemma_weighted_none(b, psi, k, m - 1);
    }
}

/// `sum_j row_j v_j`, skipping zero coefficients, as the stage sums are
/// formed.
fn row_dot(row: &Vec<Rational>, v: &Vec<Rational>) -> (r: Option<Rational>)
    requires
        row@.len() == v@.len(),
        all_wf(row@),
        all_wf(v@),
    ensures
        r is Some <==> dot(vector_view(row@), vector_view(v@), row@.len() as int) is Some,
        r matches Some(q) ==> q.wf() && q@ == dot(vector_view(row@), vector_view(v@), row@.len() as int)->0,
{
    crate::analysis::conditions::row_dot(row, v)
}

/// The weight of stage `i` of a node whose children have the weights
/// `psis`.
fn node_entry(al: &Vec<Vec<Rational>>, ga: &Vec<Vec<Rational>>, psis: &Vec<Vec<Rational>>, i: usize) -> (r: Option<Rational>)
    requires
        i < al@.len(),
        ga@.len() == al@.len(),
        forall|k: int| 0 <= k < al@.len() ==> (#[trigger] al@[k])@.len() == al@.len(),
        forall|k: int| 0 <= k < al@.len() ==> all_wf((#[trigger] al@[k])@),
        forall|k: int| 0 <= k < ga@.len() ==> (#[trigger] ga@[k])@.len() == al@.len(),
        forall|k: int| 0 <= k < ga@.len() ==> all_wf((#[trigger] ga@[k])@),
        forall|k: int| 0 <= k < psis@.len() ==> (#[trigger] psis@[k])@.len() == al@.len(),
        forall|k: int| 0 <= k < psis@.len() ==> all_wf((#[trigger] psis@[k])@),
    ensures
        r is Some <==> ros_entry(matrix_view(al@), matrix_view(ga@), matrix_view(psis@), i as int) is Some,
        r matches Some(q) ==> q.wf() && q@ == ros_entry(matrix_view(al@), matrix_view(ga@), matrix_view(psis@), i as int)->0,
{
    let ghost am = matrix_view(al@);
    let ghost gm = matrix_view(ga@);
    let ghost pm = matrix_view(psis@);
    let row = &al[i];
    assert(am[i as int] == vector_view(row@));
    let mut k = Rational::one();
    let mut m: usize = 0;
    while m < psis.len()
        invariant
            m <= psis@.len(),
            i < al@.len(),
            row@.len() == al@.len(),
            all_wf(row@),
            am[i as int] == vector_view(row@),
            am == matrix_view(al@),
            pm == matrix_view(psis@),
            forall|q: int| 0 <= q < psis@.len() ==> (#[trigger] psis@[q])@.len() == al@.len(),
            forall|q: int| 0 <= q < psis@.len() ==> all_wf((#[trigger] psis@[q])@),
            k.wf(),
            ros_product(am, pm, i as int, m as int) == Some(k@),
        decreases psis@.len() - m,
    {
        let child = &psis[m];
        assert(pm[m as int] == vector_view(child@));
        assert(am.len() == al@.len());
        match row_dot(row, child) {
            Some(d) => match mul_exact(k, d) {
                Some(x) => {
                    k = x;
                },
                None => {
                    proof {
                        assert(ros_product(am, pm, i as int, m as int + 1) is None);
                        lemma_product_stays_none(am, pm, i as int, m as int + 1, psis@.len() as int);
                    }
                    return None;
                },
            },
            None => {
                proof {
                    assert(ros_product(am, pm, i as int, m as int + 1) is None);
                    lemma_product_stays_none(am, pm, i as int, m as int + 1, psis@.len() as int);
                }
                return None;
            },
        }
        m = m + 1;
    }
    if psis.len() == 1 {
        let grow = &ga[i];
        assert(gm[i as int] == vector_view(grow@));
        assert(pm[0] == vector_view(psis@[0]@));
        assert(am.len() == al@.len());
        match row_dot(grow, &psis[0]) {
            Some(g) => {
                if g.is_zero() {
                    Some(k)
                } else {
                    add_exact(k, g)
                }
            },
            None => None,
        }
    } else {
        Some(k)
    }
}

/// `psi(t)` for a Rosenbrock method, exactly; `None` where the exact
/// arithmetic overflows.
pub fn ros_stage_weights(al: &Vec<Vec<Rational>>, ga: &Vec<Vec<Rational>>, t: &Tree) -> (r: Option<Vec<Rational>>)
    requires
        ga@.len() == al@.len(),
        forall|k: int| 0 <= k < al@.len() ==> (#[trigger] al@[k])@.len() == al@.len(),
        forall|k: int| 0 <= k < al@.len() ==> all_wf((#[trigger] al@[k])@),
        forall|k: int| 0 <= k < ga@.len() ==> (#[trigger] ga@[k])@.len() == al@.len(),
        forall|k: int| 0 <= k < ga@.len() ==> all_wf((#[trigger] ga@[k])@),
    ensures
        r is Some <==> ros_weights_spec(matrix_view(al@), matrix_view(ga@), t@) is Some,
        r matches Some(v) ==> all_wf(v@) && v@.len() == al@.len() && vector_view(v@)
            == ros_weights_spec(matrix_view(al@), matrix_view(ga@), t@)->0,
    decreases t,
{
    let ghost am = matrix_view(al@);
    let ghost gm = matrix_view(ga@);
    let ghost f = t@.children;
    let mut psis: Vec<Vec<Rational>> = Vec::new();
    proof {
        assert(f.take(0) =~= Seq::<Shape>::empty());
        assert(matrix_view(psis@) =~= Seq::<Seq<(int, int)>>::empty());
    }
    let mut k: usize = 0;
    while k < t.children.len()
        invariant
            k <= t.children@.len(),
            f == t@.children,
            am == matrix_view(al@),
            gm == matrix_view(ga@),
            ga@.len() == al@.len(),
            forall|q: int| 0 <= q < al@.len() ==> (#[trigger] al@[q])@.len() == al@.len(),
            forall|q: int| 0 <= q < al@.len() ==> all_wf((#[trigger] al@[q])@),
            forall|q: int| 0 <= q < ga@.len() ==> (#[trigger] ga@[q])@.len() == al@.len(),
            forall|q: int| 0 <= q < ga@.len() ==> all_wf((#[trigger] ga@[q])@),
            forall|q: int| 0 <= q < psis@.len() ==> (#[trigger] psis@[q])@.len() == al@.len(),
            forall|q: int| 0 <= q < psis@.len() ==> all_wf((#[trigger] psis@[q])@),
            psis@.len() == k,
            ros_children(am, gm, f.take(k as int)) == Some(matrix_view(psis@)),
        decreases t.children@.len() - k,
    {
        proof {
            assert(f.take(k + 1).drop_last() =~= f.take(k as int));
            assert(f.take(k + 1).last() == f[k as int]);
            assert(f[k as int] == t.children@[k as int]@);
        }
        match ros_stage_weights(al, ga, &t.children[k]) {
            Some(child) => {
                let ghost before = psis@;
                psis.push(child);
                proof {
                    assert(matrix_view(psis@) =~= matrix_view(before).push(vector_view(psis@[k as int]@)));
                }
            },
            None => {
                proof {
                    lemma_children_stays_none(am, gm, f, k as int + 1);
                }
                return None;
            },
        }
        k = k + 1;
    }
    proof {
        assert(f.take(k as int) =~= f);
    }
    let ghost pm = matrix_view(psis@);
    let n = al.len();
    let mut out: Vec<Rational> = Vec::new();
    let mut i: usize = 0;
    while i < n
        invariant
            n == al@.len(),
            i <= n,
            am == matrix_view(al@),
            gm == matrix_view(ga@),
            pm == matrix_view(psis@),
            ga@.len() == al@.len(),
            forall|q: int| 0 <= q < al@.len() ==> (#[trigger] al@[q])@.len() == al@.len(),
            forall|q: int| 0 <= q < al@.len() ==> all_wf((#[trigger] al@[q])@),
            forall|q: int| 0 <= q < ga@.len() ==> (#[trigger] ga@[q])@.len() == al@.len(),
            forall|q: int| 0 <= q < ga@.len() ==> all_wf((#[trigger] ga@[q])@),
            forall|q: int| 0 <= q < psis@.len() ==> (#[trigger] psis@[q])@.len() == al@.len(),
            forall|q: int| 0 <= q < psis@.len() ==> all_wf((#[trigger] psis@[q])@),
            ros_children(am, gm, f) == Some(pm),
            f == t@.children,
            out@.len() == i,
            all_wf(out@),
            forall|q: int| 0 <= q < i ==> #[trigger] ros_entry(am, gm, pm, q) == Some(out@[q]@),
        decreases n - i,
    {
        match node_entry(al, ga, &psis, i) {
            Some(x) => {
                out.push(x);
            },
            None => {
                proof {
                    assert(ros_entry(am, gm, pm, i as int) is None);
                    assert(am.len() == n);
                }
                return None;
            },
        }
        i = i + 1;
    }
    proof {
        assert(am.len() == n);
        assert forall|q: int| 0 <= q < am.len() implies #[trigger] ros_entry(am, gm, pm, q) is Some by {
            assert(ros_entry(am, gm, pm, q) == Some(out@[q]@));
        }
        assert(vector_view(out@) =~= Seq::new(am.len(), |q: int| ros_entry(am, gm, pm, q)->0));
    }
    Some(out)
}

/// `Phi(t)` for a Rosenbrock method, exactly; `None` where the exact
/// arithmetic overflows.
pub fn ros_weight(al: &Vec<Vec<Rational>>, ga: &Vec<Vec<Rational>>, b: &Vec<Rational>, t: &Tree) -> (r: Option<Rational>)
    requires
        exact_rosenbrock(al@, ga@, b@),
    ensures
        r is Some <==> ros_weight_spec(matrix_view(al@), matrix_view(ga@), vector_view(b@), t@) is Some,
        r matches Some(q) ==> q.wf() && q@ == ros_weight_spec(matrix_view(al@), matrix_view(ga@), vector_view(b@), t@)->0,
{
    proof {
        lemma_rows_wf(al@, b@);
        lemma_rows_wf(ga@, b@);
    }
    let psi = match ros_stage_weights(al, ga, t) {
        Some(p) => p,
        None => {
            return None;
        },
    };
    let ghost bv = vector_view(b@);
    let ghost pv = vector_view(psi@);
    let mut acc = Rational::zero();
    let mut k: usize = 0;
    while k < b.len()
        invariant
            k <= b@.len(),
            b@.len() == psi@.len(),
            all_wf(psi@),
            forall|i: int| 0 <= i < b@.len() ==> (#[trigger] b@[i]).wf(),
            bv == vector_view(b@),
            pv == vector_view(psi@),
            ros_weights_spec(matrix_view(al@), matrix_view(ga@), t@) == Some(pv),
            acc.wf(),
            weighted(bv, pv, k as int) == Some(acc@),
        decreases b@.len() - k,
    {
        assert(bv[k as int] == b@[k as int]@);
        assert(pv[k as int] == psi@[k as int]@);
        assert(psi@[k as int].wf());
        match mul_exact(b[k], psi[k]) {
            Some(p) => match add_exact(acc, p) {
                Some(q) => {
                    acc = q;
                },
                None => {
                    proof {
                        assert(weighted(bv, pv, k as int + 1) is None);
                        lemma_weighted_none(bv, pv, k as int + 1, b@.len() as int);
                    }
                    return None;
                },
            },
            None => {
                proof {
                    assert(weighted(bv, pv, k as int + 1) is None);
                    lemma_weighted_none(bv, pv, k as int + 1, b@.len() as int);
                }
                return None;
            },
        }
        k = k + 1;
    }
    Some(acc)
}

/// Whether the order condition of `t` holds for a Rosenbrock method, `None`
/// where it cannot be decided exactly.
pub fn ros_check_condition(al: &Vec<Vec<Rational>>, ga: &Vec<Vec<Rational>>, b: &Vec<Rational>, t: &Tree) -> (r: Option<bool>)
    requires
        exact_rosenbrock(al@, ga@, b@),
        shape_order(t@) <= usize::MAX,
    ensures
        r == ros_condition(matrix_view(al@), matrix_view(ga@), vector_view(b@), t@),
{
    let w = match ros_weight(al, ga, b, t) {
        Some(w) => w,
        None => {
            return None;
        },
    };
    match t.density() {
        Some(d) => {
            proof {
                w.lemma_view_bounds();
            }
            Some(w.numerator() == 1 && w.denominator() == d.numerator())
        },
        None => None,
    }
}

/// The order of a Rosenbrock method with coefficients `alpha` and `gamma`
/// and weights `b`, searching the conditions up to `max_order`; `None` when
/// the search reaches an order at which no condition fails but some cannot
/// be decided exactly.
pub fn ros_order(al: &Vec<Vec<Rational>>, ga: &Vec<Vec<Rational>>, b: &Vec<Rational>, max_order: usize) -> (r: Option<usize>)
    requires
        exact_rosenbrock(al@, ga@, b@),
    ensures
        r is Some <==> ros_order_from(matrix_view(al@), matrix_view(ga@), vector_view(b@), 1, max_order as nat) is Some,
        r matches Some(p) ==> p == ros_order_from(matrix_view(al@), matrix_view(ga@), vector_view(b@), 1, max_order as nat)->0,
{
    let ghost am = matrix_view(al@);
    let ghost gm = matrix_view(ga@);
    let ghost bv = vector_view(b@);
    let levels = trees_by_order(max_order);
    proof {
        lemma_levels_sound(max_order as nat);
    }
    let mut k: usize = 0;
    while k < max_order
        invariant
            k <= max_order,
            exact_rosenbrock(al@, ga@, b@),
            am == matrix_view(al@),
            gm == matrix_view(ga@),
            bv == vector_view(b@),
            level_shapes(levels@) == levels_spec(max_order as nat),
            levels_spec(max_order as nat).len() == max_order + 1,
            forall|m: int, i: int| 0 <= m <= max_order && 0 <= i < levels_spec(max_order as nat)[m].len()
                ==> shape_order(#[trigger] levels_spec(max_order as nat)[m][i]) == m,
            ros_order_from(am, gm, bv, 1, max_order as nat) == ros_order_from(am, gm, bv, k as nat + 1, max_order as nat),
        decreases max_order - k,
    {
        let n = k + 1;
        let ghost trees = trees_spec(n as nat);
        proof {
            lemma_levels_prefix(max_order as nat, n as nat);
            assert(levels_spec(max_order as nat)[n as int] == trees);
            assert(level_shapes(levels@)[n as int] == shapes(levels@[n as int]@));
        }
        let level = &levels[n];
        assert(shapes(level@) == trees);
        let mut failed = false;
        let mut open = false;
        let mut i: usize = 0;
        while i < level.len()
            invariant
                i <= level@.len(),
                exact_rosenbrock(al@, ga@, b@),
                am == matrix_view(al@),
                gm == matrix_view(ga@),
                bv == vector_view(b@),
                shapes(level@) == trees,
                forall|j: int| 0 <= j < trees.len() ==> shape_order(#[trigger] trees[j]) == n,
                n <= max_order,
                failed == (exists|j: int| 0 <= j < i && #[trigger] ros_condition(am, gm, bv, trees[j]) == Some(false)),
                open == (exists|j: int| 0 <= j < i && #[trigger] ros_condition(am, gm, bv, trees[j]) is None),
            decreases level@.len() - i,
        {
            assert(trees[i as int] == level@[i as int]@);
            assert(shape_order(trees[i as int]) == n);
            match ros_check_condition(al, ga, b, &level[i]) {
                Some(true) => {},
                Some(false) => {
                    failed = true;
                },
                None => {
                    open = true;
                },
            }
            i = i + 1;
        }
        proof {
            assert(trees.len() == level@.len());
        }
        if failed {
            return Some(k);
        }
        if open {
            return None;
        }
        k = k + 1;
    }
    Some(max_order)
}

/// The order of a Rosenbrock method and of its embedded weights.
#[derive(Copy, Clone, Debug)]
pub struct RosenbrockReport {
    pub order: usize,
    pub embedded_order: Option<usize>,
}

/// Verify a Rosenbrock method in exact arithmetic: the order conditions up to
/// `max_order` for its weights and, where it has them, its embedded weights.
/// `None` where either cannot be decided exactly.
pub fn verify_rosenbrock_exact(
    al: &Vec<Vec<Rational>>,
    ga: &Vec<Vec<Rational>>,
    b: &Vec<Rational>,
    b_embedded: Option<&Vec<Rational>>,
    max_order: usize,
) -> (r: Option<RosenbrockReport>)
    requires
        exact_rosenbrock(al@, ga@, b@),
        b_embedded matches Some(e) ==> exact_rosenbrock(al@, ga@, e@),
    ensures
        ({
            let am = matrix_view(al@);
            let gm = matrix_view(ga@);
            let o = ros_order_from(am, gm, vector_view(b@), 1, max_order as nat);
            let embedded_ok = match b_embedded {
                Some(e) => ros_order_from(am, gm, vector_view(e@), 1, max_order as nat) is Some,
                None => true,
            };
            &&& r is Some <==> (o is Some && embedded_ok)
            &&& r matches Some(rep) ==> {
                &&& o == Some(rep.order as nat)
                &&& match b_embedded {
                    Some(e) => rep.embedded_order matches Some(x) && ros_order_from(am, gm, vector_view(e@), 1, max_order as nat)
                        == Some(x as nat),
                    None => rep.embedded_order is None,
                }
            }
        }),
{
    let order = match ros_order(al, ga, b, max_order) {
        Some(p) => p,
        None => {
            return None;
        },
    };
    let embedded_order = match b_embedded {
        Some(e) => match ros_order(al, ga, e, max_order) {
            Some(p) => Some(p),
            None => {
                return None;
            },
        },
        None => None,
    };
    Some(RosenbrockReport { order, embedded_order })
}

/// Every entry of a square matrix of `s` rows is zero.
pub open spec fn zero_matrix(m: Seq<Seq<(int, int)>>, s: int) -> bool {
    &&& m.len() == s
    &&& forall|i: int| 0 <= i < s ==> (#[trigger] m[i]).len() == s
    &&& forall|i: int, j: int| 0 <= i < s && 0 <= j < s ==> (#[trigger] m[i][j]).0 == 0
}

/// Whether no node of a tree has exactly one child.
pub open spec fn no_single_child(t: Shape) -> bool
    decreases t,
{
    t.children.len() != 1 && forest_without_single_child(t.children)
}

/// Whether no node of any tree of a list has exactly one child.
pub open spec fn forest_without_single_child(f: Seq<Shape>) -> bool
    decreases f,
{
    f.len() == 0 || (forest_without_single_child(f.drop_last()) && no_single_child(f.last()))
}

/// A combination whose coefficients are all zero is zero.
proof fn lemma_zero_dot(row: Seq<(int, int)>, v: Seq<(int, int)>, k: int)
    requires
        0 <= k <= row.len(),
        forall|j: int| 0 <= j < row.len() ==> (#[trigger] row[j]).0 == 0,
    ensures
        dot(row, v, k) == Some((0int, 1int)),
    decreases k,
{
    if k > 0 {
        lemma_zero_dot(row, v, k - 1);
    }
}

/// One stage of `scaled`: the weight of stage `j` after one more child.
pub open spec fn step_entry(a: Seq<Seq<(int, int)>>, p: Seq<(int, int)>, child: Seq<(int, int)>, j: int) -> Option<(int, int)> {
    match dot(a[j], child, a.len() as int) {
        Some(d) => mul_q(p[j], d),
        None => None,
    }
}

/// `scaled` updates each of the first `n` stages on its own.
proof fn lemma_scaled_entries(a: Seq<Seq<(int, int)>>, p: Seq<(int, int)>, child: Seq<(int, int)>, n: int)
    requires
        0 <= n <= p.len(),
    ensures
        scaled(a, p, child, n) is Some <==> (forall|j: int| 0 <= j < n ==> #[trigger] step_entry(a, p, child, j) is Some),
        scaled(a, p, child, n) matches Some(v) ==> v.len() == p.len() && (forall|j: int|
            0 <= j < n ==> #[trigger] v[j] == step_entry(a, p, child, j)->0) && (forall|j: int|
            n <= j < p.len() ==> #[trigger] v[j] == p[j]),
    decreases n,
{
    if n > 0 {
        lemma_scaled_entries(a, p, child, n - 1);
        match scaled(a, p, child, n - 1) {
            Some(v) => {
                assert(v[n - 1] == p[n - 1]);
                if step_entry(a, p, child, n - 1) is Some {
                    let w = v.update(n - 1, step_entry(a, p, child, n - 1)->0);
                    assert(scaled(a, p, child, n) == Some(w));
                } else {
                    assert(scaled(a, p, child, n) is None);
                }
            },
            None => {
                let j0 = choose|j: int| 0 <= j < n - 1 && !(#[trigger] step_entry(a, p, child, j) is Some);
                assert(!(step_entry(a, p, child, j0) is Some));
            },
        }
    }
}

/// The stage weights of a node over its first `m` children are, stage by
/// stage, the products the Rosenbrock recursion forms.
proof fn lemma_forest_products(a: Seq<Seq<(int, int)>>, f: Seq<Shape>, psis: Seq<Seq<(int, int)>>, m: int)
    requires
        0 <= m <= f.len(),
        psis.len() == f.len(),
        forall|q: int| 0 <= q < f.len() ==> stage_weights_spec(a, #[trigger] f[q]) == Some(psis[q]),
    ensures
        forest_weights(a, f.take(m)) is Some <==> (forall|j: int| 0 <= j < a.len() ==> #[trigger] ros_product(a, psis, j, m) is Some),
        forest_weights(a, f.take(m)) matches Some(v) ==> v == Seq::new(a.len(), |j: int| ros_product(a, psis, j, m)->0),
    decreases m,
{
    if m == 0 {
        assert(f.take(0) =~= Seq::<Shape>::empty());
        assert(Seq::new(a.len(), |i: int| (1int, 1int)) =~= Seq::new(a.len(), |j: int| ros_product(a, psis, j, 0)->0));
    } else {
        lemma_forest_products(a, f, psis, m - 1);
        assert(f.take(m).drop_last() =~= f.take(m - 1));
        assert(f.take(m).last() == f[m - 1]);
        assert(stage_weights_spec(a, f[m - 1]) == Some(psis[m - 1]));
        match forest_weights(a, f.take(m - 1)) {
            Some(p) => {
                let c = psis[m - 1];
                lemma_scaled_entries(a, p, c, a.len() as int);
                assert forall|j: int| 0 <= j < a.len() implies #[trigger] step_entry(a, p, c, j) == ros_product(a, psis, j, m) by {
                    assert(p[j] == ros_product(a, psis, j, m - 1)->0);
                    assert(ros_product(a, psis, j, m - 1) is Some);
                }
                if forall|j: int| 0 <= j < a.len() ==> #[trigger] ros_product(a, psis, j, m) is Some {
                    let v = scaled(a, p, c, a.len() as int)->0;
                    assert(v =~= Seq::new(a.len(), |j: int| ros_product(a, psis, j, m)->0));
                } else {
                    let j0 = choose|j: int| 0 <= j < a.len() && !(#[trigger] ros_product(a, psis, j, m) is Some);
                    assert(step_entry(a, p, c, j0) == ros_product(a, psis, j0, m));
                }
            },
            None => {
                let j0 = choose|j: int| 0 <= j < a.len() && !(#[trigger] ros_product(a, psis, j, m - 1) is Some);
                assert(ros_product(a, psis, j0, m) is None);
            },
        }
    }
}

proof fn lemma_rk_forest_none(a: Seq<Seq<(int, int)>>, f: Seq<Shape>, k: int)
    requires
        1 <= k <= f.len(),
        forest_weights(a, f.take(k)) is None,
    ensures
        forest_weights(a, f) is None,
    decreases f.len() - k,
{
    if k < f.len() {
        assert(f.take(k + 1).drop_last() =~= f.take(k));
        lemma_rk_forest_none(a, f, k + 1);
    } else {
        assert(f.take(k) =~= f);
    }
}

/// The children's weights under both recursions agree, child by child.
proof fn lemma_children_agree(a: Seq<Seq<(int, int)>>, g: Seq<Seq<(int, int)>>, f: Seq<Shape>)
    requires
        zero_matrix(g, a.len() as int) || forest_without_single_child(f),
        forall|i: int| 0 <= i < a.len() ==> (#[trigger] a[i]).len() == a.len(),
    ensures
        ros_children(a, g, f) is Some <==> (forall|q: int| 0 <= q < f.len() ==> #[trigger] stage_weights_spec(a, f[q]) is Some),
        ros_children(a, g, f) matches Some(ps) ==> ps.len() == f.len() && forall|q: int|
            0 <= q < f.len() ==> stage_weights_spec(a, #[trigger] f[q]) == Some(ps[q]),
    decreases f,
{
    if f.len() > 0 {
        lemma_children_agree(a, g, f.drop_last());
        lemma_jacobian_free(a, g, f.last());
        assert forall|q: int| 0 <= q < f.len() - 1 implies #[trigger] f[q] == f.drop_last()[q] by {}
        if ros_children(a, g, f.drop_last()) is None {
            let q0 = choose|q: int| 0 <= q < f.drop_last().len() && !(#[trigger] stage_weights_spec(a, f.drop_last()[q]) is Some);
            assert(f[q0] == f.drop_last()[q0]);
            assert(!(stage_weights_spec(a, f[q0]) is Some));
        }
    }
}

/// The Rosenbrock and Runge-Kutta recursions agree on a tree where no
/// Jacobian term can enter: either `gamma` is zero, or no node of the tree
/// has exactly one child.
proof fn lemma_jacobian_free(a: Seq<Seq<(int, int)>>, g: Seq<Seq<(int, int)>>, t: Shape)
    requires
        zero_matrix(g, a.len() as int) || no_single_child(t),
        forall|i: int| 0 <= i < a.len() ==> (#[trigger] a[i]).len() == a.len(),
    ensures
        ros_weights_spec(a, g, t) == stage_weights_spec(a, t),
    decreases t,
{
    let f = t.children;
    lemma_children_agree(a, g, f);
    match ros_children(a, g, f) {
        Some(psis) => {
            lemma_forest_products(a, f, psis, f.len() as int);
            assert(f.take(f.len() as int) =~= f);
            assert forall|i: int| 0 <= i < a.len() implies #[trigger] ros_entry(a, g, psis, i) == ros_product(a, psis, i, psis.len() as int) by {
                if psis.len() == 1 {
                    assert(zero_matrix(g, a.len() as int));
                    lemma_zero_dot(g[i], psis[0], a.len() as int);
                }
            }
            assert(psis.len() == f.len());
            if forall|i: int| 0 <= i < a.len() ==> #[trigger] ros_entry(a, g, psis, i) is Some {
                assert forall|j: int| 0 <= j < a.len() implies #[trigger] ros_product(a, psis, j, f.len() as int) is Some by {
                    assert(ros_entry(a, g, psis, j) is Some);
                }
                assert(forest_weights(a, f) is Some);
                assert(Seq::new(a.len(), |i: int| ros_entry(a, g, psis, i)->0) =~= Seq::new(
                    a.len(),
                    |j: int| ros_product(a, psis, j, f.len() as int)->0,
                ));
                assert(ros_node(a, g, psis) == forest_weights(a, f));
            } else {
                let i0 = choose|i: int| 0 <= i < a.len() && !(#[trigger] ros_entry(a, g, psis, i) is Some);
                assert(!(ros_product(a, psis, i0, f.len() as int) is Some));
                assert(forest_weights(a, f) is None);
                assert(ros_node(a, g, psis) is None);
            }
        },
        None => {
            let q0 = choose|q: int| 0 <= q < f.len() && !(#[trigger] stage_weights_spec(a, f[q]) is Some);
            assert(f.take(q0 + 1).drop_last() =~= f.take(q0));
            assert(f.take(q0 + 1).last() == f[q0]);
            assert(forest_weights(a, f.take(q0 + 1)) is None);
            lemma_rk_forest_none(a, f, q0 + 1);
        },
    }
}

/// With no Jacobian coupling a Rosenbrock method is the explicit Runge-Kutta
/// method with the same `alpha`: the two recursions give every tree the same
/// stage weights, and overflow on the same trees.
pub proof fn law_rosenbrock_without_jacobian_is_runge_kutta(a: Seq<Seq<(int, int)>>, g: Seq<Seq<(int, int)>>, t: Shape)
    requires
        zero_matrix(g, a.len() as int),
        forall|i: int| 0 <= i < a.len() ==> (#[trigger] a[i]).len() == a.len(),
    ensures
        ros_weights_spec(a, g, t) == stage_weights_spec(a, t),
{
    lemma_jacobian_free(a, g, t);
}

/// Only a node with exactly one child carries the Jacobian term: on a tree
/// none of whose nodes has exactly one child, whatever `gamma` is, the
/// Rosenbrock stage weights are those of the Runge-Kutta method with
/// `A = alpha`. So the bushy tree `[t,t]` has, at stage `i`, the weight
/// `(sum_j alpha_ij)^2`.
pub proof fn law_jacobian_only_at_single_child(a: Seq<Seq<(int, int)>>, g: Seq<Seq<(int, int)>>, t: Shape)
    requires
        no_single_child(t),
        forall|i: int| 0 <= i < a.len() ==> (#[trigger] a[i]).len() == a.len(),
    ensures
        ros_weights_spec(a, g, t) == stage_weights_spec(a, t),
{
    lemma_jacobian_free(a, g, t);
}

/// Whether no node of a tree has more than one child.
pub open spec fn chain(t: Shape) -> bool
    decreases t,
{
    t.children.len() == 0 || (t.children.len() == 1 && chain(t.children[0]))
}

/// Zero, written over any positive denominator, has the canonical form `0/1`.
proof fn lemma_zero_canonical(d: int)
    requires
        d > 0,
    ensures
        canonical_form((0, d)) == (0int, 1int),
{
    assert(gcd_spec(1, 0) == 1);
    assert(gcd_spec(0, 1) == 1);
    assert(canonical((0int, 1int)));
    assert(same_value((0int, 1int), (0, d)));
    lemma_canonical_form_exists((0, d));
    let c = canonical_form((0, d));
    assert(c.0 * d == 0);
    assert(c.0 == 0) by (nonlinear_arith)
        requires
            c.0 * d == 0,
            d > 0,
    ;
    assert(same_value(c, (0int, 1int)));
    lemma_canonical_unique(c, (0int, 1int));
}

/// A combination of values with positive denominators has a positive
/// denominator.
proof fn lemma_dot_denominator(row: Seq<(int, int)>, v: Seq<(int, int)>, k: int)
    requires
        0 <= k <= row.len(),
        k <= v.len(),
        forall|j: int| 0 <= j < row.len() ==> (#[trigger] row[j]).1 > 0,
        forall|j: int| 0 <= j < v.len() ==> (#[trigger] v[j]).1 > 0,
    ensures
        dot(row, v, k) matches Some(d) ==> d.1 > 0,
    decreases k,
{
    if k > 0 {
        lemma_dot_denominator(row, v, k - 1);
        match dot(row, v, k - 1) {
            Some(acc) => {
                if row[k - 1].0 != 0 {
                    let pr = product_pair(row[k - 1], v[k - 1]);
                    assert(pr.1 > 0) by (nonlinear_arith)
                        requires
                            pr.1 == row[k - 1].1 * v[k - 1].1,
                            row[k - 1].1 > 0,
                            v[k - 1].1 > 0,
                    ;
                    lemma_canonical_form_exists(pr);
                    let pc = canonical_form(pr);
                    let sm = (acc.0 * pc.1 + pc.0 * acc.1, acc.1 * pc.1);
                    assert(sm.1 > 0) by (nonlinear_arith)
                        requires
                            sm.1 == acc.1 * pc.1,
                            acc.1 > 0,
                            pc.1 > 0,
                    ;
                    lemma_canonical_form_exists(sm);
                }
            },
            None => {},
        }
    }
}

/// The Jacobian term is the `gamma` combination of the weights of a node's
/// single child, added to the `alpha` part: with `alpha` zero, on a tree no
/// node of which has more than one child, the Rosenbrock stage weights are,
/// where both are exact, those of the Runge-Kutta method with `A = gamma`.
/// For the tree `[t]` that is the weight `sum_j gamma_ij` at stage `i`.
#[verifier::spinoff_prover]
pub proof fn law_jacobian_term_is_the_gamma_combination(a: Seq<Seq<(int, int)>>, g: Seq<Seq<(int, int)>>, t: Shape)
    requires
        zero_matrix(a, a.len() as int),
        g.len() == a.len(),
        forall|i: int| 0 <= i < g.len() ==> (#[trigger] g[i]).len() == g.len(),
        forall|i: int, j: int| 0 <= i < g.len() && 0 <= j < g.len() ==> (#[trigger] g[i][j]).1 > 0,
        chain(t),
    ensures
        ros_weights_spec(a, g, t) is Some && stage_weights_spec(g, t) is Some ==> ros_weights_spec(a, g, t)
            == stage_weights_spec(g, t),
        ros_weights_spec(a, g, t) matches Some(w) ==> w.len() == a.len() && forall|i: int|
            0 <= i < w.len() ==> (#[trigger] w[i]).1 > 0,
    decreases t,
{
    let n = a.len() as int;
    let f = t.children;
    if f.len() == 0 {
        assert(ros_children(a, g, f) == Some(Seq::<Seq<(int, int)>>::empty()));
        let psis = Seq::<Seq<(int, int)>>::empty();
        assert forall|i: int| 0 <= i < n implies #[trigger] ros_entry(a, g, psis, i) == Some((1int, 1int)) by {}
        assert(ros_weights_spec(a, g, t) == Some(Seq::new(a.len(), |i: int| (1int, 1int)))) by {
            assert(Seq::new(a.len(), |i: int| ros_entry(a, g, psis, i)->0) =~= Seq::new(a.len(), |i: int| (1int, 1int)));
        }
    } else {
        let u = f[0];
        law_jacobian_term_is_the_gamma_combination(a, g, u);
        assert(f.drop_last() =~= Seq::<Shape>::empty());
        assert(f.last() == u);
        assert(ros_children(a, g, f.drop_last()) == Some(Seq::<Seq<(int, int)>>::empty()));
        assert(forest_weights(g, f.drop_last()) == Some(Seq::new(g.len(), |i: int| (1int, 1int))));
        match ros_weights_spec(a, g, u) {
            Some(psi) => {
                let psis = seq![psi];
                assert(ros_children(a, g, f) == Some(psis));
                assert(psis.len() == 1 && psis[0] == psi);
                assert(gcd_spec(1, 0) == 1);
                assert(gcd_spec(0, 1) == 1);
                lemma_zero_canonical(1);
                assert forall|i: int| 0 <= i < n implies #[trigger] ros_product(a, psis, i, 1) == Some((0int, 1int)) by {
                    lemma_zero_dot(a[i], psi, n);
                    assert(ros_product(a, psis, i, 0) == Some((1int, 1int)));
                    assert(product_pair((1int, 1int), (0int, 1int)) == (0int, 1int));
                }
                // The stage weights of the node, stage by stage.
                assert forall|i: int| 0 <= i < n implies match #[trigger] ros_entry(a, g, psis, i) {
                    Some(x) => x.1 > 0 && (dot(g[i], psi, n) matches Some(d) && (d.0 == 0 ==> x == (0int, 1int))
                        && (d.0 != 0 ==> x == canonical_form(d))),
                    None => true,
                } by {
                    lemma_dot_denominator(g[i], psi, n);
                    match dot(g[i], psi, n) {
                        Some(d) => {
                            if d.0 != 0 {
                                assert(0 * d.1 + d.0 * 1 == d.0 && 1 * d.1 == d.1);
                                assert(sum_pair((0int, 1int), d) == d);
                                lemma_canonical_form_exists(d);
                            }
                        },
                        None => {},
                    }
                }
                if ros_weights_spec(a, g, t) is Some {
                    let w = ros_weights_spec(a, g, t)->0;
                    assert(w =~= Seq::new(a.len(), |i: int| ros_entry(a, g, psis, i)->0));
                    assert forall|i: int| 0 <= i < w.len() implies (#[trigger] w[i]).1 > 0 by {
                        assert(ros_entry(a, g, psis, i) is Some);
                    }
                    if stage_weights_spec(g, t) is Some {
                        let child = stage_weights_spec(g, u)->0;
                        assert(child == psi);
                        let ones = Seq::new(g.len(), |i: int| (1int, 1int));
                        assert(forest_weights(g, f) == scaled(g, ones, child, n));
                        lemma_scaled_entries(g, ones, child, n);
                        let v = stage_weights_spec(g, t)->0;
                        assert forall|i: int| 0 <= i < n implies w[i] == #[trigger] v[i] by {
                            assert(ros_entry(a, g, psis, i) is Some);
                            assert(step_entry(g, ones, child, i) is Some);
                            let d = dot(g[i], psi, n)->0;
                            assert(1 * d.0 == d.0 && 1 * d.1 == d.1);
                            assert(product_pair((1int, 1int), d) == d);
                            if d.0 == 0 {
                                lemma_dot_denominator(g[i], psi, n);
                                lemma_zero_canonical(d.1);
                                assert(d == (0int, d.1));
                            }
                        }
                        assert(w =~= v);
                    }
                }
            },
            None => {
                assert(ros_children(a, g, f) is None);
            },
        }
    }
}

/// The square matrix of `n` rows whose entries are all zero.
pub open spec fn zeros(n: nat) -> Seq<Seq<(int, int)>> {
    Seq::new(n, |i: int| Seq::new(n, |j: int| (0int, 1int)))
}

/// At a node with one child the `alpha` part and the Jacobian part add up:
/// the weight with both `alpha` and `gamma` is, where all three are exact,
/// the sum of the weight with `gamma` zero and the weight with `alpha` zero.
#[verifier::spinoff_prover]
pub proof fn law_jacobian_term_adds(al: Seq<Seq<(int, int)>>, ga: Seq<Seq<(int, int)>>, psi: Seq<(int, int)>, i: int)
    requires
        ga.len() == al.len(),
        psi.len() == al.len(),
        0 <= i < al.len(),
        forall|r: int| 0 <= r < al.len() ==> (#[trigger] al[r]).len() == al.len(),
        forall|r: int| 0 <= r < al.len() ==> (#[trigger] ga[r]).len() == al.len(),
        forall|r: int, j: int| 0 <= r < al.len() && 0 <= j < al.len() ==> (#[trigger] al[r][j]).1 > 0,
        forall|r: int, j: int| 0 <= r < al.len() && 0 <= j < al.len() ==> (#[trigger] ga[r][j]).1 > 0,
        forall|j: int| 0 <= j < psi.len() ==> (#[trigger] psi[j]).1 > 0,
    ensures
        match (
            ros_entry(al, ga, seq![psi], i),
            ros_entry(al, zeros(al.len()), seq![psi], i),
            ros_entry(zeros(al.len()), ga, seq![psi], i),
        ) {
            (Some(w), Some(x), Some(y)) => same_value(w, sum_pair(x, y)),
            _ => true,
        },
{
    let n = al.len() as int;
    let z = zeros(al.len());
    let psis = seq![psi];
    assert(psis.len() == 1 && psis[0] == psi);
    assert(z[i].len() == n);
    assert forall|j: int| 0 <= j < z[i].len() implies (#[trigger] z[i][j]).0 == 0 by {}
    lemma_zero_dot(z[i], psi, n);
    lemma_zero_canonical(1);
    assert(product_pair((1int, 1int), (0int, 1int)) == (0int, 1int));
    lemma_dot_denominator(al[i], psi, n);
    lemma_dot_denominator(ga[i], psi, n);
    assert(ros_product(al, psis, i, 0) == Some((1int, 1int)));
    assert(ros_product(z, psis, i, 0) == Some((1int, 1int)));
    match (ros_entry(al, ga, psis, i), ros_entry(al, z, psis, i), ros_entry(z, ga, psis, i)) {
        (Some(w), Some(x), Some(y)) => {
            let d = dot(al[i], psi, n)->0;
            let g = dot(ga[i], psi, n)->0;
            assert(1 * d.0 == d.0 && 1 * d.1 == d.1);
            assert(product_pair((1int, 1int), d) == d);
            lemma_canonical_form_exists(d);
            let k = canonical_form(d);
            assert(ros_product(al, psis, i, 1) == Some(k));
            assert(ros_product(z, psis, i, 1) == Some((0int, 1int)));
            assert(x == k);
            assert(k.0 * 1 + 0 * k.1 == k.0 && k.1 * 1 == k.1);
            if g.0 == 0 {
                assert(w == k);
                assert(y == (0int, 1int));
                assert(sum_pair(x, y) == k);
            } else {
                let sg = sum_pair(k, g);
                assert(sg.1 > 0) by (nonlinear_arith)
                    requires
                        sg.1 == k.1 * g.1,
                        k.1 > 0,
                        g.1 > 0,
                ;
                lemma_canonical_form_exists(sg);
                assert(w == canonical_form(sg));
                assert(0 * g.1 + g.0 * 1 == g.0 && 1 * g.1 == g.1);
                assert(sum_pair((0int, 1int), g) == g);
                lemma_canonical_form_exists(g);
                assert(y == canonical_form(g));
                let sy = sum_pair(x, y);
                assert(same_value(sg, sy)) by (nonlinear_arith)
                    requires
                        sg == sum_pair(k, g),
                        sy == sum_pair(k, y),
                        y.0 * g.1 == g.0 * y.1,
                {
                    assert((k.0 * g.1 + g.0 * k.1) * (k.1 * y.1) == (k.0 * y.1 + y.0 * k.1) * (k.1 * g.1));
                }
                lemma_same_value_transitive(w, sg, sy);
            }
        },
        _ => {},
    }
}

/// Without Jacobian terms a Rosenbrock method has the order of the explicit
/// Runge-Kutta method with the same `alpha` and weights, at every search
/// limit.
pub proof fn law_rosenbrock_without_jacobian_has_the_runge_kutta_order(
    a: Seq<Seq<(int, int)>>,
    g: Seq<Seq<(int, int)>>,
    b: Seq<(int, int)>,
    max: nat,
)
    requires
        zero_matrix(g, a.len() as int),
        forall|i: int| 0 <= i < a.len() ==> (#[trigger] a[i]).len() == a.len(),
    ensures
        ros_order_from(a, g, b, 1, max) == order_from(a, b, 1, max),
{
    lemma_same_order_from(a, g, b, 1, max);
}

proof fn lemma_same_conditions(a: Seq<Seq<(int, int)>>, g: Seq<Seq<(int, int)>>, b: Seq<(int, int)>, t: Shape)
    requires
        zero_matrix(g, a.len() as int),
        forall|i: int| 0 <= i < a.len() ==> (#[trigger] a[i]).len() == a.len(),
    ensures
        ros_condition(a, g, b, t) == condition(a, b, t),
{
    law_rosenbrock_without_jacobian_is_runge_kutta(a, g, t);
    assert(ros_weight_spec(a, g, b, t) == elementary_weight_spec(a, b, t));
}

proof fn lemma_same_order_from(a: Seq<Seq<(int, int)>>, g: Seq<Seq<(int, int)>>, b: Seq<(int, int)>, n: nat, max: nat)
    requires
        zero_matrix(g, a.len() as int),
        forall|i: int| 0 <= i < a.len() ==> (#[trigger] a[i]).len() == a.len(),
    ensures
        ros_order_from(a, g, b, n, max) == order_from(a, b, n, max),
    decreases max + 1 - n,
{
    if n <= max {
        let trees = trees_spec(n);
        assert forall|i: int| 0 <= i < trees.len() implies #[trigger] ros_condition(a, g, b, trees[i]) == condition(
            a,
            b,
            trees[i],
        ) by {
            lemma_same_conditions(a, g, b, trees[i]);
        }
        if exists|i: int| 0 <= i < trees.len() && #[trigger] condition(a, b, trees[i]) == Some(false) {
            let i = choose|i: int| 0 <= i < trees.len() && #[trigger] condition(a, b, trees[i]) == Some(false);
            assert(ros_condition(a, g, b, trees[i]) == Some(false));
        }
        if exists|i: int| 0 <= i < trees.len() && #[trigger] ros_condition(a, g, b, trees[i]) == Some(false) {
            let i = choose|i: int| 0 <= i < trees.len() && #[trigger] ros_condition(a, g, b, trees[i]) == Some(false);
            assert(condition(a, b, trees[i]) == Some(false));
        }
        if exists|i: int| 0 <= i < trees.len() && #[trigger] condition(a, b, trees[i]) is None {
            let i = choose|i: int| 0 <= i < trees.len() && #[trigger] condition(a, b, trees[i]) is None;
            assert(ros_condition(a, g, b, trees[i]) is None);
        }
        if exists|i: int| 0 <= i < trees.len() && #[trigger] ros_condition(a, g, b, trees[i]) is None {
            let i = choose|i: int| 0 <= i < trees.len() && #[trigger] ros_condition(a, g, b, trees[i]) is None;
            assert(condition(a, b, trees[i]) is None);
        }
        assert(ros_verdict(a, g, b, trees) == level_verdict(a, b, trees));
        lemma_same_order_from(a, g, b, n + 1, max);
    }
}

} // verus!
