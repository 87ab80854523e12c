//! The coupling conditions of an additive pair, checked in exact rational
//! arithmetic.
//!
//! An additive (IMEX) pair applies the explicit tableau `(A_E, b_E)` to one
//! half of a problem and the implicit tableau `(A_I, b_I)` to the other. Its
//! order conditions are indexed by trees whose nodes carry one of the two
//! colours: a subtree of colour 0 enters its parent's stage weights through
//! `A_E`, one of colour 1 through `A_I`, and the root's colour picks the
//! weights. Beyond the conditions of each half on its own these are the
//! coupling conditions, and a pair has order `p` when every coloured tree with
//! at most `p` nodes satisfies `Phi(t) = 1 / gamma(t)`.

use vstd::prelude::*;
use crate::analysis::additive::{
    coloured_level_shapes, coloured_levels_spec, coloured_shapes, coloured_trees_by_order,
    lemma_coloured_levels_prefix, lemma_coloured_levels_sound,
};
use crate::analysis::coloured::{
    coloured_forest_order, coloured_order, law_shape_keeps_order, uncoloured, ColouredShape,
    ColouredTree,
};
use crate::analysis::conditions::{
    abscissae_verdict, all_wf, condition, exact_tableau, forest_weights, matrix_view, mul_exact,
    add_exact, scale_by_child, scaled, stage_order_from, stage_weights_spec, vector_view, weighted,
    weights_order, verify_exact, ExactReport,
};
use crate::analysis::order::shape_density;
use crate::num::rational::Rational;

verus! {

/// The matrix a subtree of `colour` enters its parent through.
pub open spec fn colour_matrix(ae: Seq<Seq<(int, int)>>, ai: Seq<Seq<(int, int)>>, colour: u8) -> Seq<Seq<(int, int)>> {
    if colour == 0 {
        ae
    } else {
        ai
    }
}

/// The stage weights of a coloured tree.
pub open spec fn pair_weights_spec(ae: Seq<Seq<(int, int)>>, ai: Seq<Seq<(int, int)>>, t: ColouredShape) -> Option<
    Seq<(int, int)>,
>
    decreases t,
{
    pair_forest_weights(ae, ai, t.children)
}

/// The stage weights of a root over the coloured subtrees `f`, one child
/// after the other.
pub open spec fn pair_forest_weights(ae: Seq<Seq<(int, int)>>, ai: Seq<Seq<(int, int)>>, f: Seq<ColouredShape>) -> Option<
    Seq<(int, int)>,
>
    decreases f,
{
    if f.len() == 0 {
        Some(Seq::new(ae.len(), |i: int| (1int, 1int)))
    } else {
        match pair_forest_weights(ae, ai, f.drop_last()) {
            Some(psi) => match pair_weights_spec(ae, ai, f.last()) {
                Some(child) => scaled(colour_matrix(ae, ai, f.last().colour), psi, child, ae.len() as int),
                None => None,
            },
            None => None,
        }
    }
}

/// The elementary weight of a coloured tree, with the weights its root's
/// colour picks.
pub open spec fn pair_weight_spec(
    ae: Seq<Seq<(int, int)>>,
    ai: Seq<Seq<(int, int)>>,
    be: Seq<(int, int)>,
    bi: Seq<(int, int)>,
    t: ColouredShape,
) -> Option<(int, int)> {
    match pair_weights_spec(ae, ai, t) {
        Some(psi) => weighted(if t.colour == 0 { be } else { bi }, psi, be.len() as int),
        None => None,
    }
}

/// Whether the condition of a coloured tree holds, `None` where it cannot be
/// decided exactly. Its target is the density of the tree underneath.
pub open spec fn pair_condition(
    ae: Seq<Seq<(int, int)>>,
    ai: Seq<Seq<(int, int)>>,
    be: Seq<(int, int)>,
    bi: Seq<(int, int)>,
    t: ColouredShape,
) -> Option<bool> {
    match pair_weight_spec(ae, ai, be, bi, t) {
        Some(w) => if shape_density(uncoloured(t)) <= i128::MAX {
            Some(w == (1int, shape_density(uncoloured(t)) as int))
        } else {
            None
        },
        None => None,
    }
}

/// The coloured trees with `n` nodes.
pub open spec fn coloured_trees_spec(n: nat) -> Seq<ColouredShape> {
    coloured_levels_spec(n)[n as int]
}

/// The verdict on one order, as for a single tableau.
pub open spec fn pair_verdict(
    ae: Seq<Seq<(int, int)>>,
    ai: Seq<Seq<(int, int)>>,
    be: Seq<(int, int)>,
    bi: Seq<(int, int)>,
    trees: Seq<ColouredShape>,
) -> Option<bool> {
    if exists|i: int| 0 <= i < trees.len() && #[trigger] pair_condition(ae, ai, be, bi, trees[i]) == Some(false) {
        Some(false)
    } else if exists|i: int| 0 <= i < trees.len() && #[trigger] pair_condition(ae, ai, be, bi, trees[i]) is None {
        None
    } else {
        Some(true)
    }
}

/// The order of the pair from order `n` on, searching up to `max`.
pub open spec fn pair_order_from(
    ae: Seq<Seq<(int, int)>>,
    ai: Seq<Seq<(int, int)>>,
    be: Seq<(int, int)>,
    bi: Seq<(int, int)>,
    n: nat,
    max: nat,
) -> Option<nat>
    decreases max + 1 - n,
{
    if n > max {
        Some(max)
    } else {
        match pair_verdict(ae, ai, be, bi, coloured_trees_spec(n)) {
            Some(true) => pair_order_from(ae, ai, be, bi, n + 1, max),
            Some(false) => Some((n - 1) as nat),
            None => None,
        }
    }
}

proof fn lemma_pair_forest_stays_none(ae: Seq<Seq<(int, int)>>, ai: Seq<Seq<(int, int)>>, f: Seq<ColouredShape>, k: int)
    requires
        1 <= k <= f.len(),
        pair_forest_weights(ae, ai, f.take(k)) is None,
    ensures
        pair_forest_weights(ae, ai, f) is None,
    decreases f.len() - k,
{
    if k < f.len() {
        assert(f.take(k + 1).drop_last() =~= f.take(k));
        lemma_pair_forest_stays_none(ae, ai, f, k + 1);
    } else {
        assert(f.take(k) =~= f);
    }
}

/// With the same matrix for both colours, the stage weights of a coloured
/// tree are those of the tree underneath.
proof fn lemma_identical_weights(a: Seq<Seq<(int, int)>>, t: ColouredShape)
    ensures
        pair_weights_spec(a, a, t) == stage_weights_spec(a, uncoloured(t)),
    decreases t,
{
    lemma_identical_forest_weights(a, t.children);
    assert(uncoloured(t).children =~= t.children.map_values(|c: ColouredShape| uncoloured(c)));
}

proof fn lemma_identical_forest_weights(a: Seq<Seq<(int, int)>>, f: Seq<ColouredShape>)
    ensures
        pair_forest_weights(a, a, f) == forest_weights(a, f.map_values(|c: ColouredShape| uncoloured(c))),
    decreases f,
{
    if f.len() > 0 {
        lemma_identical_forest_weights(a, f.drop_last());
        lemma_identical_weights(a, f.last());
        let g = f.map_values(|c: ColouredShape| uncoloured(c));
        assert(g.drop_last() =~= f.drop_last().map_values(|c: ColouredShape| uncoloured(c)));
        assert(g.last() == uncoloured(f.last()));
    }
}

/// A pair of two identical halves is the tableau itself: the coupling
/// condition of every coloured tree is the tableau's own order condition on
/// the tree underneath, decided or undecided alike.
pub proof fn law_identical_halves_have_the_tableau_conditions(
    a: Seq<Seq<(int, int)>>,
    b: Seq<(int, int)>,
    t: ColouredShape,
)
    ensures
        pair_condition(a, a, b, b, t) == condition(a, b, uncoloured(t)),
{
    lemma_identical_weights(a, t);
}

proof fn lemma_weighted_none(b: Seq<(int, int)>, psi: Seq<(int, int)>, k: int, m: int)
    requires
        1 <= k <= m,
        weighted(b, psi, k) is None,
    ensures
        weighted(b, psi, m) is None,
    decreases m - k,
{
    if k < m {
        lemma_weighted_none(b, psi, k, m - 1);
    }
}

/// The tableau conditions the pair functions need: two square tableaux of
/// the same size with well formed entries.
pub open spec fn exact_pair(ae: Seq<Vec<Rational>>, ai: Seq<Vec<Rational>>, be: Seq<Rational>, bi: Seq<Rational>) -> bool {
    &&& exact_tableau(ae, be)
    &&& exact_tableau(ai, bi)
    &&& ae.len() == ai.len()
}

proof fn lemma_rows_wf(a: Seq<Vec<Rational>>, b: Seq<Rational>)
    requires
        exact_tableau(a, b),
    ensures
        forall|i: int| 0 <= i < a.len() ==> all_wf((#[trigger] a[i])@),
{
    assert forall|i: int| 0 <= i < a.len() implies all_wf((#[trigger] a[i])@) by {
        assert forall|j: int| 0 <= j < a[i]@.len() implies (#[trigger] a[i]@[j]).wf() by {
            assert(a[i]@[j].wf());
        }
    }
}

/// `psi(t)` for a coloured tree, exactly; `None` where the exact arithmetic
/// overflows.
pub fn pair_stage_weights(ae: &Vec<Vec<Rational>>, ai: &Vec<Vec<Rational>>, t: &ColouredTree) -> (r: Option<Vec<Rational>>)
    requires
        ae@.len() == ai@.len(),
        forall|i: int| 0 <= i < ae@.len() ==> (#[trigger] ae@[i])@.len() == ae@.len(),
        forall|i: int| 0 <= i < ae@.len() ==> all_wf((#[trigger] ae@[i])@),
        forall|i: int| 0 <= i < ai@.len() ==> (#[trigger] ai@[i])@.len() == ai@.len(),
        forall|i: int| 0 <= i < ai@.len() ==> all_wf((#[trigger] ai@[i])@),
    ensures
        r is Some <==> pair_weights_spec(matrix_view(ae@), matrix_view(ai@), t@) is Some,
        r matches Some(v) ==> all_wf(v@) && v@.len() == ae@.len() && vector_view(v@)
            == pair_weights_spec(matrix_view(ae@), matrix_view(ai@), t@)->0,
    decreases t,
{
    let ghost me = matrix_view(ae@);
    let ghost mi = matrix_view(ai@);
    let ghost f = t@.children;
    let n = ae.len();
    let mut psi: Vec<Rational> = Vec::new();
    let mut i: usize = 0;
    while i < n
        invariant
            n == ae@.len(),
            i <= n,
            psi@.len() == i,
            all_wf(psi@),
            forall|k: int| 0 <= k < i ==> (#[trigger] psi@[k])@ == (1int, 1int),
        decreases n - i,
    {
        psi.push(Rational::one());
        i = i + 1;
    }
    proof {
        assert(vector_view(psi@) =~= Seq::new(me.len(), |i: int| (1int, 1int)));
        assert(f.take(0) =~= Seq::<ColouredShape>::empty());
    }
    let mut k: usize = 0;
    while k < t.children.len()
        invariant
            k <= t.children@.len(),
            f == t@.children,
            me == matrix_view(ae@),
            mi == matrix_view(ai@),
            ae@.len() == ai@.len(),
            forall|i: int| 0 <= i < ae@.len() ==> (#[trigger] ae@[i])@.len() == ae@.len(),
            forall|i: int| 0 <= i < ae@.len() ==> all_wf((#[trigger] ae@[i])@),
            forall|i: int| 0 <= i < ai@.len() ==> (#[trigger] ai@[i])@.len() == ai@.len(),
            forall|i: int| 0 <= i < ai@.len() ==> all_wf((#[trigger] ai@[i])@),
            psi@.len() == ae@.len(),
            all_wf(psi@),
            pair_forest_weights(me, mi, f.take(k as int)) == Some(vector_view(psi@)),
        decreases t.children@.len() - k,
    {
        proof {
            assert(f.take(k + 1).drop_last() =~= f.take(k as int));
            assert(f.take(k + 1).last() == f[k as int]);
            assert(f[k as int] == t.children@[k as int]@);
        }
        let child = &t.children[k];
        match pair_stage_weights(ae, ai, child) {
            Some(child_psi) => {
                let next = if child.colour == 0 {
                    scale_by_child(ae, psi, &child_psi)
                } else {
                    scale_by_child(ai, psi, &child_psi)
                };
                match next {
                    Some(v) => {
                        psi = v;
                    },
                    None => {
                        proof {
                            lemma_pair_forest_stays_none(me, mi, f, k as int + 1);
                        }
                        return None;
                    },
                }
            },
            None => {
                proof {
                    lemma_pair_forest_stays_none(me, mi, f, k as int + 1);
                }
                return None;
            },
        }
        k = k + 1;
    }
    proof {
        assert(f.take(k as int) =~= f);
    }
    Some(psi)
}

/// `Phi(t)` for a coloured tree, exactly; `None` where the exact arithmetic
/// overflows.
pub fn pair_weight(
    ae: &Vec<Vec<Rational>>,
    ai: &Vec<Vec<Rational>>,
    be: &Vec<Rational>,
    bi: &Vec<Rational>,
    t: &ColouredTree,
) -> (r: Option<Rational>)
    requires
        exact_pair(ae@, ai@, be@, bi@),
    ensures
        r is Some <==> pair_weight_spec(matrix_view(ae@), matrix_view(ai@), vector_view(be@), vector_view(bi@), t@) is Some,
        r matches Some(q) ==> q.wf() && q@ == pair_weight_spec(
            matrix_view(ae@),
            matrix_view(ai@),
            vector_view(be@),
            vector_view(bi@),
            t@,
        )->0,
{
    proof {
        lemma_rows_wf(ae@, be@);
        lemma_rows_wf(ai@, bi@);
    }
    let psi = match pair_stage_weights(ae, ai, t) {
        Some(p) => p,
        None => {
            return None;
        },
    };
    let b = if t.colour == 0 {
        be
    } else {
        bi
    };
    let ghost bv = vector_view(b@);
    let ghost pv = vector_view(psi@);
    assert(bv == (if t@.colour == 0 { vector_view(be@) } else { vector_view(bi@) }));
    let mut acc = Rational::zero();
    let mut k: usize = 0;
    while k < b.len()
        invariant
            k <= b@.len(),
            b@.len() == psi@.len(),
            b@.len() == be@.len(),
            all_wf(psi@),
            forall|i: int| 0 <= i < b@.len() ==> (#[trigger] b@[i]).wf(),
            bv == vector_view(b@),
            pv == vector_view(psi@),
            pair_weights_spec(matrix_view(ae@), matrix_view(ai@), t@) == Some(pv),
            bv == (if t@.colour == 0 { vector_view(be@) } else { vector_view(bi@) }),
            acc.wf(),
            weighted(bv, pv, k as int) == Some(acc@),
        decreases b@.len() - k,
    {
        assert(bv[k as int] == b@[k as int]@);
        assert(pv[k as int] == psi@[k as int]@);
        assert(psi@[k as int].wf());
        match mul_exact(b[k], psi[k]) {
            Some(p) => match add_exact(acc, p) {
                Some(q) => {
                    acc = q;
                },
                None => {
                    proof {
                        assert(weighted(bv, pv, k as int + 1) is None);
                        lemma_weighted_none(bv, pv, k as int + 1, b@.len() as int);
                    }
                    return None;
                },
            },
            None => {
                proof {
                    assert(weighted(bv, pv, k as int + 1) is None);
                    lemma_weighted_none(bv, pv, k as int + 1, b@.len() as int);
                }
                return None;
            },
        }
        k = k + 1;
    }
    Some(acc)
}

/// Whether the condition of a coloured tree holds, `None` where it cannot be
/// decided exactly.
pub fn check_pair_condition(
    ae: &Vec<Vec<Rational>>,
    ai: &Vec<Vec<Rational>>,
    be: &Vec<Rational>,
    bi: &Vec<Rational>,
    t: &ColouredTree,
) -> (r: Option<bool>)
    requires
        exact_pair(ae@, ai@, be@, bi@),
        coloured_order(t@) <= usize::MAX,
    ensures
        r == pair_condition(matrix_view(ae@), matrix_view(ai@), vector_view(be@), vector_view(bi@), t@),
{
    let w = match pair_weight(ae, ai, be, bi, t) {
        Some(w) => w,
        None => {
            return None;
        },
    };
    let shape = t.shape();
    proof {
        law_shape_keeps_order(t@);
    }
    match shape.density() {
        Some(d) => {
            proof {
                w.lemma_view_bounds();
            }
            Some(w.numerator() == 1 && w.denominator() == d.numerator())
        },
        None => None,
    }
}

/// The order of an additive pair, searching the coupling conditions up to
/// `max_order`: the highest order up to which every condition holds exactly.
/// `None` when the search reaches an order at which no condition fails but
/// some cannot be decided exactly.
pub fn pair_order(
    ae: &Vec<Vec<Rational>>,
    ai: &Vec<Vec<Rational>>,
    be: &Vec<Rational>,
    bi: &Vec<Rational>,
    max_order: usize,
) -> (r: Option<usize>)
    requires
        exact_pair(ae@, ai@, be@, bi@),
    ensures
        ({
            let o = pair_order_from(matrix_view(ae@), matrix_view(ai@), vector_view(be@), vector_view(bi@), 1, max_order as nat);
            &&& r is Some <==> o is Some
            &&& r matches Some(p) ==> p == o->0
        }),
{
    let ghost me = matrix_view(ae@);
    let ghost mi = matrix_view(ai@);
    let ghost bev = vector_view(be@);
    let ghost biv = vector_view(bi@);
    let levels = coloured_trees_by_order(max_order);
    proof {
        lemma_coloured_levels_sound(max_order as nat);
    }
    let mut k: usize = 0;
    while k < max_order
        invariant
            k <= max_order,
            exact_pair(ae@, ai@, be@, bi@),
            me == matrix_view(ae@),
            mi == matrix_view(ai@),
            bev == vector_view(be@),
            biv == vector_view(bi@),
            coloured_level_shapes(levels@) == coloured_levels_spec(max_order as nat),
            coloured_levels_spec(max_order as nat).len() == max_order + 1,
            forall|m: int, i: int|
                0 <= m <= max_order && 0 <= i < coloured_levels_spec(max_order as nat)[m].len() ==> coloured_order(
                    #[trigger] coloured_levels_spec(max_order as nat)[m][i],
                ) == m,
            pair_order_from(me, mi, bev, biv, 1, max_order as nat) == pair_order_from(me, mi, bev, biv, k as nat + 1, max_order as nat),
        decreases max_order - k,
    {
        let n = k + 1;
        let ghost trees = coloured_trees_spec(n as nat);
        proof {
            lemma_coloured_levels_prefix(max_order as nat, n as nat);
            assert(coloured_levels_spec(max_order as nat)[n as int] == trees);
            assert(coloured_level_shapes(levels@)[n as int] == coloured_shapes(levels@[n as int]@));
        }
        let level = &levels[n];
        assert(coloured_shapes(level@) == trees);
        let mut failed = false;
        let mut open = false;
        let mut i: usize = 0;
        while i < level.len()
            invariant
                i <= level@.len(),
                exact_pair(ae@, ai@, be@, bi@),
                me == matrix_view(ae@),
                mi == matrix_view(ai@),
                bev == vector_view(be@),
                biv == vector_view(bi@),
                coloured_shapes(level@) == trees,
                forall|j: int| 0 <= j < trees.len() ==> coloured_order(#[trigger] trees[j]) == n,
                n <= max_order,
                failed == (exists|j: int| 0 <= j < i && #[trigger] pair_condition(me, mi, bev, biv, trees[j]) == Some(false)),
                open == (exists|j: int| 0 <= j < i && #[trigger] pair_condition(me, mi, bev, biv, trees[j]) is None),
            decreases level@.len() - i,
        {
            assert(trees[i as int] == level@[i as int]@);
            assert(coloured_order(trees[i as int]) == n);
            match check_pair_condition(ae, ai, be, bi, &level[i]) {
                Some(true) => {},
                Some(false) => {
                    failed = true;
                },
                None => {
                    open = true;
                },
            }
            i = i + 1;
        }
        proof {
            assert(trees.len() == level@.len());
        }
        if failed {
            return Some(k);
        }
        if open {
            return None;
        }
        k = k + 1;
    }
    Some(max_order)
}

/// What an additive pair attains, in exact arithmetic.
#[derive(Copy, Clone, Debug)]
pub struct PairReport {
    pub order: usize,
    /// The order each half reaches on its own, which bounds the pair and is
    /// usually larger than it.
    pub explicit_order: usize,
    pub implicit_order: usize,
    /// What the embedded pair attains, where both halves have embedded
    /// weights.
    pub embedded_order: Option<usize>,
    /// Whether the two halves share their abscissae, which they have to.
    pub consistent_abscissae: bool,
}

/// The two halves give every stage the same abscissa.
pub open spec fn same_abscissae(ce: Seq<(int, int)>, ci: Seq<(int, int)>) -> bool {
    ce.len() == ci.len() && forall|i: int| 0 <= i < ce.len() ==> #[trigger] ce[i] == ci[i]
}

/// Verify an additive pair in exact arithmetic: the coupling conditions up
/// to `max_order`, the same for the embedded weights where both halves have
/// them, the order of each half on its own, and whether the halves share
/// their abscissae. `None` where any of these cannot be decided exactly.
pub fn verify_pair_exact(
    ae: &Vec<Vec<Rational>>,
    ai: &Vec<Vec<Rational>>,
    be: &Vec<Rational>,
    bi: &Vec<Rational>,
    ce: &Vec<Rational>,
    ci: &Vec<Rational>,
    embedded: Option<(&Vec<Rational>, &Vec<Rational>)>,
    max_order: usize,
) -> (r: Option<PairReport>)
    requires
        exact_pair(ae@, ai@, be@, bi@),
        ce@.len() == ae@.len(),
        ci@.len() == ai@.len(),
        all_wf(ce@),
        all_wf(ci@),
        embedded matches Some((e, i)) ==> exact_pair(ae@, ai@, e@, i@),
        max_order <= i32::MAX,
    ensures
        ({
            let me = matrix_view(ae@);
            let mi = matrix_view(ai@);
            let o = pair_order_from(me, mi, vector_view(be@), vector_view(bi@), 1, max_order as nat);
            let half_ok = |m: Seq<Seq<(int, int)>>, b: Seq<(int, int)>, c: Seq<(int, int)>|
                weights_order(m, b, c, max_order as nat) is Some && stage_order_from(m, c, 1, max_order as nat) is Some
                    && abscissae_verdict(m, c) is Some;
            let embedded_ok = match embedded {
                Some((e, i)) => pair_order_from(me, mi, vector_view(e@), vector_view(i@), 1, max_order as nat) is Some,
                None => true,
            };
            &&& r is Some <==> (o is Some && embedded_ok && half_ok(me, vector_view(be@), vector_view(ce@))
                && half_ok(mi, vector_view(bi@), vector_view(ci@)))
            &&& r matches Some(rep) ==> {
                &&& o == Some(rep.order as nat)
                &&& rep.explicit_order == weights_order(me, vector_view(be@), vector_view(ce@), max_order as nat)->0
                &&& rep.implicit_order == weights_order(mi, vector_view(bi@), vector_view(ci@), max_order as nat)->0
                &&& rep.consistent_abscissae == same_abscissae(vector_view(ce@), vector_view(ci@))
                &&& match embedded {
                    Some((e, i)) => rep.embedded_order matches Some(x) && pair_order_from(
                        me,
                        mi,
                        vector_view(e@),
                        vector_view(i@),
                        1,
                        max_order as nat,
                    ) == Some(x as nat),
                    None => rep.embedded_order is None,
                }
            }
        }),
{
    let order = match pair_order(ae, ai, be, bi, max_order) {
        Some(p) => p,
        None => {
            return None;
        },
    };
    let embedded_order = match embedded {
        Some((e, i)) => match pair_order(ae, ai, e, i, max_order) {
            Some(p) => Some(p),
            None => {
                return None;
            },
        },
        None => None,
    };
    let explicit: ExactReport = match verify_exact(ae, be, ce, None, max_order) {
        Some(rep) => rep,
        None => {
            return None;
        },
    };
    let implicit: ExactReport = match verify_exact(ai, bi, ci, None, max_order) {
        Some(rep) => rep,
        None => {
            return None;
        },
    };
    let ghost cev = vector_view(ce@);
    let ghost civ = vector_view(ci@);
    let mut same = true;
    let mut k: usize = 0;
    while k < ce.len()
        invariant
            k <= ce@.len(),
            ce@.len() == ci@.len(),
            cev == vector_view(ce@),
            civ == vector_view(ci@),
            same == (forall|j: int| 0 <= j < k ==> #[trigger] cev[j] == civ[j]),
        decreases ce@.len() - k,
    {
        assert(cev[k as int] == ce@[k as int]@);
        assert(civ[k as int] == ci@[k as int]@);
        if ce[k].numerator() != ci[k].numerator() || ce[k].denominator() != ci[k].denominator() {
            same = false;
        }
        k = k + 1;
    }
    Some(
        PairReport {
            order,
            explicit_order: explicit.order,
            implicit_order: implicit.order,
            embedded_order,
            consistent_abscissae: same,
        },
    )
}

} // verus!
