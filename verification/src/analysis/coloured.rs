//! The mathematical model of a two coloured rooted tree, its size, its name
//! and the order a derived `Ord` puts such trees in.

use vstd::prelude::*;
use vstd::relations::total_ordering;
use crate::analysis::shape::{forest_order, shape_order, Shape};

verus! {

/// The mathematical two coloured tree a `ColouredTree` stands for.
pub struct ColouredShape {
    pub colour: u8,
    pub children: Seq<ColouredShape>,
}

/// The number of nodes of a coloured tree.
pub open spec fn coloured_order(s: ColouredShape) -> nat
    decreases s,
{
    1 + coloured_forest_order(s.children)
}

/// The number of nodes of a list of coloured trees.
pub open spec fn coloured_forest_order(f: Seq<ColouredShape>) -> nat
    decreases f,
{
    if f.len() == 0 {
        0
    } else {
        coloured_forest_order(f.drop_last()) + coloured_order(f.last())
    }
}

/// The uncoloured tree underneath.
pub open spec fn uncoloured(s: ColouredShape) -> Shape
    decreases s,
{
    Shape {
        children: Seq::new(
            s.children.len(),
            |i: int|
                if 0 <= i < s.children.len() {
                    uncoloured(s.children[i])
                } else {
                    Shape { children: Seq::empty() }
                },
        ),
    }
}

/// The name of a coloured tree: `[..]` around the subtrees for the explicit
/// colour and `{..}` for the implicit one.
pub open spec fn coloured_label(s: ColouredShape) -> Seq<char>
    decreases s,
{
    if s.colour == 0 {
        seq!['['] + forest_label(s.children) + seq![']']
    } else {
        seq!['{'] + forest_label(s.children) + seq!['}']
    }
}

/// The names of a list of coloured trees, one after the other.
pub open spec fn forest_label(f: Seq<ColouredShape>) -> Seq<char>
    decreases f,
{
    if f.len() == 0 {
        Seq::empty()
    } else {
        forest_label(f.drop_last()) + coloured_label(f.last())
    }
}

/// The order a derived `Ord` gives coloured trees: by colour, then the lists
/// of subtrees lexicographically, a proper prefix first.
pub open spec fn coloured_le(a: ColouredShape, b: ColouredShape) -> bool
    decreases a,
{
    a.colour < b.colour || (a.colour == b.colour && coloured_forest_le(a.children, b.children))
}

/// The lexicographic order on lists of coloured trees.
pub open spec fn coloured_forest_le(f: Seq<ColouredShape>, g: Seq<ColouredShape>) -> bool
    decreases f,
{
    if f.len() == 0 {
        true
    } else if g.len() == 0 {
        false
    } else if f[0] == g[0] {
        coloured_forest_le(f.drop_first(), g.drop_first())
    } else {
        coloured_le(f[0], g[0])
    }
}

/// Coloured trees by order first and then as a derived `Ord` compares them.
pub open spec fn coloured_key_le(a: ColouredShape, b: ColouredShape) -> bool {
    ||| coloured_order(a) < coloured_order(b)
    ||| (coloured_order(a) == coloured_order(b) && coloured_le(a, b))
}

/// `coloured_key_le` as a relation value.
pub open spec fn coloured_key_order() -> spec_fn(ColouredShape, ColouredShape) -> bool {
    |a: ColouredShape, b: ColouredShape| coloured_key_le(a, b)
}

pub proof fn lemma_coloured_reflexive(a: ColouredShape)
    ensures
        coloured_le(a, a),
    decreases a,
{
    lemma_coloured_forest_reflexive(a.children);
}

proof fn lemma_coloured_forest_reflexive(f: Seq<ColouredShape>)
    ensures
        coloured_forest_le(f, f),
    decreases f,
{
    if f.len() > 0 {
        lemma_coloured_forest_reflexive(f.drop_first());
    }
}

pub proof fn lemma_coloured_antisymmetric(a: ColouredShape, b: ColouredShape)
    requires
        coloured_le(a, b),
        coloured_le(b, a),
    ensures
        a == b,
    decreases a,
{
    lemma_coloured_forest_antisymmetric(a.children, b.children);
}

proof fn lemma_coloured_forest_antisymmetric(f: Seq<ColouredShape>, g: Seq<ColouredShape>)
    requires
        coloured_forest_le(f, g),
        coloured_forest_le(g, f),
    ensures
        f == g,
    decreases f,
{
    if f.len() == 0 {
        assert(f =~= g);
    } else if f[0] == g[0] {
        lemma_coloured_forest_antisymmetric(f.drop_first(), g.drop_first());
        assert(f =~= seq![f[0]] + f.drop_first());
        assert(g =~= seq![g[0]] + g.drop_first());
    } else {
        lemma_coloured_antisymmetric(f[0], g[0]);
    }
}

proof fn lemma_coloured_transitive(a: ColouredShape, b: ColouredShape, c: ColouredShape)
    requires
        coloured_le(a, b),
        coloured_le(b, c),
    ensures
        coloured_le(a, c),
    decreases a,
{
    if a.colour == b.colour && b.colour == c.colour {
        lemma_coloured_forest_transitive(a.children, b.children, c.children);
    }
}

proof fn lemma_coloured_forest_transitive(
    f: Seq<ColouredShape>,
    g: Seq<ColouredShape>,
    h: Seq<ColouredShape>,
)
    requires
        coloured_forest_le(f, g),
        coloured_forest_le(g, h),
    ensures
        coloured_forest_le(f, h),
    decreases f,
{
    if f.len() > 0 && g.len() > 0 && h.len() > 0 {
        if f[0] == g[0] && g[0] == h[0] {
            lemma_coloured_forest_transitive(f.drop_first(), g.drop_first(), h.drop_first());
        } else if f[0] != g[0] && g[0] != h[0] {
            lemma_coloured_transitive(f[0], g[0], h[0]);
            if f[0] == h[0] {
                lemma_coloured_antisymmetric(f[0], g[0]);
            }
        }
    }
}

proof fn lemma_coloured_total(a: ColouredShape, b: ColouredShape)
    ensures
        coloured_le(a, b) || coloured_le(b, a),
    decreases a,
{
    if a.colour == b.colour {
        lemma_coloured_forest_total(a.children, b.children);
    }
}

proof fn lemma_coloured_forest_total(f: Seq<ColouredShape>, g: Seq<ColouredShape>)
    ensures
        coloured_forest_le(f, g) || coloured_forest_le(g, f),
    decreases f,
{
    if f.len() > 0 && g.len() > 0 {
        if f[0] == g[0] {
            lemma_coloured_forest_total(f.drop_first(), g.drop_first());
        } else {
            lemma_coloured_total(f[0], g[0]);
        }
    }
}

/// Ordering coloured trees by order and then as a derived `Ord` does is a
/// total order.
pub proof fn lemma_coloured_key_order_total()
    ensures
        total_ordering(coloured_key_order()),
{
    assert forall|a: ColouredShape| #[trigger] coloured_key_order()(a, a) by {
        lemma_coloured_reflexive(a);
    }
    assert forall|a: ColouredShape, b: ColouredShape| #[trigger] coloured_key_order()(a, b)
        && #[trigger] coloured_key_order()(b, a) implies a == b by {
        lemma_coloured_antisymmetric(a, b);
    }
    assert forall|a: ColouredShape, b: ColouredShape, c: ColouredShape| #[trigger] coloured_key_order()(
        a,
        b,
    ) && #[trigger] coloured_key_order()(b, c) implies coloured_key_order()(a, c) by {
        if coloured_order(a) == coloured_order(b) && coloured_order(b) == coloured_order(c) {
            lemma_coloured_transitive(a, b, c);
        }
    }
    assert forall|a: ColouredShape, b: ColouredShape| #[trigger] coloured_key_order()(a, b)
        || #[trigger] coloured_key_order()(b, a) by {
        lemma_coloured_total(a, b);
    }
}

/// A rooted tree whose nodes carry one of two colours.
#[derive(Debug, PartialEq, Eq)]
pub struct ColouredTree {
    /// 0 is the explicit half, 1 the implicit one.
    pub colour: u8,
    pub children: Vec<ColouredTree>,
}

impl View for ColouredTree {
    type V = ColouredShape;

    open spec fn view(&self) -> ColouredShape {
        coloured_shape_of(*self)
    }
}

/// The shape a coloured tree stands for.
pub open spec fn coloured_shape_of(t: ColouredTree) -> ColouredShape
    decreases t,
{
    ColouredShape {
        colour: t.colour,
        children: Seq::new(
            t.children@.len(),
            |i: int|
                if 0 <= i < t.children@.len() {
                    coloured_shape_of(t.children@[i])
                } else {
                    ColouredShape { colour: 0, children: Seq::empty() }
                },
        ),
    }
}

/// Dropping the colours keeps the number of nodes: a coloured tree and the
/// tree underneath it have the same order.
pub proof fn law_shape_keeps_order(t: ColouredShape)
    ensures
        shape_order(uncoloured(t)) == coloured_order(t),
    decreases t,
{
    lemma_uncoloured_forest_order(t.children);
    assert(uncoloured(t).children =~= t.children.map_values(|c: ColouredShape| uncoloured(c)));
}

proof fn lemma_uncoloured_forest_order(f: Seq<ColouredShape>)
    ensures
        forest_order(f.map_values(|c: ColouredShape| uncoloured(c))) == coloured_forest_order(f),
    decreases f,
{
    if f.len() > 0 {
        lemma_uncoloured_forest_order(f.drop_last());
        law_shape_keeps_order(f.last());
        let g = f.map_values(|c: ColouredShape| uncoloured(c));
        assert(g.drop_last() =~= f.drop_last().map_values(|c: ColouredShape| uncoloured(c)));
        assert(g.last() == uncoloured(f.last()));
    }
}

/// The colour of the root does not reach the tree underneath: two coloured
/// trees with the same children have the same shape.
pub proof fn law_shape_ignores_root_colour(t: ColouredShape, colour: u8)
    ensures
        uncoloured(ColouredShape { colour, children: t.children }) == uncoloured(t),
{
    assert(uncoloured(ColouredShape { colour, children: t.children }).children =~= uncoloured(t).children);
}

} // verus!
