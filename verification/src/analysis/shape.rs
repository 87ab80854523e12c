//! The mathematical model of a rooted tree, its size and its bracket
//! notation, and the canonical order the enumeration sorts trees by.

use vstd::prelude::*;
use vstd::relations::total_ordering;

verus! {

/// The mathematical rooted tree a `Tree` stands for: an ordered list of
/// subtrees.
pub struct Shape {
    pub children: Seq<Shape>,
}

/// The number of nodes of a tree, which is the order of the condition it
/// generates.
pub open spec fn shape_order(s: Shape) -> nat
    decreases s,
{
    1 + forest_order(s.children)
}

/// The number of nodes of a list of trees.
pub open spec fn forest_order(f: Seq<Shape>) -> nat
    decreases f,
{
    if f.len() == 0 {
        0
    } else {
        forest_order(f.drop_last()) + shape_order(f.last())
    }
}

/// Bracket notation: `t` for a single node, otherwise the subtrees in
/// brackets, separated by commas, e.g. `[[t],t]`.
pub open spec fn shape_text(s: Shape) -> Seq<char>
    decreases s,
{
    if s.children.len() == 0 {
        seq!['t']
    } else {
        seq!['['] + forest_text(s.children) + seq![']']
    }
}

/// The bracket notations of a list of trees, separated by commas.
pub open spec fn forest_text(f: Seq<Shape>) -> Seq<char>
    decreases f,
{
    if f.len() == 0 {
        Seq::empty()
    } else if f.len() == 1 {
        shape_text(f[0])
    } else {
        forest_text(f.drop_last()) + seq![','] + shape_text(f.last())
    }
}

/// The order of one tree of a list is at most that of the whole list.
pub proof fn lemma_member_order(f: Seq<Shape>, i: int)
    requires
        0 <= i < f.len(),
    ensures
        shape_order(f[i]) <= forest_order(f),
    decreases f.len(),
{
    if i < f.len() - 1 {
        lemma_member_order(f.drop_last(), i);
    }
}

/// The order of a prefix of a list is that of the shorter prefix plus the
/// new tree, and never more than that of the whole list.
pub proof fn lemma_prefix_order(f: Seq<Shape>, k: int)
    requires
        0 <= k < f.len(),
    ensures
        forest_order(f.take(k + 1)) == forest_order(f.take(k)) + shape_order(f[k]),
        forest_order(f.take(k + 1)) <= forest_order(f),
    decreases f.len(),
{
    assert(f.take(k + 1).drop_last() =~= f.take(k));
    if k + 1 < f.len() {
        lemma_prefix_order(f.drop_last(), k);
        assert(f.drop_last().take(k + 1) =~= f.take(k + 1));
    } else {
        assert(f.take(k + 1) =~= f);
    }
}

/// Appending to a list of trees appends to its bracket notation.
pub proof fn lemma_prefix_text(f: Seq<Shape>, k: int)
    requires
        0 <= k < f.len(),
    ensures
        k == 0 ==> forest_text(f.take(k + 1)) == shape_text(f[k]),
        k > 0 ==> forest_text(f.take(k + 1)) == forest_text(f.take(k)) + seq![','] + shape_text(
            f[k],
        ),
{
    assert(f.take(k + 1).drop_last() =~= f.take(k));
    assert(f.take(k + 1).last() == f[k]);
}

/// Lexicographic order on texts, by code point, a proper prefix first.
pub open spec fn text_le(a: Seq<char>, b: Seq<char>) -> bool
    decreases a.len(),
{
    if a.len() == 0 {
        true
    } else if b.len() == 0 {
        false
    } else if a[0] != b[0] {
        (a[0] as int) < (b[0] as int)
    } else {
        text_le(a.drop_first(), b.drop_first())
    }
}

/// The canonical order on trees: by order, then by bracket notation.
pub open spec fn key_le(a: Shape, b: Shape) -> bool {
    ||| shape_order(a) < shape_order(b)
    ||| (shape_order(a) == shape_order(b) && text_le(shape_text(a), shape_text(b)))
}

/// `key_le` as a relation value, for the sorting vocabulary of vstd.
pub open spec fn key_order() -> spec_fn(Shape, Shape) -> bool {
    |a: Shape, b: Shape| key_le(a, b)
}

pub proof fn lemma_text_le_total(a: Seq<char>, b: Seq<char>)
    ensures
        text_le(a, b) || text_le(b, a),
    decreases a.len(),
{
    if a.len() > 0 && b.len() > 0 && a[0] == b[0] {
        lemma_text_le_total(a.drop_first(), b.drop_first());
    }
}

pub proof fn lemma_text_le_transitive(a: Seq<char>, b: Seq<char>, c: Seq<char>)
    requires
        text_le(a, b),
        text_le(b, c),
    ensures
        text_le(a, c),
    decreases a.len(),
{
    if a.len() > 0 && b.len() > 0 && c.len() > 0 && a[0] == b[0] && b[0] == c[0] {
        lemma_text_le_transitive(a.drop_first(), b.drop_first(), c.drop_first());
    }
}

pub proof fn lemma_text_le_antisymmetric(a: Seq<char>, b: Seq<char>)
    requires
        text_le(a, b),
        text_le(b, a),
    ensures
        a == b,
    decreases a.len(),
{
    if a.len() > 0 {
        lemma_text_le_antisymmetric(a.drop_first(), b.drop_first());
        assert(a =~= seq![a[0]] + a.drop_first());
        assert(b =~= seq![b[0]] + b.drop_first());
    }
}

/// Whether a text can follow a complete tree inside a bracket notation.
pub open spec fn is_stop(r: Seq<char>) -> bool {
    r.len() == 0 || r[0] == ',' || r[0] == ']'
}

/// A list of trees written from the front: the first tree, then the rest
/// after a comma.
pub proof fn lemma_forest_text_first(f: Seq<Shape>)
    requires
        f.len() >= 1,
    ensures
        f.len() == 1 ==> forest_text(f) == shape_text(f[0]),
        f.len() > 1 ==> forest_text(f) == shape_text(f[0]) + seq![','] + forest_text(
            f.drop_first(),
        ),
    decreases f.len(),
{
    if f.len() > 2 {
        lemma_forest_text_first(f.drop_last());
        assert(f.drop_last().drop_first() =~= f.drop_first().drop_last());
        assert(f.drop_first().last() == f.last());
        let t0 = shape_text(f[0]);
        let mid = forest_text(f.drop_last().drop_first());
        let tl = shape_text(f.last());
        assert(forest_text(f.drop_first()) == forest_text(f.drop_first().drop_last()) + seq![','] + tl);
        assert(forest_text(f) =~= t0 + seq![','] + (mid + seq![','] + tl));
    } else if f.len() == 2 {
        assert(f.drop_last() =~= seq![f[0]]);
        assert(f.drop_first() =~= seq![f[1]]);
        assert(forest_text(f.drop_last()) == shape_text(f[0]));
        assert(forest_text(f.drop_first()) == shape_text(f[1]));
        assert(f.last() == f[1]);
    }
}

/// The bracket notation of a tree is never a proper prefix of another one
/// followed by more of a bracket notation, so it can be read back.
pub proof fn lemma_text_prefix(a: Shape, b: Shape, r1: Seq<char>, r2: Seq<char>)
    requires
        shape_text(a) + r1 == shape_text(b) + r2,
        is_stop(r1),
        is_stop(r2),
    ensures
        a == b,
    decreases a,
{
    let x = shape_text(a) + r1;
    if a.children.len() == 0 {
        assert(x[0] == 't');
        if b.children.len() != 0 {
            assert((shape_text(b) + r2)[0] == '[');
        }
        assert(a.children =~= b.children);
    } else {
        assert(x[0] == '[');
        if b.children.len() == 0 {
            assert((shape_text(b) + r2)[0] == 't');
        }
        let ya = forest_text(a.children) + seq![']'] + r1;
        let yb = forest_text(b.children) + seq![']'] + r2;
        assert(x =~= seq!['['] + ya);
        assert(shape_text(b) + r2 =~= seq!['['] + yb);
        assert(ya =~= x.drop_first());
        assert(yb =~= (shape_text(b) + r2).drop_first());
        lemma_forest_prefix(a.children, b.children, r1, r2);
        assert(a.children =~= b.children);
    }
}

/// The list version of `lemma_text_prefix`: the bracketed contents of a
/// tree determine its list of subtrees.
pub proof fn lemma_forest_prefix(fa: Seq<Shape>, fb: Seq<Shape>, r1: Seq<char>, r2: Seq<char>)
    requires
        fa.len() >= 1,
        fb.len() >= 1,
        forest_text(fa) + seq![']'] + r1 == forest_text(fb) + seq![']'] + r2,
    ensures
        fa == fb,
    decreases fa,
{
    lemma_forest_text_first(fa);
    lemma_forest_text_first(fb);
    let xa = if fa.len() == 1 {
        seq![']'] + r1
    } else {
        seq![','] + forest_text(fa.drop_first()) + seq![']'] + r1
    };
    let xb = if fb.len() == 1 {
        seq![']'] + r2
    } else {
        seq![','] + forest_text(fb.drop_first()) + seq![']'] + r2
    };
    assert(forest_text(fa) + seq![']'] + r1 =~= shape_text(fa[0]) + xa);
    assert(forest_text(fb) + seq![']'] + r2 =~= shape_text(fb[0]) + xb);
    lemma_text_prefix(fa[0], fb[0], xa, xb);
    let n = shape_text(fa[0]).len();
    assert(xa =~= (shape_text(fa[0]) + xa).skip(n as int));
    assert(xb =~= (shape_text(fb[0]) + xb).skip(n as int));
    if fa.len() == 1 {
        if fb.len() > 1 {
            assert(xa[0] == ']');
            assert(xb[0] == ',');
        }
        assert(fa =~= fb);
    } else {
        if fb.len() == 1 {
            assert(xa[0] == ',');
            assert(xb[0] == ']');
        }
        let ya = forest_text(fa.drop_first()) + seq![']'] + r1;
        let yb = forest_text(fb.drop_first()) + seq![']'] + r2;
        assert(ya =~= xa.drop_first());
        assert(yb =~= xb.drop_first());
        lemma_forest_prefix(fa.drop_first(), fb.drop_first(), r1, r2);
        assert(fa =~= seq![fa[0]] + fa.drop_first());
        assert(fb =~= seq![fb[0]] + fb.drop_first());
    }
}

/// Distinct trees have distinct bracket notations.
pub proof fn lemma_text_injective(a: Shape, b: Shape)
    requires
        shape_text(a) == shape_text(b),
    ensures
        a == b,
{
    assert(shape_text(a) + Seq::<char>::empty() =~= shape_text(b) + Seq::<char>::empty());
    lemma_text_prefix(a, b, Seq::empty(), Seq::empty());
}

/// The canonical order is a total order on trees.
pub proof fn lemma_key_order_total()
    ensures
        total_ordering(key_order()),
{
    assert forall|a: Shape| #[trigger] key_order()(a, a) by {
        lemma_text_le_total(shape_text(a), shape_text(a));
    }
    assert forall|a: Shape, b: Shape| #[trigger] key_order()(a, b) && #[trigger] key_order()(
        b,
        a,
    ) implies a == b by {
        lemma_text_le_antisymmetric(shape_text(a), shape_text(b));
        lemma_text_injective(a, b);
    }
    assert forall|a: Shape, b: Shape, c: Shape| #[trigger] key_order()(a, b)
        && #[trigger] key_order()(b, c) implies key_order()(a, c) by {
        if shape_order(a) == shape_order(b) && shape_order(b) == shape_order(c) {
            lemma_text_le_transitive(shape_text(a), shape_text(b), shape_text(c));
        }
    }
    assert forall|a: Shape, b: Shape| #[trigger] key_order()(a, b) || #[trigger] key_order()(
        b,
        a,
    ) by {
        lemma_text_le_total(shape_text(a), shape_text(b));
    }
}

} // verus!
