//! Rooted trees, the index set of the order conditions.
//!
//! A tree of order `n` is a root over a multiset of smaller trees whose
//! orders sum to `n - 1`, so the trees of every order are assembled from the
//! ones already built. The pool of smaller trees is kept sorted by order and
//! bracket notation, and the subtrees of a root are chosen from it at
//! non-decreasing positions, so that each multiset is produced once and the
//! subtrees of every tree come in that canonical order.

use vstd::prelude::*;
use vstd::relations::{sorted_by, total_ordering};
use crate::text::same_chars;
use crate::num::rational::{fits, lemma_integer_product, lemma_integer_value, Rational};
use crate::analysis::shape::{
    forest_order, forest_text, key_le, key_order, lemma_key_order_total, lemma_member_order,
    lemma_prefix_order, lemma_prefix_text, lemma_text_injective, shape_order, shape_text, text_le,
    Shape,
};

verus! {

/// A rooted tree, stored as its (canonically ordered) list of subtrees.
#[derive(Debug, PartialEq, Eq)]
pub struct Tree {
    pub children: Vec<Tree>,
}

impl Clone for Tree {
    fn clone(&self) -> (t: Tree)
        ensures
            t@ == self@,
    {
        self.duplicate()
    }
}

impl View for Tree {
    type V = Shape;

    open spec fn view(&self) -> Shape
        decreases self,
    {
        Shape {
            children: Seq::new(
                self.children@.len(),
                |i: int|
                    if 0 <= i < self.children@.len() {
                        self.children@[i]@
                    } else {
                        Shape { children: Seq::empty() }
                    },
            ),
        }
    }
}

impl Tree {
    /// A single node.
    pub fn leaf() -> (t: Tree)
        ensures
            t@.children.len() == 0,
    {
        Tree { children: Vec::new() }
    }

    /// Number of nodes, which is the order of the condition it generates.
    pub fn order(&self) -> (n: usize)
        requires
            shape_order(self@) <= usize::MAX,
        ensures
            n == shape_order(self@),
        decreases self,
    {
        let ghost f = self@.children;
        let mut acc: usize = 1;
        let mut k: usize = 0;
        while k < self.children.len()
            invariant
                k <= self.children.len(),
                f == self@.children,
                shape_order(self@) <= usize::MAX,
                acc == 1 + forest_order(f.take(k as int)),
            decreases self.children.len() - k,
        {
            proof {
                lemma_prefix_order(f, k as int);
                lemma_member_order(f, k as int);
            }
            let child = self.children[k].order();
            acc = acc + child;
            k = k + 1;
        }
        proof {
            assert(f.take(k as int) =~= f);
        }
        acc
    }

    /// Bracket notation, e.g. `[[t],t]`.
    pub fn to_string_compact(&self) -> (text: String)
        ensures
            text@ == shape_text(self@),
        decreases self,
    {
        if self.children.len() == 0 {
            proof {
                reveal_strlit("t");
            }
            return String::from_str("t");
        }
        let ghost f = self@.children;
        proof {
            reveal_strlit("[");
            reveal_strlit("]");
        }
        let mut out = String::from_str("[");
        let mut k: usize = 0;
        while k < self.children.len()
            invariant
                k <= self.children.len(),
                f == self@.children,
                out@ == seq!['['] + forest_text(f.take(k as int)),
            decreases self.children.len() - k,
        {
            proof {
                lemma_prefix_text(f, k as int);
                reveal_strlit(",");
            }
            if k > 0 {
                out.append(",");
            }
            assert(k > 0 ==> out@ =~= seq!['['] + forest_text(f.take(k as int)) + seq![',']);
            let inner = self.children[k].to_string_compact();
            let ghost before = out@;
            out.append(inner.as_str());
            proof {
                assert(f[k as int] == self.children@[k as int]@);
                if k > 0 {
                    assert(out@ =~= seq!['['] + (forest_text(f.take(k as int)) + seq![','] + shape_text(f[k as int])));
                } else {
                    assert(out@ =~= seq!['['] + shape_text(f[k as int]));
                }
            }
            k = k + 1;
        }
        out.append("]");
        proof {
            assert(f.take(k as int) =~= f);
        }
        out
    }

    /// An independent copy of the same tree.
    pub fn duplicate(&self) -> (t: Tree)
        ensures
            t@ == self@,
        decreases self,
    {
        let mut children: Vec<Tree> = Vec::new();
        let mut k: usize = 0;
        while k < self.children.len()
            invariant
                k <= self.children.len(),
                children@.len() == k,
                forall|j: int| 0 <= j < k ==> #[trigger] children@[j]@ == self.children@[j]@,
            decreases self.children.len() - k,
        {
            let copy = self.children[k].duplicate();
            children.push(copy);
            k = k + 1;
        }
        let t = Tree { children };
        assert forall|j: int| 0 <= j < self@.children.len() implies t@.children[j] == self@.children[j] by {
            assert(children@[j]@ == self.children@[j]@);
        }
        assert(t@.children =~= self@.children);
        t
    }
}

/// The shapes of a list of trees.
pub open spec fn shapes(s: Seq<Tree>) -> Seq<Shape> {
    s.map_values(|t: Tree| t@)
}

impl Tree {
    /// The bracket notation as a list of characters, the sort key the pool of
    /// smaller trees is ordered by.
    fn compact_chars(&self) -> (text: Vec<char>)
        ensures
            text@ == shape_text(self@),
        decreases self,
    {
        let mut out: Vec<char> = Vec::new();
        if self.children.len() == 0 {
            out.push('t');
            assert(out@ =~= seq!['t']);
            return out;
        }
        let ghost f = self@.children;
        out.push('[');
        let mut k: usize = 0;
        while k < self.children.len()
            invariant
                k <= self.children.len(),
                f == self@.children,
                out@ == seq!['['] + forest_text(f.take(k as int)),
            decreases self.children.len() - k,
        {
            proof {
                lemma_prefix_text(f, k as int);
                assert(f[k as int] == self.children@[k as int]@);
            }
            let ghost before = out@;
            if k > 0 {
                out.push(',');
            }
            let mut inner = self.children[k].compact_chars();
            out.append(&mut inner);
            proof {
                if k > 0 {
                    assert(out@ =~= seq!['['] + (forest_text(f.take(k as int)) + seq![','] + shape_text(f[k as int])));
                } else {
                    assert(out@ =~= seq!['['] + shape_text(f[k as int]));
                }
            }
            k = k + 1;
        }
        out.push(']');
        proof {
            assert(f.take(k as int) =~= f);
            assert(out@ =~= seq!['['] + forest_text(f) + seq![']']);
        }
        out
    }
}

/// Two texts that agree on their first `i` characters compare as what
/// follows them does.
proof fn lemma_text_le_skip(a: Seq<char>, b: Seq<char>, i: int)
    requires
        0 <= i <= a.len(),
        i <= b.len(),
        a.take(i) == b.take(i),
    ensures
        text_le(a, b) == text_le(a.skip(i), b.skip(i)),
    decreases i,
{
    if i > 0 {
        assert(a[0] == a.take(i)[0]);
        assert(b[0] == b.take(i)[0]);
        assert(a.drop_first().take(i - 1) =~= a.take(i).drop_first());
        assert(b.drop_first().take(i - 1) =~= b.take(i).drop_first());
        lemma_text_le_skip(a.drop_first(), b.drop_first(), i - 1);
        assert(a.drop_first().skip(i - 1) =~= a.skip(i));
        assert(b.drop_first().skip(i - 1) =~= b.skip(i));
    } else {
        assert(a.skip(0) =~= a);
        assert(b.skip(0) =~= b);
    }
}

/// `text_le` on two character lists.
fn text_precedes(a: &Vec<char>, b: &Vec<char>) -> (r: bool)
    ensures
        r == text_le(a@, b@),
{
    let mut i: usize = 0;
    while i < a.len() && i < b.len() && a[i] == b[i]
        invariant
            i <= a.len(),
            i <= b.len(),
            a@.take(i as int) == b@.take(i as int),
        decreases a.len() - i,
    {
        assert(a@.take(i + 1) =~= a@.take(i as int).push(a@[i as int]));
        assert(b@.take(i + 1) =~= b@.take(i as int).push(b@[i as int]));
        i = i + 1;
    }
    proof {
        lemma_text_le_skip(a@, b@, i as int);
    }
    if i == a.len() {
        true
    } else if i == b.len() {
        false
    } else {
        assert(a@.skip(i as int)[0] == a@[i as int]);
        assert(b@.skip(i as int)[0] == b@[i as int]);
        a[i] < b[i]
    }
}

/// Sort trees into the canonical order, by order and then by bracket
/// notation. Each tree's key is computed once.
fn sort_canonically(pool: &Vec<Tree>) -> (sorted: Vec<Tree>)
    requires
        forall|i: int| 0 <= i < pool@.len() ==> shape_order(#[trigger] pool@[i]@) <= usize::MAX,
    ensures
        shapes(sorted@) == shapes(pool@).sort_by(key_order()),
{
    let mut out: Vec<Tree> = Vec::new();
    let mut orders: Vec<usize> = Vec::new();
    let mut texts: Vec<Vec<char>> = Vec::new();
    let mut k: usize = 0;
    proof {
        lemma_key_order_total();
        assert(shapes(pool@.take(0)) =~= shapes(out@));
    }
    while k < pool.len()
        invariant
            k <= pool.len(),
            forall|i: int| 0 <= i < pool@.len() ==> shape_order(#[trigger] pool@[i]@) <= usize::MAX,
            total_ordering(key_order()),
            out@.len() == orders@.len(),
            out@.len() == texts@.len(),
            forall|i: int| 0 <= i < out@.len() ==> #[trigger] orders@[i] == shape_order(out@[i]@),
            forall|i: int| 0 <= i < out@.len() ==> #[trigger] texts@[i]@ == shape_text(out@[i]@),
            sorted_by(shapes(out@), key_order()),
            shapes(out@).to_multiset() == shapes(pool@.take(k as int)).to_multiset(),
        decreases pool.len() - k,
    {
        let tree = pool[k].duplicate();
        let order = tree.order();
        let text = tree.compact_chars();
        let mut p: usize = 0;
        while p < out.len() && (orders[p] < order || (orders[p] == order && text_precedes(&texts[p], &text)))
            invariant
                p <= out@.len(),
                out@.len() == orders@.len(),
                out@.len() == texts@.len(),
                forall|i: int| 0 <= i < out@.len() ==> #[trigger] orders@[i] == shape_order(out@[i]@),
                forall|i: int| 0 <= i < out@.len() ==> #[trigger] texts@[i]@ == shape_text(out@[i]@),
                order == shape_order(tree@),
                text@ == shape_text(tree@),
                forall|i: int| 0 <= i < p ==> key_le(#[trigger] out@[i]@, tree@),
            decreases out@.len() - p,
        {
            p = p + 1;
        }
        let ghost old_out = out@;
        proof {
            let s = shapes(old_out);
            let x = tree@;
            assert(p < old_out.len() ==> !key_le(old_out[p as int]@, x));
            assert forall|i: int, j: int| 0 <= i < j < s.insert(p as int, x).len() implies #[trigger] key_order()(
                s.insert(p as int, x)[i],
                s.insert(p as int, x)[j],
            ) by {
                if j < p {
                    assert(key_order()(s[i], s[j]));
                } else if i < p && j == p {
                    assert(key_le(old_out[i]@, x));
                } else if i < p {
                    assert(key_order()(s[i], s[j - 1]));
                } else if i == p {
                    assert(key_order()(x, s[p as int]) || key_order()(s[p as int], x));
                    if j > p + 1 {
                        assert(key_order()(s[p as int], s[j - 1]));
                    }
                } else {
                    assert(key_order()(s[i - 1], s[j - 1]));
                }
            }
            assert(shapes(old_out).insert(p as int, x).to_multiset() == shapes(old_out).to_multiset().insert(x)) by {
                vstd::seq_lib::to_multiset_insert(shapes(old_out), p as int, x);
            }
            assert(shapes(pool@.take(k + 1)) =~= shapes(pool@.take(k as int)).push(pool@[k as int]@));
            broadcast use vstd::seq_lib::group_to_multiset_ensures;
        }
        out.insert(p, tree);
        orders.insert(p, order);
        texts.insert(p, text);
        proof {
            assert(shapes(out@) =~= shapes(old_out).insert(p as int, pool@[k as int]@));
        }
        k = k + 1;
    }
    proof {
        assert(pool@.take(k as int) =~= pool@);
        shapes(pool@).lemma_sort_by_ensures(key_order());
        vstd::seq_lib::lemma_sorted_unique(shapes(out@), shapes(pool@).sort_by(key_order()), key_order());
    }
    out
}

/// The order of every tree of a list.
pub open spec fn orders_of(pool: Seq<Tree>) -> Seq<nat> {
    pool.map_values(|t: Tree| shape_order(t@))
}

/// The order of every tree of a list of shapes.
pub open spec fn pool_orders(pool: Seq<Shape>) -> Seq<nat> {
    pool.map_values(|t: Shape| shape_order(t))
}

/// The trees at the given positions of a list.
pub open spec fn pick(pool: Seq<Shape>, positions: Seq<int>) -> Seq<Shape> {
    positions.map_values(|i: int| pool[i])
}

/// Every way to choose positions `start <= i_1 <= i_2 <= ...` whose orders
/// sum to `rem`, in lexicographic order. A choice of positions in a pool of
/// trees is a multiset of those trees, and the non-decreasing positions give
/// each multiset once.
pub open spec fn selections(ords: Seq<nat>, start: int, rem: nat) -> Seq<Seq<int>>
    decreases rem, ords.len() - start,
{
    if rem == 0 {
        seq![Seq::empty()]
    } else if start < 0 || start >= ords.len() {
        Seq::empty()
    } else {
        let first: Seq<Seq<int>> = if 0 < ords[start] <= rem {
            selections(ords, start, (rem - ords[start]) as nat).map_values(
                |s: Seq<int>| seq![start] + s,
            )
        } else {
            Seq::empty()
        };
        first + selections(ords, start + 1, rem)
    }
}

/// The selections whose first position is `i`.
pub open spec fn block(ords: Seq<nat>, i: int, rem: nat) -> Seq<Seq<int>> {
    if 0 <= i < ords.len() && 0 < ords[i] <= rem {
        selections(ords, i, (rem - ords[i]) as nat).map_values(|s: Seq<int>| seq![i] + s)
    } else {
        Seq::empty()
    }
}

/// The selections whose first position lies in `start..end`.
pub open spec fn blocks(ords: Seq<nat>, start: int, end: int, rem: nat) -> Seq<Seq<int>>
    decreases end - start,
{
    if end <= start {
        Seq::empty()
    } else {
        blocks(ords, start, end - 1, rem) + block(ords, end - 1, rem)
    }
}

pub proof fn lemma_selections_split(ords: Seq<nat>, start: int, end: int, rem: nat)
    requires
        rem > 0,
        0 <= start <= end <= ords.len(),
    ensures
        selections(ords, start, rem) == blocks(ords, start, end, rem) + selections(ords, end, rem),
    decreases end - start,
{
    if end == start {
        assert(blocks(ords, start, end, rem) + selections(ords, end, rem) =~= selections(ords, end, rem));
    } else {
        lemma_selections_split(ords, start, end - 1, rem);
        assert(selections(ords, end - 1, rem) == block(ords, end - 1, rem) + selections(ords, end, rem));
        assert(blocks(ords, start, end, rem) + selections(ords, end, rem) =~= blocks(ords, start, end - 1, rem) + (block(ords, end - 1, rem) + selections(ords, end, rem)));
    }
}

/// Once every remaining tree is too large, nothing more can be chosen.
pub proof fn lemma_selections_exhausted(ords: Seq<nat>, start: int, rem: nat)
    requires
        rem > 0,
        0 <= start <= ords.len(),
        forall|j: int| start <= j < ords.len() ==> ords[j] > rem,
    ensures
        selections(ords, start, rem) == Seq::<Seq<int>>::empty(),
    decreases ords.len() - start,
{
    if start < ords.len() {
        lemma_selections_exhausted(ords, start + 1, rem);
        assert(selections(ords, start, rem) =~= Seq::<Seq<int>>::empty());
    }
}

/// Multisets of trees from `pool[start..]` whose orders sum to `remaining`.
/// Positions are chosen non decreasing, which enumerates every multiset once.
fn multisets(pool: &Vec<Tree>, start: usize, remaining: usize) -> (out: Vec<Vec<Tree>>)
    requires
        start <= pool@.len(),
        forall|i: int| 0 <= i < pool@.len() ==> 1 <= shape_order(#[trigger] pool@[i]@) <= usize::MAX,
        forall|i: int, j: int| 0 <= i <= j < pool@.len() ==> shape_order(#[trigger] pool@[i]@) <= shape_order(#[trigger] pool@[j]@),
    ensures
        out@.len() == selections(orders_of(pool@), start as int, remaining as nat).len(),
        forall|k: int| 0 <= k < out@.len() ==> shapes(#[trigger] out@[k]@) == pick(
            shapes(pool@),
            selections(orders_of(pool@), start as int, remaining as nat)[k],
        ),
    decreases remaining,
{
    let ghost ords = orders_of(pool@);
    let ghost rem = remaining as nat;
    let mut out: Vec<Vec<Tree>> = Vec::new();
    if remaining == 0 {
        out.push(Vec::new());
        proof {
            assert(shapes(out@[0]@) =~= pick(shapes(pool@), Seq::empty()));
        }
        return out;
    }
    let mut index: usize = start;
    loop
        invariant
            start <= index <= pool@.len(),
            ords == orders_of(pool@),
            rem == remaining as nat,
            rem > 0,
            forall|i: int| 0 <= i < pool@.len() ==> 1 <= shape_order(#[trigger] pool@[i]@) <= usize::MAX,
            forall|i: int, j: int| 0 <= i <= j < pool@.len() ==> shape_order(#[trigger] pool@[i]@) <= shape_order(#[trigger] pool@[j]@),
            out@.len() == blocks(ords, start as int, index as int, rem).len(),
            forall|k: int| 0 <= k < out@.len() ==> shapes(#[trigger] out@[k]@) == pick(
                shapes(pool@),
                blocks(ords, start as int, index as int, rem)[k],
            ),
        ensures
            out@.len() == selections(ords, start as int, rem).len(),
            forall|k: int| 0 <= k < out@.len() ==> shapes(#[trigger] out@[k]@) == pick(
                shapes(pool@),
                selections(ords, start as int, rem)[k],
            ),
        decreases pool@.len() - index,
    {
        if index >= pool.len() {
            proof {
                lemma_selections_split(ords, start as int, index as int, rem);
                assert(selections(ords, index as int, rem) =~= Seq::<Seq<int>>::empty());
                assert(selections(ords, start as int, rem) =~= blocks(ords, start as int, index as int, rem));
            }
            break;
        }
        let order = pool[index].order();
        if order > remaining {
            proof {
                assert forall|j: int| index <= j < ords.len() implies ords[j] > rem by {
                    assert(shape_order(pool@[index as int]@) <= shape_order(pool@[j]@));
                }
                lemma_selections_exhausted(ords, index as int, rem);
                lemma_selections_split(ords, start as int, index as int, rem);
                assert(selections(ords, start as int, rem) =~= blocks(ords, start as int, index as int, rem));
            }
            break;
        }
        let mut rests = multisets(pool, index, remaining - order);
        let ghost inner = selections(ords, index as int, (rem - order) as nat);
        let ghost before = blocks(ords, start as int, index as int, rem);
        proof {
            assert(ords[index as int] == order);
            assert(block(ords, index as int, rem) == inner.map_values(|s: Seq<int>| seq![index as int] + s));
        }
        let mut r: usize = 0;
        while r < rests.len()
            invariant
                r <= rests@.len(),
                rests@.len() == inner.len(),
                forall|k: int| r <= k < rests@.len() ==> shapes(#[trigger] rests@[k]@) == pick(shapes(pool@), inner[k]),
                index < pool@.len(),
                out@.len() == before.len() + r,
                forall|k: int| 0 <= k < before.len() ==> shapes(#[trigger] out@[k]@) == pick(shapes(pool@), before[k]),
                forall|k: int| before.len() <= k < out@.len() ==> shapes(#[trigger] out@[k]@) == pick(
                    shapes(pool@),
                    seq![index as int] + inner[k - before.len()],
                ),
            decreases rests@.len() - r,
        {
            let mut rest: Vec<Tree> = Vec::new();
            std::mem::swap(&mut rest, &mut rests[r]);
            let mut combination: Vec<Tree> = Vec::new();
            combination.push(pool[index].duplicate());
            let ghost rest_view = rest@;
            proof {
                assert(shapes(rest_view) == pick(shapes(pool@), inner[r as int]));
            }
            combination.append(&mut rest);
            proof {
                let chosen = seq![index as int] + inner[r as int];
                assert(combination@ =~= seq![combination@[0]] + rest_view);
                assert(pick(shapes(pool@), chosen) =~= seq![pool@[index as int]@] + pick(shapes(pool@), inner[r as int]));
                assert(shapes(combination@) =~= seq![pool@[index as int]@] + shapes(rest_view));
            }
            out.push(combination);
            r = r + 1;
        }
        proof {
            let after = blocks(ords, start as int, index + 1, rem);
            assert(after == before + block(ords, index as int, rem));
            assert forall|k: int| 0 <= k < out@.len() implies shapes(#[trigger] out@[k]@) == pick(shapes(pool@), after[k]) by {
                if k >= before.len() {
                    assert(after[k] == block(ords, index as int, rem)[k - before.len()]);
                }
            }
        }
        index = index + 1;
    }
    out
}

/// The shapes of each level of a list of levels.
pub open spec fn level_shapes(levels: Seq<Vec<Tree>>) -> Seq<Seq<Shape>> {
    levels.map_values(|l: Vec<Tree>| shapes(l@))
}

/// The trees of the levels below `n`, in canonical order.
pub open spec fn canonical_pool(levels: Seq<Seq<Shape>>, n: int) -> Seq<Shape> {
    levels.take(n).flatten().sort_by(key_order())
}

/// The trees with `n` nodes assembled from the levels below: a root over
/// each multiset of smaller trees whose orders sum to `n - 1`.
pub open spec fn level_spec(levels: Seq<Seq<Shape>>, n: int) -> Seq<Shape> {
    if n == 1 {
        seq![Shape { children: Seq::empty() }]
    } else {
        let pool = canonical_pool(levels, n);
        selections(pool_orders(pool), 0, (n - 1) as nat).map_values(
            |chosen: Seq<int>| Shape { children: pick(pool, chosen) },
        )
    }
}

/// The levels `0..=order`, each built from the ones below it; level 0 is
/// empty.
pub open spec fn levels_spec(order: nat) -> Seq<Seq<Shape>>
    decreases order,
{
    if order == 0 {
        seq![Seq::empty()]
    } else {
        let below = levels_spec((order - 1) as nat);
        below.push(level_spec(below, order as int))
    }
}

proof fn lemma_orders_of(pool: Seq<Tree>)
    ensures
        orders_of(pool) == pool_orders(shapes(pool)),
{
    assert(orders_of(pool) =~= pool_orders(shapes(pool)));
}

/// The trees with `n` nodes, from the levels below them.
fn level_of_order(by_order: &Vec<Vec<Tree>>, n: usize) -> (level: Vec<Tree>)
    requires
        1 <= n <= by_order@.len(),
        forall|m: int, i: int| 0 <= m < n && 0 <= i < by_order@[m]@.len() ==> shape_order(
            #[trigger] by_order@[m]@[i]@,
        ) == m,
    ensures
        shapes(level@) == level_spec(level_shapes(by_order@), n as int),
{
    if n == 1 {
        let mut level: Vec<Tree> = Vec::new();
        level.push(Tree::leaf());
        proof {
            assert(shapes(level@)[0].children =~= Seq::<Shape>::empty());
            assert(shapes(level@) =~= level_spec(level_shapes(by_order@), n as int));
        }
        return level;
    }
    let ghost levels = level_shapes(by_order@);
    let mut pool: Vec<Tree> = Vec::new();
    let mut m: usize = 0;
    while m < n
        invariant
            m <= n <= by_order@.len(),
            levels == level_shapes(by_order@),
            forall|mm: int, i: int| 0 <= mm < n && 0 <= i < by_order@[mm]@.len() ==> shape_order(
                #[trigger] by_order@[mm]@[i]@,
            ) == mm,
            shapes(pool@) == levels.take(m as int).flatten(),
            forall|i: int| 0 <= i < pool@.len() ==> 1 <= shape_order(#[trigger] pool@[i]@) < n,
        decreases n - m,
    {
        let smaller = &by_order[m];
        let mut i: usize = 0;
        while i < smaller.len()
            invariant
                i <= smaller@.len(),
                m < n <= by_order@.len(),
                smaller == by_order@[m as int],
                levels == level_shapes(by_order@),
                forall|mm: int, ii: int| 0 <= mm < n && 0 <= ii < by_order@[mm]@.len() ==> shape_order(
                    #[trigger] by_order@[mm]@[ii]@,
                ) == mm,
                shapes(pool@) == levels.take(m as int).flatten() + shapes(smaller@.take(i as int)),
                forall|ii: int| 0 <= ii < pool@.len() ==> 1 <= shape_order(#[trigger] pool@[ii]@) < n,
            decreases smaller@.len() - i,
        {
            let copy = smaller[i].duplicate();
            proof {
                assert(shape_order(smaller@[i as int]@) == m);
                if m == 0 {
                    assert(shape_order(smaller@[i as int]@) >= 1);
                }
            }
            let ghost old_pool = pool@;
            pool.push(copy);
            proof {
                assert(shapes(pool@) =~= shapes(old_pool).push(smaller@[i as int]@));
                assert(shapes(smaller@.take(i + 1)) =~= shapes(smaller@.take(i as int)).push(smaller@[i as int]@));
                assert(shapes(pool@) =~= levels.take(m as int).flatten() + shapes(smaller@.take(i + 1)));
            }
            i = i + 1;
        }
        proof {
            assert(smaller@.take(i as int) =~= smaller@);
            assert(levels.take(m as int + 1) =~= levels.take(m as int).push(levels[m as int]));
            levels.take(m as int).lemma_flatten_push(levels[m as int]);
        }
        m = m + 1;
    }
    let sorted = sort_canonically(&pool);
    let ghost pool_shapes = canonical_pool(levels, n as int);
    proof {
        lemma_key_order_total();
        shapes(pool@).lemma_sort_by_ensures(key_order());
        broadcast use vstd::seq_lib::group_to_multiset_ensures;
        assert forall|i: int| 0 <= i < sorted@.len() implies 1 <= shape_order(#[trigger] sorted@[i]@) <= usize::MAX by {
            let x = shapes(sorted@)[i];
            assert(shapes(sorted@).contains(x));
            let j = choose|j: int| 0 <= j < shapes(pool@).len() && shapes(pool@)[j] == x;
            assert(shapes(pool@)[j] == pool@[j]@);
        }
        assert forall|i: int, j: int| 0 <= i <= j < sorted@.len() implies shape_order(#[trigger] sorted@[i]@) <= shape_order(#[trigger] sorted@[j]@) by {
            if i < j {
                assert(key_order()(shapes(sorted@)[i], shapes(sorted@)[j]));
            }
        }
        lemma_orders_of(sorted@);
    }
    let mut combinations = multisets(&sorted, 0, n - 1);
    let ghost chosen = selections(orders_of(sorted@), 0, (n - 1) as nat);
    let mut level: Vec<Tree> = Vec::new();
    let mut k: usize = 0;
    while k < combinations.len()
        invariant
            k <= combinations@.len(),
            combinations@.len() == chosen.len(),
            forall|kk: int| k <= kk < combinations@.len() ==> shapes(#[trigger] combinations@[kk]@) == pick(shapes(sorted@), chosen[kk]),
            level@.len() == k,
            forall|kk: int| 0 <= kk < k ==> (#[trigger] level@[kk])@ == (Shape { children: pick(shapes(sorted@), chosen[kk]) }),
        decreases combinations@.len() - k,
    {
        let mut children: Vec<Tree> = Vec::new();
        std::mem::swap(&mut children, &mut combinations[k]);
        let tree = Tree { children };
        proof {
            assert(tree@.children =~= shapes(tree.children@));
        }
        level.push(tree);
        k = k + 1;
    }
    proof {
        assert(shapes(level@) =~= level_spec(levels, n as int));
    }
    level
}

/// The orders at the given positions, added up.
pub open spec fn total_of(ords: Seq<nat>, positions: Seq<int>) -> nat
    decreases positions.len(),
{
    if positions.len() == 0 {
        0
    } else {
        total_of(ords, positions.drop_last()) + ords[positions.last()]
    }
}

proof fn lemma_total_prepend(ords: Seq<nat>, i: int, s: Seq<int>)
    ensures
        total_of(ords, seq![i] + s) == ords[i] + total_of(ords, s),
    decreases s.len(),
{
    let g = seq![i] + s;
    if s.len() > 0 {
        lemma_total_prepend(ords, i, s.drop_last());
        assert(g.drop_last() =~= seq![i] + s.drop_last());
        assert(g.last() == s.last());
        assert(total_of(ords, g) == total_of(ords, g.drop_last()) + ords[g.last()]);
        assert(total_of(ords, s) == total_of(ords, s.drop_last()) + ords[s.last()]);
    } else {
        assert(g.drop_last() =~= Seq::<int>::empty());
        assert(g.last() == i);
        assert(total_of(ords, g) == total_of(ords, g.drop_last()) + ords[g.last()]);
        assert(total_of(ords, Seq::<int>::empty()) == 0);
    }
}

/// Positions that stay within `start..len` and never decrease.
pub open spec fn ascending_within(s: Seq<int>, start: int, len: int) -> bool {
    &&& forall|j: int| 0 <= j < s.len() ==> start <= #[trigger] s[j] < len
    &&& forall|i: int, j: int| 0 <= i <= j < s.len() ==> #[trigger] s[i] <= #[trigger] s[j]
}

/// Every selection names ascending positions whose orders add up to the
/// requested total.
pub proof fn lemma_selections_sound(ords: Seq<nat>, start: int, rem: nat)
    requires
        0 <= start,
    ensures
        forall|k: int| 0 <= k < selections(ords, start, rem).len() ==> {
            let s = #[trigger] selections(ords, start, rem)[k];
            &&& ascending_within(s, start, ords.len() as int)
            &&& total_of(ords, s) == rem
        },
    decreases rem, ords.len() - start,
{
    let all = selections(ords, start, rem);
    if rem == 0 {
        assert(all[0] =~= Seq::<int>::empty());
    } else if start >= ords.len() {
    } else {
        let first = block(ords, start, rem);
        lemma_selections_sound(ords, start + 1, rem);
        if 0 < ords[start] <= rem {
            let r2 = (rem - ords[start]) as nat;
            lemma_selections_sound(ords, start, r2);
            let inner = selections(ords, start, r2);
            assert forall|k: int| 0 <= k < first.len() implies {
                let s = #[trigger] first[k];
                &&& ascending_within(s, start, ords.len() as int)
                &&& total_of(ords, s) == rem
            } by {
                let s = first[k];
                assert(s == seq![start] + inner[k]);
                lemma_total_prepend(ords, start, inner[k]);
            }
        }
        assert forall|k: int| 0 <= k < all.len() implies {
            let s = #[trigger] all[k];
            &&& ascending_within(s, start, ords.len() as int)
            &&& total_of(ords, s) == rem
        } by {
            if k < first.len() {
                assert(all[k] == first[k]);
            } else {
                assert(all[k] == selections(ords, start + 1, rem)[k - first.len()]);
            }
        }
    }
}

/// A choice with a positive total is not empty.
proof fn lemma_total_nonempty(ords: Seq<nat>, s: Seq<int>)
    requires
        total_of(ords, s) > 0,
    ensures
        s.len() > 0,
{
}

/// Every ascending choice of positions from `start` on whose orders add up
/// to `rem` is among the selections, when every order is positive.
pub proof fn lemma_selections_complete(ords: Seq<nat>, start: int, rem: nat, s: Seq<int>)
    requires
        0 <= start,
        forall|j: int| 0 <= j < ords.len() ==> #[trigger] ords[j] > 0,
        ascending_within(s, start, ords.len() as int),
        total_of(ords, s) == rem,
    ensures
        selections(ords, start, rem).contains(s),
    decreases rem, ords.len() - start,
{
    if rem == 0 {
        if s.len() > 0 {
            lemma_total_positive_prefix(ords, s);
        }
        assert(s =~= Seq::<int>::empty());
        assert(selections(ords, start, rem)[0] == s);
    } else {
        lemma_total_nonempty(ords, s);
        assert(start <= s[0] < ords.len());
        let rest = s.drop_first();
        assert(s =~= seq![s[0]] + rest);
        lemma_total_prepend(ords, s[0], rest);
        let first: Seq<Seq<int>> = if 0 < ords[start] <= rem {
            selections(ords, start, (rem - ords[start]) as nat).map_values(|x: Seq<int>| seq![start] + x)
        } else {
            Seq::empty()
        };
        let later = selections(ords, start + 1, rem);
        assert(selections(ords, start, rem) == first + later);
        if s[0] == start {
            assert(ascending_within(rest, start, ords.len() as int)) by {
                assert forall|j: int| 0 <= j < rest.len() implies start <= #[trigger] rest[j] < ords.len() by {
                    assert(rest[j] == s[j + 1]);
                    assert(s[0] <= s[j + 1]);
                }
                assert forall|i: int, j: int| 0 <= i <= j < rest.len() implies #[trigger] rest[i] <= #[trigger] rest[j] by {
                    assert(rest[i] == s[i + 1] && rest[j] == s[j + 1]);
                    assert(s[i + 1] <= s[j + 1]);
                }
            }
            let r2 = (rem - ords[start]) as nat;
            lemma_selections_complete(ords, start, r2, rest);
            let inner = selections(ords, start, r2);
            let k = choose|k: int| 0 <= k < inner.len() && inner[k] == rest;
            assert(first[k] == s);
            assert((first + later)[k] == s);
        } else {
            assert(ascending_within(s, start + 1, ords.len() as int)) by {
                assert forall|j: int| 0 <= j < s.len() implies start + 1 <= #[trigger] s[j] < ords.len() by {
                    assert(s[0] <= s[j]);
                }
            }
            lemma_selections_complete(ords, start + 1, rem, s);
            let k = choose|k: int| 0 <= k < later.len() && later[k] == s;
            assert((first + later)[first.len() + k] == s);
        }
    }
}

/// A nonempty choice of positions of positive orders has a positive total.
proof fn lemma_total_positive_prefix(ords: Seq<nat>, s: Seq<int>)
    requires
        s.len() > 0,
        forall|j: int| 0 <= j < s.len() ==> 0 <= #[trigger] s[j] < ords.len(),
        forall|j: int| 0 <= j < ords.len() ==> #[trigger] ords[j] > 0,
    ensures
        total_of(ords, s) > 0,
{
    assert(ords[s.last()] > 0);
}

/// No selection appears twice.
pub proof fn lemma_selections_distinct(ords: Seq<nat>, start: int, rem: nat)
    requires
        0 <= start,
    ensures
        selections(ords, start, rem).no_duplicates(),
    decreases rem, ords.len() - start,
{
    let all = selections(ords, start, rem);
    if rem == 0 {
    } else if start >= ords.len() {
    } else {
        let later = selections(ords, start + 1, rem);
        lemma_selections_distinct(ords, start + 1, rem);
        lemma_selections_sound(ords, start + 1, rem);
        let first: Seq<Seq<int>> = if 0 < ords[start] <= rem {
            selections(ords, start, (rem - ords[start]) as nat).map_values(|x: Seq<int>| seq![start] + x)
        } else {
            Seq::empty()
        };
        assert(all == first + later);
        if 0 < ords[start] <= rem {
            let r2 = (rem - ords[start]) as nat;
            lemma_selections_distinct(ords, start, r2);
            let inner = selections(ords, start, r2);
            assert forall|i: int, j: int| 0 <= i < first.len() && 0 <= j < first.len() && i != j implies first[i] != first[j] by {
                assert(first[i] == seq![start] + inner[i]);
                assert(first[j] == seq![start] + inner[j]);
                if first[i] == first[j] {
                    assert(inner[i] =~= first[i].drop_first());
                    assert(inner[j] =~= first[j].drop_first());
                }
            }
        }
        assert forall|i: int, j: int| 0 <= i < all.len() && 0 <= j < all.len() && i != j implies all[i] != all[j] by {
            if i < first.len() && j < first.len() {
            } else if i >= first.len() && j >= first.len() {
                assert(all[i] == later[i - first.len()]);
                assert(all[j] == later[j - first.len()]);
            } else {
                let (x, y) = if i < first.len() { (i, j) } else { (j, i) };
                let a = all[x];
                let b = all[y];
                assert(a == first[x]);
                assert(a[0] == start);
                assert(b == later[y - first.len()]);
                lemma_total_nonempty(ords, b);
                assert(start + 1 <= b[0]);
            }
        }
    }
}

/// Choosing positions at non-decreasing indices enumerates every multiset
/// once: every ascending choice of positions from `start` on whose orders add
/// up to `rem` is a selection, and no selection appears twice.
pub proof fn law_every_multiset_once(ords: Seq<nat>, start: int, rem: nat)
    requires
        0 <= start,
        forall|j: int| 0 <= j < ords.len() ==> #[trigger] ords[j] > 0,
    ensures
        selections(ords, start, rem).no_duplicates(),
        forall|s: Seq<int>|
            ascending_within(s, start, ords.len() as int) && total_of(ords, s) == rem ==> #[trigger] selections(
                ords,
                start,
                rem,
            ).contains(s),
{
    lemma_selections_distinct(ords, start, rem);
    assert forall|s: Seq<int>|
        ascending_within(s, start, ords.len() as int) && total_of(ords, s) == rem implies #[trigger] selections(
            ords,
            start,
            rem,
        ).contains(s) by {
        lemma_selections_complete(ords, start, rem, s);
    }
}

/// The order of the trees at some positions of a pool is the total of their
/// orders.
proof fn lemma_pick_order(pool: Seq<Shape>, s: Seq<int>)
    requires
        forall|j: int| 0 <= j < s.len() ==> 0 <= #[trigger] s[j] < pool.len(),
    ensures
        forest_order(pick(pool, s)) == total_of(pool_orders(pool), s),
    decreases s.len(),
{
    if s.len() > 0 {
        lemma_pick_order(pool, s.drop_last());
        assert(pick(pool, s).drop_last() =~= pick(pool, s.drop_last()));
    }
}

/// The trees of order `n`, as the enumeration builds them.
pub open spec fn trees_spec(n: nat) -> Seq<Shape> {
    levels_spec(n)[n as int]
}

/// Every tree a level is built with has exactly `n` nodes, and its subtrees
/// come in canonical order.
proof fn lemma_level_sound(levels: Seq<Seq<Shape>>, n: int)
    requires
        n >= 1,
    ensures
        forall|i: int| 0 <= i < level_spec(levels, n).len() ==> {
            let t = #[trigger] level_spec(levels, n)[i];
            &&& shape_order(t) == n
            &&& sorted_by(t.children, key_order())
        },
{
    if n == 1 {
        let t = level_spec(levels, n)[0];
        assert(forest_order(t.children) == 0);
    } else {
        let pool = canonical_pool(levels, n);
        let ords = pool_orders(pool);
        let chosen = selections(ords, 0, (n - 1) as nat);
        lemma_selections_sound(ords, 0, (n - 1) as nat);
        lemma_key_order_total();
        levels.take(n).flatten().lemma_sort_by_ensures(key_order());
        assert forall|i: int| 0 <= i < level_spec(levels, n).len() implies {
            let t = #[trigger] level_spec(levels, n)[i];
            &&& shape_order(t) == n
            &&& sorted_by(t.children, key_order())
        } by {
            let t = level_spec(levels, n)[i];
            let s = chosen[i];
            assert(t.children == pick(pool, s));
            lemma_pick_order(pool, s);
            assert forall|a: int, b: int| 0 <= a < b < t.children.len() implies #[trigger] key_order()(
                t.children[a],
                t.children[b],
            ) by {
                assert(s[a] <= s[b]);
                if s[a] < s[b] {
                    assert(key_order()(pool[s[a]], pool[s[b]]));
                }
            }
        }
    }
}

/// Level `m` of the levels up to `order` is built from the levels below it,
/// and the levels below are those of `levels_spec(m - 1)`.
pub proof fn lemma_levels_prefix(order: nat, m: nat)
    requires
        m <= order,
    ensures
        levels_spec(order).len() == order + 1,
        levels_spec(order)[m as int] == levels_spec(m)[m as int],
        levels_spec(order).take(m as int + 1) == levels_spec(m),
    decreases order,
{
    if order > 0 {
        if m < order {
            lemma_levels_prefix((order - 1) as nat, m);
            assert(levels_spec(order).take(m as int + 1) =~= levels_spec((order - 1) as nat).take(m as int + 1));
        } else {
            lemma_levels_prefix((order - 1) as nat, (order - 1) as nat);
            assert(levels_spec(order).take(m as int + 1) =~= levels_spec(order));
        }
    }
}

/// Every tree at level `m` of the enumeration has `m` nodes.
pub proof fn lemma_levels_sound(order: nat)
    ensures
        levels_spec(order).len() == order + 1,
        levels_spec(order)[0].len() == 0,
        forall|m: int, i: int| 0 <= m <= order && 0 <= i < levels_spec(order)[m].len() ==> shape_order(
            #[trigger] levels_spec(order)[m][i],
        ) == m,
    decreases order,
{
    lemma_levels_prefix(order, 0);
    if order > 0 {
        let below = levels_spec((order - 1) as nat);
        lemma_levels_sound((order - 1) as nat);
        lemma_level_sound(below, order as int);
        assert forall|m: int, i: int| 0 <= m <= order && 0 <= i < levels_spec(order)[m].len() implies shape_order(
            #[trigger] levels_spec(order)[m][i],
        ) == m by {
            if m < order {
                assert(levels_spec(order)[m] == below[m]);
            }
        }
    }
}

/// The levels below `k`, one after the other, hold no tree twice, and every
/// tree among them has fewer than `k` nodes, when each level holds its trees
/// once and only trees of its own order.
proof fn lemma_prefix_flatten_distinct(levels: Seq<Seq<Shape>>, k: int)
    requires
        0 <= k <= levels.len(),
        forall|m: int| 0 <= m < levels.len() ==> (#[trigger] levels[m]).no_duplicates(),
        forall|m: int, i: int| 0 <= m < levels.len() && 0 <= i < levels[m].len() ==> shape_order(
            #[trigger] levels[m][i],
        ) == m,
    ensures
        levels.take(k).flatten().no_duplicates(),
        forall|i: int| 0 <= i < levels.take(k).flatten().len() ==> shape_order(
            #[trigger] levels.take(k).flatten()[i],
        ) < k,
    decreases k,
{
    if k == 0 {
        assert(levels.take(0) =~= Seq::<Seq<Shape>>::empty());
        assert(levels.take(0).flatten() =~= Seq::<Shape>::empty());
    } else {
        lemma_prefix_flatten_distinct(levels, k - 1);
        let below = levels.take(k - 1);
        assert(levels.take(k) =~= below.push(levels[k - 1]));
        below.lemma_flatten_push(levels[k - 1]);
        let a = below.flatten();
        let b = levels[k - 1];
        assert(levels.take(k).flatten() == a + b);
        assert forall|i: int, j: int| 0 <= i < a.len() && 0 <= j < b.len() implies a[i] != b[j] by {
            assert(shape_order(a[i]) < k - 1);
            assert(shape_order(b[j]) == k - 1);
        }
        vstd::seq_lib::lemma_no_dup_in_concat(a, b);
        assert forall|i: int| 0 <= i < (a + b).len() implies shape_order(#[trigger] (a + b)[i]) < k by {
            if i < a.len() {
                assert((a + b)[i] == a[i]);
            } else {
                assert((a + b)[i] == b[i - a.len()]);
            }
        }
    }
}

/// Sorting keeps a list free of repeats.
proof fn lemma_sorted_distinct(x: Seq<Shape>)
    requires
        x.no_duplicates(),
    ensures
        x.sort_by(key_order()).no_duplicates(),
{
    lemma_key_order_total();
    x.lemma_sort_by_ensures(key_order());
    x.lemma_multiset_has_no_duplicates();
    let y = x.sort_by(key_order());
    assert(x.to_multiset() =~= y.to_multiset());
    y.lemma_multiset_has_no_duplicates_conv();
}

/// Different positions in a list free of repeats pick different trees.
proof fn lemma_pick_injective(pool: Seq<Shape>, s: Seq<int>, t: Seq<int>)
    requires
        pool.no_duplicates(),
        forall|j: int| 0 <= j < s.len() ==> 0 <= #[trigger] s[j] < pool.len(),
        forall|j: int| 0 <= j < t.len() ==> 0 <= #[trigger] t[j] < pool.len(),
        pick(pool, s) == pick(pool, t),
    ensures
        s == t,
{
    assert(s.len() == pick(pool, s).len());
    assert forall|j: int| 0 <= j < s.len() implies s[j] == t[j] by {
        assert(pick(pool, s)[j] == pool[s[j]]);
        assert(pick(pool, t)[j] == pool[t[j]]);
    }
    assert(s =~= t);
}

/// A level built from levels that hold each of their trees once, and only
/// trees of their own order, holds each of its trees once.
proof fn lemma_level_distinct(levels: Seq<Seq<Shape>>, n: int)
    requires
        1 <= n <= levels.len(),
        forall|m: int| 0 <= m < levels.len() ==> (#[trigger] levels[m]).no_duplicates(),
        forall|m: int, i: int| 0 <= m < levels.len() && 0 <= i < levels[m].len() ==> shape_order(
            #[trigger] levels[m][i],
        ) == m,
    ensures
        level_spec(levels, n).no_duplicates(),
{
    if n > 1 {
        lemma_prefix_flatten_distinct(levels, n);
        lemma_sorted_distinct(levels.take(n).flatten());
        let pool = canonical_pool(levels, n);
        let ords = pool_orders(pool);
        let chosen = selections(ords, 0, (n - 1) as nat);
        lemma_selections_distinct(ords, 0, (n - 1) as nat);
        lemma_selections_sound(ords, 0, (n - 1) as nat);
        let level = level_spec(levels, n);
        assert forall|i: int, j: int| 0 <= i < level.len() && 0 <= j < level.len() && i != j implies level[i]
            != level[j] by {
            let si = chosen[i];
            let sj = chosen[j];
            assert(ascending_within(si, 0, ords.len() as int));
            assert(ascending_within(sj, 0, ords.len() as int));
            if level[i] == level[j] {
                assert(level[i].children == pick(pool, si));
                assert(level[j].children == pick(pool, sj));
                lemma_pick_injective(pool, si, sj);
            }
        }
    }
}

/// No tree appears twice in a level of the enumeration.
pub proof fn law_each_tree_once(order: nat, n: int)
    requires
        0 <= n <= order,
    ensures
        levels_spec(order)[n].no_duplicates(),
    decreases order,
{
    lemma_levels_prefix(order, n as nat);
    if n == order && order > 0 {
        let below = levels_spec((order - 1) as nat);
        lemma_levels_sound((order - 1) as nat);
        assert forall|m: int| 0 <= m < below.len() implies (#[trigger] below[m]).no_duplicates() by {
            law_each_tree_once((order - 1) as nat, m);
        }
        lemma_level_distinct(below, order as int);
    } else if n < order {
        law_each_tree_once((order - 1) as nat, n);
        lemma_levels_prefix((order - 1) as nat, n as nat);
    }
}

/// A tree whose subtrees come in canonical order, at every node.
pub open spec fn canonical_shape(t: Shape) -> bool
    decreases t,
{
    &&& sorted_by(t.children, key_order())
    &&& forall|i: int| 0 <= i < t.children.len() ==> canonical_shape(#[trigger] t.children[i])
}

/// Every tree has at least one node.
proof fn lemma_order_positive(t: Shape)
    ensures
        shape_order(t) >= 1,
{
}

/// A list of trees with no nodes at all is empty.
proof fn lemma_empty_forest(f: Seq<Shape>)
    requires
        forest_order(f) == 0,
    ensures
        f.len() == 0,
{
    if f.len() > 0 {
        lemma_order_positive(f.last());
    }
}

/// A tree of one level is among the levels, one after the other.
proof fn lemma_in_flatten(levels: Seq<Seq<Shape>>, m: int, x: Shape)
    requires
        0 <= m < levels.len(),
        levels[m].contains(x),
    ensures
        levels.flatten().contains(x),
    decreases levels.len(),
{
    let last = levels.len() - 1;
    assert(levels =~= levels.drop_last().push(levels[last]));
    levels.drop_last().lemma_flatten_push(levels[last]);
    let a = levels.drop_last().flatten();
    let b = levels[last];
    assert(levels.flatten() == a + b);
    if m == last {
        let i = choose|i: int| 0 <= i < b.len() && b[i] == x;
        assert((a + b)[a.len() + i] == x);
    } else {
        lemma_in_flatten(levels.drop_last(), m, x);
        let i = choose|i: int| 0 <= i < a.len() && a[i] == x;
        assert((a + b)[i] == x);
    }
}

/// In a list sorted by the canonical order with no tree twice, a tree that
/// comes no later in the canonical order sits no later in the list.
proof fn lemma_sorted_positions(pool: Seq<Shape>, a: int, b: int)
    requires
        sorted_by(pool, key_order()),
        pool.no_duplicates(),
        0 <= a < pool.len(),
        0 <= b < pool.len(),
        key_le(pool[a], pool[b]),
    ensures
        a <= b,
{
    lemma_key_order_total();
    if a > b {
        assert(key_order()(pool[b], pool[a]));
        assert(key_order()(pool[a], pool[b]));
        assert(pool[a] == pool[b]);
    }
}

/// Every tree whose subtrees come in canonical order at every node is in the
/// level of its order.
proof fn lemma_level_complete(t: Shape, order: nat)
    requires
        canonical_shape(t),
        shape_order(t) <= order,
    ensures
        levels_spec(order)[shape_order(t) as int].contains(t),
    decreases shape_order(t),
{
    broadcast use vstd::seq_lib::group_to_multiset_ensures;

    let n = shape_order(t) as int;
    lemma_order_positive(t);
    lemma_levels_prefix(order, n as nat);
    if n == 1 {
        lemma_empty_forest(t.children);
        assert(t.children =~= Seq::<Shape>::empty());
        assert(levels_spec(n as nat) == levels_spec(0).push(level_spec(levels_spec(0), 1)));
        assert(levels_spec(n as nat)[n] == level_spec(levels_spec(0), 1));
        assert(level_spec(levels_spec(0), 1)[0] == t);
    } else {
        let below = levels_spec((n - 1) as nat);
        lemma_levels_sound((n - 1) as nat);
        assert(levels_spec(n as nat)[n] == level_spec(below, n));
        assert forall|m: int| 0 <= m < below.len() implies (#[trigger] below[m]).no_duplicates() by {
            law_each_tree_once((n - 1) as nat, m);
        }
        lemma_prefix_flatten_distinct(below, n);
        assert(below.take(n) =~= below);
        let flat = below.flatten();
        lemma_sorted_distinct(flat);
        lemma_key_order_total();
        flat.lemma_sort_by_ensures(key_order());
        let pool = canonical_pool(below, n);
        assert(pool == flat.sort_by(key_order()));
        let f = t.children;
        // Each subtree is in the pool.
        assert forall|i: int| 0 <= i < f.len() implies pool.contains(#[trigger] f[i]) by {
            lemma_member_order(f, i);
            lemma_order_positive(f[i]);
            let m = shape_order(f[i]);
            lemma_level_complete(f[i], (n - 1) as nat);
            lemma_in_flatten(below, m as int, f[i]);
            assert(flat.to_multiset().count(f[i]) > 0);
        }
        let s = Seq::new(f.len(), |i: int| pool.index_of(f[i]));
        assert forall|i: int| 0 <= i < f.len() implies 0 <= #[trigger] s[i] < pool.len() && pool[s[i]] == f[i] by {
            assert(pool.contains(f[i]));
        }
        assert(pick(pool, s) =~= f);
        let ords = pool_orders(pool);
        assert(ascending_within(s, 0, ords.len() as int)) by {
            assert forall|i: int, j: int| 0 <= i <= j < s.len() implies #[trigger] s[i] <= #[trigger] s[j] by {
                if i < j {
                    assert(key_order()(f[i], f[j]));
                    lemma_sorted_positions(pool, s[i], s[j]);
                }
            }
        }
        lemma_pick_order(pool, s);
        assert(total_of(ords, s) == (n - 1) as nat);
        assert forall|j: int| 0 <= j < ords.len() implies #[trigger] ords[j] > 0 by {
            lemma_order_positive(pool[j]);
        }
        lemma_selections_complete(ords, 0, (n - 1) as nat, s);
        let chosen = selections(ords, 0, (n - 1) as nat);
        let k = choose|k: int| 0 <= k < chosen.len() && chosen[k] == s;
        assert(level_spec(below, n)[k] == Shape { children: pick(pool, s) });
        assert(level_spec(below, n)[k] == t);
    }
}

/// The enumeration is complete: every tree whose subtrees come in canonical
/// order at every node, with at most `order` nodes, is in the level of its
/// order.
pub proof fn law_every_tree_is_enumerated(t: Shape, order: nat)
    requires
        canonical_shape(t),
        shape_order(t) <= order,
    ensures
        levels_spec(order)[shape_order(t) as int].contains(t),
{
    lemma_level_complete(t, order);
}

/// A tree among the levels, one after the other, is in one of them.
proof fn lemma_from_flatten(levels: Seq<Seq<Shape>>, x: Shape)
    requires
        levels.flatten().contains(x),
    ensures
        exists|m: int| 0 <= m < levels.len() && (#[trigger] levels[m]).contains(x),
    decreases levels.len(),
{
    if levels.len() == 0 {
        assert(levels.flatten() =~= Seq::<Shape>::empty());
    } else {
        let last = levels.len() - 1;
        assert(levels =~= levels.drop_last().push(levels[last]));
        levels.drop_last().lemma_flatten_push(levels[last]);
        let a = levels.drop_last().flatten();
        let b = levels[last];
        assert(levels.flatten() == a + b);
        let i = choose|i: int| 0 <= i < (a + b).len() && (a + b)[i] == x;
        if i < a.len() {
            assert(a[i] == x);
            lemma_from_flatten(levels.drop_last(), x);
            let m = choose|m: int| 0 <= m < levels.drop_last().len() && (#[trigger] levels.drop_last()[m]).contains(x);
            assert(levels[m] == levels.drop_last()[m]);
        } else {
            assert(b[i - a.len()] == x);
            assert(levels[last].contains(x));
        }
    }
}

/// Every tree the enumeration yields has its subtrees in canonical order at
/// every node.
pub proof fn law_enumerated_trees_are_canonical(order: nat, n: int, i: int)
    requires
        0 <= n <= order,
        0 <= i < levels_spec(order)[n].len(),
    ensures
        canonical_shape(levels_spec(order)[n][i]),
    decreases order,
{
    broadcast use vstd::seq_lib::group_to_multiset_ensures;

    lemma_levels_prefix(order, n as nat);
    if n < order {
        law_enumerated_trees_are_canonical((order - 1) as nat, n, i);
        lemma_levels_prefix((order - 1) as nat, n as nat);
    } else if n > 0 {
        let below = levels_spec((order - 1) as nat);
        lemma_levels_sound(order);
        assert(levels_spec(order)[n] == level_spec(below, n));
        let t = level_spec(below, n)[i];
        lemma_level_sound(below, n);
        if n > 1 {
            let pool = canonical_pool(below, n);
            let flat = below.take(n).flatten();
            lemma_key_order_total();
            flat.lemma_sort_by_ensures(key_order());
            let ords = pool_orders(pool);
            let chosen = selections(ords, 0, (n - 1) as nat);
            lemma_selections_sound(ords, 0, (n - 1) as nat);
            let c = chosen[i];
            assert(t.children == pick(pool, c));
            assert forall|j: int| 0 <= j < t.children.len() implies canonical_shape(#[trigger] t.children[j]) by {
                let x = t.children[j];
                assert(x == pool[c[j]]);
                assert(pool.contains(x));
                assert(pool.to_multiset().count(x) > 0);
                assert(flat.contains(x));
                lemma_from_flatten(below.take(n), x);
                let m = choose|m: int| 0 <= m < below.take(n).len() && (#[trigger] below.take(n)[m]).contains(x);
                let q = choose|q: int| 0 <= q < below[m].len() && below[m][q] == x;
                assert(below.take(n)[m] == below[m]);
                law_enumerated_trees_are_canonical((order - 1) as nat, m, q);
            }
        } else {
            assert(t.children.len() == 0);
        }
    }
}

/// Every tree of every order up to `order`, indexed by order.
pub fn trees_by_order(order: usize) -> (by_order: Vec<Vec<Tree>>)
    ensures
        level_shapes(by_order@) == levels_spec(order as nat),
{
    let mut by_order: Vec<Vec<Tree>> = Vec::new();
    by_order.push(Vec::new());
    proof {
        assert(shapes(by_order@[0]@) =~= Seq::<Shape>::empty());
        assert(level_shapes(by_order@) =~= levels_spec(0));
    }
    let mut n: usize = 0;
    while n < order
        invariant
            n <= order,
            level_shapes(by_order@) == levels_spec(n as nat),
        decreases order - n,
    {
        n = n + 1;
        proof {
            lemma_levels_sound((n - 1) as nat);
            assert forall|m: int, i: int| 0 <= m < n && 0 <= i < by_order@[m]@.len() implies shape_order(
                #[trigger] by_order@[m]@[i]@,
            ) == m by {
                assert(level_shapes(by_order@)[m] == shapes(by_order@[m]@));
                assert(shapes(by_order@[m]@)[i] == by_order@[m]@[i]@);
            }
        }
        let level = level_of_order(&by_order, n);
        let ghost before = by_order@;
        by_order.push(level);
        proof {
            assert(level_shapes(by_order@) =~= level_shapes(before).push(shapes(by_order@[n as int]@)));
        }
    }
    by_order
}

/// All rooted trees with exactly `order` nodes, in canonical order.
pub fn trees_of_order(order: usize) -> (trees: Vec<Tree>)
    ensures
        order == 0 ==> trees@.len() == 0,
        order > 0 ==> shapes(trees@) == trees_spec(order as nat),
{
    let mut by_order = trees_by_order(order);
    proof {
        lemma_levels_sound(order as nat);
    }
    if order == 0 || order >= by_order.len() {
        return Vec::new();
    }
    let trees = by_order.remove(order);
    proof {
        assert(level_shapes(by_order@.insert(order as int, trees))[order as int] == shapes(trees@));
    }
    trees
}

/// All rooted trees with up to `order` nodes, flattened.
pub fn trees_up_to(order: usize) -> (trees: Vec<Tree>)
    ensures
        shapes(trees@) == levels_spec(order as nat).flatten(),
{
    let by_order = trees_by_order(order);
    let mut out: Vec<Tree> = Vec::new();
    let mut m: usize = 0;
    while m < by_order.len()
        invariant
            m <= by_order@.len(),
            level_shapes(by_order@) == levels_spec(order as nat),
            shapes(out@) == levels_spec(order as nat).take(m as int).flatten(),
        decreases by_order@.len() - m,
    {
        let level = &by_order[m];
        let mut i: usize = 0;
        while i < level.len()
            invariant
                i <= level@.len(),
                m < by_order@.len(),
                level == by_order@[m as int],
                level_shapes(by_order@) == levels_spec(order as nat),
                shapes(out@) == levels_spec(order as nat).take(m as int).flatten() + shapes(level@.take(i as int)),
            decreases level@.len() - i,
        {
            let ghost old_out = out@;
            out.push(level[i].duplicate());
            proof {
                assert(shapes(out@) =~= shapes(old_out).push(level@[i as int]@));
                assert(shapes(level@.take(i + 1)) =~= shapes(level@.take(i as int)).push(level@[i as int]@));
                assert(shapes(out@) =~= levels_spec(order as nat).take(m as int).flatten() + shapes(level@.take(i + 1)));
            }
            i = i + 1;
        }
        proof {
            let levels = levels_spec(order as nat);
            assert(level@.take(i as int) =~= level@);
            assert(levels[m as int] == shapes(level@));
            assert(levels.take(m as int + 1) =~= levels.take(m as int).push(levels[m as int]));
            levels.take(m as int).lemma_flatten_push(levels[m as int]);
        }
        m = m + 1;
    }
    proof {
        assert(levels_spec(order as nat).take(m as int) =~= levels_spec(order as nat));
    }
    out
}

/// Butcher's density `gamma(t)`: the order of the tree times the densities
/// of its subtrees.
pub open spec fn shape_density(s: Shape) -> nat
    decreases s,
{
    shape_order(s) * forest_density(s.children)
}

/// The product of the densities of a list of trees.
pub open spec fn forest_density(f: Seq<Shape>) -> nat
    decreases f,
{
    if f.len() == 0 {
        1
    } else {
        forest_density(f.drop_last()) * shape_density(f.last())
    }
}

proof fn lemma_density_positive(s: Shape)
    ensures
        shape_density(s) >= 1,
        forest_density(s.children) >= 1,
    decreases s,
{
    lemma_forest_density_positive(s.children);
    assert(shape_order(s) * forest_density(s.children) >= 1) by (nonlinear_arith)
        requires
            shape_order(s) >= 1,
            forest_density(s.children) >= 1,
    ;
}

proof fn lemma_forest_density_positive(f: Seq<Shape>)
    ensures
        forest_density(f) >= 1,
    decreases f,
{
    if f.len() > 0 {
        lemma_forest_density_positive(f.drop_last());
        lemma_density_positive(f.last());
        let a = forest_density(f.drop_last());
        let b = shape_density(f.last());
        assert(a * b >= 1) by (nonlinear_arith)
            requires
                a >= 1,
                b >= 1,
        ;
    }
}

/// The density of a prefix of a list of trees divides into the density of
/// the tree they hang from, and so is no larger.
proof fn lemma_prefix_density(s: Shape, k: int)
    requires
        0 <= k < s.children.len(),
    ensures
        forest_density(s.children.take(k + 1)) == forest_density(s.children.take(k)) * shape_density(s.children[k]),
        shape_order(s) * forest_density(s.children.take(k + 1)) <= shape_density(s),
        shape_density(s.children[k]) <= shape_density(s),
{
    let f = s.children;
    assert(f.take(k + 1).drop_last() =~= f.take(k));
    lemma_density_positive(s);
    lemma_prefix_density_bound(f, k + 1);
    let p = forest_density(f.take(k + 1));
    let q = forest_density(f);
    let o = shape_order(s);
    assert(o * p <= o * q) by (nonlinear_arith)
        requires
            p <= q,
            o >= 1,
    ;
    lemma_forest_density_positive(f.take(k));
    let a = forest_density(f.take(k));
    let b = shape_density(f[k]);
    assert(b <= o * p) by (nonlinear_arith)
        requires
            p == a * b,
            a >= 1,
            o >= 1,
            b >= 0,
    ;
}

proof fn lemma_prefix_density_bound(f: Seq<Shape>, k: int)
    requires
        0 <= k <= f.len(),
    ensures
        forest_density(f.take(k)) <= forest_density(f),
    decreases f.len() - k,
{
    if k == f.len() {
        assert(f.take(k) =~= f);
    } else {
        lemma_prefix_density_bound(f, k + 1);
        assert(f.take(k + 1).drop_last() =~= f.take(k));
        assert(f.take(k + 1).last() == f[k]);
        assert(forest_density(f.take(k + 1)) == forest_density(f.take(k)) * shape_density(f[k]));
        lemma_forest_density_positive(f.take(k));
        lemma_density_positive(f[k]);
        let a = forest_density(f.take(k));
        let b = shape_density(f[k]);
        assert(a <= a * b) by (nonlinear_arith)
            requires
                a >= 1,
                b >= 1,
        ;
    }
}

impl Tree {
    /// Butcher's density `gamma(t)`, exactly. `None` when it does not fit in
    /// the exact arithmetic, where the computation leaves the rationals.
    pub fn density(&self) -> (d: Option<Rational>)
        requires
            shape_order(self@) <= usize::MAX,
        ensures
            d is Some <==> shape_density(self@) <= i128::MAX,
            d matches Some(r) ==> r.wf() && r@ == (shape_density(self@) as int, 1int),
        decreases self,
    {
        let ghost s = self@;
        let ghost f = s.children;
        let n = self.order();
        let mut acc = Rational::integer(n as i128);
        proof {
            assert(f.take(0) =~= Seq::<Shape>::empty());
            assert(forest_density(f.take(0)) == 1);
            assert(shape_order(s) * forest_density(f.take(0)) == shape_order(s));
        }
        let mut k: usize = 0;
        while k < self.children.len()
            invariant
                k <= self.children.len(),
                s == self@,
                f == s.children,
                shape_order(s) <= usize::MAX,
                acc.wf(),
                acc@ == ((shape_order(s) * forest_density(f.take(k as int))) as int, 1int),
            decreases self.children.len() - k,
        {
            proof {
                lemma_prefix_density(s, k as int);
                lemma_member_order(f, k as int);
                assert(f[k as int] == self.children@[k as int]@);
            }
            match self.children[k].density() {
                Some(child) => {
                    proof {
                        lemma_integer_product(acc@, child@);
                        let a = forest_density(f.take(k as int));
                        let b = shape_density(f[k as int]);
                        assert(shape_order(s) * a * b == shape_order(s) * (a * b)) by (nonlinear_arith);
                    }
                    match acc.checked_mul(child) {
                        Some(product) => {
                            proof {
                                lemma_integer_value(product, acc@.0 * child@.0);
                            }
                            acc = product;
                        },
                        None => {
                            proof {
                                lemma_forest_density_positive(f.take(k as int));
                                lemma_density_positive(f[k as int]);
                                let a = forest_density(f.take(k as int));
                                let b = shape_density(f[k as int]);
                                let o = shape_order(s);
                                assert(o * a >= 1 && o * a * b >= o * a) by (nonlinear_arith)
                                    requires
                                        o >= 1,
                                        a >= 1,
                                        b >= 1,
                                ;
                            }
                            return None;
                        },
                    }
                },
                None => {
                    return None;
                },
            }
            proof {
                assert(f.take(k + 1).drop_last() =~= f.take(k as int));
                assert(f.take(k + 1).last() == f[k as int]);
            }
            k = k + 1;
        }
        proof {
            assert(f.take(k as int) =~= f);
            assert(shape_density(s) == shape_order(s) * forest_density(f));
            acc.lemma_view_bounds();
        }
        Some(acc)
    }
}

/// How often `x` occurs in `f`.
pub open spec fn occurrences(f: Seq<Shape>, x: Shape) -> nat
    decreases f.len(),
{
    if f.len() == 0 {
        0
    } else {
        occurrences(f.drop_last(), x) + if f.last() == x {
            1nat
        } else {
            0nat
        }
    }
}

/// Butcher's symmetry `sigma(t)`: the symmetries of the subtrees times, for
/// each group of `k` equal subtrees, `k!`.
pub open spec fn shape_symmetry(s: Shape) -> nat
    decreases s,
{
    forest_symmetry(s.children)
}

/// The symmetry contributed by a list of subtrees: each subtree contributes
/// its own symmetry and the number of times it has occurred so far, so that
/// a group of `k` equal subtrees contributes `k!` in all.
pub open spec fn forest_symmetry(f: Seq<Shape>) -> nat
    decreases f,
{
    if f.len() == 0 {
        1
    } else {
        forest_symmetry(f.drop_last()) * shape_symmetry(f.last()) * occurrences(f, f.last())
    }
}

proof fn lemma_occurrences_last(f: Seq<Shape>)
    requires
        f.len() > 0,
    ensures
        occurrences(f, f.last()) >= 1,
{
}

proof fn lemma_symmetry_positive(s: Shape)
    ensures
        shape_symmetry(s) >= 1,
    decreases s,
{
    lemma_forest_symmetry_positive(s.children);
}

proof fn lemma_forest_symmetry_positive(f: Seq<Shape>)
    ensures
        forest_symmetry(f) >= 1,
    decreases f,
{
    if f.len() > 0 {
        lemma_forest_symmetry_positive(f.drop_last());
        lemma_symmetry_positive(f.last());
        lemma_occurrences_last(f);
        let a = forest_symmetry(f.drop_last());
        let b = shape_symmetry(f.last());
        let c = occurrences(f, f.last());
        assert(a * b * c >= 1) by (nonlinear_arith)
            requires
                a >= 1,
                b >= 1,
                c >= 1,
        ;
    }
}

/// One more subtree multiplies the symmetry of a prefix by its own symmetry
/// and by how often it has occurred so far.
proof fn lemma_symmetry_step(f: Seq<Shape>, k: int)
    requires
        0 <= k < f.len(),
    ensures
        forest_symmetry(f.take(k + 1)) == forest_symmetry(f.take(k)) * shape_symmetry(f[k])
            * occurrences(f.take(k + 1), f[k]),
        forest_symmetry(f.take(k)) * shape_symmetry(f[k]) <= forest_symmetry(f.take(k + 1)),
        shape_symmetry(f[k]) <= forest_symmetry(f.take(k + 1)),
{
    let t = f.take(k + 1);
    assert(t.drop_last() =~= f.take(k));
    assert(t.last() == f[k]);
    lemma_forest_symmetry_positive(f.take(k));
    lemma_occurrences_last(t);
    let a = forest_symmetry(f.take(k));
    let b = shape_symmetry(f[k]);
    let c = occurrences(t, f[k]);
    assert(a * b <= a * b * c && b <= a * b * c) by (nonlinear_arith)
        requires
            a >= 1,
            b >= 0,
            c >= 1,
    ;
}

/// The symmetry of a prefix of a list of subtrees is no larger than that of
/// the whole list.
proof fn lemma_symmetry_prefix(f: Seq<Shape>, k: int)
    requires
        0 <= k <= f.len(),
    ensures
        forest_symmetry(f.take(k)) <= forest_symmetry(f),
    decreases f.len() - k,
{
    if k == f.len() {
        assert(f.take(k) =~= f);
    } else {
        lemma_symmetry_prefix(f, k + 1);
        lemma_symmetry_step(f, k);
        lemma_symmetry_positive(f[k]);
        let a = forest_symmetry(f.take(k));
        let b = shape_symmetry(f[k]);
        assert(a <= a * b) by (nonlinear_arith)
            requires
                a >= 0,
                b >= 1,
        ;
    }
}

/// One more element counts once more where it equals `x`.
proof fn lemma_occurrences_push(f: Seq<Shape>, y: Shape, x: Shape)
    ensures
        occurrences(f.push(y), x) == occurrences(f, x) + if y == x {
            1nat
        } else {
            0nat
        },
{
    assert(f.push(y).drop_last() =~= f);
}

impl Tree {
    /// Butcher's symmetry `sigma(t)`, exactly. `None` when it does not fit in
    /// the exact arithmetic, where the computation leaves the rationals.
    pub fn symmetry(&self) -> (r: Option<Rational>)
        ensures
            r is Some <==> shape_symmetry(self@) <= i128::MAX,
            r matches Some(q) ==> q.wf() && q@ == (shape_symmetry(self@) as int, 1int),
        decreases self,
    {
        let ghost s = self@;
        let ghost f = s.children;
        let n = self.children.len();
        let mut keys: Vec<Vec<char>> = Vec::new();
        let mut i: usize = 0;
        while i < n
            invariant
                i <= n,
                n == self.children@.len(),
                f == self@.children,
                keys@.len() == i,
                forall|j: int| 0 <= j < i ==> #[trigger] keys@[j]@ == shape_text(f[j]),
            decreases n - i,
        {
            assert(f[i as int] == self.children@[i as int]@);
            keys.push(self.children[i].compact_chars());
            i = i + 1;
        }
        let mut acc = Rational::one();
        assert(f.take(0) =~= Seq::<Shape>::empty());
        let mut k: usize = 0;
        while k < n
            invariant
                k <= n,
                n == self.children@.len(),
                s == self@,
                f == s.children,
                keys@.len() == n,
                forall|j: int| 0 <= j < n ==> #[trigger] keys@[j]@ == shape_text(f[j]),
                acc.wf(),
                acc@ == (forest_symmetry(f.take(k as int)) as int, 1int),
            decreases n - k,
        {
            proof {
                lemma_symmetry_step(f, k as int);
                lemma_symmetry_prefix(f, k + 1);
                lemma_symmetry_positive(f[k as int]);
                assert(f[k as int] == self.children@[k as int]@);
            }
            let child = match self.children[k].symmetry() {
                Some(q) => q,
                None => {
                    return None;
                },
            };
            let mut count: usize = 0;
            let mut j: usize = 0;
            while j <= k
                invariant
                    j <= k + 1,
                    k < n,
                    keys@.len() == n,
                    forall|m: int| 0 <= m < n ==> #[trigger] keys@[m]@ == shape_text(f[m]),
                    f.len() == n,
                    count <= j,
                    count == occurrences(f.take(j as int), f[k as int]),
                decreases k + 1 - j,
            {
                proof {
                    assert(f.take(j + 1) =~= f.take(j as int).push(f[j as int]));
                    lemma_occurrences_push(f.take(j as int), f[j as int], f[k as int]);
                }
                let same = same_chars(&keys[j], &keys[k]);
                proof {
                    if same {
                        lemma_text_injective(f[j as int], f[k as int]);
                    }
                }
                if same {
                    count = count + 1;
                }
                j = j + 1;
            }
            let ghost a = forest_symmetry(f.take(k as int));
            let ghost b = shape_symmetry(f[k as int]);
            let ghost c = occurrences(f.take(k + 1), f[k as int]);
            proof {
                lemma_integer_product(acc@, child@);
                lemma_forest_symmetry_positive(f.take(k as int));
                lemma_occurrences_last(f.take(k + 1));
                assert(f.take(k + 1).last() == f[k as int]);
            }
            let with_child = match acc.checked_mul(child) {
                Some(q) => {
                    proof {
                        lemma_integer_value(q, (a * b) as int);
                    }
                    q
                },
                None => {
                    return None;
                },
            };
            proof {
                assert(count <= usize::MAX);
                assert(with_child@ == ((a * b) as int, 1int));
                with_child.lemma_view_bounds();
                assert(a * b * c <= forest_symmetry(f)) by {
                    assert(forest_symmetry(f.take(k + 1)) == a * b * c);
                }
            }
            let factor = Rational::integer(count as i128);
            proof {
                lemma_integer_product(with_child@, factor@);
            }
            match with_child.checked_mul(factor) {
                Some(q) => {
                    proof {
                        lemma_integer_value(q, ((a * b) * c) as int);
                    }
                    acc = q;
                },
                None => {
                    return None;
                },
            }
            k = k + 1;
        }
        proof {
            assert(f.take(k as int) =~= f);
            assert(shape_symmetry(s) == forest_symmetry(f));
            acc.lemma_view_bounds();
        }
        Some(acc)
    }
}

/// How far each of the three simplifying assumptions holds.
///
/// ```text
/// B(p): sum_i b_i c_i^(k-1) = 1/k                       k = 1..p
/// C(q): sum_j a_ij c_j^(k-1) = c_i^k / k       every i, k = 1..q
/// D(r): sum_i b_i c_i^(k-1) a_ij = b_j (1 - c_j^k)/k    every j, k = 1..r
/// ```
///
/// By Butcher's theorem a method satisfying all three has order at least
/// `min(p, q + r + 1, 2q + 2)`.
#[derive(Copy, Clone, Debug)]
pub struct SimplifyingAssumptions {
    pub quadrature: usize,
    pub stage: usize,
    pub adjoint: usize,
}

/// The order Butcher's theorem certifies from `B(p)`, `C(q)` and `D(r)`.
pub open spec fn certified(p: int, q: int, r: int) -> int {
    let a = if p <= q + r + 1 { p } else { q + r + 1 };
    if a <= 2 * q + 2 { a } else { 2 * q + 2 }
}

impl SimplifyingAssumptions {
    /// The order Butcher's theorem certifies from these three alone.
    pub fn certified_order(&self) -> (order: usize)
        requires
            self.stage + self.adjoint + 1 <= usize::MAX,
            2 * self.stage + 2 <= usize::MAX,
        ensures
            order == certified(self.quadrature as int, self.stage as int, self.adjoint as int),
    {
        let first = if self.quadrature <= self.stage + self.adjoint + 1 {
            self.quadrature
        } else {
            self.stage + self.adjoint + 1
        };
        if first <= 2 * self.stage + 2 {
            first
        } else {
            2 * self.stage + 2
        }
    }
}

/// Every rooted tree the enumeration yields for order `n` has exactly `n`
/// nodes.
pub proof fn law_trees_have_their_order(n: nat)
    ensures
        forall|i: int| 0 <= i < trees_spec(n).len() ==> shape_order(#[trigger] trees_spec(n)[i]) == n,
{
    lemma_levels_sound(n);
}

/// The subtrees of every enumerated tree come in canonical order, by order
/// and then by bracket notation, so each tree is produced in one canonical
/// form.
pub proof fn law_subtrees_in_canonical_order(n: nat)
    requires
        n >= 1,
    ensures
        forall|i: int| 0 <= i < trees_spec(n).len() ==> sorted_by(
            (#[trigger] trees_spec(n)[i]).children,
            key_order(),
        ),
{
    lemma_levels_prefix(n, (n - 1) as nat);
    lemma_level_sound(levels_spec((n - 1) as nat), n as int);
}

/// The bracket notation of a tree determines the tree: two trees with the
/// same notation are the same tree. This is what makes the notation usable
/// as a key for a tree.
pub proof fn law_notation_determines_tree(a: Shape, b: Shape)
    requires
        shape_text(a) == shape_text(b),
    ensures
        a == b,
{
    lemma_text_injective(a, b);
}

} // verus!
