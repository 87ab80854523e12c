//! Two coloured rooted trees, the index set of the order conditions of
//! additive (IMEX) Runge-Kutta methods.
//!
//! Each node carries one of two colours, 0 for the explicit half and 1 for
//! the implicit one, so a tree of order `n` stands for as many conditions as
//! it has colourings. They are enumerated the way the uncoloured ones are: a
//! tree of order `n` is a coloured root over a multiset of smaller trees whose
//! orders sum to `n - 1`.

use vstd::prelude::*;
use vstd::relations::{sorted_by, total_ordering};
use crate::analysis::order::{
    ascending_within, block, blocks, lemma_selections_complete, lemma_selections_distinct,
    lemma_selections_exhausted, lemma_selections_sound, lemma_selections_split, selections,
    total_of, Tree,
};
use crate::analysis::coloured::{
    ColouredTree,
    coloured_forest_le, coloured_forest_order, coloured_key_le, coloured_key_order, coloured_label,
    coloured_le, coloured_order, forest_label, lemma_coloured_antisymmetric,
    lemma_coloured_key_order_total, lemma_coloured_reflexive, law_shape_keeps_order, uncoloured,
    ColouredShape,
};
use crate::analysis::shape::{shape_order, Shape};

verus! {

/// The shapes of a list of coloured trees.
pub open spec fn coloured_shapes(s: Seq<ColouredTree>) -> Seq<ColouredShape> {
    s.map_values(|t: ColouredTree| t@)
}

/// The order of one tree of a list is at most that of the whole list.
proof fn lemma_coloured_member_order(f: Seq<ColouredShape>, i: int)
    requires
        0 <= i < f.len(),
    ensures
        coloured_order(f[i]) <= coloured_forest_order(f),
    decreases f.len(),
{
    if i < f.len() - 1 {
        lemma_coloured_member_order(f.drop_last(), i);
    }
}

proof fn lemma_coloured_prefix_order(f: Seq<ColouredShape>, k: int)
    requires
        0 <= k < f.len(),
    ensures
        coloured_forest_order(f.take(k + 1)) == coloured_forest_order(f.take(k)) + coloured_order(f[k]),
        coloured_forest_order(f.take(k + 1)) <= coloured_forest_order(f),
    decreases f.len(),
{
    assert(f.take(k + 1).drop_last() =~= f.take(k));
    if k + 1 < f.len() {
        lemma_coloured_prefix_order(f.drop_last(), k);
        assert(f.drop_last().take(k + 1) =~= f.take(k + 1));
    } else {
        assert(f.take(k + 1) =~= f);
    }
}

/// The outcome of comparing two coloured trees.
enum Rank {
    Less,
    Equal,
    Greater,
}

/// Two lists that agree on their first `i` trees compare as what follows
/// them does.
proof fn lemma_coloured_forest_le_skip(f: Seq<ColouredShape>, g: Seq<ColouredShape>, i: int)
    requires
        0 <= i <= f.len(),
        i <= g.len(),
        f.take(i) == g.take(i),
    ensures
        coloured_forest_le(f, g) == coloured_forest_le(f.skip(i), g.skip(i)),
    decreases i,
{
    if i > 0 {
        assert(f[0] == f.take(i)[0]);
        assert(g[0] == g.take(i)[0]);
        assert(f.drop_first().take(i - 1) =~= f.take(i).drop_first());
        assert(g.drop_first().take(i - 1) =~= g.take(i).drop_first());
        lemma_coloured_forest_le_skip(f.drop_first(), g.drop_first(), i - 1);
        assert(f.drop_first().skip(i - 1) =~= f.skip(i));
        assert(g.drop_first().skip(i - 1) =~= g.skip(i));
    } else {
        assert(f.skip(0) =~= f);
        assert(g.skip(0) =~= g);
    }
}

impl Clone for ColouredTree {
    fn clone(&self) -> (t: ColouredTree)
        ensures
            t@ == self@,
    {
        self.duplicate()
    }
}

impl ColouredTree {
    /// An independent copy of the same tree.
    pub fn duplicate(&self) -> (t: ColouredTree)
        ensures
            t@ == self@,
        decreases self,
    {
        let mut children: Vec<ColouredTree> = Vec::new();
        let mut k: usize = 0;
        while k < self.children.len()
            invariant
                k <= self.children.len(),
                children@.len() == k,
                forall|j: int| 0 <= j < k ==> #[trigger] children@[j]@ == self.children@[j]@,
            decreases self.children.len() - k,
        {
            let copy = self.children[k].duplicate();
            children.push(copy);
            k = k + 1;
        }
        let t = ColouredTree { colour: self.colour, children };
        assert forall|j: int| 0 <= j < self@.children.len() implies t@.children[j] == self@.children[j] by {
            assert(children@[j]@ == self.children@[j]@);
        }
        assert(t@.children =~= self@.children);
        t
    }

    /// Number of nodes.
    pub fn order(&self) -> (n: usize)
        requires
            coloured_order(self@) <= usize::MAX,
        ensures
            n == coloured_order(self@),
        decreases self,
    {
        let ghost f = self@.children;
        let mut acc: usize = 1;
        let mut k: usize = 0;
        while k < self.children.len()
            invariant
                k <= self.children.len(),
                f == self@.children,
                coloured_order(self@) <= usize::MAX,
                acc == 1 + coloured_forest_order(f.take(k as int)),
            decreases self.children.len() - k,
        {
            proof {
                lemma_coloured_prefix_order(f, k as int);
                lemma_coloured_member_order(f, k as int);
            }
            let child = self.children[k].order();
            acc = acc + child;
            k = k + 1;
        }
        proof {
            assert(f.take(k as int) =~= f);
        }
        acc
    }

    /// The uncoloured tree underneath, which is what carries the density.
    pub fn shape(&self) -> (t: Tree)
        ensures
            t@ == uncoloured(self@),
            shape_order(t@) == coloured_order(self@),
        decreases self,
    {
        let mut children: Vec<Tree> = Vec::new();
        let mut k: usize = 0;
        while k < self.children.len()
            invariant
                k <= self.children.len(),
                children@.len() == k,
                forall|j: int| 0 <= j < k ==> #[trigger] children@[j]@ == uncoloured(self.children@[j]@),
            decreases self.children.len() - k,
        {
            let child = self.children[k].shape();
            children.push(child);
            k = k + 1;
        }
        let t = Tree { children };
        assert forall|j: int| 0 <= j < self@.children.len() implies t@.children[j] == uncoloured(self@).children[j] by {
            assert(children@[j]@ == uncoloured(self.children@[j]@));
        }
        assert(t@.children =~= uncoloured(self@).children);
        proof {
            law_shape_keeps_order(self@);
        }
        t
    }

    /// A name that reads as the tree: `[..]` for the explicit colour and
    /// `{..}` for the implicit one.
    pub fn label(&self) -> (text: String)
        ensures
            text@ == coloured_label(self@),
        decreases self,
    {
        let ghost f = self@.children;
        let mut inner = String::new();
        let mut k: usize = 0;
        while k < self.children.len()
            invariant
                k <= self.children.len(),
                f == self@.children,
                inner@ == forest_label(f.take(k as int)),
            decreases self.children.len() - k,
        {
            let part = self.children[k].label();
            inner.append(part.as_str());
            proof {
                assert(f.take(k + 1).drop_last() =~= f.take(k as int));
                assert(f[k as int] == self.children@[k as int]@);
            }
            k = k + 1;
        }
        proof {
            assert(f.take(k as int) =~= f);
            reveal_strlit("[");
            reveal_strlit("]");
            reveal_strlit("{");
            reveal_strlit("}");
        }
        let mut out = if self.colour == 0 {
            String::from_str("[")
        } else {
            String::from_str("{")
        };
        out.append(inner.as_str());
        if self.colour == 0 {
            out.append("]");
        } else {
            out.append("}");
        }
        out
    }
}

/// Compare two coloured trees the way a derived `Ord` does.
fn rank(a: &ColouredTree, b: &ColouredTree) -> (r: Rank)
    ensures
        r is Equal <==> a@ == b@,
        r is Less ==> coloured_le(a@, b@),
        r is Greater ==> coloured_le(b@, a@),
    decreases a,
{
    if a.colour < b.colour {
        return Rank::Less;
    }
    if a.colour > b.colour {
        return Rank::Greater;
    }
    let ghost f = a@.children;
    let ghost g = b@.children;
    let mut i: usize = 0;
    while i < a.children.len() && i < b.children.len()
        invariant
            i <= a.children.len(),
            i <= b.children.len(),
            f == a@.children,
            g == b@.children,
            a.colour == b.colour,
            f.take(i as int) == g.take(i as int),
        decreases a.children.len() - i,
    {
        let r = rank(&a.children[i], &b.children[i]);
        proof {
            assert(f[i as int] == a.children@[i as int]@);
            assert(g[i as int] == b.children@[i as int]@);
            lemma_coloured_forest_le_skip(f, g, i as int);
            lemma_coloured_forest_le_skip(g, f, i as int);
            assert(f.skip(i as int)[0] == f[i as int]);
            assert(g.skip(i as int)[0] == g[i as int]);
        }
        match r {
            Rank::Equal => {
                proof {
                    assert(f.take(i + 1) =~= f.take(i as int).push(f[i as int]));
                    assert(g.take(i + 1) =~= g.take(i as int).push(g[i as int]));
                }
                i = i + 1;
            },
            Rank::Less => {
                return Rank::Less;
            },
            Rank::Greater => {
                return Rank::Greater;
            },
        }
    }
    proof {
        lemma_coloured_forest_le_skip(f, g, i as int);
        lemma_coloured_forest_le_skip(g, f, i as int);
    }
    if i == a.children.len() && i == b.children.len() {
        proof {
            assert(f =~= f.take(i as int));
            assert(g =~= g.take(i as int));
        }
        Rank::Equal
    } else if i == a.children.len() {
        proof {
            assert(f.len() != g.len());
        }
        Rank::Less
    } else {
        proof {
            assert(f.len() != g.len());
        }
        Rank::Greater
    }
}

/// Whether `a` comes no later than `b` when coloured trees are ordered by
/// order first and then as a derived `Ord` compares them.
fn key_precedes(a_order: usize, a: &ColouredTree, b_order: usize, b: &ColouredTree) -> (r: bool)
    requires
        a_order == coloured_order(a@),
        b_order == coloured_order(b@),
    ensures
        r == coloured_key_le(a@, b@),
{
    if a_order < b_order {
        return true;
    }
    if a_order > b_order {
        return false;
    }
    match rank(a, b) {
        Rank::Less => true,
        Rank::Equal => {
            proof {
                lemma_coloured_reflexive(a@);
            }
            true
        },
        Rank::Greater => {
            proof {
                if coloured_le(a@, b@) {
                    lemma_coloured_antisymmetric(a@, b@);
                }
            }
            false
        },
    }
}

/// Sort coloured trees by order and then as a derived `Ord` does.
fn sort_coloured(pool: &Vec<ColouredTree>) -> (sorted: Vec<ColouredTree>)
    requires
        forall|i: int| 0 <= i < pool@.len() ==> coloured_order(#[trigger] pool@[i]@) <= usize::MAX,
    ensures
        coloured_shapes(sorted@) == coloured_shapes(pool@).sort_by(coloured_key_order()),
{
    let mut out: Vec<ColouredTree> = Vec::new();
    let mut orders: Vec<usize> = Vec::new();
    let mut k: usize = 0;
    proof {
        lemma_coloured_key_order_total();
        assert(coloured_shapes(pool@.take(0)) =~= coloured_shapes(out@));
    }
    while k < pool.len()
        invariant
            k <= pool.len(),
            forall|i: int| 0 <= i < pool@.len() ==> coloured_order(#[trigger] pool@[i]@) <= usize::MAX,
            total_ordering(coloured_key_order()),
            out@.len() == orders@.len(),
            forall|i: int| 0 <= i < out@.len() ==> #[trigger] orders@[i] == coloured_order(out@[i]@),
            sorted_by(coloured_shapes(out@), coloured_key_order()),
            coloured_shapes(out@).to_multiset() == coloured_shapes(pool@.take(k as int)).to_multiset(),
        decreases pool.len() - k,
    {
        let tree = pool[k].duplicate();
        let order = tree.order();
        let mut p: usize = 0;
        while p < out.len() && key_precedes(orders[p], &out[p], order, &tree)
            invariant
                p <= out@.len(),
                out@.len() == orders@.len(),
                forall|i: int| 0 <= i < out@.len() ==> #[trigger] orders@[i] == coloured_order(out@[i]@),
                order == coloured_order(tree@),
                forall|i: int| 0 <= i < p ==> coloured_key_le(#[trigger] out@[i]@, tree@),
            decreases out@.len() - p,
        {
            p = p + 1;
        }
        let ghost old_out = out@;
        proof {
            let s = coloured_shapes(old_out);
            let x = tree@;
            assert(p < old_out.len() ==> !coloured_key_le(old_out[p as int]@, x));
            assert forall|i: int, j: int| 0 <= i < j < s.insert(p as int, x).len() implies #[trigger] coloured_key_order()(
                s.insert(p as int, x)[i],
                s.insert(p as int, x)[j],
            ) by {
                if j < p {
                    assert(coloured_key_order()(s[i], s[j]));
                } else if i < p && j == p {
                    assert(coloured_key_le(old_out[i]@, x));
                } else if i < p {
                    assert(coloured_key_order()(s[i], s[j - 1]));
                } else if i == p {
                    assert(coloured_key_order()(x, s[p as int]) || coloured_key_order()(s[p as int], x));
                    if j > p + 1 {
                        assert(coloured_key_order()(s[p as int], s[j - 1]));
                    }
                } else {
                    assert(coloured_key_order()(s[i - 1], s[j - 1]));
                }
            }
            assert(coloured_shapes(old_out).insert(p as int, x).to_multiset() == coloured_shapes(old_out).to_multiset().insert(x)) by {
                vstd::seq_lib::to_multiset_insert(coloured_shapes(old_out), p as int, x);
            }
            assert(coloured_shapes(pool@.take(k + 1)) =~= coloured_shapes(pool@.take(k as int)).push(pool@[k as int]@));
            broadcast use vstd::seq_lib::group_to_multiset_ensures;
        }
        out.insert(p, tree);
        orders.insert(p, order);
        proof {
            assert(coloured_shapes(out@) =~= coloured_shapes(old_out).insert(p as int, pool@[k as int]@));
        }
        k = k + 1;
    }
    proof {
        assert(pool@.take(k as int) =~= pool@);
        coloured_shapes(pool@).lemma_sort_by_ensures(coloured_key_order());
        vstd::seq_lib::lemma_sorted_unique(
            coloured_shapes(out@),
            coloured_shapes(pool@).sort_by(coloured_key_order()),
            coloured_key_order(),
        );
    }
    out
}

/// The order of every tree of a list.
pub open spec fn coloured_orders_of(pool: Seq<ColouredTree>) -> Seq<nat> {
    pool.map_values(|t: ColouredTree| coloured_order(t@))
}

/// The order of every tree of a list of shapes.
pub open spec fn coloured_pool_orders(pool: Seq<ColouredShape>) -> Seq<nat> {
    pool.map_values(|t: ColouredShape| coloured_order(t))
}

/// The trees at the given positions of a list.
pub open spec fn coloured_pick(pool: Seq<ColouredShape>, positions: Seq<int>) -> Seq<ColouredShape> {
    positions.map_values(|i: int| pool[i])
}

/// Multisets of trees from `pool[start..]` whose orders sum to `remaining`.
fn multisets(pool: &Vec<ColouredTree>, start: usize, remaining: usize) -> (out: Vec<Vec<ColouredTree>>)
    requires
        start <= pool@.len(),
        forall|i: int| 0 <= i < pool@.len() ==> 1 <= coloured_order(#[trigger] pool@[i]@) <= usize::MAX,
        forall|i: int, j: int| 0 <= i <= j < pool@.len() ==> coloured_order(#[trigger] pool@[i]@) <= coloured_order(#[trigger] pool@[j]@),
    ensures
        out@.len() == selections(coloured_orders_of(pool@), start as int, remaining as nat).len(),
        forall|k: int| 0 <= k < out@.len() ==> coloured_shapes(#[trigger] out@[k]@) == coloured_pick(
            coloured_shapes(pool@),
            selections(coloured_orders_of(pool@), start as int, remaining as nat)[k],
        ),
    decreases remaining,
{
    let ghost ords = coloured_orders_of(pool@);
    let ghost rem = remaining as nat;
    let mut out: Vec<Vec<ColouredTree>> = Vec::new();
    if remaining == 0 {
        out.push(Vec::new());
        proof {
            assert(coloured_shapes(out@[0]@) =~= coloured_pick(coloured_shapes(pool@), Seq::empty()));
        }
        return out;
    }
    let mut index: usize = start;
    loop
        invariant
            start <= index <= pool@.len(),
            ords == coloured_orders_of(pool@),
            rem == remaining as nat,
            rem > 0,
            forall|i: int| 0 <= i < pool@.len() ==> 1 <= coloured_order(#[trigger] pool@[i]@) <= usize::MAX,
            forall|i: int, j: int| 0 <= i <= j < pool@.len() ==> coloured_order(#[trigger] pool@[i]@) <= coloured_order(#[trigger] pool@[j]@),
            out@.len() == blocks(ords, start as int, index as int, rem).len(),
            forall|k: int| 0 <= k < out@.len() ==> coloured_shapes(#[trigger] out@[k]@) == coloured_pick(
                coloured_shapes(pool@),
                blocks(ords, start as int, index as int, rem)[k],
            ),
        ensures
            out@.len() == selections(ords, start as int, rem).len(),
            forall|k: int| 0 <= k < out@.len() ==> coloured_shapes(#[trigger] out@[k]@) == coloured_pick(
                coloured_shapes(pool@),
                selections(ords, start as int, rem)[k],
            ),
        decreases pool@.len() - index,
    {
        if index >= pool.len() {
            proof {
                lemma_selections_split(ords, start as int, index as int, rem);
                assert(selections(ords, index as int, rem) =~= Seq::<Seq<int>>::empty());
                assert(selections(ords, start as int, rem) =~= blocks(ords, start as int, index as int, rem));
            }
            break;
        }
        let order = pool[index].order();
        if order > remaining {
            proof {
                assert forall|j: int| index <= j < ords.len() implies ords[j] > rem by {
                    assert(coloured_order(pool@[index as int]@) <= coloured_order(pool@[j]@));
                }
                lemma_selections_exhausted(ords, index as int, rem);
                lemma_selections_split(ords, start as int, index as int, rem);
                assert(selections(ords, start as int, rem) =~= blocks(ords, start as int, index as int, rem));
            }
            break;
        }
        let mut rests = multisets(pool, index, remaining - order);
        let ghost inner = selections(ords, index as int, (rem - order) as nat);
        let ghost before = blocks(ords, start as int, index as int, rem);
        proof {
            assert(ords[index as int] == order);
            assert(block(ords, index as int, rem) == inner.map_values(|s: Seq<int>| seq![index as int] + s));
        }
        let mut r: usize = 0;
        while r < rests.len()
            invariant
                r <= rests@.len(),
                rests@.len() == inner.len(),
                forall|k: int| r <= k < rests@.len() ==> coloured_shapes(#[trigger] rests@[k]@) == coloured_pick(coloured_shapes(pool@), inner[k]),
                index < pool@.len(),
                out@.len() == before.len() + r,
                forall|k: int| 0 <= k < before.len() ==> coloured_shapes(#[trigger] out@[k]@) == coloured_pick(coloured_shapes(pool@), before[k]),
                forall|k: int| before.len() <= k < out@.len() ==> coloured_shapes(#[trigger] out@[k]@) == coloured_pick(
                    coloured_shapes(pool@),
                    seq![index as int] + inner[k - before.len()],
                ),
            decreases rests@.len() - r,
        {
            let mut rest: Vec<ColouredTree> = Vec::new();
            std::mem::swap(&mut rest, &mut rests[r]);
            let mut combination: Vec<ColouredTree> = Vec::new();
            combination.push(pool[index].duplicate());
            let ghost rest_view = rest@;
            proof {
                assert(coloured_shapes(rest_view) == coloured_pick(coloured_shapes(pool@), inner[r as int]));
            }
            combination.append(&mut rest);
            proof {
                let chosen = seq![index as int] + inner[r as int];
                assert(combination@ =~= seq![combination@[0]] + rest_view);
                assert(coloured_pick(coloured_shapes(pool@), chosen) =~= seq![pool@[index as int]@] + coloured_pick(coloured_shapes(pool@), inner[r as int]));
                assert(coloured_shapes(combination@) =~= seq![pool@[index as int]@] + coloured_shapes(rest_view));
            }
            out.push(combination);
            r = r + 1;
        }
        proof {
            let after = blocks(ords, start as int, index + 1, rem);
            assert(after == before + block(ords, index as int, rem));
            assert forall|k: int| 0 <= k < out@.len() implies coloured_shapes(#[trigger] out@[k]@) == coloured_pick(coloured_shapes(pool@), after[k]) by {
                if k >= before.len() {
                    assert(after[k] == block(ords, index as int, rem)[k - before.len()]);
                }
            }
        }
        index = index + 1;
    }
    out
}

/// The order of the trees at some positions of a pool is the total of
/// their orders.
proof fn lemma_coloured_pick_order(pool: Seq<ColouredShape>, s: Seq<int>)
    requires
        forall|j: int| 0 <= j < s.len() ==> 0 <= #[trigger] s[j] < pool.len(),
    ensures
        coloured_forest_order(coloured_pick(pool, s)) == total_of(coloured_pool_orders(pool), s),
    decreases s.len(),
{
    if s.len() > 0 {
        lemma_coloured_pick_order(pool, s.drop_last());
        assert(coloured_pick(pool, s).drop_last() =~= coloured_pick(pool, s.drop_last()));
    }
}

/// The shapes of each level of a list of levels.
pub open spec fn coloured_level_shapes(levels: Seq<Vec<ColouredTree>>) -> Seq<Seq<ColouredShape>> {
    levels.map_values(|l: Vec<ColouredTree>| coloured_shapes(l@))
}

/// The trees of the levels below `n`, sorted by order and then as a derived
/// `Ord` does.
pub open spec fn coloured_pool(levels: Seq<Seq<ColouredShape>>, n: int) -> Seq<ColouredShape> {
    levels.take(n).flatten().sort_by(coloured_key_order())
}

/// Both colourings of a root over the given subtrees.
pub open spec fn both_colours(children: Seq<ColouredShape>) -> Seq<ColouredShape> {
    seq![
        ColouredShape { colour: 0, children: children },
        ColouredShape { colour: 1, children: children },
    ]
}

/// The coloured trees with `n` nodes: a root of either colour over each
/// multiset of smaller trees whose orders sum to `n - 1`, sorted as a derived
/// `Ord` does (all of them have order `n`, so ordering by order first changes
/// nothing).
pub open spec fn coloured_level_spec(levels: Seq<Seq<ColouredShape>>, n: int) -> Seq<ColouredShape> {
    let pool = coloured_pool(levels, n);
    let chosen = selections(coloured_pool_orders(pool), 0, (n - 1) as nat);
    chosen.map_values(|s: Seq<int>| both_colours(coloured_pick(pool, s))).flatten().sort_by(
        coloured_key_order(),
    )
}

/// The levels `0..=order` of coloured trees; level 0 is empty.
pub open spec fn coloured_levels_spec(order: nat) -> Seq<Seq<ColouredShape>>
    decreases order,
{
    if order == 0 {
        seq![Seq::empty()]
    } else {
        let below = coloured_levels_spec((order - 1) as nat);
        below.push(coloured_level_spec(below, order as int))
    }
}

proof fn lemma_coloured_orders_of(pool: Seq<ColouredTree>)
    ensures
        coloured_orders_of(pool) == coloured_pool_orders(coloured_shapes(pool)),
{
    assert(coloured_orders_of(pool) =~= coloured_pool_orders(coloured_shapes(pool)));
}

/// The coloured trees with `n` nodes, from the levels below them.
fn level_of_order(by_order: &Vec<Vec<ColouredTree>>, n: usize) -> (level: Vec<ColouredTree>)
    requires
        1 <= n <= by_order@.len(),
        forall|m: int, i: int| 0 <= m < n && 0 <= i < by_order@[m]@.len() ==> coloured_order(
            #[trigger] by_order@[m]@[i]@,
        ) == m,
    ensures
        coloured_shapes(level@) == coloured_level_spec(coloured_level_shapes(by_order@), n as int),
{
    let ghost levels = coloured_level_shapes(by_order@);
    let mut pool: Vec<ColouredTree> = Vec::new();
    let mut m: usize = 0;
    while m < n
        invariant
            m <= n <= by_order@.len(),
            levels == coloured_level_shapes(by_order@),
            forall|mm: int, i: int| 0 <= mm < n && 0 <= i < by_order@[mm]@.len() ==> coloured_order(
                #[trigger] by_order@[mm]@[i]@,
            ) == mm,
            coloured_shapes(pool@) == levels.take(m as int).flatten(),
            forall|i: int| 0 <= i < pool@.len() ==> 1 <= coloured_order(#[trigger] pool@[i]@) < n,
        decreases n - m,
    {
        let smaller = &by_order[m];
        let mut i: usize = 0;
        while i < smaller.len()
            invariant
                i <= smaller@.len(),
                m < n <= by_order@.len(),
                smaller == by_order@[m as int],
                levels == coloured_level_shapes(by_order@),
                forall|mm: int, ii: int| 0 <= mm < n && 0 <= ii < by_order@[mm]@.len() ==> coloured_order(
                    #[trigger] by_order@[mm]@[ii]@,
                ) == mm,
                coloured_shapes(pool@) == levels.take(m as int).flatten() + coloured_shapes(smaller@.take(i as int)),
                forall|ii: int| 0 <= ii < pool@.len() ==> 1 <= coloured_order(#[trigger] pool@[ii]@) < n,
            decreases smaller@.len() - i,
        {
            let copy = smaller[i].duplicate();
            proof {
                assert(coloured_order(smaller@[i as int]@) == m);
            }
            let ghost old_pool = pool@;
            pool.push(copy);
            proof {
                assert(coloured_shapes(pool@) =~= coloured_shapes(old_pool).push(smaller@[i as int]@));
                assert(coloured_shapes(smaller@.take(i + 1)) =~= coloured_shapes(smaller@.take(i as int)).push(smaller@[i as int]@));
                assert(coloured_shapes(pool@) =~= levels.take(m as int).flatten() + coloured_shapes(smaller@.take(i + 1)));
            }
            i = i + 1;
        }
        proof {
            assert(smaller@.take(i as int) =~= smaller@);
            assert(levels.take(m as int + 1) =~= levels.take(m as int).push(levels[m as int]));
            levels.take(m as int).lemma_flatten_push(levels[m as int]);
        }
        m = m + 1;
    }
    let sorted = sort_coloured(&pool);
    proof {
        lemma_coloured_key_order_total();
        coloured_shapes(pool@).lemma_sort_by_ensures(coloured_key_order());
        broadcast use vstd::seq_lib::group_to_multiset_ensures;
        assert forall|i: int| 0 <= i < sorted@.len() implies 1 <= coloured_order(#[trigger] sorted@[i]@) <= usize::MAX by {
            let x = coloured_shapes(sorted@)[i];
            assert(coloured_shapes(sorted@).contains(x));
            let j = choose|j: int| 0 <= j < coloured_shapes(pool@).len() && coloured_shapes(pool@)[j] == x;
            assert(coloured_shapes(pool@)[j] == pool@[j]@);
        }
        assert forall|i: int, j: int| 0 <= i <= j < sorted@.len() implies coloured_order(#[trigger] sorted@[i]@) <= coloured_order(#[trigger] sorted@[j]@) by {
            if i < j {
                assert(coloured_key_order()(coloured_shapes(sorted@)[i], coloured_shapes(sorted@)[j]));
            }
        }
        lemma_coloured_orders_of(sorted@);
    }
    let mut combinations = multisets(&sorted, 0, n - 1);
    let ghost chosen = selections(coloured_orders_of(sorted@), 0, (n - 1) as nat);
    let ghost pairs = chosen.map_values(|s: Seq<int>| both_colours(coloured_pick(coloured_shapes(sorted@), s)));
    let mut raw: Vec<ColouredTree> = Vec::new();
    let mut k: usize = 0;
    proof {
        assert(coloured_shapes(raw@) =~= pairs.take(0).flatten());
        lemma_selections_sound(coloured_orders_of(sorted@), 0, (n - 1) as nat);
    }
    while k < combinations.len()
        invariant
            k <= combinations@.len(),
            combinations@.len() == chosen.len(),
            pairs == chosen.map_values(|s: Seq<int>| both_colours(coloured_pick(coloured_shapes(sorted@), s))),
            forall|kk: int| k <= kk < combinations@.len() ==> coloured_shapes(#[trigger] combinations@[kk]@) == coloured_pick(coloured_shapes(sorted@), chosen[kk]),
            coloured_shapes(raw@) == pairs.take(k as int).flatten(),
            forall|i: int| 0 <= i < raw@.len() ==> coloured_order(#[trigger] raw@[i]@) == n,
            forall|kk: int| 0 <= kk < chosen.len() ==> {
                let s = #[trigger] chosen[kk];
                &&& ascending_within(s, 0, sorted@.len() as int)
                &&& total_of(coloured_orders_of(sorted@), s) == n - 1
            },
        decreases combinations@.len() - k,
    {
        let mut children: Vec<ColouredTree> = Vec::new();
        std::mem::swap(&mut children, &mut combinations[k]);
        let mut copies: Vec<ColouredTree> = Vec::new();
        let mut j: usize = 0;
        while j < children.len()
            invariant
                j <= children@.len(),
                copies@.len() == j,
                forall|jj: int| 0 <= jj < j ==> #[trigger] copies@[jj]@ == children@[jj]@,
            decreases children@.len() - j,
        {
            copies.push(children[j].duplicate());
            j = j + 1;
        }
        let ghost old_raw = raw@;
        let explicit = ColouredTree { colour: 0, children: copies };
        let implicit = ColouredTree { colour: 1, children };
        proof {
            assert(coloured_shapes(copies@) =~= coloured_shapes(implicit.children@));
            assert(explicit@.children =~= coloured_shapes(explicit.children@));
            assert(implicit@.children =~= coloured_shapes(implicit.children@));
            lemma_coloured_orders_of(sorted@);
            lemma_coloured_pick_order(coloured_shapes(sorted@), chosen[k as int]);
            assert(coloured_order(explicit@) == n);
            assert(coloured_order(implicit@) == n);
        }
        raw.push(explicit);
        raw.push(implicit);
        proof {
            assert(coloured_shapes(raw@) =~= coloured_shapes(old_raw) + pairs[k as int]);
            assert(pairs.take(k as int + 1) =~= pairs.take(k as int).push(pairs[k as int]));
            pairs.take(k as int).lemma_flatten_push(pairs[k as int]);
        }
        k = k + 1;
    }
    proof {
        assert(pairs.take(k as int) =~= pairs);
    }
    let level = sort_coloured(&raw);
    proof {
        assert(coloured_pool(levels, n as int) == coloured_shapes(sorted@));
    }
    level
}

proof fn lemma_flatten_orders(pairs: Seq<Seq<ColouredShape>>, n: nat)
    requires
        forall|k: int, j: int| 0 <= k < pairs.len() && 0 <= j < pairs[k].len() ==> coloured_order(
            #[trigger] pairs[k][j],
        ) == n,
    ensures
        forall|i: int| 0 <= i < pairs.flatten().len() ==> coloured_order(#[trigger] pairs.flatten()[i]) == n,
    decreases pairs.len(),
{
    if pairs.len() > 0 {
        let rest = pairs.drop_first();
        assert forall|k: int, j: int| 0 <= k < rest.len() && 0 <= j < rest[k].len() implies coloured_order(
            #[trigger] rest[k][j],
        ) == n by {
            assert(rest[k] == pairs[k + 1]);
        }
        lemma_flatten_orders(rest, n);
        assert forall|i: int| 0 <= i < pairs.flatten().len() implies coloured_order(#[trigger] pairs.flatten()[i]) == n by {
            assert(pairs.flatten() == pairs[0] + rest.flatten());
            if i < pairs[0].len() {
                assert(pairs.flatten()[i] == pairs[0][i]);
            } else {
                assert(pairs.flatten()[i] == rest.flatten()[i - pairs[0].len()]);
            }
        }
    }
}

/// Every coloured tree a level is built with has exactly `n` nodes, and the
/// level is sorted.
proof fn lemma_coloured_level_sound(levels: Seq<Seq<ColouredShape>>, n: int)
    requires
        n >= 1,
    ensures
        forall|i: int| 0 <= i < coloured_level_spec(levels, n).len() ==> coloured_order(
            #[trigger] coloured_level_spec(levels, n)[i],
        ) == n,
        sorted_by(coloured_level_spec(levels, n), coloured_key_order()),
{
    let pool = coloured_pool(levels, n);
    let ords = coloured_pool_orders(pool);
    let chosen = selections(ords, 0, (n - 1) as nat);
    let pairs = chosen.map_values(|s: Seq<int>| both_colours(coloured_pick(pool, s)));
    lemma_selections_sound(ords, 0, (n - 1) as nat);
    lemma_coloured_key_order_total();
    assert forall|k: int, j: int| 0 <= k < pairs.len() && 0 <= j < pairs[k].len() implies coloured_order(
        #[trigger] pairs[k][j],
    ) == n by {
        lemma_coloured_pick_order(pool, chosen[k]);
    }
    lemma_flatten_orders(pairs, n as nat);
    let raw = pairs.flatten();
    raw.lemma_sort_by_ensures(coloured_key_order());
    broadcast use vstd::seq_lib::group_to_multiset_ensures;
    assert forall|i: int| 0 <= i < coloured_level_spec(levels, n).len() implies coloured_order(
        #[trigger] coloured_level_spec(levels, n)[i],
    ) == n by {
        let x = raw.sort_by(coloured_key_order())[i];
        assert(raw.sort_by(coloured_key_order()).contains(x));
        assert(raw.contains(x));
    }
}

/// Level `m` of the coloured levels up to `order` is the one built for `m`.
pub proof fn lemma_coloured_levels_prefix(order: nat, m: nat)
    requires
        m <= order,
    ensures
        coloured_levels_spec(order).len() == order + 1,
        coloured_levels_spec(order)[m as int] == coloured_levels_spec(m)[m as int],
    decreases order,
{
    if order > 0 {
        if m < order {
            lemma_coloured_levels_prefix((order - 1) as nat, m);
        } else {
            lemma_coloured_levels_prefix((order - 1) as nat, (order - 1) as nat);
        }
    }
}

/// Every coloured tree at level `m` of the enumeration has `m` nodes.
pub proof fn lemma_coloured_levels_sound(order: nat)
    ensures
        coloured_levels_spec(order).len() == order + 1,
        coloured_levels_spec(order)[0].len() == 0,
        forall|m: int, i: int| 0 <= m <= order && 0 <= i < coloured_levels_spec(order)[m].len() ==> coloured_order(
            #[trigger] coloured_levels_spec(order)[m][i],
        ) == m,
    decreases order,
{
    lemma_coloured_levels_prefix(order, 0);
    if order > 0 {
        let below = coloured_levels_spec((order - 1) as nat);
        lemma_coloured_levels_sound((order - 1) as nat);
        lemma_coloured_level_sound(below, order as int);
        assert forall|m: int, i: int| 0 <= m <= order && 0 <= i < coloured_levels_spec(order)[m].len() implies coloured_order(
            #[trigger] coloured_levels_spec(order)[m][i],
        ) == m by {
            if m < order {
                assert(coloured_levels_spec(order)[m] == below[m]);
            }
        }
    }
}

/// Every coloured tree of every order up to `order`, indexed by order.
pub fn coloured_trees_by_order(order: usize) -> (by_order: Vec<Vec<ColouredTree>>)
    ensures
        coloured_level_shapes(by_order@) == coloured_levels_spec(order as nat),
{
    let mut by_order: Vec<Vec<ColouredTree>> = Vec::new();
    by_order.push(Vec::new());
    proof {
        assert(coloured_shapes(by_order@[0]@) =~= Seq::<ColouredShape>::empty());
        assert(coloured_level_shapes(by_order@) =~= coloured_levels_spec(0));
    }
    let mut n: usize = 0;
    while n < order
        invariant
            n <= order,
            coloured_level_shapes(by_order@) == coloured_levels_spec(n as nat),
        decreases order - n,
    {
        n = n + 1;
        proof {
            lemma_coloured_levels_sound((n - 1) as nat);
            assert forall|m: int, i: int| 0 <= m < n && 0 <= i < by_order@[m]@.len() implies coloured_order(
                #[trigger] by_order@[m]@[i]@,
            ) == m by {
                assert(coloured_level_shapes(by_order@)[m] == coloured_shapes(by_order@[m]@));
                assert(coloured_shapes(by_order@[m]@)[i] == by_order@[m]@[i]@);
            }
        }
        let level = level_of_order(&by_order, n);
        let ghost before = by_order@;
        by_order.push(level);
        proof {
            assert(coloured_level_shapes(by_order@) =~= coloured_level_shapes(before).push(coloured_shapes(by_order@[n as int]@)));
        }
    }
    by_order
}

/// Every coloured tree with `n` nodes has exactly `n` nodes, whatever order
/// `n` the enumeration reaches.
pub proof fn law_coloured_trees_have_their_order(order: nat, n: int)
    requires
        0 <= n <= order,
    ensures
        forall|i: int| 0 <= i < coloured_levels_spec(order)[n].len() ==> coloured_order(
            #[trigger] coloured_levels_spec(order)[n][i],
        ) == n,
{
    lemma_coloured_levels_sound(order);
}

/// Each level of coloured trees comes sorted as a derived `Ord` sorts it.
pub proof fn law_coloured_levels_sorted(order: nat, n: int)
    requires
        1 <= n <= order,
    ensures
        sorted_by(coloured_levels_spec(order)[n], coloured_key_order()),
{
    lemma_coloured_levels_prefix(order, n as nat);
    lemma_coloured_levels_prefix((n - 1) as nat, 0);
    let below = coloured_levels_spec((n - 1) as nat);
    assert(coloured_levels_spec(n as nat) == below.push(coloured_level_spec(below, n)));
    assert(coloured_levels_spec(n as nat)[n] == coloured_level_spec(below, n));
    lemma_coloured_level_sound(below, n);
}

/// The levels below `k`, one after the other, hold no coloured tree twice,
/// and every tree among them has fewer than `k` nodes.
proof fn lemma_coloured_prefix_distinct(levels: Seq<Seq<ColouredShape>>, k: int)
    requires
        0 <= k <= levels.len(),
        forall|m: int| 0 <= m < levels.len() ==> (#[trigger] levels[m]).no_duplicates(),
        forall|m: int, i: int| 0 <= m < levels.len() && 0 <= i < levels[m].len() ==> coloured_order(
            #[trigger] levels[m][i],
        ) == m,
    ensures
        levels.take(k).flatten().no_duplicates(),
        forall|i: int| 0 <= i < levels.take(k).flatten().len() ==> coloured_order(
            #[trigger] levels.take(k).flatten()[i],
        ) < k,
    decreases k,
{
    if k == 0 {
        assert(levels.take(0) =~= Seq::<Seq<ColouredShape>>::empty());
        assert(levels.take(0).flatten() =~= Seq::<ColouredShape>::empty());
    } else {
        lemma_coloured_prefix_distinct(levels, k - 1);
        let below = levels.take(k - 1);
        assert(levels.take(k) =~= below.push(levels[k - 1]));
        below.lemma_flatten_push(levels[k - 1]);
        let a = below.flatten();
        let b = levels[k - 1];
        assert(levels.take(k).flatten() == a + b);
        assert forall|i: int, j: int| 0 <= i < a.len() && 0 <= j < b.len() implies a[i] != b[j] by {
            assert(coloured_order(a[i]) < k - 1);
            assert(coloured_order(b[j]) == k - 1);
        }
        vstd::seq_lib::lemma_no_dup_in_concat(a, b);
        assert forall|i: int| 0 <= i < (a + b).len() implies coloured_order(#[trigger] (a + b)[i]) < k by {
            if i < a.len() {
                assert((a + b)[i] == a[i]);
            } else {
                assert((a + b)[i] == b[i - a.len()]);
            }
        }
    }
}

/// Sorting keeps a list of coloured trees free of repeats.
proof fn lemma_coloured_sorted_distinct(x: Seq<ColouredShape>)
    requires
        x.no_duplicates(),
    ensures
        x.sort_by(coloured_key_order()).no_duplicates(),
{
    lemma_coloured_key_order_total();
    x.lemma_sort_by_ensures(coloured_key_order());
    x.lemma_multiset_has_no_duplicates();
    let y = x.sort_by(coloured_key_order());
    assert(x.to_multiset() =~= y.to_multiset());
    y.lemma_multiset_has_no_duplicates_conv();
}

/// Both colourings of each of a list of roots.
pub open spec fn colourings(subtrees: Seq<Seq<ColouredShape>>) -> Seq<Seq<ColouredShape>> {
    subtrees.map_values(|f: Seq<ColouredShape>| both_colours(f))
}

/// The two colourings of each of a list of roots, one after the other: the
/// root of colour `c` over the `k`-th list of subtrees sits at `2k + c`.
proof fn lemma_pairs_flatten(subtrees: Seq<Seq<ColouredShape>>)
    ensures
        colourings(subtrees).flatten().len() == 2 * subtrees.len(),
        forall|k: int, c: int| 0 <= k < subtrees.len() && 0 <= c < 2 ==> #[trigger] colourings(subtrees).flatten()[2 * k + c]
            == (ColouredShape { colour: c as u8, children: subtrees[k] }),
    decreases subtrees.len(),
{
    let pairs = colourings(subtrees);
    if subtrees.len() > 0 {
        let rest = subtrees.drop_first();
        lemma_pairs_flatten(rest);
        assert(pairs.drop_first() =~= colourings(rest));
        assert(pairs.flatten() == pairs[0] + pairs.drop_first().flatten());
        assert forall|k: int, c: int| 0 <= k < subtrees.len() && 0 <= c < 2 implies #[trigger] pairs.flatten()[2 * k + c]
            == (ColouredShape { colour: c as u8, children: subtrees[k] }) by {
            if k == 0 {
                assert(pairs.flatten()[c] == pairs[0][c]);
            } else {
                assert(pairs.flatten()[2 * k + c] == pairs.drop_first().flatten()[2 * (k - 1) + c]);
                assert(rest[k - 1] == subtrees[k]);
            }
        }
    } else {
        assert(pairs.flatten() =~= Seq::<ColouredShape>::empty());
    }
}

/// A level built from levels that hold each of their coloured trees once,
/// and only trees of their own order, holds each of its trees once.
proof fn lemma_coloured_level_distinct(levels: Seq<Seq<ColouredShape>>, n: int)
    requires
        1 <= n <= levels.len(),
        forall|m: int| 0 <= m < levels.len() ==> (#[trigger] levels[m]).no_duplicates(),
        forall|m: int, i: int| 0 <= m < levels.len() && 0 <= i < levels[m].len() ==> coloured_order(
            #[trigger] levels[m][i],
        ) == m,
    ensures
        coloured_level_spec(levels, n).no_duplicates(),
{
    lemma_coloured_prefix_distinct(levels, n);
    lemma_coloured_sorted_distinct(levels.take(n).flatten());
    let pool = coloured_pool(levels, n);
    let ords = coloured_pool_orders(pool);
    let chosen = selections(ords, 0, (n - 1) as nat);
    lemma_selections_distinct(ords, 0, (n - 1) as nat);
    lemma_selections_sound(ords, 0, (n - 1) as nat);
    let subtrees = chosen.map_values(|s: Seq<int>| coloured_pick(pool, s));
    let pairs = chosen.map_values(|s: Seq<int>| both_colours(coloured_pick(pool, s)));
    assert(pairs =~= colourings(subtrees));
    lemma_pairs_flatten(subtrees);
    let raw = pairs.flatten();
    assert forall|i: int, j: int| 0 <= i < raw.len() && 0 <= j < raw.len() && i != j implies raw[i] != raw[j] by {
        let (ki, ci) = (i / 2, i % 2);
        let (kj, cj) = (j / 2, j % 2);
        assert(i == 2 * ki + ci && j == 2 * kj + cj);
        assert(raw[i] == (ColouredShape { colour: ci as u8, children: subtrees[ki] }));
        assert(raw[j] == (ColouredShape { colour: cj as u8, children: subtrees[kj] }));
        if raw[i] == raw[j] {
            assert(ci == cj);
            assert(ki != kj);
            let si = chosen[ki];
            let sj = chosen[kj];
            assert(ascending_within(si, 0, ords.len() as int));
            assert(ascending_within(sj, 0, ords.len() as int));
            assert(subtrees[ki] == coloured_pick(pool, si));
            assert(subtrees[kj] == coloured_pick(pool, sj));
            assert(si.len() == coloured_pick(pool, si).len());
            assert forall|q: int| 0 <= q < si.len() implies si[q] == sj[q] by {
                assert(coloured_pick(pool, si)[q] == pool[si[q]]);
                assert(coloured_pick(pool, sj)[q] == pool[sj[q]]);
            }
            assert(si =~= sj);
        }
    }
    lemma_coloured_sorted_distinct(raw);
}

/// No coloured tree appears twice in a level of the enumeration.
pub proof fn law_each_coloured_tree_once(order: nat, n: int)
    requires
        0 <= n <= order,
    ensures
        coloured_levels_spec(order)[n].no_duplicates(),
    decreases order,
{
    lemma_coloured_levels_prefix(order, n as nat);
    if n == order && order > 0 {
        let below = coloured_levels_spec((order - 1) as nat);
        lemma_coloured_levels_sound((order - 1) as nat);
        assert forall|m: int| 0 <= m < below.len() implies (#[trigger] below[m]).no_duplicates() by {
            law_each_coloured_tree_once((order - 1) as nat, m);
        }
        assert(coloured_levels_spec(order)[n] == coloured_level_spec(below, n));
        lemma_coloured_level_distinct(below, order as int);
    } else if n < order {
        law_each_coloured_tree_once((order - 1) as nat, n);
        lemma_coloured_levels_prefix((order - 1) as nat, n as nat);
    } else {
        lemma_coloured_levels_sound(order);
    }
}

/// A coloured tree of the two colours whose subtrees come in canonical order
/// at every node.
pub open spec fn canonical_coloured(t: ColouredShape) -> bool
    decreases t,
{
    &&& t.colour <= 1
    &&& sorted_by(t.children, coloured_key_order())
    &&& forall|i: int| 0 <= i < t.children.len() ==> canonical_coloured(#[trigger] t.children[i])
}

proof fn lemma_coloured_order_positive(t: ColouredShape)
    ensures
        coloured_order(t) >= 1,
{
}

proof fn lemma_coloured_empty_forest(f: Seq<ColouredShape>)
    requires
        coloured_forest_order(f) == 0,
    ensures
        f.len() == 0,
{
    if f.len() > 0 {
        lemma_coloured_order_positive(f.last());
    }
}

/// A coloured tree of one level is among the levels, one after the other.
proof fn lemma_coloured_in_flatten(levels: Seq<Seq<ColouredShape>>, m: int, x: ColouredShape)
    requires
        0 <= m < levels.len(),
        levels[m].contains(x),
    ensures
        levels.flatten().contains(x),
    decreases levels.len(),
{
    let last = levels.len() - 1;
    assert(levels =~= levels.drop_last().push(levels[last]));
    levels.drop_last().lemma_flatten_push(levels[last]);
    let a = levels.drop_last().flatten();
    let b = levels[last];
    assert(levels.flatten() == a + b);
    if m == last {
        let i = choose|i: int| 0 <= i < b.len() && b[i] == x;
        assert((a + b)[a.len() + i] == x);
    } else {
        lemma_coloured_in_flatten(levels.drop_last(), m, x);
        let i = choose|i: int| 0 <= i < a.len() && a[i] == x;
        assert((a + b)[i] == x);
    }
}

/// Every coloured tree of the two colours whose subtrees come in canonical
/// order at every node is in the level of its order.
proof fn lemma_coloured_level_complete(t: ColouredShape, order: nat)
    requires
        canonical_coloured(t),
        coloured_order(t) <= order,
    ensures
        coloured_levels_spec(order)[coloured_order(t) as int].contains(t),
    decreases coloured_order(t),
{
    broadcast use vstd::seq_lib::group_to_multiset_ensures;

    let n = coloured_order(t) as int;
    lemma_coloured_order_positive(t);
    lemma_coloured_levels_prefix(order, n as nat);
    let below = coloured_levels_spec((n - 1) as nat);
    lemma_coloured_levels_sound((n - 1) as nat);
    assert(coloured_levels_spec(n as nat)[n] == coloured_level_spec(below, n));
    assert forall|m: int| 0 <= m < below.len() implies (#[trigger] below[m]).no_duplicates() by {
        law_each_coloured_tree_once((n - 1) as nat, m);
    }
    lemma_coloured_prefix_distinct(below, n);
    assert(below.take(n) =~= below);
    let flat = below.flatten();
    lemma_coloured_sorted_distinct(flat);
    lemma_coloured_key_order_total();
    flat.lemma_sort_by_ensures(coloured_key_order());
    let pool = coloured_pool(below, n);
    let f = t.children;
    assert forall|i: int| 0 <= i < f.len() implies pool.contains(#[trigger] f[i]) by {
        lemma_coloured_member_order(f, i);
        lemma_coloured_order_positive(f[i]);
        let m = coloured_order(f[i]);
        lemma_coloured_level_complete(f[i], (n - 1) as nat);
        lemma_coloured_in_flatten(below, m as int, f[i]);
        assert(flat.to_multiset().count(f[i]) > 0);
    }
    let s = Seq::new(f.len(), |i: int| pool.index_of(f[i]));
    assert forall|i: int| 0 <= i < f.len() implies 0 <= #[trigger] s[i] < pool.len() && pool[s[i]] == f[i] by {
        assert(pool.contains(f[i]));
    }
    assert(coloured_pick(pool, s) =~= f);
    let ords = coloured_pool_orders(pool);
    assert(ascending_within(s, 0, ords.len() as int)) by {
        assert forall|i: int, j: int| 0 <= i <= j < s.len() implies #[trigger] s[i] <= #[trigger] s[j] by {
            if i < j && s[i] > s[j] {
                assert(coloured_key_order()(f[i], f[j]));
                assert(coloured_key_order()(pool[s[j]], pool[s[i]]));
                assert(pool[s[i]] == pool[s[j]]);
            }
        }
    }
    lemma_coloured_pick_order(pool, s);
    if n == 1 {
        lemma_coloured_empty_forest(f);
    }
    assert(total_of(ords, s) == (n - 1) as nat);
    assert forall|j: int| 0 <= j < ords.len() implies #[trigger] ords[j] > 0 by {
        lemma_coloured_order_positive(pool[j]);
    }
    lemma_selections_complete(ords, 0, (n - 1) as nat, s);
    let chosen = selections(ords, 0, (n - 1) as nat);
    let k = choose|k: int| 0 <= k < chosen.len() && chosen[k] == s;
    let subtrees = chosen.map_values(|x: Seq<int>| coloured_pick(pool, x));
    let pairs = chosen.map_values(|x: Seq<int>| both_colours(coloured_pick(pool, x)));
    assert(pairs =~= colourings(subtrees));
    lemma_pairs_flatten(subtrees);
    let raw = pairs.flatten();
    let c = t.colour as int;
    assert(subtrees[k] == f);
    assert(raw[2 * k + c] == (ColouredShape { colour: c as u8, children: subtrees[k] }));
    assert(raw[2 * k + c] == t);
    assert(raw.contains(t));
    raw.lemma_sort_by_ensures(coloured_key_order());
    assert(raw.to_multiset().count(t) > 0);
    assert(coloured_level_spec(below, n) == raw.sort_by(coloured_key_order()));
}

/// The coloured enumeration is complete: every tree of the two colours whose
/// subtrees come in canonical order at every node, with at most `order`
/// nodes, is in the level of its order.
pub proof fn law_every_coloured_tree_is_enumerated(t: ColouredShape, order: nat)
    requires
        canonical_coloured(t),
        coloured_order(t) <= order,
    ensures
        coloured_levels_spec(order)[coloured_order(t) as int].contains(t),
{
    lemma_coloured_level_complete(t, order);
}

/// A coloured tree among the levels, one after the other, is in one of them.
proof fn lemma_coloured_from_flatten(levels: Seq<Seq<ColouredShape>>, x: ColouredShape)
    requires
        levels.flatten().contains(x),
    ensures
        exists|m: int| 0 <= m < levels.len() && (#[trigger] levels[m]).contains(x),
    decreases levels.len(),
{
    if levels.len() == 0 {
        assert(levels.flatten() =~= Seq::<ColouredShape>::empty());
    } else {
        let last = levels.len() - 1;
        assert(levels =~= levels.drop_last().push(levels[last]));
        levels.drop_last().lemma_flatten_push(levels[last]);
        let a = levels.drop_last().flatten();
        let b = levels[last];
        assert(levels.flatten() == a + b);
        let i = choose|i: int| 0 <= i < (a + b).len() && (a + b)[i] == x;
        if i < a.len() {
            assert(a[i] == x);
            lemma_coloured_from_flatten(levels.drop_last(), x);
            let m = choose|m: int| 0 <= m < levels.drop_last().len() && (#[trigger] levels.drop_last()[m]).contains(x);
            assert(levels[m] == levels.drop_last()[m]);
        } else {
            assert(b[i - a.len()] == x);
            assert(levels[last].contains(x));
        }
    }
}

/// Every coloured tree the enumeration yields has its subtrees in canonical
/// order at every node, and only the two colours.
pub proof fn law_enumerated_coloured_trees_are_canonical(order: nat, n: int, i: int)
    requires
        0 <= n <= order,
        0 <= i < coloured_levels_spec(order)[n].len(),
    ensures
        canonical_coloured(coloured_levels_spec(order)[n][i]),
    decreases order,
{
    broadcast use vstd::seq_lib::group_to_multiset_ensures;

    lemma_coloured_levels_prefix(order, n as nat);
    if n < order {
        law_enumerated_coloured_trees_are_canonical((order - 1) as nat, n, i);
        lemma_coloured_levels_prefix((order - 1) as nat, n as nat);
    } else if n > 0 {
        let below = coloured_levels_spec((order - 1) as nat);
        lemma_coloured_levels_sound((order - 1) as nat);
        assert(coloured_levels_spec(order)[n] == coloured_level_spec(below, n));
        let t = coloured_level_spec(below, n)[i];
        let pool = coloured_pool(below, n);
        let flat = below.take(n).flatten();
        let ords = coloured_pool_orders(pool);
        let chosen = selections(ords, 0, (n - 1) as nat);
        lemma_selections_sound(ords, 0, (n - 1) as nat);
        let subtrees = chosen.map_values(|x: Seq<int>| coloured_pick(pool, x));
        let pairs = chosen.map_values(|x: Seq<int>| both_colours(coloured_pick(pool, x)));
        assert(pairs =~= colourings(subtrees));
        lemma_pairs_flatten(subtrees);
        let raw = pairs.flatten();
        lemma_coloured_key_order_total();
        raw.lemma_sort_by_ensures(coloured_key_order());
        flat.lemma_sort_by_ensures(coloured_key_order());
        assert(raw.sort_by(coloured_key_order()).contains(t));
        assert(raw.to_multiset().count(t) > 0);
        assert(raw.contains(t));
        let idx = choose|idx: int| 0 <= idx < raw.len() && raw[idx] == t;
        let k = idx / 2;
        let c = idx % 2;
        assert(idx == 2 * k + c);
        assert(raw[2 * k + c] == (ColouredShape { colour: c as u8, children: subtrees[k] }));
        let sel = chosen[k];
        assert(t.children == coloured_pick(pool, sel));
        assert(t.colour <= 1);
        assert forall|a: int, b: int| 0 <= a < b < t.children.len() implies #[trigger] coloured_key_order()(
            t.children[a],
            t.children[b],
        ) by {
            assert(sel[a] <= sel[b]);
            if sel[a] < sel[b] {
                assert(coloured_key_order()(pool[sel[a]], pool[sel[b]]));
            } else {
                lemma_coloured_reflexive(t.children[a]);
            }
        }
        assert(sorted_by(t.children, coloured_key_order()));
        assert forall|j: int| 0 <= j < t.children.len() implies canonical_coloured(#[trigger] t.children[j]) by {
            let x = t.children[j];
            assert(x == pool[sel[j]]);
            assert(pool.contains(x));
            assert(pool.to_multiset().count(x) > 0);
            assert(flat.contains(x));
            lemma_coloured_from_flatten(below.take(n), x);
            let m = choose|m: int| 0 <= m < below.take(n).len() && (#[trigger] below.take(n)[m]).contains(x);
            let q = choose|q: int| 0 <= q < below[m].len() && below[m][q] == x;
            assert(below.take(n)[m] == below[m]);
            law_enumerated_coloured_trees_are_canonical((order - 1) as nat, m, q);
        }
    }
}

} // verus!
