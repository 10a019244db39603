//! New nodes from old: every way to replace each child of a node by one of
//! the ids on offer for it.

use crate::model::NodeView;
use crate::node::views;
use crate::node::Node;
use itertools::Itertools;
use vstd::prelude::*;

verus! {

/// Each tuple of `tails` behind each item of `heads`: the items of `heads`
/// in order, and under one item the tuples in order.
pub open spec fn prefixed(heads: Seq<usize>, tails: Seq<Seq<usize>>) -> Seq<Seq<usize>>
    decreases heads.len(),
{
    if heads.len() == 0 {
        Seq::empty()
    } else {
        prefixed(heads.drop_last(), tails) + tails.map_values(
            |t: Seq<usize>| seq![heads.last()] + t,
        )
    }
}

/// The cartesian product of `lists`: every tuple that takes its `j`-th item
/// from `lists[j]`, in lexicographic order of the positions taken, so that
/// the last position changes fastest.
pub open spec fn product(lists: Seq<Seq<usize>>) -> Seq<Seq<usize>>
    decreases lists.len(),
{
    if lists.len() == 0 {
        seq![Seq::empty()]
    } else {
        prefixed(lists.first(), product(lists.drop_first()))
    }
}

/// The lists as values.
pub open spec fn rows(lists: Seq<Vec<usize>>) -> Seq<Seq<usize>> {
    lists.map_values(|l: Vec<usize>| l@)
}

/// For each child of `n`, the ids that `choices` offers for it: none for a
/// child that `choices` has no entry for.
pub open spec fn offers(n: NodeView, choices: Seq<Seq<usize>>) -> Seq<Seq<usize>> {
    Seq::new(
        n.children.len(),
        |j: int|
            if n.children[j] < choices.len() {
                choices[n.children[j] as int]
            } else {
                Seq::empty()
            },
    )
}

/// The nodes that `flatmap_children` gives: a leaf alone; else, for each
/// tuple of the product of the offers, the node's operator over that tuple.
pub open spec fn substitutions(n: NodeView, choices: Seq<Seq<usize>>) -> Seq<NodeView> {
    if n.children.len() == 0 {
        seq![n]
    } else {
        product(offers(n, choices)).map_values(
            |t: Seq<usize>| NodeView { op: n.op, children: t },
        )
    }
}

/// `prefixed` holds exactly the tuples made of an item and a tail.
pub proof fn lemma_prefixed_contains(heads: Seq<usize>, tails: Seq<Seq<usize>>, t: Seq<usize>)
    ensures
        prefixed(heads, tails).contains(t) <==> t.len() > 0 && heads.contains(t[0])
            && tails.contains(t.drop_first()),
    decreases heads.len(),
{
    if heads.len() == 0 {
        assert(!prefixed(heads, tails).contains(t));
    } else {
        let front = prefixed(heads.drop_last(), tails);
        let f = |u: Seq<usize>| seq![heads.last()] + u;
        let back = tails.map_values(f);
        lemma_prefixed_contains(heads.drop_last(), tails, t);
        if prefixed(heads, tails).contains(t) {
            let i = choose|i: int| 0 <= i < (front + back).len() && (front + back)[i] == t;
            if i < front.len() {
                assert(front[i] == t);
                assert(front.contains(t));
                let h = choose|h: int|
                    0 <= h < heads.drop_last().len() && heads.drop_last()[h] == t[0];
                assert(heads[h] == t[0]);
            } else {
                let u = tails[i - front.len()];
                assert(back[i - front.len()] == f(u));
                assert(t == seq![heads.last()] + u);
                assert(t.drop_first() =~= u);
                assert(heads[heads.len() - 1] == t[0]);
            }
        }
        if t.len() > 0 && heads.contains(t[0]) && tails.contains(t.drop_first()) {
            let h = choose|h: int| 0 <= h < heads.len() && heads[h] == t[0];
            if h < heads.len() - 1 {
                assert(heads.drop_last()[h] == t[0]);
                assert(front.contains(t));
                let i = choose|i: int| 0 <= i < front.len() && front[i] == t;
                assert((front + back)[i] == t);
            } else {
                let u = choose|u: int| 0 <= u < tails.len() && tails[u] == t.drop_first();
                assert(back[u] == f(tails[u]));
                assert(seq![heads.last()] + t.drop_first() =~= t);
                assert((front + back)[front.len() + u] == t);
            }
        }
    }
}

/// The product holds exactly the tuples whose every item is on offer at its
/// position.
pub proof fn lemma_product_contains(lists: Seq<Seq<usize>>, t: Seq<usize>)
    ensures
        product(lists).contains(t) <==> t.len() == lists.len() && forall|j: int|
            0 <= j < t.len() ==> (#[trigger] lists[j]).contains(t[j]),
    decreases lists.len(),
{
    if lists.len() == 0 {
        assert(product(lists)[0] == Seq::<usize>::empty());
        if t.len() == 0 {
            assert(t =~= Seq::<usize>::empty());
        }
    } else {
        let rest = lists.drop_first();
        lemma_prefixed_contains(lists.first(), product(rest), t);
        if t.len() > 0 {
            lemma_product_contains(rest, t.drop_first());
            if product(lists).contains(t) {
                assert forall|j: int| 0 <= j < t.len() implies (#[trigger] lists[j]).contains(
                    t[j],
                ) by {
                    if j > 0 {
                        assert(rest[j - 1].contains(t.drop_first()[j - 1]));
                    }
                }
            }
            if t.len() == lists.len() && forall|j: int|
                0 <= j < t.len() ==> (#[trigger] lists[j]).contains(t[j]) {
                assert forall|j: int| 0 <= j < t.drop_first().len() implies (#[trigger] rest[j])
                    .contains(t.drop_first()[j]) by {
                    assert(lists[j + 1].contains(t[j + 1]));
                }
                assert(lists[0].contains(t[0]));
            }
        }
    }
}

/// `Itertools::multi_cartesian_product`, collected: the cartesian product of
/// the lists, the last list's item changing fastest. Without a list it
/// yields nothing in this version, so that case is left out.
#[verifier::external_body]
fn cartesian_product(lists: &Vec<Vec<usize>>) -> (tuples: Vec<Vec<usize>>)
    requires
        lists.len() > 0,
    ensures
        rows(tuples@) == product(rows(lists@)),
{
    lists.iter().map(|l| l.iter().copied()).multi_cartesian_product().collect()
}

/// The nodes `op(c1', .., cn')` for a node `op(c1, .., cn)`, where each
/// `ci'` is one of `choices[ci]`: all combinations, in lexicographic order.
/// A leaf is its own only substitution; a node with a child that nothing is
/// on offer for has none.
pub fn flatmap_children(node: &Node, choices: &Vec<Vec<usize>>) -> (out: Vec<Node>)
    ensures
        views(out@) == substitutions(node@, rows(choices@)),
{
    let mut out: Vec<Node> = Vec::new();
    if node.children.len() == 0 {
        out.push(node.duplicate());
        assert(views(out@) =~= substitutions(node@, rows(choices@)));
        return out;
    }
    let mut lists: Vec<Vec<usize>> = Vec::new();
    let mut j: usize = 0;
    while j < node.children.len()
        invariant
            j <= node.children.len(),
            lists.len() == j,
            forall|i: int|
                0 <= i < j ==> (#[trigger] lists[i])@ == offers(node@, rows(choices@))[i],
        decreases node.children.len() - j,
    {
        let c = node.children[j];
        if c < choices.len() {
            let row = choices[c].clone();
            assert(row@ =~= choices[c as int]@);
            lists.push(row);
        } else {
            lists.push(Vec::new());
        }
        j = j + 1;
    }
    assert(rows(lists@) =~= offers(node@, rows(choices@)));
    let tuples = cartesian_product(&lists);
    let ghost all = product(offers(node@, rows(choices@)));
    assert(rows(tuples@) == all);
    let mut k: usize = 0;
    while k < tuples.len()
        invariant
            k <= tuples.len(),
            out.len() == k,
            rows(tuples@) == all,
            forall|i: int|
                0 <= i < k ==> (#[trigger] out[i])@ == (NodeView {
                    op: node@.op,
                    children: all[i],
                }),
        decreases tuples.len() - k,
    {
        let tuple = tuples[k].clone();
        assert(tuple@ =~= tuples[k as int]@);
        assert(rows(tuples@)[k as int] == tuples[k as int]@);
        out.push(node.with_children(tuple));
        k = k + 1;
    }
    assert(rows(tuples@).len() == tuples.len());
    assert(views(out@) =~= substitutions(node@, rows(choices@)));
    out
}

} // verus!
