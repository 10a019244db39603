//! What a pass over the first input has settled, and why a pass that
//! changes nothing leaves nothing to add.

use crate::growth::grows;
use crate::growth::lemma_grows_knows;
use crate::link::saturated;
use crate::link::wanted;
use crate::link::Link;
use crate::model::GraphView;
use crate::model::NodeView;
use crate::product::lemma_product_contains;
use crate::product::offers;
use crate::product::product;
use crate::product::substitutions;
use vstd::prelude::*;

verus! {

/// `l2` is `l`, perhaps with more ids.
pub open spec fn extends(l: Link, l2: Link) -> bool {
    &&& l.origin.len() <= l2.origin.len()
    &&& l.target.len() <= l2.target.len()
    &&& l.made.len() <= l2.made.len()
    &&& forall|x: int| 0 <= x < l.origin.len() ==> l2.origin[x] == l.origin[x]
    &&& forall|x: int| 0 <= x < l.target.len() ==> l2.target[x] == l.target[x]
    &&& forall|x: int| 0 <= x < l.made.len() ==> l2.made[x] == l.made[x]
}

/// Every child of `k` is among the first `bound` ids.
pub open spec fn below(k: NodeView, bound: nat) -> bool {
    forall|j: int| 0 <= j < k.children.len() ==> (#[trigger] k.children[j]) < bound
}

/// The candidate `k` is dealt with: the product graph knows it, unless the
/// second input lacks what it stands for.
pub open spec fn settled(v2: GraphView, v: GraphView, l: Link, k: NodeView) -> bool {
    v2.present(l.across(k)) ==> v.knows(k)
}

/// The node `n1` of the first input is dealt with, as far as the first
/// `bound` ids go: every node over those ids that stands for `n1` is.
pub open spec fn done(v2: GraphView, v: GraphView, l: Link, bound: nat, n1: NodeView) -> bool {
    forall|k: NodeView|
        below(k, bound) && #[trigger] l.down(k) == n1 ==> settled(v2, v, l, k)
}

/// The classes `ids[0 .. ci]` of the first input are dealt with, and the
/// first `ni` nodes of the class `ids[ci]`.
pub open spec fn swept(
    v1: GraphView,
    v2: GraphView,
    v: GraphView,
    l: Link,
    bound: nat,
    ids: Seq<usize>,
    ci: int,
    ni: int,
) -> bool {
    forall|i: int, j: int|
        0 <= i < ids.len() && 0 <= j < v1.classes[ids[i] as int].len() && (i < ci || (i == ci && j
            < ni)) ==> done(v2, v, l, bound, #[trigger] v1.classes[ids[i] as int][j])
}

/// A node over old ids stands for the same input nodes in a correspondence
/// with more ids.
pub proof fn lemma_extends_sides(l: Link, l2: Link, k: NodeView)
    requires
        extends(l, l2),
        l.origin.len() == l.target.len(),
        below(k, l.origin.len()),
    ensures
        l2.down(k) == l.down(k),
        l2.across(k) == l.across(k),
{
    assert(l2.down(k).children =~= l.down(k).children);
    assert(l2.across(k).children =~= l.across(k).children);
}

/// A candidate that is dealt with stays so while graph and correspondence
/// grow.
pub proof fn lemma_settled_keeps(
    v2: GraphView,
    v: GraphView,
    w: GraphView,
    l: Link,
    l2: Link,
    k: NodeView,
)
    requires
        v.valid(),
        grows(v, w),
        extends(l, l2),
        l.origin.len() == v.leaders.len(),
        l.target.len() == v.leaders.len(),
        v.holds(k),
        settled(v2, v, l, k),
    ensures
        settled(v2, w, l2, k),
{
    assert(below(k, l.origin.len())) by {
        assert forall|j: int| 0 <= j < k.children.len() implies (#[trigger] k.children[j])
            < l.origin.len() by {
            assert(v.has(k.children[j]));
        }
    }
    lemma_extends_sides(l, l2, k);
    if v2.present(l2.across(k)) {
        lemma_grows_knows(v, w, k);
    }
}

/// A node of the first input that is dealt with stays so while graph and
/// correspondence grow.
pub proof fn lemma_done_keeps(
    v2: GraphView,
    v: GraphView,
    w: GraphView,
    l: Link,
    l2: Link,
    bound: nat,
    n1: NodeView,
)
    requires
        v.valid(),
        grows(v, w),
        extends(l, l2),
        l.origin.len() == v.leaders.len(),
        l.target.len() == v.leaders.len(),
        bound <= v.leaders.len(),
        done(v2, v, l, bound, n1),
    ensures
        done(v2, w, l2, bound, n1),
{
    assert forall|k: NodeView| below(k, bound) && #[trigger] l2.down(k) == n1 implies settled(
        v2,
        w,
        l2,
        k,
    ) by {
        assert(below(k, l.origin.len()));
        lemma_extends_sides(l, l2, k);
        assert(l.down(k) == n1);
        assert(v.holds(k)) by {
            assert forall|j: int| 0 <= j < k.children.len() implies v.has(
                #[trigger] k.children[j],
            ) by {
                assert(k.children[j] < bound);
            }
        }
        lemma_settled_keeps(v2, v, w, l, l2, k);
    }
}

/// What a pass has dealt with stays so while graph and correspondence grow.
pub proof fn lemma_swept_keeps(
    v1: GraphView,
    v2: GraphView,
    v: GraphView,
    w: GraphView,
    l: Link,
    l2: Link,
    bound: nat,
    ids: Seq<usize>,
    ci: int,
    ni: int,
)
    requires
        v.valid(),
        grows(v, w),
        extends(l, l2),
        l.origin.len() == v.leaders.len(),
        l.target.len() == v.leaders.len(),
        bound <= v.leaders.len(),
        swept(v1, v2, v, l, bound, ids, ci, ni),
    ensures
        swept(v1, v2, w, l2, bound, ids, ci, ni),
{
    assert forall|i: int, j: int|
        0 <= i < ids.len() && 0 <= j < v1.classes[ids[i] as int].len() && (i < ci || (i == ci && j
            < ni)) implies done(v2, w, l2, bound, #[trigger] v1.classes[ids[i] as int][j]) by {
        lemma_done_keeps(v2, v, w, l, l2, bound, v1.classes[ids[i] as int][j]);
    }
}

/// Once every substitution of a node of the first input is dealt with, the
/// node is: the substitutions drawn from the forward sets are all the nodes
/// over ids that stand for it.
pub proof fn lemma_node_done(
    v1: GraphView,
    v2: GraphView,
    v: GraphView,
    l: Link,
    fwd: Seq<Seq<usize>>,
    bound: nat,
    n1: NodeView,
)
    requires
        v1.holds(n1),
        fwd.len() == v1.leaders.len(),
        bound <= l.origin.len(),
        forall|x: usize| x < bound ==> (#[trigger] fwd[l.origin[x as int] as int]).contains(x),
        forall|i: int|
            0 <= i < substitutions(n1, fwd).len() ==> settled(
                v2,
                v,
                l,
                #[trigger] substitutions(n1, fwd)[i],
            ),
    ensures
        done(v2, v, l, bound, n1),
{
    assert forall|k: NodeView| below(k, bound) && #[trigger] l.down(k) == n1 implies settled(
        v2,
        v,
        l,
        k,
    ) by {
        let subs = substitutions(n1, fwd);
        assert(l.down(k).children.len() == k.children.len());
        if n1.children.len() == 0 {
            assert(k.children =~= n1.children);
            assert(k == n1);
            assert(subs[0] == k);
        } else {
            let lists = offers(n1, fwd);
            lemma_product_contains(lists, k.children);
            assert forall|j: int| 0 <= j < k.children.len() implies (#[trigger] lists[j]).contains(
                k.children[j],
            ) by {
                let x = k.children[j];
                assert(x < bound);
                assert(l.down(k).children[j] == l.origin[x as int]);
                assert(fwd[l.origin[x as int] as int].contains(x));
            }
            assert(product(lists).contains(k.children));
            let i = choose|i: int| 0 <= i < product(lists).len() && product(lists)[i] == k.children;
            assert(subs[i] == NodeView { op: n1.op, children: product(lists)[i] });
            assert(subs[i] == k);
        }
    }
}

/// A pass that went through every class of the first input, while the
/// product graph made no new id, leaves nothing to add.
pub proof fn lemma_swept_all(
    v1: GraphView,
    v2: GraphView,
    v: GraphView,
    l: Link,
    ids: Seq<usize>,
)
    requires
        v1.valid(),
        forall|c: usize| ids.contains(c) <==> v1.is_root(c),
        swept(v1, v2, v, l, v.leaders.len(), ids, ids.len() as int, 0),
    ensures
        saturated(v1, v2, v, l),
{
    assert forall|k: NodeView| #[trigger] wanted(v1, v2, v, l, k) implies v.knows(k) by {
        let n1 = l.down(k);
        let c = choose|c: usize| #[trigger] v1.in_class(c, n1);
        assert(v1.in_class(c, n1));
        assert(v1.is_root(c));
        assert(ids.contains(c));
        let i = choose|i: int| 0 <= i < ids.len() && ids[i] == c;
        let j = choose|j: int| 0 <= j < v1.classes[c as int].len() && v1.classes[c as int][j] == n1;
        assert(done(v2, v, l, v.leaders.len(), v1.classes[ids[i] as int][j]));
        assert(below(k, v.leaders.len())) by {
            assert forall|q: int| 0 <= q < k.children.len() implies (#[trigger] k.children[q])
                < v.leaders.len() by {
                assert(v.has(k.children[q]));
            }
        }
        assert(settled(v2, v, l, k));
    }
}

} // verus!
