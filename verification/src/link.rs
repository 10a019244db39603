//! The correspondence between a product graph and its two inputs, and why a
//! product graph that keeps it says what both inputs say.

use crate::model::lemma_canon;
use crate::model::GraphView;
use crate::model::NodeView;
use crate::terms::is_intersection;
use crate::terms::Term;
use vstd::prelude::*;

verus! {

/// For each id of the product graph: the class of the first input that it
/// was made for, the class of the second input that it corresponds to, and
/// the node that it was made with.
pub struct Link {
    pub origin: Seq<usize>,
    pub target: Seq<usize>,
    pub made: Seq<NodeView>,
}

impl Link {
    /// The correspondence of the graph without ids.
    pub open spec fn empty() -> Link {
        Link { origin: Seq::empty(), target: Seq::empty(), made: Seq::empty() }
    }

    /// The correspondence with one more id, made with `k` for `c1` and `c2`.
    pub open spec fn grown(self, c1: usize, c2: usize, k: NodeView) -> Link {
        Link {
            origin: self.origin.push(c1),
            target: self.target.push(c2),
            made: self.made.push(k),
        }
    }

    /// `x` and `y` stand for one pair of input classes.
    pub open spec fn same(self, x: usize, y: usize) -> bool {
        self.origin[x as int] == self.origin[y as int] && self.target[x as int]
            == self.target[y as int]
    }

    /// The node of the first input that `n` stands for.
    pub open spec fn down(self, n: NodeView) -> NodeView {
        NodeView {
            op: n.op,
            children: Seq::new(n.children.len(), |j: int| self.origin[n.children[j] as int]),
        }
    }

    /// The node of the second input that `n` stands for.
    pub open spec fn across(self, n: NodeView) -> NodeView {
        NodeView {
            op: n.op,
            children: Seq::new(n.children.len(), |j: int| self.target[n.children[j] as int]),
        }
    }

    /// The two input nodes that the id `x` was made for.
    pub open spec fn sig(self, x: usize) -> (NodeView, NodeView) {
        (self.down(self.made[x as int]), self.across(self.made[x as int]))
    }
}

/// The correspondence `l` fits the graphs: every id of `v` stands for a
/// class of each input, equal ids for the same ones; every node stored in
/// `v` stands for a node stored in the corresponding class of each input;
/// every id still stores the node it was made with, and no two ids were
/// made for the same two input nodes.
pub open spec fn linked(v1: GraphView, v2: GraphView, v: GraphView, l: Link) -> bool {
    &&& l.origin.len() == v.leaders.len()
    &&& l.target.len() == v.leaders.len()
    &&& l.made.len() == v.leaders.len()
    &&& forall|x: usize| #[trigger]
        v.has(x) ==> v1.is_root(l.origin[x as int]) && v2.is_root(l.target[x as int])
    &&& forall|x: usize| v.has(x) ==> l.same(x, #[trigger] v.find(x))
    &&& forall|c: usize, n: NodeView| #[trigger]
        v.in_class(c, n) ==> v1.in_class(l.origin[c as int], l.down(n)) && v2.in_class(
            l.target[c as int],
            l.across(n),
        )
    &&& forall|x: usize| #[trigger]
        v.has(x) ==> v.holds(l.made[x as int]) && v.stores(v.find(x), l.made[x as int])
    &&& forall|x: usize, y: usize|
        v.has(x) && v.has(y) && #[trigger] l.sig(x) == #[trigger] l.sig(y) ==> x == y
}

/// No two classes of `v` stand for the same pair of input classes.
pub open spec fn separate(v: GraphView, l: Link) -> bool {
    forall|x: usize, y: usize| #[trigger]
        v.is_root(x) && #[trigger] v.is_root(y) && l.same(x, y) ==> x == y
}

/// The node `k` over ids of `v` stands for a node of each input.
pub open spec fn wanted(v1: GraphView, v2: GraphView, v: GraphView, l: Link, k: NodeView) -> bool {
    v.holds(k) && v1.present(l.down(k)) && v2.present(l.across(k))
}

/// Nothing is left to add: `v` knows every node over its ids that stands
/// for a node of each input.
pub open spec fn saturated(v1: GraphView, v2: GraphView, v: GraphView, l: Link) -> bool {
    forall|k: NodeView| #[trigger] wanted(v1, v2, v, l, k) ==> v.knows(k)
}

/// A node and its canonical form stand for the same input nodes.
pub proof fn lemma_sides_canon(v: GraphView, l: Link, n: NodeView)
    requires
        forall|x: usize| v.has(x) ==> l.same(x, #[trigger] v.find(x)),
        v.holds(n),
    ensures
        l.down(v.canon(n)) == l.down(n),
        l.across(v.canon(n)) == l.across(n),
{
    let k = v.canon(n);
    assert forall|j: int| 0 <= j < n.children.len() implies l.same(
        n.children[j],
        k.children[j],
    ) by {
        assert(v.has(n.children[j]));
        assert(l.same(n.children[j], v.find(n.children[j])));
    }
    assert(l.down(k).children =~= l.down(n).children);
    assert(l.across(k).children =~= l.across(n).children);
}

/// Nodes that stand for the same input nodes have one canonical form, where
/// no two classes stand for the same pair.
pub proof fn lemma_sides_decide(
    v1: GraphView,
    v2: GraphView,
    v: GraphView,
    l: Link,
    n: NodeView,
    m: NodeView,
)
    requires
        linked(v1, v2, v, l),
        separate(v, l),
        v.valid(),
        v.holds(n),
        v.holds(m),
        l.down(n) == l.down(m),
        l.across(n) == l.across(m),
    ensures
        v.canon(n) == v.canon(m),
{
    assert(l.down(n).children.len() == n.children.len());
    assert(l.down(m).children.len() == m.children.len());
    assert(n.children.len() == m.children.len());
    assert forall|j: int| 0 <= j < n.children.len() implies v.find(n.children[j]) == v.find(
        m.children[j],
    ) by {
        let x = n.children[j];
        let y = m.children[j];
        assert(v.has(x) && v.has(y));
        assert(l.down(n).children[j] == l.down(m).children[j]);
        assert(l.across(n).children[j] == l.across(m).children[j]);
        assert(l.same(x, v.find(x)));
        assert(l.same(y, v.find(y)));
        assert(v.is_root(v.find(x)) && v.is_root(v.find(y)));
        assert(l.down(n).children[j] == l.origin[x as int]);
        assert(l.down(m).children[j] == l.origin[y as int]);
        assert(l.across(n).children[j] == l.target[x as int]);
        assert(l.across(m).children[j] == l.target[y as int]);
        assert(l.same(x, y));
        assert(l.same(v.find(x), v.find(y)));
    }
    assert(v.canon(n).children =~= v.canon(m).children);
    assert(l.down(n).op == l.down(m).op);
}

/// Soundness: a term that a class of `v` represents is represented by the
/// classes of the inputs that the class stands for.
pub proof fn lemma_sound(v1: GraphView, v2: GraphView, v: GraphView, l: Link, t: Term, c: usize)
    requires
        linked(v1, v2, v, l),
        v.represents(t, c),
    ensures
        v1.represents(t, l.origin[c as int]),
        v2.represents(t, l.target[c as int]),
    decreases t,
{
    let n = choose|n: NodeView| #[trigger]
        v.in_class(c, n) && n.op == t.op && n.children.len() == t.args.len() && forall|i: int|
            0 <= i < t.args.len() ==> v.represents(t.args[i], #[trigger] n.children[i]);
    let n1 = l.down(n);
    let n2 = l.across(n);
    assert(v1.in_class(l.origin[c as int], n1));
    assert(v2.in_class(l.target[c as int], n2));
    assert forall|i: int| 0 <= i < t.args.len() implies v1.represents(
        t.args[i],
        #[trigger] n1.children[i],
    ) by {
        lemma_sound(v1, v2, v, l, t.args[i], n.children[i]);
    }
    assert forall|i: int| 0 <= i < t.args.len() implies v2.represents(
        t.args[i],
        #[trigger] n2.children[i],
    ) by {
        lemma_sound(v1, v2, v, l, t.args[i], n.children[i]);
    }
}

/// The representative `x` of `v` represents `t` and stands for the classes
/// `a` and `b` of the inputs.
pub open spec fn meets(v: GraphView, l: Link, t: Term, x: usize, a: usize, b: usize) -> bool {
    v.represents(t, x) && v.is_root(x) && l.origin[x as int] == a && l.target[x as int] == b
}

/// Completeness: a term that both inputs represent is represented by the
/// class of `v` that stands for its two classes, once nothing is left to add.
pub proof fn lemma_complete(
    v1: GraphView,
    v2: GraphView,
    v: GraphView,
    l: Link,
    t: Term,
    c1: usize,
    c2: usize,
) -> (c: usize)
    requires
        v1.clean(),
        v2.clean(),
        v.clean(),
        linked(v1, v2, v, l),
        saturated(v1, v2, v, l),
        v1.represents(t, c1),
        v2.represents(t, c2),
    ensures
        v.represents(t, c),
        v.is_root(c),
        l.origin[c as int] == c1,
        l.target[c as int] == c2,
    decreases t,
{
    reveal(GraphView::stores);
    let n1 = choose|n: NodeView| #[trigger]
        v1.in_class(c1, n) && n.op == t.op && n.children.len() == t.args.len() && forall|i: int|
            0 <= i < t.args.len() ==> v1.represents(t.args[i], #[trigger] n.children[i]);
    let n2 = choose|n: NodeView| #[trigger]
        v2.in_class(c2, n) && n.op == t.op && n.children.len() == t.args.len() && forall|i: int|
            0 <= i < t.args.len() ==> v2.represents(t.args[i], #[trigger] n.children[i]);
    let k = NodeView {
        op: t.op,
        children: Seq::new(
            t.args.len(),
            |i: int|
                choose|x: usize| meets(v, l, t.args[i], x, n1.children[i], n2.children[i]),
        ),
    };
    assert forall|i: int| 0 <= i < t.args.len() implies meets(
        v,
        l,
        t.args[i],
        #[trigger] k.children[i],
        n1.children[i],
        n2.children[i],
    ) by {
        let x = lemma_complete(v1, v2, v, l, t.args[i], n1.children[i], n2.children[i]);
        assert(meets(v, l, t.args[i], x, n1.children[i], n2.children[i]));
    }
    assert(l.down(k).children =~= n1.children);
    assert(l.across(k).children =~= n2.children);
    assert(l.down(k) == n1);
    assert(l.across(k) == n2);
    assert(v1.in_class(c1, l.down(k)));
    assert(v2.in_class(c2, l.across(k)));
    assert(v.holds(k)) by {
        assert forall|i: int| 0 <= i < k.children.len() implies v.has(#[trigger] k.children[i]) by {
            assert(meets(v, l, t.args[i], k.children[i], n1.children[i], n2.children[i]));
        }
    }
    assert(v.is_canonical(k)) by {
        assert forall|i: int| 0 <= i < k.children.len() implies v.is_root(
            #[trigger] k.children[i],
        ) by {
            assert(meets(v, l, t.args[i], k.children[i], n1.children[i], n2.children[i]));
        }
    }
    assert(wanted(v1, v2, v, l, k));
    assert(v.knows(k));
    let c = choose|c: usize| #[trigger] v.stores(c, k);
    let n = choose|n: NodeView| #[trigger] v.in_class(c, n) && v.canon(n) == v.canon(k);
    assert(v.in_class(c, n));
    lemma_canon(v, n);
    lemma_canon(v, k);
    assert(n == k);
    assert forall|i: int| 0 <= i < t.args.len() implies v.represents(
        t.args[i],
        #[trigger] k.children[i],
    ) by {
        assert(meets(v, l, t.args[i], k.children[i], n1.children[i], n2.children[i]));
    }
    assert(v.represents(t, c));
    assert(v1.in_class(l.origin[c as int], l.down(k)));
    assert(v2.in_class(l.target[c as int], l.across(k)));
    c
}

/// A product graph that is congruence-closed, fits its correspondence, has
/// no two classes for one pair and nothing left to add is the intersection
/// of its inputs.
pub proof fn lemma_intersection(v1: GraphView, v2: GraphView, v: GraphView, l: Link)
    requires
        v1.clean(),
        v2.clean(),
        v.clean(),
        linked(v1, v2, v, l),
        separate(v, l),
        saturated(v1, v2, v, l),
    ensures
        is_intersection(v, v1, v2),
{
    assert forall|t: Term| #[trigger] v.has_term(t) <==> v1.has_term(t) && v2.has_term(t) by {
        if v.has_term(t) {
            let c = choose|c: usize| #[trigger] v.represents(t, c);
            lemma_sound(v1, v2, v, l, t, c);
        }
        if v1.has_term(t) && v2.has_term(t) {
            let c1 = choose|c: usize| #[trigger] v1.represents(t, c);
            let c2 = choose|c: usize| #[trigger] v2.represents(t, c);
            let c = lemma_complete(v1, v2, v, l, t, c1, c2);
        }
    }
    assert forall|t: Term, u: Term| #[trigger]
        v.equates(t, u) <==> v1.equates(t, u) && v2.equates(t, u) by {
        if v.equates(t, u) {
            let c = choose|c: usize| #[trigger] v.represents(t, c) && v.represents(u, c);
            lemma_sound(v1, v2, v, l, t, c);
            lemma_sound(v1, v2, v, l, u, c);
        }
        if v1.equates(t, u) && v2.equates(t, u) {
            let c1 = choose|c: usize| #[trigger] v1.represents(t, c) && v1.represents(u, c);
            let c2 = choose|c: usize| #[trigger] v2.represents(t, c) && v2.represents(u, c);
            let ct = lemma_complete(v1, v2, v, l, t, c1, c2);
            let cu = lemma_complete(v1, v2, v, l, u, c1, c2);
            assert(l.same(ct, cu));
            assert(v.is_root(ct) && v.is_root(cu));
        }
    }
}

} // verus!
