//! Graphs only grow: every operation of the store keeps the ids, the
//! equalities and the nodes that were there.

use crate::model::lemma_added_valid;
use crate::model::lemma_united_valid;
use crate::model::GraphView;
use crate::model::NodeView;
use vstd::prelude::*;

verus! {

/// `w` keeps what `v` has: its ids, its equalities, and a form of each of
/// its nodes in the class of the id it was stored under.
#[verifier::opaque]
pub open spec fn grows(v: GraphView, w: GraphView) -> bool {
    &&& v.leaders.len() <= w.leaders.len()
    &&& forall|i: usize| v.has(i) ==> w.find(#[trigger] v.find(i)) == w.find(i)
    &&& forall|c: usize, n: NodeView| #[trigger] v.in_class(c, n) ==> w.stores(w.find(c), n)
}

/// Nodes with one canonical form in `v` have one canonical form in a graph
/// that keeps the equalities of `v`.
pub proof fn lemma_grows_canon(v: GraphView, w: GraphView, n: NodeView, k: NodeView)
    requires
        grows(v, w),
        v.holds(n),
        v.holds(k),
        v.canon(n) == v.canon(k),
    ensures
        w.canon(n) == w.canon(k),
{
    reveal(grows);
    assert(v.canon(n).children.len() == n.children.len());
    assert(v.canon(k).children.len() == k.children.len());
    assert forall|j: int| 0 <= j < n.children.len() implies w.find(n.children[j]) == w.find(
        k.children[j],
    ) by {
        assert(v.has(n.children[j]) && v.has(k.children[j]));
        assert(v.canon(n).children[j] == v.find(n.children[j]));
        assert(v.canon(k).children[j] == v.find(k.children[j]));
        assert(w.find(v.find(n.children[j])) == w.find(n.children[j]));
        assert(w.find(v.find(k.children[j])) == w.find(k.children[j]));
    }
    assert(w.canon(n).children =~= w.canon(k).children);
    assert(v.canon(n).op == v.canon(k).op);
}

/// A node that a class of `v` stores a form of is stored, in a form, by the
/// class of the same id in a graph that keeps what `v` has.
pub proof fn lemma_grows_stores(v: GraphView, w: GraphView, c: usize, k: NodeView)
    requires
        v.valid(),
        grows(v, w),
        v.holds(k),
        v.stores(c, k),
    ensures
        w.stores(w.find(c), k),
{
    reveal(GraphView::stores);
    reveal(grows);
    let n = choose|n: NodeView| #[trigger] v.in_class(c, n) && v.canon(n) == v.canon(k);
    assert(v.in_class(c, n));
    assert(w.stores(w.find(c), n));
    let m = choose|m: NodeView| #[trigger] w.in_class(w.find(c), m) && w.canon(m) == w.canon(n);
    lemma_grows_canon(v, w, n, k);
    assert(w.in_class(w.find(c), m) && w.canon(m) == w.canon(k));
}

/// A graph that keeps what `v` has keeps its ids and their equalities.
pub proof fn lemma_grows_ids(v: GraphView, w: GraphView)
    requires
        grows(v, w),
    ensures
        v.leaders.len() <= w.leaders.len(),
        forall|i: usize| v.has(i) ==> w.find(#[trigger] v.find(i)) == w.find(i),
{
    reveal(grows);
}

/// A node that `v` knows is known to a graph that keeps what `v` has.
pub proof fn lemma_grows_knows(v: GraphView, w: GraphView, k: NodeView)
    requires
        v.valid(),
        grows(v, w),
        v.holds(k),
        v.knows(k),
    ensures
        w.knows(k),
{
    let c = choose|c: usize| #[trigger] v.stores(c, k);
    lemma_grows_stores(v, w, c, k);
    assert(w.stores(w.find(c), k));
}

/// A graph keeps what it has.
pub proof fn lemma_grows_itself(v: GraphView)
    requires
        v.valid(),
    ensures
        grows(v, v),
{
    reveal(GraphView::stores);
    reveal(grows);
    assert forall|i: usize| v.has(i) implies v.find(#[trigger] v.find(i)) == v.find(i) by {
        assert(v.is_root(v.find(i)));
    }
    assert forall|c: usize, n: NodeView| #[trigger] v.in_class(c, n) implies v.stores(
        v.find(c),
        n,
    ) by {
        assert(v.is_root(c));
        assert(v.in_class(c, n) && v.canon(n) == v.canon(n));
    }
}

/// Keeping composes.
pub proof fn lemma_grows_twice(v: GraphView, w: GraphView, x: GraphView)
    requires
        v.valid(),
        w.valid(),
        grows(v, w),
        grows(w, x),
    ensures
        grows(v, x),
{
    reveal(GraphView::stores);
    reveal(grows);
    assert forall|i: usize| v.has(i) implies x.find(#[trigger] v.find(i)) == x.find(i) by {
        assert(v.is_root(v.find(i)));
        assert(w.has(v.find(i)) && w.has(i));
        assert(x.find(w.find(v.find(i))) == x.find(v.find(i)));
        assert(w.find(v.find(i)) == w.find(i));
        assert(x.find(w.find(i)) == x.find(i));
    }
    assert forall|c: usize, n: NodeView| #[trigger] v.in_class(c, n) implies x.stores(
        x.find(c),
        n,
    ) by {
        assert(w.stores(w.find(c), n));
        assert(v.holds(n));
        assert(w.holds(n)) by {
            assert forall|j: int| 0 <= j < n.children.len() implies w.has(
                #[trigger] n.children[j],
            ) by {
                assert(v.has(n.children[j]));
            }
        }
        lemma_grows_stores(w, x, w.find(c), n);
        assert(w.has(c));
        assert(x.find(w.find(c)) == x.find(c));
    }
}

/// `add` keeps what the graph has.
pub proof fn lemma_added_grows(v: GraphView, w: GraphView, n: NodeView, id: usize)
    requires
        v.valid(),
        v.holds(n),
        v.leaders.len() < u32::MAX,
        v.added_to(w, n, id),
    ensures
        grows(v, w),
{
    reveal(GraphView::stores);
    reveal(grows);
    lemma_added_valid(v, w, n, id);
    if v.lookup(n) is None {
        assert forall|i: usize| v.has(i) implies w.find(#[trigger] v.find(i)) == w.find(i) by {
            assert(v.is_root(v.find(i)));
            assert(w.find(v.find(i)) == v.find(v.find(i)));
            assert(w.find(i) == v.find(i));
        }
        assert forall|c: usize, m: NodeView| #[trigger] v.in_class(c, m) implies w.stores(
            w.find(c),
            m,
        ) by {
            assert(v.is_root(c));
            assert(w.find(c) == v.find(c));
            assert(w.classes[c as int] == v.classes[c as int]);
            assert(w.in_class(c, m) && w.canon(m) == w.canon(m));
        }
    } else {
        lemma_grows_itself(v);
    }
}

/// `union` keeps what the graph has.
pub proof fn lemma_united_grows(v: GraphView, w: GraphView, a: usize, b: usize, merged: bool)
    requires
        v.valid(),
        v.has(a),
        v.has(b),
        v.united_to(w, a, b, merged),
    ensures
        grows(v, w),
{
    reveal(GraphView::stores);
    reveal(grows);
    lemma_united_valid(v, w, a, b, merged);
    if merged {
        let ra = v.find(a);
        let rb = v.find(b);
        let to = if ra < rb { ra } else { rb };
        let from = if ra < rb { rb } else { ra };
        assert(v.is_root(ra) && v.is_root(rb));
        assert forall|i: usize| v.has(i) implies w.find(#[trigger] v.find(i)) == w.find(i) by {
            assert(v.is_root(v.find(i)));
        }
        assert forall|c: usize, m: NodeView| #[trigger] v.in_class(c, m) implies w.stores(
            w.find(c),
            m,
        ) by {
            assert(v.is_root(c));
            if c == from || c == to {
                assert(w.find(c) == to);
                let joined = w.classes[to as int];
                let i = choose|i: int|
                    0 <= i < v.classes[c as int].len() && v.classes[c as int][i] == m;
                if v.classes[to as int].len() < v.classes[from as int].len() {
                    if c == from {
                        assert(joined[i] == m);
                    } else {
                        assert(joined[v.classes[from as int].len() + i] == m);
                    }
                } else {
                    if c == to {
                        assert(joined[i] == m);
                    } else {
                        assert(joined[v.classes[to as int].len() + i] == m);
                    }
                }
                assert(w.in_class(to, m) && w.canon(m) == w.canon(m));
            } else {
                assert(w.find(c) == c);
                assert(w.classes[c as int] == v.classes[c as int]);
                assert(w.in_class(c, m) && w.canon(m) == w.canon(m));
            }
        }
    } else {
        lemma_grows_itself(v);
    }
}

/// After `union`, a class stores what it or the class merged into it stored.
pub proof fn lemma_united_nodes(
    v: GraphView,
    w: GraphView,
    a: usize,
    b: usize,
    merged: bool,
    c: usize,
    m: NodeView,
)
    requires
        v.valid(),
        v.has(a),
        v.has(b),
        v.united_to(w, a, b, merged),
        w.in_class(c, m),
    ensures
        exists|d: usize| #[trigger] v.in_class(d, m) && w.find(d) == c,
{
    if merged {
        let ra = v.find(a);
        let rb = v.find(b);
        let to = if ra < rb { ra } else { rb };
        let from = if ra < rb { rb } else { ra };
        assert(v.is_root(ra) && v.is_root(rb));
        if c == to {
            assert(v.in_class(to, m) || v.in_class(from, m));
            if v.in_class(to, m) {
                assert(v.in_class(to, m) && w.find(to) == c);
            } else {
                assert(v.in_class(from, m) && w.find(from) == c);
            }
        } else if c == from {
        } else {
            assert(w.classes[c as int] == v.classes[c as int]);
            assert(v.in_class(c, m));
            assert(v.is_root(c));
            assert(v.in_class(c, m) && w.find(c) == c);
        }
    } else {
        assert(v.in_class(c, m));
        assert(v.is_root(c));
        assert(v.in_class(c, m) && w.find(c) == c);
    }
}

/// `rebuild` keeps what the graph has.
pub proof fn lemma_rebuilt_grows(v: GraphView, w: GraphView)
    requires
        v.valid(),
        v.rebuilt_to(w),
    ensures
        grows(v, w),
{
    reveal(GraphView::stores);
    reveal(grows);
    assert forall|c: usize, n: NodeView| #[trigger] v.in_class(c, n) implies w.stores(
        w.find(c),
        n,
    ) by {
        let k = w.canon(n);
        assert(w.in_class(w.find(c), k));
        assert(v.holds(n));
        assert forall|j: int| 0 <= j < n.children.len() implies w.find(k.children[j])
            == k.children[j] by {
            assert(v.has(n.children[j]));
            assert(w.has(n.children[j]));
            assert(w.is_root(w.find(n.children[j])));
        }
        assert(w.canon(k).children =~= k.children);
        assert(w.in_class(w.find(c), k) && w.canon(k) == w.canon(n));
    }
}

} // verus!
