//! How large a product graph can get: no more ids than there are pairs of a
//! node of one input and a node of the other.

use crate::link::lemma_sides_canon;
use crate::link::linked;
use crate::link::Link;
use crate::model::nodes_below;
use crate::model::roots_below;
use crate::model::GraphView;
use crate::model::NodeView;
use vstd::prelude::*;
use vstd::seq_lib::seq_to_set_is_finite;
use vstd::set_lib::lemma_len_subset;
use vstd::set_lib::lemma_len_union;
use vstd::set_lib::lemma_map_size_bound;

verus! {

/// The nodes stored in the first `k` classes, as a set.
pub open spec fn stored_below(classes: Seq<Seq<NodeView>>, k: nat) -> Set<NodeView>
    decreases k,
{
    if k == 0 || k > classes.len() {
        Set::empty()
    } else {
        stored_below(classes, (k - 1) as nat).union(classes[k - 1].to_set())
    }
}

/// The pairs of a member of `a` and a member of `b`.
pub open spec fn grid(a: Set<NodeView>, b: Set<NodeView>) -> Set<(NodeView, NodeView)> {
    Set::new(|p: (NodeView, NodeView)| a.contains(p.0) && b.contains(p.1))
}

/// The pairs of input nodes that the first `k` ids were made for.
pub open spec fn sigs_below(l: Link, k: nat) -> Set<(NodeView, NodeView)>
    decreases k,
{
    if k == 0 {
        Set::empty()
    } else {
        sigs_below(l, (k - 1) as nat).insert(l.sig((k - 1) as usize))
    }
}

/// The stored nodes are finitely many, no more than the classes' lengths
/// add up to.
pub proof fn lemma_stored_below(classes: Seq<Seq<NodeView>>, k: nat)
    requires
        k <= classes.len(),
    ensures
        stored_below(classes, k).finite(),
        stored_below(classes, k).len() <= nodes_below(classes, k),
        forall|n: NodeView|
            stored_below(classes, k).contains(n) <==> exists|c: int|
                0 <= c < k && (#[trigger] classes[c]).contains(n),
    decreases k,
{
    if k > 0 {
        let prev = stored_below(classes, (k - 1) as nat);
        let here = classes[k - 1].to_set();
        lemma_stored_below(classes, (k - 1) as nat);
        seq_to_set_is_finite(classes[k - 1]);
        classes[k - 1].lemma_cardinality_of_set();
        lemma_len_union(prev, here);
        assert forall|n: NodeView|
            stored_below(classes, k).contains(n) <==> exists|c: int|
                0 <= c < k && (#[trigger] classes[c]).contains(n) by {
            if stored_below(classes, k).contains(n) {
                if prev.contains(n) {
                    let c = choose|c: int| 0 <= c < k - 1 && (#[trigger] classes[c]).contains(n);
                    assert(0 <= c < k && classes[c].contains(n));
                } else {
                    assert(classes[k - 1].contains(n));
                }
            }
            if exists|c: int| 0 <= c < k && (#[trigger] classes[c]).contains(n) {
                let c = choose|c: int| 0 <= c < k && (#[trigger] classes[c]).contains(n);
                if c < k - 1 {
                    assert(prev.contains(n));
                } else {
                    assert(here.contains(n));
                }
            }
        }
    }
}

/// There are no more pairs than the sizes multiply to.
pub proof fn lemma_grid(a: Set<NodeView>, b: Set<NodeView>)
    requires
        a.finite(),
        b.finite(),
    ensures
        grid(a, b).finite(),
        grid(a, b).len() <= a.len() * b.len(),
    decreases a.len(),
{
    if a.len() == 0 {
        a.lemma_len0_is_empty();
        assert(grid(a, b) =~= Set::empty());
        assert(a.len() * b.len() == 0) by (nonlinear_arith)
            requires
                a.len() == 0,
        ;
    } else {
        let x = a.choose();
        let rest = a.remove(x);
        let f = |y: NodeView| (x, y);
        let col = b.map(f);
        lemma_map_size_bound(b, col, f);
        lemma_grid(rest, b);
        assert(grid(a, b) =~= grid(rest, b).union(col)) by {
            assert forall|p: (NodeView, NodeView)| grid(a, b).contains(p) implies grid(
                rest,
                b,
            ).union(col).contains(p) by {
                if p.0 == x {
                    assert(b.contains(p.1) && p == f(p.1));
                    assert(col.contains(p));
                } else {
                    assert(rest.contains(p.0));
                    assert(grid(rest, b).contains(p));
                }
            }
            assert forall|p: (NodeView, NodeView)| grid(rest, b).union(col).contains(
                p,
            ) implies grid(a, b).contains(p) by {
                if col.contains(p) {
                    let y = choose|y: NodeView| b.contains(y) && p == f(y);
                    assert(p.0 == x && p.1 == y);
                }
            }
        }
        lemma_len_union(grid(rest, b), col);
        assert((a.len() - 1) * b.len() + b.len() == a.len() * b.len()) by (nonlinear_arith);
    }
}

/// Every id was made for a node stored in each input.
pub proof fn lemma_sig_present(v1: GraphView, v2: GraphView, v: GraphView, l: Link, x: usize)
    requires
        v.valid(),
        linked(v1, v2, v, l),
        v.has(x),
    ensures
        v1.present(l.sig(x).0),
        v2.present(l.sig(x).1),
{
    reveal(GraphView::stores);
    let m = l.made[x as int];
    let c = v.find(x);
    assert(v.stores(c, m));
    let n = choose|n: NodeView| #[trigger] v.in_class(c, n) && v.canon(n) == v.canon(m);
    assert(v.in_class(c, n));
    assert(v.holds(n));
    lemma_sides_canon(v, l, n);
    lemma_sides_canon(v, l, m);
    assert(l.down(n) == l.down(m));
    assert(l.across(n) == l.across(m));
    assert(v1.in_class(l.origin[c as int], l.down(n)));
    assert(v2.in_class(l.target[c as int], l.across(n)));
}

/// The first `k` ids were made for `k` different pairs.
pub proof fn lemma_sigs_below(v1: GraphView, v2: GraphView, v: GraphView, l: Link, k: nat)
    requires
        v.valid(),
        linked(v1, v2, v, l),
        k <= v.leaders.len(),
    ensures
        sigs_below(l, k).finite(),
        sigs_below(l, k).len() == k,
        forall|p: (NodeView, NodeView)|
            sigs_below(l, k).contains(p) <==> exists|x: usize| x < k && #[trigger] l.sig(x) == p,
    decreases k,
{
    if k > 0 {
        let prev = sigs_below(l, (k - 1) as nat);
        let last = (k - 1) as usize;
        lemma_sigs_below(v1, v2, v, l, (k - 1) as nat);
        if prev.contains(l.sig(last)) {
            let x = choose|x: usize| x < k - 1 && #[trigger] l.sig(x) == l.sig(last);
            assert(v.has(x) && v.has(last));
            assert(false);
        }
        assert forall|p: (NodeView, NodeView)|
            sigs_below(l, k).contains(p) <==> exists|x: usize|
                x < k && #[trigger] l.sig(x) == p by {
            if sigs_below(l, k).contains(p) {
                if prev.contains(p) {
                    let x = choose|x: usize| x < k - 1 && #[trigger] l.sig(x) == p;
                    assert(x < k && l.sig(x) == p);
                } else {
                    assert(last < k && l.sig(last) == p);
                }
            }
            if exists|x: usize| x < k && #[trigger] l.sig(x) == p {
                let x = choose|x: usize| x < k && #[trigger] l.sig(x) == p;
                if x < k - 1 {
                    assert(prev.contains(p));
                } else {
                    assert(x == last);
                }
            }
        }
    }
}

/// Where a node over ids of the product graph stands for a node of each
/// input, and no id was made for those two, there is room for one more id:
/// the ids, and one, are no more than the inputs' node totals multiply to.
pub proof fn lemma_room(v1: GraphView, v2: GraphView, v: GraphView, l: Link, k: NodeView)
    requires
        v1.valid(),
        v2.valid(),
        v.valid(),
        linked(v1, v2, v, l),
        v1.present(l.down(k)),
        v2.present(l.across(k)),
        forall|x: usize| v.has(x) ==> #[trigger] l.sig(x) != (l.down(k), l.across(k)),
    ensures
        v.leaders.len() + 1 <= v1.node_total() * v2.node_total(),
{
    let n = v.leaders.len();
    let s = sigs_below(l, n);
    let p = (l.down(k), l.across(k));
    lemma_sigs_below(v1, v2, v, l, n);
    if s.contains(p) {
        let x = choose|x: usize| x < n && #[trigger] l.sig(x) == p;
        assert(v.has(x));
        assert(false);
    }
    assert forall|q: (NodeView, NodeView)| s.insert(p).contains(q) implies v1.present(q.0)
        && v2.present(q.1) by {
        if q != p {
            let x = choose|x: usize| x < n && #[trigger] l.sig(x) == q;
            assert(v.has(x));
            lemma_sig_present(v1, v2, v, l, x);
        }
    }
    lemma_pairs_fit_set(v1, v2, s.insert(p));
}

/// The ids of a product graph are no more than the inputs' node totals
/// multiply to.
pub proof fn lemma_ids_fit(v1: GraphView, v2: GraphView, v: GraphView, l: Link)
    requires
        v1.valid(),
        v2.valid(),
        v.valid(),
        linked(v1, v2, v, l),
    ensures
        v.leaders.len() <= v1.node_total() * v2.node_total(),
{
    let n = v.leaders.len();
    lemma_sigs_below(v1, v2, v, l, n);
    assert forall|p: (NodeView, NodeView)| sigs_below(l, n).contains(p) implies v1.present(p.0)
        && v2.present(p.1) by {
        let x = choose|x: usize| x < n && #[trigger] l.sig(x) == p;
        assert(v.has(x));
        lemma_sig_present(v1, v2, v, l, x);
    }
    lemma_pairs_fit_set(v1, v2, sigs_below(l, n));
}

/// A finite set of pairs of stored nodes is no larger than the inputs' node
/// totals multiply to.
pub proof fn lemma_pairs_fit_set(v1: GraphView, v2: GraphView, s: Set<(NodeView, NodeView)>)
    requires
        v1.valid(),
        v2.valid(),
        s.finite(),
        forall|p: (NodeView, NodeView)| s.contains(p) ==> v1.present(p.0) && v2.present(p.1),
    ensures
        s.len() <= v1.node_total() * v2.node_total(),
{
    let a = stored_below(v1.classes, v1.classes.len());
    let b = stored_below(v2.classes, v2.classes.len());
    lemma_stored_below(v1.classes, v1.classes.len());
    lemma_stored_below(v2.classes, v2.classes.len());
    lemma_grid(a, b);
    assert forall|p: (NodeView, NodeView)| s.contains(p) implies grid(a, b).contains(p) by {
        let c1 = choose|c: usize| #[trigger] v1.in_class(c, p.0);
        let c2 = choose|c: usize| #[trigger] v2.in_class(c, p.1);
        assert(v1.classes[c1 as int].contains(p.0));
        assert(v2.classes[c2 as int].contains(p.1));
    }
    lemma_len_subset(s, grid(a, b));
    vstd::arithmetic::mul::lemma_mul_upper_bound(
        a.len() as int,
        v1.node_total() as int,
        b.len() as int,
        v2.node_total() as int,
    );
}

/// The count of representatives among the first `k` ids looks at those ids
/// only.
pub proof fn lemma_roots_prefix(a: Seq<usize>, b: Seq<usize>, k: nat)
    requires
        k <= a.len(),
        k <= b.len(),
        forall|i: int| 0 <= i < k ==> a[i] == b[i],
    ensures
        roots_below(a, k) == roots_below(b, k),
    decreases k,
{
    if k > 0 {
        lemma_roots_prefix(a, b, (k - 1) as nat);
    }
}

/// Where every representative of `b` is one of `a`, `b` has no more of them.
pub proof fn lemma_roots_fewer(a: Seq<usize>, b: Seq<usize>, k: nat)
    requires
        k <= a.len(),
        k <= b.len(),
        forall|i: int| 0 <= i < k && b[i] == i ==> a[i] == i,
    ensures
        roots_below(b, k) <= roots_below(a, k),
    decreases k,
{
    if k > 0 {
        lemma_roots_fewer(a, b, (k - 1) as nat);
    }
}

/// Where `b` has the representatives of `a` but `gone`, it has one fewer
/// from `gone` on.
pub proof fn lemma_roots_one_fewer(a: Seq<usize>, b: Seq<usize>, gone: int, k: nat)
    requires
        k <= a.len(),
        k <= b.len(),
        0 <= gone,
        gone < a.len() ==> a[gone] == gone,
        gone < b.len() ==> b[gone] != gone,
        forall|i: int| 0 <= i < k && i != gone ==> (b[i] == i <==> a[i] == i),
    ensures
        roots_below(b, k) + (if gone < k { 1nat } else { 0nat }) == roots_below(a, k),
    decreases k,
{
    if k > 0 {
        lemma_roots_one_fewer(a, b, gone, (k - 1) as nat);
    }
}

/// The room that is left: twice the ids that may still be made, and the
/// classes that may still be merged. Every change of the product graph uses
/// some of it up.
pub open spec fn slack(v1: GraphView, v2: GraphView, v: GraphView) -> int {
    2 * (v1.node_total() * v2.node_total() - v.leaders.len()) + v.class_total()
}

/// A new id is a new class.
pub proof fn lemma_total_added(v: GraphView, w: GraphView, n: NodeView, id: usize)
    requires
        v.valid(),
        v.lookup(n) is None,
        v.added_to(w, n, id),
    ensures
        w.class_total() == v.class_total() + 1,
{
    lemma_roots_prefix(v.leaders, w.leaders, v.leaders.len());
}

/// A union that merges leaves one class fewer.
pub proof fn lemma_total_united(v: GraphView, w: GraphView, a: usize, b: usize, merged: bool)
    requires
        v.valid(),
        v.has(a),
        v.has(b),
        v.united_to(w, a, b, merged),
    ensures
        w.class_total() + (if merged { 1nat } else { 0nat }) == v.class_total(),
{
    if merged {
        let ra = v.find(a);
        let rb = v.find(b);
        let to = if ra < rb { ra } else { rb };
        let from = if ra < rb { rb } else { ra };
        assert(v.is_root(ra) && v.is_root(rb));
        assert forall|i: int| 0 <= i < v.leaders.len() && i != from implies (w.leaders[i] == i
            <==> v.leaders[i] == i) by {
            assert(v.is_root(v.find(i as usize)));
        }
        lemma_roots_one_fewer(v.leaders, w.leaders, from as int, v.leaders.len());
    }
}

/// `rebuild` makes no class.
pub proof fn lemma_total_rebuilt(v: GraphView, w: GraphView)
    requires
        v.valid(),
        v.rebuilt_to(w),
    ensures
        w.class_total() <= v.class_total(),
{
    assert forall|i: int| 0 <= i < v.leaders.len() && w.leaders[i] == i implies v.leaders[i]
        == i by {
        assert(v.has(i as usize));
        assert(v.is_root(w.find(i as usize)));
    }
    lemma_roots_fewer(v.leaders, w.leaders, v.leaders.len());
}

} // verus!
