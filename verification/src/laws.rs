//! Laws of congruence-closed graphs and of their intersection, stated over
//! what graphs say of terms.

use crate::model::lemma_one_class;
use crate::model::similar;
use crate::model::GraphView;
use crate::model::NodeView;
use crate::terms::is_intersection;
use crate::terms::lemma_represents_unique;
use crate::terms::Term;
use vstd::prelude::*;

verus! {

/// The intersection of a graph with itself says what the graph says: it
/// represents the same terms and holds the same terms equal, whatever its
/// ids are.
pub proof fn lemma_intersection_with_itself(g: GraphView, out: GraphView)
    requires
        is_intersection(out, g, g),
    ensures
        forall|t: Term| #[trigger] out.has_term(t) <==> g.has_term(t),
        forall|t: Term, u: Term| #[trigger] out.equates(t, u) <==> g.equates(t, u),
{
}

/// The order of the inputs does not matter to what the intersection says:
/// the intersection of `g1` and `g2` and that of `g2` and `g1` represent the
/// same terms and hold the same terms equal.
pub proof fn lemma_intersection_commutes(
    g1: GraphView,
    g2: GraphView,
    ab: GraphView,
    ba: GraphView,
)
    requires
        is_intersection(ab, g1, g2),
        is_intersection(ba, g2, g1),
    ensures
        forall|t: Term| #[trigger] ab.has_term(t) <==> ba.has_term(t),
        forall|t: Term, u: Term| #[trigger] ab.equates(t, u) <==> ba.equates(t, u),
{
}

/// Soundness: terms that the intersection holds equal are held equal by
/// each input on its own.
pub proof fn lemma_intersection_sound(
    g1: GraphView,
    g2: GraphView,
    out: GraphView,
    t: Term,
    u: Term,
)
    requires
        is_intersection(out, g1, g2),
        out.equates(t, u),
    ensures
        g1.equates(t, u),
        g2.equates(t, u),
{
}

/// No spurious merge: terms that one input holds apart, or lacks, are not
/// held equal by the intersection. So the intersection has no fewer
/// classes than the terms common to both inputs fall into.
pub proof fn lemma_intersection_keeps_apart(
    g1: GraphView,
    g2: GraphView,
    out: GraphView,
    t: Term,
    u: Term,
)
    requires
        is_intersection(out, g1, g2),
        !g1.equates(t, u) || !g2.equates(t, u),
    ensures
        !out.equates(t, u),
{
}

/// Nothing is lost either: terms that both inputs hold equal are held equal
/// by the intersection.
pub proof fn lemma_intersection_complete(
    g1: GraphView,
    g2: GraphView,
    out: GraphView,
    t: Term,
    u: Term,
)
    requires
        is_intersection(out, g1, g2),
        g1.equates(t, u),
        g2.equates(t, u),
    ensures
        out.equates(t, u),
{
}

/// What a congruence-closed graph holds equal is transitive: its classes
/// part the terms it represents.
pub proof fn lemma_equates_transitive(v: GraphView, t: Term, u: Term, w: Term)
    requires
        v.clean(),
        v.equates(t, u),
        v.equates(u, w),
    ensures
        v.equates(t, w),
{
    let c = choose|c: usize| #[trigger] v.represents(t, c) && v.represents(u, c);
    let d = choose|d: usize| #[trigger] v.represents(u, d) && v.represents(w, d);
    lemma_represents_unique(v, u, c, d);
    assert(v.represents(t, c) && v.represents(w, c));
}

/// Being in one class, as a relation on ids.
pub open spec fn same_class(v: GraphView) -> spec_fn(usize, usize) -> bool {
    |x: usize, y: usize| v.find(x) == v.find(y)
}

/// Congruence closure: in a congruence-closed graph, nodes with one
/// operator whose children are pairwise in one class are in one class.
pub proof fn lemma_clean_congruent(v: GraphView)
    requires
        v.clean(),
    ensures
        v.congruent_under(same_class(v)),
{
    let r = same_class(v);
    assert forall|c: usize, d: usize, n: NodeView, m: NodeView|
        #[trigger] v.in_class(c, n) && #[trigger] v.in_class(d, m) && similar(r, n, m) implies r(
        c,
        d,
    ) by {
        assert forall|j: int| 0 <= j < n.children.len() implies n.children[j]
            == m.children[j] by {
            assert(r(n.children[j], m.children[j]));
            assert(v.is_root(n.children[j]));
            assert(v.is_root(m.children[j]));
        }
        assert(n.children =~= m.children);
        assert(n == m);
        lemma_one_class(v, n, c, d);
    }
}

/// `find` is idempotent: the representative of a class is its own
/// representative.
pub proof fn lemma_find_idempotent(v: GraphView, x: usize)
    requires
        v.valid(),
        v.has(x),
    ensures
        v.has(v.find(x)),
        v.find(v.find(x)) == v.find(x),
{
    assert(v.is_root(v.find(x)));
}

} // verus!
