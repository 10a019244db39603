//! What a graph says: the terms it represents and the terms it holds equal.

use crate::model::GraphView;
use crate::model::NodeView;
use vstd::prelude::*;

verus! {

/// A term: an operator applied to terms.
pub struct Term {
    pub op: Seq<char>,
    pub args: Seq<Term>,
}

impl GraphView {
    /// The class `c` represents `t`: it stores a node with the operator of
    /// `t` whose children represent the arguments of `t`, each in its place.
    pub open spec fn represents(self, t: Term, c: usize) -> bool
        decreases t,
    {
        exists|n: NodeView| #[trigger]
            self.in_class(c, n) && n.op == t.op && n.children.len() == t.args.len() && forall|
                i: int,
            |
                0 <= i < t.args.len() ==> self.represents(t.args[i], #[trigger] n.children[i])
    }

    /// Some class represents `t`.
    pub open spec fn has_term(self, t: Term) -> bool {
        exists|c: usize| #[trigger] self.represents(t, c)
    }

    /// One class represents both `t` and `u`: the graph holds them equal.
    pub open spec fn equates(self, t: Term, u: Term) -> bool {
        exists|c: usize| #[trigger] self.represents(t, c) && self.represents(u, c)
    }
}

/// `v` says exactly what `v1` and `v2` both say: it represents the terms
/// that both represent, and holds equal the terms that both hold equal.
pub open spec fn is_intersection(v: GraphView, v1: GraphView, v2: GraphView) -> bool {
    &&& forall|t: Term| #[trigger] v.has_term(t) <==> v1.has_term(t) && v2.has_term(t)
    &&& forall|t: Term, u: Term| #[trigger]
        v.equates(t, u) <==> v1.equates(t, u) && v2.equates(t, u)
}

/// The maps trace the product graph `v` back to its inputs. Every id of `v`
/// has an image, and is in the forward set of one class of the first input
/// and of no other, once. A term that the class of an id represents is
/// represented in the second input by the class of the id's image, and in
/// the first input by the class in whose forward set the id is.
pub open spec fn traces(
    v1: GraphView,
    v2: GraphView,
    v: GraphView,
    fwd: Seq<Seq<usize>>,
    image: Seq<usize>,
) -> bool {
    &&& fwd.len() == v1.leaders.len()
    &&& image.len() == v.leaders.len()
    &&& forall|c1: int| 0 <= c1 < fwd.len() ==> (#[trigger] fwd[c1]).no_duplicates()
    &&& forall|x: usize| #[trigger]
        v.has(x) ==> v2.has(image[x as int]) && exists|c1: usize|
            v1.has(c1) && (#[trigger] fwd[c1 as int]).contains(x)
    &&& forall|x: usize, t: Term|
        v.has(x) && #[trigger] v.represents(t, v.find(x)) ==> v2.represents(
            t,
            v2.find(image[x as int]),
        )
    &&& forall|c1: int, j: int|
        0 <= c1 < fwd.len() && 0 <= j < fwd[c1].len() ==> v.has(#[trigger] fwd[c1][j])
            && v1.is_root(c1 as usize)
    &&& forall|c1: int, d1: int, i: int, j: int|
        0 <= c1 < fwd.len() && 0 <= d1 < fwd.len() && 0 <= i < fwd[c1].len() && 0 <= j
            < fwd[d1].len() && #[trigger] fwd[c1][i] == #[trigger] fwd[d1][j] ==> c1 == d1
    &&& forall|c1: int, j: int, t: Term|
        0 <= c1 < fwd.len() && 0 <= j < fwd[c1].len() && #[trigger] v.represents(
            t,
            v.find(fwd[c1][j]),
        ) ==> v1.represents(t, c1 as usize)
}

/// In a congruence-closed graph a term has one class at most.
pub proof fn lemma_represents_unique(v: GraphView, t: Term, c: usize, d: usize)
    requires
        v.clean(),
        v.represents(t, c),
        v.represents(t, d),
    ensures
        c == d,
    decreases t,
{
    let n = choose|n: NodeView| #[trigger]
        v.in_class(c, n) && n.op == t.op && n.children.len() == t.args.len() && forall|i: int|
            0 <= i < t.args.len() ==> v.represents(t.args[i], #[trigger] n.children[i]);
    let m = choose|m: NodeView| #[trigger]
        v.in_class(d, m) && m.op == t.op && m.children.len() == t.args.len() && forall|i: int|
            0 <= i < t.args.len() ==> v.represents(t.args[i], #[trigger] m.children[i]);
    assert forall|i: int| 0 <= i < n.children.len() implies n.children[i] == m.children[i] by {
        lemma_represents_unique(v, t.args[i], n.children[i], m.children[i]);
    }
    assert(n.children =~= m.children);
    assert(n == m);
    assert(v.in_class(c, n) && v.in_class(d, n));
}

} // verus!
