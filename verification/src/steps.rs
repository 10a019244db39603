//! Each step of the construction keeps the correspondence.

use crate::growth::lemma_added_grows;
use crate::growth::lemma_grows_stores;
use crate::growth::lemma_rebuilt_grows;
use crate::growth::lemma_united_grows;
use crate::growth::lemma_united_nodes;
use crate::link::lemma_sides_canon;
use crate::link::lemma_sides_decide;
use crate::link::linked;
use crate::link::separate;
use crate::link::Link;
use crate::model::lemma_added_valid;
use crate::model::lemma_canon;
use crate::model::lemma_lookup_clean;
use crate::model::lemma_one_class;
use crate::model::lemma_united_valid;
use crate::model::similar;
use crate::model::GraphView;
use crate::model::NodeView;
use vstd::prelude::*;
use vstd::relations::equivalence_relation;

verus! {

/// No two classes of `v` stand for the same pair of input classes, unless
/// it is the pair of `z`.
pub open spec fn separate_but(v: GraphView, l: Link, z: usize) -> bool {
    forall|x: usize, y: usize| #[trigger]
        v.is_root(x) && #[trigger] v.is_root(y) && l.same(x, y) && !l.same(x, z) ==> x == y
}

/// The first `j` ids of `sibs` that stand for the pair of `z` are in the
/// class of `z`.
pub open spec fn joined(v: GraphView, l: Link, z: usize, sibs: Seq<usize>, j: int) -> bool {
    forall|i: int| 0 <= i < j && l.same(#[trigger] sibs[i], z) ==> v.find(sibs[i]) == v.find(z)
}

/// The recorded images fit the correspondence.
pub open spec fn img_ok(v2: GraphView, v: GraphView, l: Link, image: Seq<usize>) -> bool {
    &&& image.len() == v.leaders.len()
    &&& forall|x: usize| #[trigger]
        v.has(x) ==> v2.has(image[x as int]) && v2.find(image[x as int]) == l.target[x as int]
}

/// The forward sets fit the correspondence: the set of a class of the first
/// input holds the ids made for it, all of them and no others, each once.
pub open spec fn fwd_ok(v1: GraphView, v: GraphView, l: Link, fwd: Seq<Seq<usize>>) -> bool {
    &&& fwd.len() == v1.leaders.len()
    &&& forall|c: int| 0 <= c < fwd.len() ==> (#[trigger] fwd[c]).no_duplicates()
    &&& forall|c: int, j: int|
        0 <= c < fwd.len() && 0 <= j < fwd[c].len() ==> v.has(#[trigger] fwd[c][j])
            && l.origin[fwd[c][j] as int] == c
    &&& forall|x: usize| #[trigger] v.has(x) ==> fwd[l.origin[x as int] as int].contains(x)
}

/// A node that the product graph already holds stands in the class for the
/// two classes that hold the nodes it stands for.
pub proof fn lemma_found(
    v1: GraphView,
    v2: GraphView,
    v: GraphView,
    l: Link,
    k: NodeView,
    c: usize,
    c1: usize,
    c2: usize,
)
    requires
        v1.clean(),
        v2.clean(),
        v.clean(),
        linked(v1, v2, v, l),
        v.holds(k),
        v.lookup(k) == Some(c),
        v1.in_class(c1, l.down(k)),
        v2.in_class(c2, l.across(k)),
    ensures
        v.is_root(c),
        v.in_class(c, v.canon(k)),
        l.origin[c as int] == c1,
        l.target[c as int] == c2,
{
    lemma_lookup_clean(v, k);
    let kk = v.canon(k);
    lemma_sides_canon(v, l, k);
    assert(v1.in_class(l.origin[c as int], l.down(kk)));
    assert(v2.in_class(l.target[c as int], l.across(kk)));
    lemma_one_class(v1, l.down(k), c1, l.origin[c as int]);
    lemma_one_class(v2, l.across(k), c2, l.target[c as int]);
}

/// Nodes over old ids stand for the same input nodes after the
/// correspondence has grown.
pub proof fn lemma_grown_sides(
    v: GraphView,
    l: Link,
    c1: usize,
    c2: usize,
    k: NodeView,
    n: NodeView,
)
    requires
        l.origin.len() == v.leaders.len(),
        l.target.len() == v.leaders.len(),
        v.holds(n),
    ensures
        l.grown(c1, c2, k).down(n) == l.down(n),
        l.grown(c1, c2, k).across(n) == l.across(n),
{
    let l2 = l.grown(c1, c2, k);
    assert forall|j: int| 0 <= j < n.children.len() implies l2.origin[n.children[j] as int]
        == l.origin[n.children[j] as int] && l2.target[n.children[j] as int]
        == l.target[n.children[j] as int] by {
        assert(v.has(n.children[j]));
    }
    assert(l2.down(n).children =~= l.down(n).children);
    assert(l2.across(n).children =~= l.across(n).children);
}

/// No id was made for the two input nodes that a node stands for which the
/// product graph lacks.
pub proof fn lemma_fresh_pair(v1: GraphView, v2: GraphView, v: GraphView, l: Link, k: NodeView)
    requires
        v.clean(),
        linked(v1, v2, v, l),
        separate(v, l),
        v.holds(k),
        v.lookup(k) is None,
    ensures
        forall|x: usize| v.has(x) ==> #[trigger] l.sig(x) != (l.down(k), l.across(k)),
{
    reveal(GraphView::stores);
    let kk = v.canon(k);
    lemma_canon(v, k);
    assert forall|x: usize| v.has(x) implies #[trigger] l.sig(x) != (l.down(k), l.across(k)) by {
        if l.sig(x) == (l.down(k), l.across(k)) {
            let m = l.made[x as int];
            assert(l.down(m) == l.down(k) && l.across(m) == l.across(k));
            lemma_sides_decide(v1, v2, v, l, m, k);
            assert(v.stores(v.find(x), m));
            let n = choose|n: NodeView| #[trigger]
                v.in_class(v.find(x), n) && v.canon(n) == v.canon(m);
            assert(v.in_class(v.find(x), n));
            lemma_canon(v, n);
            assert(n == kk);
            assert(v.memo.contains_key(kk));
            assert(false);
        }
    }
}

/// Adding a node that the product graph lacks, for the classes `c1` and
/// `c2` that hold what it stands for, keeps the correspondence once it has
/// grown by the new id; only the new class may stand for a pair that
/// another class stands for.
pub proof fn lemma_link_added(
    v1: GraphView,
    v2: GraphView,
    v: GraphView,
    w: GraphView,
    l: Link,
    k: NodeView,
    z: usize,
    c1: usize,
    c2: usize,
)
    requires
        v1.clean(),
        v2.clean(),
        v.clean(),
        linked(v1, v2, v, l),
        separate(v, l),
        v.holds(k),
        v.lookup(k) is None,
        v.leaders.len() < u32::MAX,
        v.added_to(w, k, z),
        v1.in_class(c1, l.down(k)),
        v2.in_class(c2, l.across(k)),
    ensures
        linked(v1, v2, w, l.grown(c1, c2, v.canon(k))),
        separate_but(w, l.grown(c1, c2, v.canon(k)), z),
        w.is_root(z),
        z == v.leaders.len(),
{
    reveal(GraphView::stores);
    let kk = v.canon(k);
    let l2 = l.grown(c1, c2, kk);
    lemma_canon(v, k);
    lemma_added_valid(v, w, k, z);
    lemma_added_grows(v, w, k, z);
    lemma_sides_canon(v, l, k);
    lemma_grown_sides(v, l, c1, c2, kk, kk);
    assert(w.classes[z as int] == seq![kk]);
    assert(w.classes[z as int][0] == kk);
    assert(w.in_class(z, kk));
    assert forall|x: usize| #[trigger] w.has(x) implies v1.is_root(l2.origin[x as int])
        && v2.is_root(l2.target[x as int]) by {
        if x < z {
            assert(v.has(x));
        } else {
            assert(v1.in_class(c1, l.down(k)));
            assert(v2.in_class(c2, l.across(k)));
        }
    }
    assert forall|x: usize| w.has(x) implies l2.same(x, #[trigger] w.find(x)) by {
        if x < z {
            assert(v.has(x));
            assert(w.find(x) == v.find(x));
            assert(v.is_root(v.find(x)));
            assert(l.same(x, v.find(x)));
        }
    }
    assert forall|c: usize, n: NodeView| #[trigger] w.in_class(c, n) implies v1.in_class(
        l2.origin[c as int],
        l2.down(n),
    ) && v2.in_class(l2.target[c as int], l2.across(n)) by {
        if c < z {
            assert(w.classes[c as int] == v.classes[c as int]);
            assert(v.in_class(c, n));
            lemma_grown_sides(v, l, c1, c2, kk, n);
        } else {
            assert(n == kk);
        }
    }
    assert forall|x: usize| #[trigger] w.has(x) implies w.holds(l2.made[x as int]) && w.stores(
        w.find(x),
        l2.made[x as int],
    ) by {
        if x < z {
            assert(v.has(x));
            let m = l.made[x as int];
            assert(v.holds(m));
            assert forall|j: int| 0 <= j < m.children.len() implies w.has(
                #[trigger] m.children[j],
            ) by {
                assert(v.has(m.children[j]));
            }
            lemma_grows_stores(v, w, v.find(x), m);
            assert(v.is_root(v.find(x)));
            assert(w.find(v.find(x)) == v.find(x));
            assert(w.find(x) == v.find(x));
        } else {
            assert forall|j: int| 0 <= j < kk.children.len() implies w.has(
                #[trigger] kk.children[j],
            ) by {
                assert(v.has(kk.children[j]));
            }
            assert(w.in_class(z, kk) && w.canon(kk) == w.canon(kk));
        }
    }
    assert forall|x: usize, y: usize|
        w.has(x) && w.has(y) && #[trigger] l2.sig(x) == #[trigger] l2.sig(y) implies x == y by {
        if x < z {
            assert(v.has(x));
            lemma_grown_sides(v, l, c1, c2, kk, l.made[x as int]);
        }
        if y < z {
            assert(v.has(y));
            lemma_grown_sides(v, l, c1, c2, kk, l.made[y as int]);
        }
        if x < z && y < z {
            assert(l.sig(x) == l.sig(y));
        } else if x < z || y < z {
            let o = if x < z { x } else { y };
            assert(v.has(o));
            lemma_fresh_pair(v1, v2, v, l, k);
            assert(l.sig(o) != (l.down(k), l.across(k)));
            assert(false);
        }
    }
    assert forall|x: usize, y: usize| #[trigger]
        w.is_root(x) && #[trigger] w.is_root(y) && l2.same(x, y) && !l2.same(x, z) implies x
        == y by {
        assert(x != z);
        assert(y != z);
        assert(v.is_root(x) && v.is_root(y));
        assert(l.same(x, y));
    }
}

/// Merging two ids that stand for one pair keeps the correspondence.
pub proof fn lemma_link_united(
    v1: GraphView,
    v2: GraphView,
    v: GraphView,
    w: GraphView,
    l: Link,
    a: usize,
    b: usize,
    merged: bool,
)
    requires
        linked(v1, v2, v, l),
        v.valid(),
        v.has(a),
        v.has(b),
        l.same(a, b),
        v.united_to(w, a, b, merged),
    ensures
        linked(v1, v2, w, l),
{
    lemma_united_valid(v, w, a, b, merged);
    lemma_united_grows(v, w, a, b, merged);
    if merged {
        let ra = v.find(a);
        let rb = v.find(b);
        let to = if ra < rb { ra } else { rb };
        let from = if ra < rb { rb } else { ra };
        assert(l.same(a, ra) && l.same(b, rb));
        assert(l.same(from, to));
        assert(v.is_root(ra) && v.is_root(rb));
        assert forall|x: usize| #[trigger] w.has(x) implies v1.is_root(l.origin[x as int])
            && v2.is_root(l.target[x as int]) by {
            assert(v.has(x));
        }
        assert forall|x: usize| w.has(x) implies l.same(x, #[trigger] w.find(x)) by {
            assert(v.has(x));
            assert(l.same(x, v.find(x)));
        }
        assert forall|c: usize, n: NodeView| #[trigger] w.in_class(c, n) implies v1.in_class(
            l.origin[c as int],
            l.down(n),
        ) && v2.in_class(l.target[c as int], l.across(n)) by {
            lemma_united_nodes(v, w, a, b, merged, c, n);
            let d = choose|d: usize| #[trigger] v.in_class(d, n) && w.find(d) == c;
            assert(v.in_class(d, n));
            assert(w.has(d));
            assert(l.same(d, w.find(d)));
        }
        assert forall|x: usize| #[trigger] w.has(x) implies w.holds(l.made[x as int]) && w.stores(
            w.find(x),
            l.made[x as int],
        ) by {
            assert(v.has(x));
            let m = l.made[x as int];
            assert(v.holds(m));
            assert forall|j: int| 0 <= j < m.children.len() implies w.has(
                #[trigger] m.children[j],
            ) by {
                assert(v.has(m.children[j]));
            }
            lemma_grows_stores(v, w, v.find(x), m);
            assert(w.find(v.find(x)) == w.find(x));
        }
        assert forall|x: usize, y: usize|
            w.has(x) && w.has(y) && #[trigger] l.sig(x) == #[trigger] l.sig(y) implies x == y by {
            assert(v.has(x) && v.has(y));
        }
    }
}

/// Merging ids that stand for the pair of `z` leaves the other classes
/// apart, and what was joined to `z` joined.
pub proof fn lemma_apart_united(
    v: GraphView,
    w: GraphView,
    l: Link,
    z: usize,
    s: usize,
    merged: bool,
    sibs: Seq<usize>,
    j: int,
)
    requires
        v.valid(),
        v.has(z),
        v.has(s),
        forall|x: usize| v.has(x) ==> l.same(x, #[trigger] v.find(x)),
        forall|i: int| 0 <= i < sibs.len() ==> v.has(#[trigger] sibs[i]),
        l.same(z, s),
        v.united_to(w, z, s, merged),
        separate_but(v, l, z),
        0 <= j < sibs.len(),
        sibs[j] == s,
        joined(v, l, z, sibs, j),
    ensures
        separate_but(w, l, z),
        joined(w, l, z, sibs, j + 1),
{
    lemma_united_valid(v, w, z, s, merged);
    let rz = v.find(z);
    let rs = v.find(s);
    assert(v.is_root(rz) && v.is_root(rs));
    assert forall|x: usize, y: usize| #[trigger]
        w.is_root(x) && #[trigger] w.is_root(y) && l.same(x, y) && !l.same(x, z) implies x == y by {
        assert(v.has(x) && v.has(y));
        assert(v.is_root(v.find(x)) && v.is_root(v.find(y)));
        assert(v.is_root(x) && v.is_root(y));
    }
    assert forall|i: int| 0 <= i < j + 1 && l.same(#[trigger] sibs[i], z) implies w.find(sibs[i])
        == w.find(z) by {
        assert(v.has(sibs[i]));
        if i < j {
            assert(v.find(sibs[i]) == v.find(z));
        }
    }
}

/// Once every id made for the class of `z` has been tried, no two classes
/// stand for one pair.
pub proof fn lemma_apart_done(v1: GraphView, v: GraphView, l: Link, z: usize, sibs: Seq<usize>)
    requires
        v.valid(),
        v.has(z),
        forall|x: usize| v.has(x) ==> l.same(x, #[trigger] v.find(x)),
        forall|x: usize| #[trigger]
            v.has(x) && l.origin[x as int] == l.origin[z as int] ==> sibs.contains(x),
        separate_but(v, l, z),
        joined(v, l, z, sibs, sibs.len() as int),
    ensures
        separate(v, l),
{
    assert forall|x: usize, y: usize| #[trigger]
        v.is_root(x) && #[trigger] v.is_root(y) && l.same(x, y) implies x == y by {
        if l.same(x, z) {
            assert(v.has(x) && v.has(y));
            assert(sibs.contains(x));
            assert(sibs.contains(y));
            let i = choose|i: int| 0 <= i < sibs.len() && sibs[i] == x;
            let j = choose|j: int| 0 <= j < sibs.len() && sibs[j] == y;
            assert(l.same(sibs[i], z));
            assert(l.same(sibs[j], z));
            assert(v.find(sibs[i]) == v.find(z));
            assert(v.find(sibs[j]) == v.find(z));
        }
    }
}

/// Standing for one pair of input classes, as a relation on ids.
pub open spec fn same_pair(l: Link) -> spec_fn(usize, usize) -> bool {
    |x: usize, y: usize| l.same(x, y)
}

/// Standing for one pair is a congruence of the product graph: classes that
/// store similar nodes stand for one pair, since no input stores a node
/// twice.
pub proof fn lemma_pairs_congruent(v1: GraphView, v2: GraphView, v: GraphView, l: Link)
    requires
        v1.clean(),
        v2.clean(),
        linked(v1, v2, v, l),
    ensures
        equivalence_relation(same_pair(l)),
        v.respected_by(same_pair(l)),
        v.congruent_under(same_pair(l)),
{
    let r = same_pair(l);
    assert(equivalence_relation(r)) by {
        assert(vstd::relations::reflexive(r));
        assert(vstd::relations::symmetric(r));
        assert(vstd::relations::transitive(r));
    }
    assert(v.respected_by(r)) by {
        assert forall|i: usize| v.has(i) implies r(i, #[trigger] v.find(i)) by {
            assert(l.same(i, v.find(i)));
        }
    }
    assert forall|c: usize, d: usize, n: NodeView, m: NodeView|
        #[trigger] v.in_class(c, n) && #[trigger] v.in_class(d, m) && similar(r, n, m) implies r(
        c,
        d,
    ) by {
        assert forall|j: int| 0 <= j < n.children.len() implies l.same(
            n.children[j],
            m.children[j],
        ) by {
            assert(r(n.children[j], m.children[j]));
        }
        assert(l.down(n).children =~= l.down(m).children);
        assert(l.across(n).children =~= l.across(m).children);
        assert(l.down(n) == l.down(m));
        assert(l.across(n) == l.across(m));
        lemma_one_class(v1, l.down(n), l.origin[c as int], l.origin[d as int]);
        lemma_one_class(v2, l.across(n), l.target[c as int], l.target[d as int]);
    }
}

/// After `rebuild`, equal ids still stand for one pair.
pub proof fn lemma_rebuilt_same(v1: GraphView, v2: GraphView, v: GraphView, w: GraphView, l: Link)
    requires
        v1.clean(),
        v2.clean(),
        linked(v1, v2, v, l),
        v.rebuilt_to(w),
    ensures
        forall|x: usize| w.has(x) ==> l.same(x, #[trigger] w.find(x)),
{
    let r = same_pair(l);
    lemma_pairs_congruent(v1, v2, v, l);
    assert(w.respected_by(r));
    assert forall|x: usize| w.has(x) implies l.same(x, #[trigger] w.find(x)) by {
        assert(r(x, w.find(x)));
    }
}

/// `rebuild` keeps the correspondence, and keeps classes apart.
pub proof fn lemma_link_rebuilt(v1: GraphView, v2: GraphView, v: GraphView, w: GraphView, l: Link)
    requires
        v1.clean(),
        v2.clean(),
        v.valid(),
        linked(v1, v2, v, l),
        v.rebuilt_to(w),
    ensures
        linked(v1, v2, w, l),
        separate(v, l) ==> separate(w, l),
{
    lemma_rebuilt_grows(v, w);
    lemma_rebuilt_same(v1, v2, v, w, l);
    assert forall|x: usize| #[trigger] w.has(x) implies v1.is_root(l.origin[x as int])
        && v2.is_root(l.target[x as int]) by {
        assert(v.has(x));
    }
    assert forall|c: usize, k: NodeView| #[trigger] w.in_class(c, k) implies v1.in_class(
        l.origin[c as int],
        l.down(k),
    ) && v2.in_class(l.target[c as int], l.across(k)) by {
        let (d, n) = choose|d: usize, n: NodeView| #[trigger]
            v.in_class(d, n) && w.find(d) == c && w.canon(n) == k;
        assert(v.in_class(d, n));
        assert(v.holds(n));
        assert(w.holds(n)) by {
            assert forall|j: int| 0 <= j < n.children.len() implies w.has(
                #[trigger] n.children[j],
            ) by {
                assert(v.has(n.children[j]));
            }
        }
        lemma_sides_canon(w, l, n);
        assert(w.has(d));
        assert(l.same(d, w.find(d)));
    }
    assert forall|x: usize| #[trigger] w.has(x) implies w.holds(l.made[x as int]) && w.stores(
        w.find(x),
        l.made[x as int],
    ) by {
        assert(v.has(x));
        let m = l.made[x as int];
        assert(v.holds(m));
        assert forall|j: int| 0 <= j < m.children.len() implies w.has(#[trigger] m.children[j]) by {
            assert(v.has(m.children[j]));
        }
        lemma_grows_stores(v, w, v.find(x), m);
        assert(w.find(v.find(x)) == w.find(x));
    }
    assert forall|x: usize, y: usize|
        w.has(x) && w.has(y) && #[trigger] l.sig(x) == #[trigger] l.sig(y) implies x == y by {
        assert(v.has(x) && v.has(y));
    }
    if separate(v, l) {
        assert forall|x: usize, y: usize| #[trigger]
            w.is_root(x) && #[trigger] w.is_root(y) && l.same(x, y) implies x == y by {
            assert(v.has(x) && v.has(y));
            assert(v.is_root(w.find(x)) && v.is_root(w.find(y)));
        }
    }
}

} // verus!
