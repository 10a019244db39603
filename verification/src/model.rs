//! The mathematical model of a term graph: what a graph is, as plain values,
//! and what each operation of the store does to it.

use vstd::prelude::*;
use vstd::relations::equivalence_relation;

verus! {

/// An operator applied to class ids.
#[verifier::ext_equal]
pub struct NodeView {
    pub op: Seq<char>,
    pub children: Seq<usize>,
}

/// A term graph as plain values.
///
/// Ids are `0 .. leaders.len()`. `leaders[i]` is the representative of the
/// class that id `i` belongs to, `classes[i]` the nodes stored under `i`
/// (none unless `i` is a representative), and `memo` the hash-cons table
/// from nodes to ids.
#[verifier::ext_equal]
pub struct GraphView {
    pub leaders: Seq<usize>,
    pub classes: Seq<Seq<NodeView>>,
    pub memo: Map<NodeView, usize>,
}

/// The nodes `n` and `m` have one operator and one arity, and their children
/// are pairwise related by `r`.
pub open spec fn similar(r: spec_fn(usize, usize) -> bool, n: NodeView, m: NodeView) -> bool {
    &&& n.op == m.op
    &&& n.children.len() == m.children.len()
    &&& forall|j: int| 0 <= j < n.children.len() ==> r(#[trigger] n.children[j], m.children[j])
}

/// The number of nodes in the first `k` classes of `classes`.
pub open spec fn nodes_below(classes: Seq<Seq<NodeView>>, k: nat) -> nat
    decreases k,
{
    if k == 0 || k > classes.len() {
        0
    } else {
        nodes_below(classes, (k - 1) as nat) + classes[k - 1].len()
    }
}

/// The number of representatives among the first `k` ids.
pub open spec fn roots_below(leaders: Seq<usize>, k: nat) -> nat
    decreases k,
{
    if k == 0 || k > leaders.len() {
        0
    } else {
        roots_below(leaders, (k - 1) as nat) + if leaders[k - 1] == k - 1 {
            1nat
        } else {
            0nat
        }
    }
}

impl GraphView {
    /// The graph without ids.
    pub open spec fn empty() -> GraphView {
        GraphView { leaders: Seq::empty(), classes: Seq::empty(), memo: Map::empty() }
    }

    /// `id` is an id of this graph.
    pub open spec fn has(self, id: usize) -> bool {
        (id as int) < self.leaders.len()
    }

    /// The representative of the class of `id`.
    pub open spec fn find(self, id: usize) -> usize {
        self.leaders[id as int]
    }

    /// `id` is the representative of its class.
    pub open spec fn is_root(self, id: usize) -> bool {
        self.has(id) && self.find(id) == id
    }

    /// Every child of `n` is an id of this graph.
    pub open spec fn holds(self, n: NodeView) -> bool {
        forall|j: int| 0 <= j < n.children.len() ==> self.has(#[trigger] n.children[j])
    }

    /// Every child of `n` is a representative.
    pub open spec fn is_canonical(self, n: NodeView) -> bool {
        forall|j: int| 0 <= j < n.children.len() ==> self.is_root(#[trigger] n.children[j])
    }

    /// `n` with each child replaced by its representative.
    pub open spec fn canon(self, n: NodeView) -> NodeView {
        NodeView {
            op: n.op,
            children: Seq::new(n.children.len(), |j: int| self.find(n.children[j])),
        }
    }

    /// The node `n` is stored, letter for letter, under the id `c`.
    pub open spec fn in_class(self, c: usize, n: NodeView) -> bool {
        self.has(c) && self.classes[c as int].contains(n)
    }

    /// Some class stores `n`, letter for letter.
    pub open spec fn present(self, n: NodeView) -> bool {
        exists|c: usize| #[trigger] self.in_class(c, n)
    }

    /// Some node stored under `c` has the canonical form that `k` has.
    #[verifier::opaque]
    pub open spec fn stores(self, c: usize, k: NodeView) -> bool {
        exists|n: NodeView| #[trigger] self.in_class(c, n) && self.canon(n) == self.canon(k)
    }

    /// Some class stores a form of `k`.
    pub open spec fn knows(self, k: NodeView) -> bool {
        exists|c: usize| #[trigger] self.stores(c, k)
    }

    /// What probing the hash-cons table with the canonical form of `n` gives.
    pub open spec fn lookup(self, n: NodeView) -> Option<usize> {
        let k = self.canon(n);
        if self.memo.contains_key(k) {
            Some(self.find(self.memo[k]))
        } else {
            None
        }
    }

    /// The number of stored nodes, all classes together.
    pub open spec fn node_total(self) -> nat {
        nodes_below(self.classes, self.classes.len())
    }

    /// The number of classes.
    pub open spec fn class_total(self) -> nat {
        roots_below(self.leaders, self.leaders.len())
    }

    /// What holds of a graph in every state, rebuilt or not.
    pub open spec fn valid(self) -> bool {
        // every id has its list of nodes
        &&& self.classes.len() == self.leaders.len()
        // the ids fit the 32 bits that the store keeps an id in
        &&& self.leaders.len() <= u32::MAX
        // `find` is idempotent, and gives the smallest id of a class
        &&& forall|i: usize|
            self.has(i) ==> self.is_root(#[trigger] self.find(i)) && self.find(i) <= i
        // only representatives store nodes, and those are over ids
        &&& forall|i: usize, n: NodeView| #[trigger]
            self.in_class(i, n) ==> self.is_root(i) && self.holds(n)
        // the table's keys are over ids, and it gives ids
        &&& forall|k: NodeView| #[trigger]
            self.memo.contains_key(k) ==> self.holds(k) && self.has(self.memo[k])
    }

    /// The graph is congruence-closed and hash-consed. So no node is stored
    /// in two classes, and nodes with one operator and children in the same
    /// classes are in one class.
    pub open spec fn clean(self) -> bool {
        &&& self.valid()
        // every stored node is canonical, and the table sends it to its class
        &&& forall|c: usize, n: NodeView| #[trigger]
            self.in_class(c, n) ==> self.is_canonical(n) && self.memo.contains_key(n) && self.find(
                self.memo[n],
            ) == c
        // every canonical key of the table is stored in the class it is sent to
        &&& forall|k: NodeView| #[trigger]
            self.memo.contains_key(k) && self.is_canonical(k) ==> self.in_class(
                self.find(self.memo[k]),
                k,
            )
    }

    /// The relation `r` holds between every id and its representative.
    pub open spec fn respected_by(self, r: spec_fn(usize, usize) -> bool) -> bool {
        forall|i: usize| self.has(i) ==> r(i, #[trigger] self.find(i))
    }

    /// Under `r`, classes that store similar nodes are related.
    pub open spec fn congruent_under(self, r: spec_fn(usize, usize) -> bool) -> bool {
        forall|c: usize, d: usize, n: NodeView, m: NodeView|
            #[trigger] self.in_class(c, n) && #[trigger] self.in_class(d, m) && similar(r, n, m)
                ==> r(c, d)
    }

    /// `w` is `self` after `add` of `n`, which returned `id`.
    pub open spec fn added_to(self, w: GraphView, n: NodeView, id: usize) -> bool {
        match self.lookup(n) {
            // the table knows the node: its class is returned, nothing changes
            Some(c) => id == c && w == self,
            // else the next id is made, with a class that stores the
            // canonical node, and a table entry for it
            None => {
                &&& id == self.leaders.len()
                &&& w.leaders == self.leaders.push(id)
                &&& w.classes == self.classes.push(seq![self.canon(n)])
                &&& w.memo == self.memo.insert(self.canon(n), id)
            },
        }
    }

    /// `w` is `self` after `union` of `a` and `b`, which returned `merged`.
    pub open spec fn united_to(self, w: GraphView, a: usize, b: usize, merged: bool) -> bool {
        let ra = self.find(a);
        let rb = self.find(b);
        let to = if ra < rb { ra } else { rb };
        let from = if ra < rb { rb } else { ra };
        &&& merged == (ra != rb)
        &&& !merged ==> w == self
        &&& merged ==> {
            // the smaller representative stays one, for both classes
            &&& w.leaders == Seq::new(
                self.leaders.len(),
                |i: int| if self.leaders[i] == from { to } else { self.leaders[i] },
            )
            // the table stays as it is
            &&& w.memo == self.memo
            // the nodes of both go to the representative, as they are
            // written, the shorter list behind the longer
            &&& w.classes == self.classes.update(
                to as int,
                if self.classes[to as int].len() < self.classes[from as int].len() {
                    self.classes[from as int] + self.classes[to as int]
                } else {
                    self.classes[to as int] + self.classes[from as int]
                },
            ).update(from as int, Seq::empty())
        }
    }

    /// `w` is `self` after `rebuild`: the least congruence-closed graph that
    /// keeps every id, every equality and every node of `self`.
    pub open spec fn rebuilt_to(self, w: GraphView) -> bool {
        // the ids stay
        &&& w.leaders.len() == self.leaders.len()
        // congruence and the uniqueness of nodes are restored
        &&& w.clean()
        // every equality is kept, and every representative was one before
        &&& forall|i: usize|
            self.has(i) ==> w.find(#[trigger] self.find(i)) == w.find(i) && self.is_root(
                #[trigger] w.find(i),
            )
        // every node is kept, in its canonical form, in the class of its id
        &&& forall|c: usize, n: NodeView| #[trigger]
            self.in_class(c, n) ==> w.in_class(w.find(c), w.canon(n))
        // and no other node is stored
        &&& forall|c: usize, k: NodeView| #[trigger]
            w.in_class(c, k) ==> exists|d: usize, n: NodeView| #[trigger]
                self.in_class(d, n) && w.find(d) == c && w.canon(n) == k
        // no more is merged than congruence asks for: whatever equivalence
        // on the ids keeps the old equalities and is a congruence for the
        // old nodes, it keeps the new equalities too
        &&& forall|r: spec_fn(usize, usize) -> bool|
            equivalence_relation(r) && self.respected_by(r) && #[trigger] self.congruent_under(r)
                ==> w.respected_by(r)
    }
}

/// Adding a node leaves a graph valid.
pub proof fn lemma_added_valid(v: GraphView, w: GraphView, n: NodeView, id: usize)
    requires
        v.valid(),
        v.holds(n),
        v.leaders.len() < u32::MAX,
        v.added_to(w, n, id),
    ensures
        w.valid(),
        w.leaders.len() == v.leaders.len() + (if v.lookup(n) is None { 1nat } else { 0nat }),
        v.lookup(n) is None ==> id == v.leaders.len(),
        v.lookup(n) is Some ==> id < v.leaders.len(),
{
    if v.lookup(n) is None {
        let k = v.canon(n);
        assert(v.holds(k)) by {
            assert forall|j: int| 0 <= j < k.children.len() implies v.has(
                #[trigger] k.children[j],
            ) by {
                assert(v.has(n.children[j]));
                assert(v.is_root(v.find(n.children[j])));
            }
        }
        assert forall|i: usize| w.has(i) implies w.is_root(#[trigger] w.find(i)) && w.find(i)
            <= i by {
            if i < v.leaders.len() {
                assert(w.find(i) == v.find(i));
                assert(v.is_root(v.find(i)));
            }
        }
        assert forall|i: usize, m: NodeView| #[trigger] w.in_class(i, m) implies w.is_root(i)
            && w.holds(m) by {
            if i < v.leaders.len() {
                assert(v.in_class(i, m));
                assert(v.find(i) == w.find(i));
            } else {
                assert(w.classes[i as int] == seq![k]);
                assert(m == k);
            }
        }
        assert forall|m: NodeView| #[trigger] w.memo.contains_key(m) implies w.holds(m) && w.has(
            w.memo[m],
        ) by {
            if m != k {
                assert(v.memo.contains_key(m));
            }
        }
    } else {
        assert(v.memo.contains_key(v.canon(n)));
        assert(v.is_root(v.find(v.memo[v.canon(n)])));
    }
}

/// Adding a node leaves a congruence-closed graph congruence-closed.
pub proof fn lemma_added_clean(v: GraphView, w: GraphView, n: NodeView, id: usize)
    requires
        v.clean(),
        v.holds(n),
        v.leaders.len() < u32::MAX,
        v.added_to(w, n, id),
    ensures
        w.clean(),
{
    lemma_added_valid(v, w, n, id);
    if v.lookup(n) is None {
        let k = v.canon(n);
        assert(w.is_canonical(k)) by {
            assert forall|j: int| 0 <= j < k.children.len() implies w.is_root(
                #[trigger] k.children[j],
            ) by {
                assert(v.has(n.children[j]));
                assert(v.is_root(v.find(n.children[j])));
                assert(w.find(k.children[j]) == v.find(k.children[j]));
            }
        }
        assert forall|c: usize, m: NodeView| #[trigger] w.in_class(c, m) implies w.is_canonical(m)
            && w.memo.contains_key(m) && w.find(w.memo[m]) == c by {
            if c < v.leaders.len() {
                assert(v.in_class(c, m));
                assert(v.is_canonical(m));
                assert(m != k);
                assert(w.find(w.memo[m]) == v.find(v.memo[m]));
                assert forall|j: int| 0 <= j < m.children.len() implies w.is_root(
                    #[trigger] m.children[j],
                ) by {
                    assert(v.is_root(m.children[j]));
                    assert(w.find(m.children[j]) == v.find(m.children[j]));
                }
            } else {
                assert(w.classes[c as int] == seq![k]);
                assert(m == k);
            }
        }
        assert forall|m: NodeView| #[trigger]
            w.memo.contains_key(m) && w.is_canonical(m) implies w.in_class(
            w.find(w.memo[m]),
            m,
        ) by {
            if m == k {
                assert(w.classes[id as int] == seq![k]);
                assert(w.classes[id as int][0] == k);
            } else {
                assert(v.memo.contains_key(m));
                assert(v.holds(m));
                assert forall|j: int| 0 <= j < m.children.len() implies v.is_root(
                    #[trigger] m.children[j],
                ) by {
                    assert(w.is_root(m.children[j]));
                    assert(v.has(m.children[j]));
                    assert(w.find(m.children[j]) == v.find(m.children[j]));
                }
                assert(v.in_class(v.find(v.memo[m]), m));
                assert(w.find(w.memo[m]) == v.find(v.memo[m]));
                assert(w.classes[v.find(v.memo[m]) as int] == v.classes[v.find(v.memo[m]) as int]);
            }
        }
    }
}

/// A union leaves a graph valid.
pub proof fn lemma_united_valid(v: GraphView, w: GraphView, a: usize, b: usize, merged: bool)
    requires
        v.valid(),
        v.has(a),
        v.has(b),
        v.united_to(w, a, b, merged),
    ensures
        w.valid(),
        w.leaders.len() == v.leaders.len(),
{
    if merged {
        let ra = v.find(a);
        let rb = v.find(b);
        let to = if ra < rb { ra } else { rb };
        let from = if ra < rb { rb } else { ra };
        assert(v.is_root(ra) && v.is_root(rb));
        assert forall|i: usize| w.has(i) implies w.is_root(#[trigger] w.find(i)) && w.find(i)
            <= i by {
            assert(v.is_root(v.find(i)));
        }
        assert forall|i: usize, m: NodeView| #[trigger] w.in_class(i, m) implies w.is_root(i)
            && w.holds(m) by {
            if i == to {
                assert(v.in_class(to, m) || v.in_class(from, m));
            } else if i == from {
            } else {
                assert(v.in_class(i, m));
            }
        }
    }
}

/// A class stores a form of every node that has the canonical form of one
/// of its nodes.
pub proof fn lemma_stores(v: GraphView, c: usize, n: NodeView, k: NodeView)
    requires
        v.in_class(c, n),
        v.canon(n) == v.canon(k),
    ensures
        v.stores(c, k),
        v.knows(k),
{
    reveal(GraphView::stores);
    assert(v.in_class(c, n) && v.canon(n) == v.canon(k));
    assert(v.stores(c, k));
}

/// The canonical form of a node over ids is over ids, canonical, and its own
/// canonical form.
pub proof fn lemma_canon(v: GraphView, n: NodeView)
    requires
        v.valid(),
        v.holds(n),
    ensures
        v.holds(v.canon(n)),
        v.is_canonical(v.canon(n)),
        v.canon(v.canon(n)) == v.canon(n),
        v.is_canonical(n) ==> v.canon(n) == n,
{
    let k = v.canon(n);
    assert forall|j: int| 0 <= j < k.children.len() implies v.is_root(#[trigger] k.children[j]) by {
        assert(v.has(n.children[j]));
        assert(v.is_root(v.find(n.children[j])));
    }
    assert(v.canon(k).children =~= k.children);
    if v.is_canonical(n) {
        assert forall|j: int| 0 <= j < n.children.len() implies k.children[j] == n.children[j] by {
            assert(v.is_root(n.children[j]));
        }
        assert(k.children =~= n.children);
    }
}

/// What `lookup` says of a congruence-closed graph: the class that stores
/// the canonical form, or that no class stores it.
pub proof fn lemma_lookup_clean(v: GraphView, n: NodeView)
    requires
        v.clean(),
        v.holds(n),
    ensures
        match v.lookup(n) {
            Some(c) => v.in_class(c, v.canon(n)) && v.is_root(c),
            None => !v.present(v.canon(n)),
        },
{
    lemma_canon(v, n);
    let k = v.canon(n);
    if v.memo.contains_key(k) {
        assert(v.in_class(v.find(v.memo[k]), k));
    } else {
        if v.present(k) {
            let c = choose|c: usize| #[trigger] v.in_class(c, k);
            assert(v.in_class(c, k));
        }
    }
}

/// No node is stored in two classes of a congruence-closed graph.
pub proof fn lemma_one_class(v: GraphView, n: NodeView, c: usize, d: usize)
    requires
        v.clean(),
        v.in_class(c, n),
        v.in_class(d, n),
    ensures
        c == d,
{
}

} // verus!
