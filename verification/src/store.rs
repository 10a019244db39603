//! The e-graph store: a hash-consed node table, a union-find over class ids
//! and the class registry, kept by `egg`.

use crate::model::lemma_added_clean;
use crate::model::lemma_added_valid;
use crate::model::lemma_lookup_clean;
use crate::model::lemma_united_valid;
use crate::model::GraphView;
use crate::model::NodeView;
use crate::node::ids_of;
use crate::node::views;
use crate::node::EClass;
use crate::node::Node;
use vstd::prelude::*;

verus! {

/// The `egg` graph over operator names, with no analysis. Verus sees
/// nothing inside it: what it holds is named below.
#[verifier::external_body]
pub struct EggStore {
    inner: egg::EGraph<egg::SymbolLang, ()>,
}

/// For each id, in order, the representative that the union-find gives.
pub uninterp spec fn egraph_leaders(s: EggStore) -> Seq<usize>;

/// For each id, in order, the nodes that the class registry stores under it,
/// as they are stored; none where the id is no representative.
pub uninterp spec fn egraph_classes(s: EggStore) -> Seq<Seq<NodeView>>;

/// The hash-cons table: for each node that is a key, the id it is kept for.
pub uninterp spec fn egraph_memo(s: EggStore) -> Map<NodeView, usize>;

/// The store as plain values.
pub open spec fn store_view(s: EggStore) -> GraphView {
    GraphView { leaders: egraph_leaders(s), classes: egraph_classes(s), memo: egraph_memo(s) }
}

/// `EGraph::new`: the graph it makes has no id, no node and no table entry.
#[verifier::external_body]
fn egg_new() -> (s: EggStore)
    ensures
        egraph_leaders(s) == GraphView::empty().leaders,
        egraph_classes(s) == GraphView::empty().classes,
        egraph_memo(s) == GraphView::empty().memo,
{
    EggStore { inner: egg::EGraph::new(()) }
}

/// `EGraph::find`: the union-find's representative of `id`. It panics on a
/// number that is no id, so those are left out. `egg` keeps an id in 32
/// bits: a graph with more ids than that is left out here and below.
#[verifier::external_body]
fn egg_find(s: &EggStore, id: usize) -> (r: usize)
    requires
        id < egraph_leaders(*s).len(),
        egraph_leaders(*s).len() <= u32::MAX,
    ensures
        r == egraph_leaders(*s)[id as int],
{
    usize::from(s.inner.find(egg::Id::from(id)))
}

/// `EGraph::lookup`: it replaces each child by its representative, probes
/// the table with that node, and gives the representative of the id found.
#[verifier::external_body]
fn egg_lookup(s: &EggStore, node: &Node) -> (r: Option<usize>)
    requires
        store_view(*s).holds(node@),
        egraph_leaders(*s).len() <= u32::MAX,
    ensures
        r == store_view(*s).lookup(node@),
{
    let children = node.children.iter().map(|c| egg::Id::from(*c)).collect();
    s.inner.lookup(egg::SymbolLang::new(node.op.as_str(), children)).map(usize::from)
}

/// `EGraph::add`: where `lookup` finds the node it gives that id and changes
/// nothing; else it makes the next id, a class of its own that stores the
/// canonical node, and a table entry for it. Ids are 32 bits wide.
#[verifier::external_body]
fn egg_add(s: &mut EggStore, node: &Node) -> (id: usize)
    requires
        store_view(*old(s)).holds(node@),
        egraph_leaders(*old(s)).len() < u32::MAX,
    ensures
        store_view(*old(s)).added_to(store_view(*final(s)), node@, id),
{
    let children = node.children.iter().map(|c| egg::Id::from(*c)).collect();
    usize::from(s.inner.add(egg::SymbolLang::new(node.op.as_str(), children)))
}

/// `EGraph::union`: it merges the classes of `a` and `b` unless they are
/// one, and says whether it did (the second part of what `egg` returns).
/// The smaller representative stays one and gets the other's nodes, the
/// shorter list behind the longer. It leaves table and nodes as they were
/// written: the graph is congruence-closed again only after `rebuild`.
#[verifier::external_body]
fn egg_union(s: &mut EggStore, a: usize, b: usize) -> (merged: bool)
    requires
        a < egraph_leaders(*old(s)).len(),
        b < egraph_leaders(*old(s)).len(),
        egraph_leaders(*old(s)).len() <= u32::MAX,
    ensures
        store_view(*old(s)).united_to(store_view(*final(s)), a, b, merged),
{
    s.inner.union(egg::Id::from(a), egg::Id::from(b)).1
}

/// `EGraph::rebuild`: it restores congruence and the uniqueness of nodes,
/// merging classes only where congruence asks for it. Claimed of it: the
/// ids stay; afterwards every stored node is canonical and the table is in
/// step with the classes; every equality is kept and every representative
/// was one before; each class stores the canonical forms of the nodes of
/// the classes merged into it, and nothing else; and no more is merged than
/// every congruence on the ids that keeps the old equalities would merge.
#[verifier::external_body]
fn egg_rebuild(s: &mut EggStore)
    requires
        store_view(*old(s)).valid(),
    ensures
        store_view(*old(s)).rebuilt_to(store_view(*final(s))),
{
    s.inner.rebuild();
}

/// `EGraph::classes`: the ids of the classes, which are the representatives,
/// in rising order.
#[verifier::external_body]
fn egg_class_ids(s: &EggStore) -> (ids: Vec<usize>)
    ensures
        forall|i: int, j: int| 0 <= i < j < ids.len() ==> ids[i] < ids[j],
        forall|c: usize| ids@.contains(c) <==> store_view(*s).is_root(c),
{
    s.inner.classes().map(|c| usize::from(c.id)).collect()
}

/// The field `nodes` of the class that `EGraph::index` gives for a
/// representative: its nodes as they are stored.
#[verifier::external_body]
fn egg_class_nodes(s: &EggStore, id: usize) -> (nodes: Vec<Node>)
    requires
        store_view(*s).is_root(id),
        egraph_leaders(*s).len() <= u32::MAX,
    ensures
        nodes.len() == egraph_classes(*s)[id as int].len(),
        forall|j: int|
            0 <= j < nodes.len() ==> (#[trigger] nodes[j])@ == egraph_classes(*s)[id as int][j],
{
    s.inner[egg::Id::from(id)].nodes.iter().map(
        |n| Node {
            op: n.op.as_str().to_owned(),
            children: n.children.iter().map(|c| usize::from(*c)).collect(),
        },
    ).collect()
}

/// `EGraph::total_number_of_nodes`: the lengths of all classes' node lists,
/// summed.
#[verifier::external_body]
fn egg_node_total(s: &EggStore) -> (total: usize)
    ensures
        total == store_view(*s).node_total(),
{
    s.inner.total_number_of_nodes()
}

/// A term graph: equivalence classes of nodes, closed under congruence
/// whenever it is `clean`.
pub struct TermGraph {
    store: EggStore,
    count: usize,
}

impl View for TermGraph {
    type V = GraphView;

    closed spec fn view(&self) -> GraphView {
        store_view(self.store)
    }
}

impl TermGraph {
    /// The graph keeps count of its ids.
    pub closed spec fn counted(&self) -> bool {
        self.count == self@.leaders.len()
    }

    /// What holds of every graph that this library hands out, rebuilt or
    /// not.
    pub open spec fn inv(&self) -> bool {
        self@.valid() && self.counted()
    }

    /// The graph is usable and congruence-closed.
    pub open spec fn clean(&self) -> bool {
        self.inv() && self@.clean()
    }

    /// The empty graph.
    pub fn new() -> (g: TermGraph)
        ensures
            g.clean(),
            g@ == GraphView::empty(),
    {
        let g = TermGraph { store: egg_new(), count: 0 };
        assert(g@ =~= GraphView::empty());
        g
    }

    /// The number of ids ever made, merged ones included.
    pub fn num_ids(&self) -> (n: usize)
        requires
            self.inv(),
        ensures
            n == self@.leaders.len(),
    {
        self.count
    }

    /// The representative of the class of `id`: the smallest id of the
    /// class, which is its own representative.
    pub fn find(&self, id: usize) -> (r: usize)
        requires
            self.inv(),
            self@.has(id),
        ensures
            r == self@.find(id),
            self@.is_root(r),
            r <= id,
    {
        egg_find(&self.store, id)
    }

    /// The class that the table gives for the canonical form of `node`. In a
    /// congruence-closed graph that is the class which stores the canonical
    /// form, if one does. The graph stays as it is.
    pub fn lookup(&self, node: &Node) -> (r: Option<usize>)
        requires
            self.inv(),
            self@.holds(node@),
        ensures
            r == self@.lookup(node@),
            self@.clean() ==> match r {
                Some(c) => self@.is_root(c) && self@.in_class(c, self@.canon(node@)),
                None => !self@.present(self@.canon(node@)),
            },
    {
        proof {
            if self@.clean() {
                lemma_lookup_clean(self@, node@);
            }
        }
        egg_lookup(&self.store, node)
    }

    /// Adds `node`: where the table knows its canonical form, the graph stays
    /// as it is and the class found is returned; else the node gets the next
    /// id and a class of its own.
    pub fn add(&mut self, node: &Node) -> (id: usize)
        requires
            old(self).inv(),
            old(self)@.holds(node@),
            old(self)@.leaders.len() < u32::MAX,
        ensures
            final(self).inv(),
            old(self)@.added_to(final(self)@, node@, id),
            old(self)@.clean() ==> final(self)@.clean(),
            old(self)@.clean() ==> final(self)@.is_root(id),
            old(self)@.clean() ==> final(self)@.in_class(id, old(self)@.canon(node@)),
    {
        let ghost v = self@;
        let id = egg_add(&mut self.store, node);
        if id == self.count {
            self.count = self.count + 1;
        }
        proof {
            lemma_added_valid(v, self@, node@, id);
            if v.clean() {
                lemma_added_clean(v, self@, node@, id);
                lemma_lookup_clean(v, node@);
                if v.lookup(node@) is None {
                    assert(self@.classes[id as int][0] == v.canon(node@));
                }
            }
        }
        id
    }

    /// Merges the classes of `a` and `b` and says whether they were two.
    /// Congruence is restored by `rebuild` only.
    pub fn union(&mut self, a: usize, b: usize) -> (merged: bool)
        requires
            old(self).inv(),
            old(self)@.has(a),
            old(self)@.has(b),
        ensures
            final(self).inv(),
            old(self)@.united_to(final(self)@, a, b, merged),
            merged == (old(self)@.find(a) != old(self)@.find(b)),
            final(self)@.find(a) == final(self)@.find(b),
    {
        let ghost v = self@;
        let merged = egg_union(&mut self.store, a, b);
        proof {
            lemma_united_valid(v, self@, a, b, merged);
            assert(v.is_root(v.find(a)) && v.is_root(v.find(b)));
        }
        merged
    }

    /// Restores congruence closure and the uniqueness of nodes.
    pub fn rebuild(&mut self)
        requires
            old(self).inv(),
        ensures
            final(self).clean(),
            old(self)@.rebuilt_to(final(self)@),
    {
        egg_rebuild(&mut self.store);
    }

    /// The representatives, in rising order.
    pub fn class_ids(&self) -> (ids: Vec<usize>)
        requires
            self.inv(),
        ensures
            forall|i: int, j: int| 0 <= i < j < ids.len() ==> ids[i] < ids[j],
            forall|c: usize| ids@.contains(c) <==> self@.is_root(c),
    {
        egg_class_ids(&self.store)
    }

    /// The nodes stored in the class of the representative `id`.
    pub fn class_nodes(&self, id: usize) -> (nodes: Vec<Node>)
        requires
            self.inv(),
            self@.is_root(id),
        ensures
            nodes.len() == self@.classes[id as int].len(),
            forall|j: int|
                0 <= j < nodes.len() ==> (#[trigger] nodes[j])@ == self@.classes[id as int][j],
    {
        egg_class_nodes(&self.store, id)
    }

    /// The classes, in rising order of their ids, each with the nodes
    /// stored in it.
    pub fn classes(&self) -> (classes: Vec<EClass>)
        requires
            self.inv(),
        ensures
            forall|i: int, j: int|
                0 <= i < j < classes.len() ==> (#[trigger] classes[i]).id < (
                #[trigger] classes[j]).id,
            forall|c: usize| ids_of(classes@).contains(c) <==> self@.is_root(c),
            forall|i: int|
                0 <= i < classes.len() ==> views((#[trigger] classes[i]).nodes@)
                    == self@.classes[classes[i].id as int],
    {
        let ids = self.class_ids();
        let mut classes: Vec<EClass> = Vec::new();
        let mut i: usize = 0;
        while i < ids.len()
            invariant
                i <= ids.len(),
                self.inv(),
                classes.len() == i,
                forall|c: usize| ids@.contains(c) <==> self@.is_root(c),
                forall|k: int| 0 <= k < i ==> (#[trigger] classes[k]).id == ids[k],
                forall|k: int|
                    0 <= k < i ==> views((#[trigger] classes[k]).nodes@)
                        == self@.classes[ids[k] as int],
            decreases ids.len() - i,
        {
            let id = ids[i];
            assert(ids@.contains(id));
            let nodes = self.class_nodes(id);
            assert(views(nodes@) =~= self@.classes[id as int]);
            classes.push(EClass { id, nodes });
            i = i + 1;
        }
        assert(ids_of(classes@) =~= ids@);
        classes
    }

    /// The number of stored nodes, all classes together.
    pub fn node_total(&self) -> (total: usize)
        requires
            self.inv(),
        ensures
            total == self@.node_total(),
    {
        egg_node_total(&self.store)
    }
}

} // verus!
