//! The intersection engine: a fixpoint over the nodes of the first input,
//! each step of which considers one candidate node for the product graph.

use crate::counting::lemma_ids_fit;
use crate::counting::slack;
use crate::growth::grows;
use crate::growth::lemma_grows_ids;
use crate::growth::lemma_grows_itself;
use crate::growth::lemma_grows_knows;
use crate::growth::lemma_grows_twice;
use crate::link::lemma_intersection;
use crate::link::saturated;
use crate::link::separate;
use crate::link::Link;
use crate::model::GraphView;
use crate::model::NodeView;
use crate::moves::lemma_candidates;
use crate::moves::lemma_image_of;
use crate::moves::lemma_merge_done;
use crate::moves::lemma_merge_peek;
use crate::moves::lemma_move_absent;
use crate::moves::lemma_move_found;
use crate::moves::lemma_move_new;
use crate::moves::lemma_move_rebuilt;
use crate::moves::lemma_move_room;
use crate::moves::lemma_move_skipped;
use crate::moves::lemma_move_united;
use crate::moves::lemma_sizes;
use crate::moves::lemma_traces;
use crate::moves::lemma_start;
use crate::moves::noted;
use crate::moves::sound_at;
use crate::node::ids_of;
use crate::node::views;
use crate::node::EClass;
use crate::node::Node;
use crate::product::flatmap_children;
use crate::product::rows;
use crate::product::substitutions;
use crate::progress::done;
use crate::progress::extends;
use crate::progress::lemma_extends_sides;
use crate::progress::lemma_node_done;
use crate::progress::lemma_settled_keeps;
use crate::progress::lemma_swept_all;
use crate::progress::lemma_swept_keeps;
use crate::progress::settled;
use crate::progress::swept;
use crate::steps::joined;
use crate::model::lemma_lookup_clean;
use crate::steps::separate_but;
use crate::store::TermGraph;
use crate::terms::is_intersection;
use crate::terms::traces;
use vstd::prelude::*;

verus! {

/// A construction under way: the product graph so far, for each class of
/// the first input the ids made for it, for each id the class of the second
/// input recorded for it, and the correspondence that the proof follows.
struct Product {
    out: TermGraph,
    forward: Vec<Vec<usize>>,
    image: Vec<usize>,
    merges: usize,
    link: Ghost<Link>,
}

/// An intersection with the maps that trace it back to its inputs.
pub struct Traced {
    /// The intersection.
    pub graph: TermGraph,
    /// For each id of the first input, the ids of `graph` made for its
    /// class; none where the id is no representative.
    pub forward: Vec<Vec<usize>>,
    /// For each id of `graph`, an id of the class of the second input that
    /// it corresponds to.
    pub image: Vec<usize>,
    /// How many calls of `union` merged two classes of `graph`.
    pub merges: usize,
}

/// Whether `x` occurs in `list`.
fn contains(list: &Vec<usize>, x: usize) -> (found: bool)
    ensures
        found == list@.contains(x),
{
    let mut i: usize = 0;
    while i < list.len()
        invariant
            i <= list.len(),
            forall|j: int| 0 <= j < i ==> list[j] != x,
        decreases list.len() - i,
    {
        if list[i] == x {
            return true;
        }
        i = i + 1;
    }
    false
}

/// Puts `x` into the set `sets[i]`, unless it is there.
fn note(sets: &mut Vec<Vec<usize>>, i: usize, x: usize)
    requires
        i < old(sets).len(),
    ensures
        rows(final(sets)@) == noted(rows(old(sets)@), i, x),
{
    if !contains(&sets[i], x) {
        let mut set = sets[i].clone();
        assert(set@ =~= sets[i as int]@);
        set.push(x);
        sets.set(i, set);
    }
    assert(rows(sets@) =~= noted(rows(old(sets)@), i, x));
}

impl Product {
    /// What holds of the construction between two operations of the store.
    spec fn sound(&self, v1: GraphView, v2: GraphView) -> bool {
        &&& self.out.inv()
        &&& sound_at(v1, v2, self.out@, self.link@, self.image@, rows(self.forward@))
        &&& self.merges + self.out@.class_total() <= self.out@.leaders.len()
    }

    /// What holds of the construction between two candidates.
    spec fn wf(&self, v1: GraphView, v2: GraphView) -> bool {
        &&& self.sound(v1, v2)
        &&& self.out@.clean()
        &&& separate(self.out@, self.link@)
    }

    /// The node of the second input to look for: the candidate with each
    /// child replaced by the image recorded for the child's class.
    fn image_node(
        &self,
        cand: &Node,
        Ghost(v1): Ghost<GraphView>,
        Ghost(v2): Ghost<GraphView>,
    ) -> (n2: Node)
        requires
            self.sound(v1, v2),
            self.out@.holds(cand@),
        ensures
            v2.holds(n2@),
            v2.canon(n2@) == self.link@.across(cand@),
    {
        let ghost v = self.out@;
        let ghost l = self.link@;
        let mut kids: Vec<usize> = Vec::new();
        let mut j: usize = 0;
        while j < cand.children.len()
            invariant
                j <= cand.children.len(),
                kids.len() == j,
                self.sound(v1, v2),
                v == self.out@,
                l == self.link@,
                v.holds(cand@),
                forall|i: int|
                    0 <= i < j ==> v2.has(#[trigger] kids[i]) && v2.find(kids[i])
                        == l.target[cand.children[i] as int],
            decreases cand.children.len() - j,
        {
            let x = cand.children[j];
            assert(v.has(cand@.children[j as int]));
            proof {
                lemma_image_of(v1, v2, v, l, self.image@, rows(self.forward@), x);
            }
            let r = self.out.find(x);
            kids.push(self.image[r]);
            j = j + 1;
        }
        let n2 = cand.with_children(kids);
        proof {
            assert(v2.canon(n2@).children =~= l.across(cand@).children);
        }
        n2
    }

    /// Finds or makes the class of the candidate, records its image and
    /// puts it into the forward set of the class `c1`. Says which class it
    /// is and whether it was made.
    fn place(
        &mut self,
        c1: usize,
        c2: usize,
        cand: &Node,
        Ghost(v1): Ghost<GraphView>,
        Ghost(v2): Ghost<GraphView>,
    ) -> (r: (usize, bool))
        requires
            v1.clean(),
            v2.clean(),
            v1.node_total() * v2.node_total() <= u32::MAX,
            old(self).wf(v1, v2),
            old(self).out@.holds(cand@),
            v1.in_class(c1, old(self).link@.down(cand@)),
            v2.in_class(c2, old(self).link@.across(cand@)),
        ensures
            final(self).sound(v1, v2),
            separate_but(final(self).out@, final(self).link@, r.0),
            final(self).out@.is_root(r.0),
            final(self).link@.origin[r.0 as int] == c1,
            final(self).link@.target[r.0 as int] == c2,
            c1 < final(self).forward.len(),
            v2.is_root(c2),
            final(self).out@.knows(cand@),
            grows(old(self).out@, final(self).out@),
            extends(old(self).link@, final(self).link@),
            slack(v1, v2, final(self).out@) + (if r.1 { 1int } else { 0int }) == slack(
                v1,
                v2,
                old(self).out@,
            ),
            !r.1 ==> final(self).out@ == old(self).out@,
            final(self).merges == old(self).merges,
    {
        let ghost v = self.out@;
        let ghost l = self.link@;
        let ghost image = self.image@;
        let ghost fwd = rows(self.forward@);
        proof {
            lemma_sizes(v1, v2, v, l, image, fwd);
        }
        let found = self.out.lookup(cand);
        match found {
            Some(c) => {
                proof {
                    lemma_move_found(v1, v2, v, l, image, fwd, cand@, c, c1, c2);
                    lemma_grows_itself(v);
                }
                let z = self.out.find(c);
                self.image.set(z, c2);
                note(&mut self.forward, c1, z);
                assert(rows(self.forward@).len() == self.forward.len());
                (z, false)
            },
            None => {
                proof {
                    lemma_move_room(v1, v2, v, l, image, fwd, cand@, c1, c2);
                }
                let id = self.out.add(cand);
                proof {
                    lemma_move_new(v1, v2, v, self.out@, l, image, fwd, cand@, id, c1, c2);
                }
                let z = self.out.find(id);
                self.image.push(c2);
                self.link = Ghost(l.grown(c1, c2, v.canon(cand@)));
                note(&mut self.forward, c1, z);
                assert(rows(self.forward@).len() == self.forward.len());
                (z, true)
            },
        }
    }

    /// Merges the class `z` with every id of the forward set of `c1` whose
    /// image lies in the class `c2` of the second input, and says whether
    /// any class was merged.
    fn merge(
        &mut self,
        g2: &TermGraph,
        z: usize,
        c1: usize,
        c2: usize,
        Ghost(v1): Ghost<GraphView>,
    ) -> (any: bool)
        requires
            g2.inv(),
            old(self).sound(v1, g2@),
            old(self).out@.has(z),
            old(self).link@.origin[z as int] == c1,
            old(self).link@.target[z as int] == c2,
            c1 < old(self).forward.len(),
            g2@.is_root(c2),
            separate_but(old(self).out@, old(self).link@, z),
        ensures
            final(self).sound(v1, g2@),
            separate(final(self).out@, final(self).link@),
            final(self).link@ == old(self).link@,
            final(self).image@ == old(self).image@,
            final(self).forward@ == old(self).forward@,
            grows(old(self).out@, final(self).out@),
            final(self).out@.leaders.len() == old(self).out@.leaders.len(),
            final(self).out@.class_total() + (if any { 1nat } else { 0nat }) <= old(
                self,
            ).out@.class_total(),
    {
        let ghost v2 = g2@;
        let ghost v0 = self.out@;
        let ghost l = self.link@;
        let ghost image = self.image@;
        let ghost fwd = rows(self.forward@);
        let sibs = self.forward[c1].clone();
        let target = g2.find(c2);
        let mut any = false;
        let mut j: usize = 0;
        proof {
            assert(sibs@ =~= fwd[c1 as int]);
            lemma_sizes(v1, v2, v0, l, image, fwd);
            lemma_grows_itself(v0);
        }
        while j < sibs.len()
            invariant
                j <= sibs.len(),
                g2.inv(),
                self.sound(v1, v2),
                v2 == g2@,
                self.link@ == l,
                self.image@ == image,
                self.forward@ == old(self).forward@,
                rows(self.forward@) == fwd,
                sibs@ == fwd[c1 as int],
                l.origin[z as int] == c1,
                l.target[z as int] == c2,
                target == c2,
                self.out@.has(z),
                v0.valid(),
                separate_but(self.out@, l, z),
                joined(self.out@, l, z, sibs@, j as int),
                grows(v0, self.out@),
                self.out@.leaders.len() == v0.leaders.len(),
                self.out@.class_total() + (if any { 1nat } else { 0nat }) <= v0.class_total(),
            decreases sibs.len() - j,
        {
            let ghost v = self.out@;
            let s = sibs[j];
            proof {
                lemma_merge_peek(v1, v2, v, l, image, fwd, z, j as int);
                lemma_sizes(v1, v2, v, l, image, fwd);
            }
            let a = g2.find(self.image[s]);
            if a == target {
                let merged = self.out.union(z, s);
                proof {
                    lemma_move_united(v1, v2, v, self.out@, l, image, fwd, z, merged, j as int);
                    lemma_sizes(v1, v2, self.out@, l, image, fwd);
                    lemma_grows_twice(v0, v, self.out@);
                }
                if merged {
                    any = true;
                    self.merges = self.merges + 1;
                }
            } else {
                proof {
                    lemma_move_skipped(v, l, z, sibs@, j as int);
                }
            }
            j = j + 1;
        }
        proof {
            lemma_merge_done(v1, v2, self.out@, l, image, fwd, z);
        }
        any
    }

    /// Considers one candidate, a substitution of a node of the class `c1` of
    /// the first input: where the second input holds the candidate's image
    /// node, the product graph gets the candidate, in the class for the two
    /// classes, and is rebuilt. Says whether the product graph changed.
    fn consider(&mut self, g1: &TermGraph, g2: &TermGraph, c1: usize, cand: &Node) -> (did: bool)
        requires
            g1.clean(),
            g2.clean(),
            g1@.node_total() * g2@.node_total() <= u32::MAX,
            old(self).wf(g1@, g2@),
            old(self).out@.holds(cand@),
            g1@.in_class(c1, old(self).link@.down(cand@)),
        ensures
            final(self).wf(g1@, g2@),
            grows(old(self).out@, final(self).out@),
            extends(old(self).link@, final(self).link@),
            settled(g2@, final(self).out@, final(self).link@, cand@),
            slack(g1@, g2@, final(self).out@) + (if did { 1int } else { 0int }) <= slack(
                g1@,
                g2@,
                old(self).out@,
            ),
            !did ==> final(self).out@.leaders.len() == old(self).out@.leaders.len(),
    {
        let ghost v1 = g1@;
        let ghost v2 = g2@;
        let ghost v = self.out@;
        let ghost l = self.link@;
        proof {
            lemma_sizes(v1, v2, v, l, self.image@, rows(self.forward@));
        }
        let n2 = self.image_node(cand, Ghost(v1), Ghost(v2));
        match g2.lookup(&n2) {
            None => {
                proof {
                    lemma_move_absent(v2, v, l, cand@, n2@);
                    lemma_grows_itself(v);
                }
                false
            },
            Some(c2) => {
                proof {
                    lemma_lookup_clean(v2, n2@);
                }
                let (z, made) = self.place(c1, c2, cand, Ghost(v1), Ghost(v2));
                let ghost va = self.out@;
                let ghost la = self.link@;
                let any = self.merge(g2, z, c1, c2, Ghost(v1));
                let ghost vb = self.out@;
                self.out.rebuild();
                proof {
                    let vc = self.out@;
                    lemma_sizes(v1, v2, va, la, self.image@, rows(self.forward@));
                    lemma_sizes(v1, v2, vb, la, self.image@, rows(self.forward@));
                    lemma_move_rebuilt(v1, v2, vb, vc, la, self.image@, rows(self.forward@));
                    lemma_grows_twice(va, vb, vc);
                    lemma_grows_ids(v, va);
                    assert(va.holds(cand@)) by {
                        assert forall|j: int| 0 <= j < cand@.children.len() implies va.has(
                            #[trigger] cand@.children[j],
                        ) by {
                            assert(v.has(cand@.children[j]));
                        }
                    }
                    lemma_grows_knows(va, vc, cand@);
                    lemma_grows_twice(v, va, vc);
                }
                made || any
            },
        }
    }

    /// Considers every substitution of the node `node` of the class `c1` of
    /// the first input, drawn from the forward sets as they are now. Says
    /// whether the product graph changed.
    fn sweep_node(
        &mut self,
        g1: &TermGraph,
        g2: &TermGraph,
        c1: usize,
        node: &Node,
        Ghost(bound): Ghost<nat>,
    ) -> (did: bool)
        requires
            g1.clean(),
            g2.clean(),
            g1@.node_total() * g2@.node_total() <= u32::MAX,
            old(self).wf(g1@, g2@),
            g1@.in_class(c1, node@),
            bound <= old(self).out@.leaders.len(),
        ensures
            final(self).wf(g1@, g2@),
            grows(old(self).out@, final(self).out@),
            extends(old(self).link@, final(self).link@),
            done(g2@, final(self).out@, final(self).link@, bound, node@),
            slack(g1@, g2@, final(self).out@) + (if did { 1int } else { 0int }) <= slack(
                g1@,
                g2@,
                old(self).out@,
            ),
            !did ==> final(self).out@.leaders.len() == old(self).out@.leaders.len(),
    {
        let ghost v1 = g1@;
        let ghost v2 = g2@;
        let ghost v0 = self.out@;
        let ghost l0 = self.link@;
        let ghost fwd0 = rows(self.forward@);
        let ghost subs = substitutions(node@, fwd0);
        proof {
            lemma_candidates(v1, v2, v0, l0, self.image@, fwd0, c1, node@);
            lemma_sizes(v1, v2, v0, l0, self.image@, fwd0);
            lemma_grows_itself(v0);
            assert(fwd0.len() == self.forward.len());
        }
        let cands = flatmap_children(node, &self.forward);
        let mut did = false;
        let mut k: usize = 0;
        while k < cands.len()
            invariant
                k <= cands.len(),
                g1.clean(),
                g2.clean(),
                v1 == g1@,
                v2 == g2@,
                v1.node_total() * v2.node_total() <= u32::MAX,
                self.wf(v1, v2),
                views(cands@) == subs,
                v0.valid(),
                l0.origin.len() == v0.leaders.len(),
                l0.target.len() == v0.leaders.len(),
                v1.in_class(c1, node@),
                forall|i: int|
                    0 <= i < subs.len() ==> v0.holds(#[trigger] subs[i]) && l0.down(subs[i])
                        == node@,
                grows(v0, self.out@),
                extends(l0, self.link@),
                forall|i: int|
                    0 <= i < k ==> settled(v2, self.out@, self.link@, #[trigger] subs[i]),
                slack(v1, v2, self.out@) + (if did { 1int } else { 0int }) <= slack(v1, v2, v0),
                !did ==> self.out@.leaders.len() == v0.leaders.len(),
            decreases cands.len() - k,
        {
            let ghost v = self.out@;
            let ghost l = self.link@;
            let cand = &cands[k];
            proof {
                assert(views(cands@)[k as int] == cand@);
                assert(cand@ == subs[k as int]);
                lemma_grows_ids(v0, v);
                lemma_sizes(v1, v2, v, l, self.image@, rows(self.forward@));
                lemma_held(v0, v, l0, l, cand@);
            }
            let d = self.consider(g1, g2, c1, cand);
            proof {
                let w = self.out@;
                let l2 = self.link@;
                assert forall|i: int| 0 <= i < k implies settled(
                    v2,
                    w,
                    l2,
                    #[trigger] subs[i],
                ) by {
                    lemma_held(v0, v, l0, l, subs[i]);
                    lemma_settled_keeps(v2, v, w, l, l2, subs[i]);
                }
                lemma_grows_twice(v0, v, w);
            }
            if d {
                did = true;
            }
            k = k + 1;
        }
        proof {
            let w = self.out@;
            let l2 = self.link@;
            lemma_sizes(v1, v2, w, l2, self.image@, rows(self.forward@));
            lemma_grows_ids(v0, w);
            assert(v1.holds(node@));
            assert forall|x: usize| x < bound implies (#[trigger] fwd0[l2.origin[x as int] as int])
                .contains(x) by {
                assert(l2.origin[x as int] == l0.origin[x as int]);
                assert(fwd0[l0.origin[x as int] as int].contains(x));
            }
            lemma_node_done(v1, v2, w, l2, fwd0, bound, node@);
        }
        did
    }

    /// One pass over the first input: every node of every class, in order.
    /// Says whether the product graph changed; where it did not, nothing is
    /// left to add.
    fn sweep(&mut self, g1: &TermGraph, g2: &TermGraph, classes: &Vec<EClass>) -> (changed: bool)
        requires
            g1.clean(),
            g2.clean(),
            g1@.node_total() * g2@.node_total() <= u32::MAX,
            old(self).wf(g1@, g2@),
            forall|c: usize| ids_of(classes@).contains(c) <==> g1@.is_root(c),
            forall|i: int|
                0 <= i < classes.len() ==> views((#[trigger] classes[i]).nodes@)
                    == g1@.classes[classes[i].id as int],
        ensures
            final(self).wf(g1@, g2@),
            slack(g1@, g2@, final(self).out@) + (if changed { 1int } else { 0int }) <= slack(
                g1@,
                g2@,
                old(self).out@,
            ),
            !changed ==> saturated(g1@, g2@, final(self).out@, final(self).link@),
    {
        let ghost v1 = g1@;
        let ghost v2 = g2@;
        let ghost v0 = self.out@;
        let ghost bound = self.out@.leaders.len();
        let ghost ids = ids_of(classes@);
        let mut changed = false;
        let mut ci: usize = 0;
        while ci < classes.len()
            invariant
                ci <= classes.len(),
                ids == ids_of(classes@),
                forall|i: int|
                    0 <= i < classes.len() ==> views((#[trigger] classes[i]).nodes@)
                        == v1.classes[classes[i].id as int],
                g1.clean(),
                g2.clean(),
                v1 == g1@,
                v2 == g2@,
                v1.node_total() * v2.node_total() <= u32::MAX,
                self.wf(v1, v2),
                forall|c: usize| ids.contains(c) <==> v1.is_root(c),
                bound <= self.out@.leaders.len(),
                !changed ==> self.out@.leaders.len() == bound,
                swept(v1, v2, self.out@, self.link@, bound, ids, ci as int, 0),
                slack(v1, v2, self.out@) + (if changed { 1int } else { 0int }) <= slack(
                    v1,
                    v2,
                    v0,
                ),
            decreases classes.len() - ci,
        {
            let c1 = classes[ci].id;
            let nodes = &classes[ci].nodes;
            proof {
                assert(ids[ci as int] == c1);
                assert(ids.contains(c1));
                assert(views(nodes@) == v1.classes[c1 as int]);
                assert forall|j: int| 0 <= j < nodes.len() implies (#[trigger] nodes[j])@
                    == v1.classes[c1 as int][j] by {
                    assert(views(nodes@)[j] == nodes[j]@);
                }
            }
            let mut ni: usize = 0;
            while ni < nodes.len()
                invariant
                    ni <= nodes.len(),
                    ci < ids.len(),
                    c1 == ids[ci as int],
                    ids.len() == classes.len(),
                    g1.clean(),
                    g2.clean(),
                    v1 == g1@,
                    v2 == g2@,
                    v1.node_total() * v2.node_total() <= u32::MAX,
                    self.wf(v1, v2),
                    v1.is_root(c1),
                    nodes.len() == v1.classes[c1 as int].len(),
                    forall|j: int|
                        0 <= j < nodes.len() ==> (#[trigger] nodes[j])@ == v1.classes[c1 as int][j],
                    bound <= self.out@.leaders.len(),
                    !changed ==> self.out@.leaders.len() == bound,
                    swept(v1, v2, self.out@, self.link@, bound, ids, ci as int, ni as int),
                    slack(v1, v2, self.out@) + (if changed { 1int } else { 0int }) <= slack(
                        v1,
                        v2,
                        v0,
                    ),
                decreases nodes.len() - ni,
            {
                let ghost v = self.out@;
                let ghost l = self.link@;
                let node = &nodes[ni];
                proof {
                    assert(node@ == v1.classes[c1 as int][ni as int]);
                    assert(v1.in_class(c1, node@));
                    lemma_sizes(v1, v2, v, l, self.image@, rows(self.forward@));
                }
                let d = self.sweep_node(g1, g2, c1, node, Ghost(bound));
                proof {
                    lemma_swept_keeps(
                        v1,
                        v2,
                        v,
                        self.out@,
                        l,
                        self.link@,
                        bound,
                        ids,
                        ci as int,
                        ni as int,
                    );
                    lemma_grows_ids(v, self.out@);
                }
                if d {
                    changed = true;
                }
                ni = ni + 1;
            }
            ci = ci + 1;
        }
        proof {
            if !changed {
                lemma_swept_all(v1, v2, self.out@, self.link@, ids);
            }
        }
        changed
    }
}

/// A node over ids of a graph is a node over ids of a graph that kept them,
/// and stands for the same input nodes once the correspondence has grown.
proof fn lemma_held(v0: GraphView, v: GraphView, l0: Link, l: Link, k: NodeView)
    requires
        v0.leaders.len() <= v.leaders.len(),
        l0.origin.len() == v0.leaders.len(),
        l0.target.len() == v0.leaders.len(),
        extends(l0, l),
        v0.holds(k),
    ensures
        v.holds(k),
        l.down(k) == l0.down(k),
        l.across(k) == l0.across(k),
{
    assert forall|j: int| 0 <= j < k.children.len() implies v.has(#[trigger] k.children[j])
        && k.children[j] < l0.origin.len() by {
        assert(v0.has(k.children[j]));
    }
    lemma_extends_sides(l0, l, k);
}

/// The intersection of two congruence-closed graphs, with the maps that
/// trace it back to them and the count of the merges made.
///
/// It is built as a least fixpoint. Each pass goes through the nodes of
/// `g1`, replaces the children of each by ids already made for them in
/// every possible way, and takes a candidate in where `g2` holds the node
/// that the candidate stands for there; classes that stand for the same pair
/// of input classes are merged. The passes end when one changes nothing,
/// which happens before the ids outnumber the pairs of a node of `g1` and a
/// node of `g2`: so the inputs must be small enough for those pairs to be
/// counted in an id.
pub fn intersect_traced(g1: &TermGraph, g2: &TermGraph) -> (r: Traced)
    requires
        g1.clean(),
        g2.clean(),
        g1@.node_total() * g2@.node_total() <= u32::MAX,
    ensures
        r.graph.clean(),
        is_intersection(r.graph@, g1@, g2@),
        traces(g1@, g2@, r.graph@, rows(r.forward@), r.image@),
        r.graph@.leaders.len() <= g1@.node_total() * g2@.node_total(),
        r.merges + r.graph@.class_total() <= r.graph@.leaders.len(),
        r.merges <= g1@.node_total() * g2@.node_total(),
{
    let n1 = g1.num_ids();
    let mut forward: Vec<Vec<usize>> = Vec::new();
    let mut i: usize = 0;
    while i < n1
        invariant
            i <= n1,
            forward.len() == i,
            forall|c: int| 0 <= c < forward.len() ==> (#[trigger] forward[c]).len() == 0,
        decreases n1 - i,
    {
        forward.push(Vec::new());
        i = i + 1;
    }
    let mut p = Product {
        out: TermGraph::new(),
        forward,
        image: Vec::new(),
        merges: 0,
        link: Ghost(Link::empty()),
    };
    proof {
        assert forall|c: int| 0 <= c < rows(p.forward@).len() implies (#[trigger] rows(
            p.forward@,
        )[c]).len() == 0 by {
            assert(p.forward[c].len() == 0);
        }
        lemma_start(g1@, g2@, rows(p.forward@));
        assert(p.image@ =~= Seq::empty());
    }
    let classes = g1.classes();
    loop
        invariant_except_break
            p.wf(g1@, g2@),
        invariant
            g1.clean(),
            g2.clean(),
            g1@.node_total() * g2@.node_total() <= u32::MAX,
            forall|c: usize| ids_of(classes@).contains(c) <==> g1@.is_root(c),
            forall|i: int|
                0 <= i < classes.len() ==> views((#[trigger] classes[i]).nodes@)
                    == g1@.classes[classes[i].id as int],
        ensures
            p.wf(g1@, g2@),
            saturated(g1@, g2@, p.out@, p.link@),
        decreases slack(g1@, g2@, p.out@),
    {
        let changed = p.sweep(g1, g2, &classes);
        proof {
            reveal(sound_at);
            lemma_ids_fit(g1@, g2@, p.out@, p.link@);
        }
        if !changed {
            break ;
        }
    }
    proof {
        lemma_traces(g1@, g2@, p.out@, p.link@, p.image@, rows(p.forward@));
        reveal(sound_at);
        lemma_intersection(g1@, g2@, p.out@, p.link@);
        lemma_ids_fit(g1@, g2@, p.out@, p.link@);
    }
    Traced { graph: p.out, forward: p.forward, image: p.image, merges: p.merges }
}

/// The intersection of two congruence-closed graphs: the graph that
/// represents the terms which both represent, and holds equal the terms
/// which both hold equal. Its ids are no more than the pairs of a node of
/// `g1` and a node of `g2`.
pub fn intersect(g1: &TermGraph, g2: &TermGraph) -> (out: TermGraph)
    requires
        g1.clean(),
        g2.clean(),
        g1@.node_total() * g2@.node_total() <= u32::MAX,
    ensures
        out.clean(),
        is_intersection(out@, g1@, g2@),
        out@.leaders.len() <= g1@.node_total() * g2@.node_total(),
{
    intersect_traced(g1, g2).graph
}

/// The intersection, where the inputs are small enough for `intersect`:
/// `None` where the pairs of a node of `g1` and a node of `g2` are too many
/// to be counted in an id.
pub fn checked_intersect(g1: &TermGraph, g2: &TermGraph) -> (r: Option<TermGraph>)
    requires
        g1.clean(),
        g2.clean(),
    ensures
        r is Some <==> g1@.node_total() * g2@.node_total() <= u32::MAX,
        r matches Some(out) ==> out.clean() && is_intersection(out@, g1@, g2@)
            && out@.leaders.len() <= g1@.node_total() * g2@.node_total(),
{
    let n1 = g1.node_total();
    let n2 = g2.node_total();
    if n1 == 0 || n2 == 0 {
        assert(n1 * n2 == 0) by (nonlinear_arith)
            requires
                n1 == 0 || n2 == 0,
        ;
        return Some(intersect(g1, g2));
    }
    let limit: usize = 0xffff_ffff;
    if n1 > limit / n2 {
        assert(n1 * n2 > limit) by (nonlinear_arith)
            requires
                n2 > 0,
                n1 > limit / n2,
        ;
        return None;
    }
    assert(n1 * n2 <= limit) by (nonlinear_arith)
        requires
            n2 > 0,
            n1 <= limit / n2,
    ;
    Some(intersect(g1, g2))
}

} // verus!
