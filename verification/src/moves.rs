//! The moves of the construction, each with what it keeps: looking a
//! candidate up, placing it, merging it with the ids that stand for its
//! pair, and rebuilding.

use crate::counting::lemma_room;
use crate::counting::lemma_total_added;
use crate::counting::lemma_total_rebuilt;
use crate::counting::lemma_total_united;
use crate::counting::slack;
use crate::growth::grows;
use crate::growth::lemma_added_grows;
use crate::growth::lemma_rebuilt_grows;
use crate::growth::lemma_united_grows;
use crate::model::lemma_canon;
use crate::link::lemma_sound;
use crate::link::linked;
use crate::link::separate;
use crate::link::Link;
use crate::model::lemma_added_valid;
use crate::model::lemma_stores;
use crate::model::lemma_united_valid;
use crate::model::GraphView;
use crate::model::NodeView;
use crate::product::substitutions;
use crate::progress::extends;
use crate::progress::settled;
use crate::steps::fwd_ok;
use crate::steps::img_ok;
use crate::steps::joined;
use crate::steps::lemma_apart_done;
use crate::steps::lemma_apart_united;
use crate::steps::lemma_found;
use crate::steps::lemma_fresh_pair;
use crate::steps::lemma_link_added;
use crate::steps::lemma_link_rebuilt;
use crate::steps::lemma_link_united;
use crate::model::lemma_lookup_clean;
use crate::steps::separate_but;
use crate::terms::traces;
use crate::terms::Term;
use vstd::prelude::*;

verus! {

/// The product graph is valid, and the correspondence, the recorded images
/// and the forward sets fit it.
#[verifier::opaque]
pub open spec fn sound_at(
    v1: GraphView,
    v2: GraphView,
    v: GraphView,
    l: Link,
    image: Seq<usize>,
    fwd: Seq<Seq<usize>>,
) -> bool {
    &&& v.valid()
    &&& linked(v1, v2, v, l)
    &&& img_ok(v2, v, l, image)
    &&& fwd_ok(v1, v, l, fwd)
}

/// The forward sets with `z` put into the set of `c`.
pub open spec fn noted(fwd: Seq<Seq<usize>>, c: usize, z: usize) -> Seq<Seq<usize>> {
    fwd.update(
        c as int,
        if fwd[c as int].contains(z) {
            fwd[c as int]
        } else {
            fwd[c as int].push(z)
        },
    )
}

/// Before anything is made, everything fits.
pub proof fn lemma_start(v1: GraphView, v2: GraphView, fwd: Seq<Seq<usize>>)
    requires
        fwd.len() == v1.leaders.len(),
        forall|c: int| 0 <= c < fwd.len() ==> (#[trigger] fwd[c]).len() == 0,
    ensures
        sound_at(v1, v2, GraphView::empty(), Link::empty(), Seq::empty(), fwd),
        GraphView::empty().clean(),
        separate(GraphView::empty(), Link::empty()),
{
    reveal(sound_at);
}

/// Sizes fit where everything fits.
pub proof fn lemma_sizes(
    v1: GraphView,
    v2: GraphView,
    v: GraphView,
    l: Link,
    image: Seq<usize>,
    fwd: Seq<Seq<usize>>,
)
    requires
        sound_at(v1, v2, v, l, image, fwd),
    ensures
        v.valid(),
        v.leaders.len() <= u32::MAX,
        image.len() == v.leaders.len(),
        l.origin.len() == v.leaders.len(),
        l.target.len() == v.leaders.len(),
        fwd.len() == v1.leaders.len(),
{
    reveal(sound_at);
}

/// The maps of a construction in which everything fits trace the product
/// graph back to the inputs.
pub proof fn lemma_traces(
    v1: GraphView,
    v2: GraphView,
    v: GraphView,
    l: Link,
    image: Seq<usize>,
    fwd: Seq<Seq<usize>>,
)
    requires
        sound_at(v1, v2, v, l, image, fwd),
    ensures
        traces(v1, v2, v, fwd, image),
{
    reveal(sound_at);
    assert forall|x: usize| #[trigger] v.has(x) implies v2.has(image[x as int]) && exists|
        c1: usize,
    |
        v1.has(c1) && (#[trigger] fwd[c1 as int]).contains(x) by {
        let c1 = l.origin[x as int];
        assert(v1.is_root(c1));
        assert(v1.has(c1) && fwd[c1 as int].contains(x));
    }
    assert forall|x: usize, t: Term|
        v.has(x) && #[trigger] v.represents(t, v.find(x)) implies v2.represents(
        t,
        v2.find(image[x as int]),
    ) by {
        lemma_sound(v1, v2, v, l, t, v.find(x));
        assert(l.same(x, v.find(x)));
    }
    assert forall|c1: int, j: int| 0 <= c1 < fwd.len() && 0 <= j < fwd[c1].len() implies v.has(
        #[trigger] fwd[c1][j],
    ) && v1.is_root(c1 as usize) by {
        assert(v.has(fwd[c1][j]));
    }
    assert forall|c1: int, j: int, t: Term|
        0 <= c1 < fwd.len() && 0 <= j < fwd[c1].len() && #[trigger] v.represents(
            t,
            v.find(fwd[c1][j]),
        ) implies v1.represents(t, c1 as usize) by {
        let x = fwd[c1][j];
        assert(v.has(x));
        lemma_sound(v1, v2, v, l, t, v.find(x));
        assert(l.same(x, v.find(x)));
    }
}

/// The image recorded for the class of an id is a class of the second
/// input, the one that the id corresponds to.
pub proof fn lemma_image_of(
    v1: GraphView,
    v2: GraphView,
    v: GraphView,
    l: Link,
    image: Seq<usize>,
    fwd: Seq<Seq<usize>>,
    x: usize,
)
    requires
        sound_at(v1, v2, v, l, image, fwd),
        v.has(x),
    ensures
        v.has(v.find(x)),
        v.find(x) < image.len(),
        v2.has(image[v.find(x) as int]),
        v2.find(image[v.find(x) as int]) == l.target[x as int],
{
    reveal(sound_at);
    assert(v.is_root(v.find(x)));
    assert(l.same(x, v.find(x)));
}

/// A candidate whose image node the second input lacks is dealt with.
pub proof fn lemma_move_absent(v2: GraphView, v: GraphView, l: Link, k: NodeView, n2: NodeView)
    requires
        v2.clean(),
        v2.holds(n2),
        v2.canon(n2) == l.across(k),
        v2.lookup(n2) is None,
    ensures
        settled(v2, v, l, k),
{
    lemma_lookup_clean(v2, n2);
}

/// A candidate that the product graph holds: its class is the one for the
/// two classes at hand, and recording them changes nothing.
pub proof fn lemma_move_found(
    v1: GraphView,
    v2: GraphView,
    v: GraphView,
    l: Link,
    image: Seq<usize>,
    fwd: Seq<Seq<usize>>,
    k: NodeView,
    c: usize,
    c1: usize,
    c2: usize,
)
    requires
        v1.clean(),
        v2.clean(),
        v.clean(),
        sound_at(v1, v2, v, l, image, fwd),
        v.holds(k),
        v.lookup(k) == Some(c),
        v1.in_class(c1, l.down(k)),
        v2.in_class(c2, l.across(k)),
    ensures
        v.is_root(c),
        c < image.len(),
        c1 < fwd.len(),
        l.origin[c as int] == c1,
        l.target[c as int] == c2,
        v2.is_root(c2),
        v.knows(k),
        noted(fwd, c1, c) == fwd,
        sound_at(v1, v2, v, l, image.update(c as int, c2), fwd),
{
    reveal(sound_at);
    lemma_found(v1, v2, v, l, k, c, c1, c2);
    lemma_canon(v, k);
    lemma_stores(v, c, v.canon(k), k);
    assert(v1.is_root(c1));
    assert(v2.is_root(c2));
    assert(v.has(c));
    assert(fwd[c1 as int].contains(c));
    assert(noted(fwd, c1, c) =~= fwd);
    let image2 = image.update(c as int, c2);
    assert forall|x: usize| #[trigger] v.has(x) implies v2.has(image2[x as int]) && v2.find(
        image2[x as int],
    ) == l.target[x as int] by {
        if x != c {
            assert(image2[x as int] == image[x as int]);
        }
    }
}

/// A candidate that the product graph lacks can be added: the ids do not
/// run out.
pub proof fn lemma_move_room(
    v1: GraphView,
    v2: GraphView,
    v: GraphView,
    l: Link,
    image: Seq<usize>,
    fwd: Seq<Seq<usize>>,
    k: NodeView,
    c1: usize,
    c2: usize,
)
    requires
        v1.clean(),
        v2.clean(),
        v.clean(),
        v1.node_total() * v2.node_total() <= u32::MAX,
        sound_at(v1, v2, v, l, image, fwd),
        separate(v, l),
        v.holds(k),
        v.lookup(k) is None,
        v1.in_class(c1, l.down(k)),
        v2.in_class(c2, l.across(k)),
    ensures
        v.leaders.len() < u32::MAX,
{
    reveal(sound_at);
    lemma_fresh_pair(v1, v2, v, l, k);
    assert(v1.present(l.down(k)));
    assert(v2.present(l.across(k)));
    lemma_room(v1, v2, v, l, k);
}

/// A candidate that the product graph lacks, added: everything fits the
/// grown correspondence, and only the new class may stand for a pair that
/// another class stands for.
pub proof fn lemma_move_new(
    v1: GraphView,
    v2: GraphView,
    v: GraphView,
    w: GraphView,
    l: Link,
    image: Seq<usize>,
    fwd: Seq<Seq<usize>>,
    k: NodeView,
    z: usize,
    c1: usize,
    c2: usize,
)
    requires
        v1.clean(),
        v2.clean(),
        v.clean(),
        sound_at(v1, v2, v, l, image, fwd),
        separate(v, l),
        v.holds(k),
        v.lookup(k) is None,
        v.leaders.len() < u32::MAX,
        v.added_to(w, k, z),
        v1.in_class(c1, l.down(k)),
        v2.in_class(c2, l.across(k)),
    ensures
        sound_at(
            v1,
            v2,
            w,
            l.grown(c1, c2, v.canon(k)),
            image.push(c2),
            noted(fwd, c1, z),
        ),
        separate_but(w, l.grown(c1, c2, v.canon(k)), z),
        w.is_root(z),
        z == v.leaders.len(),
        w.leaders.len() == v.leaders.len() + 1,
        w.class_total() == v.class_total() + 1,
        c1 < fwd.len(),
        v2.is_root(c2),
        l.grown(c1, c2, v.canon(k)).origin[z as int] == c1,
        l.grown(c1, c2, v.canon(k)).target[z as int] == c2,
        w.knows(k),
        grows(v, w),
        extends(l, l.grown(c1, c2, v.canon(k))),
        slack(v1, v2, w) + 1 == slack(v1, v2, v),
{
    reveal(sound_at);
    let kk = v.canon(k);
    let l2 = l.grown(c1, c2, kk);
    let image2 = image.push(c2);
    let fwd2 = noted(fwd, c1, z);
    lemma_link_added(v1, v2, v, w, l, k, z, c1, c2);
    lemma_added_grows(v, w, k, z);
    lemma_added_valid(v, w, k, z);
    lemma_total_added(v, w, k, z);
    lemma_canon(v, k);
    assert(v1.is_root(c1));
    assert(v2.is_root(c2));
    assert(!fwd[c1 as int].contains(z)) by {
        if fwd[c1 as int].contains(z) {
            let i = choose|i: int| 0 <= i < fwd[c1 as int].len() && fwd[c1 as int][i] == z;
            assert(v.has(fwd[c1 as int][i]));
        }
    }
    assert(fwd2[c1 as int] == fwd[c1 as int].push(z));
    assert forall|x: usize| #[trigger] w.has(x) implies v2.has(image2[x as int]) && v2.find(
        image2[x as int],
    ) == l2.target[x as int] by {
        if x < z {
            assert(v.has(x));
        }
    }
    assert forall|c: int, j: int| 0 <= c < fwd2.len() && 0 <= j < fwd2[c].len() implies w.has(
        #[trigger] fwd2[c][j],
    ) && l2.origin[fwd2[c][j] as int] == c by {
        if c == c1 && j == fwd[c1 as int].len() {
        } else {
            assert(fwd2[c][j] == fwd[c][j]);
            assert(v.has(fwd[c][j]));
        }
    }
    assert forall|x: usize| #[trigger] w.has(x) implies fwd2[l2.origin[x as int] as int]
        .contains(x) by {
        if x < z {
            assert(v.has(x));
            let c = l.origin[x as int];
            assert(fwd[c as int].contains(x));
            let i = choose|i: int| 0 <= i < fwd[c as int].len() && fwd[c as int][i] == x;
            assert(fwd2[c as int][i] == x);
        } else {
            assert(fwd2[c1 as int][fwd[c1 as int].len() as int] == z);
        }
    }
    assert(w.classes[z as int][0] == kk);
    assert(w.in_class(z, kk));
    assert(w.canon(kk) =~= w.canon(k)) by {
        assert forall|j: int| 0 <= j < k.children.len() implies w.find(v.find(k.children[j]))
            == w.find(k.children[j]) by {
            assert(v.has(k.children[j]));
            assert(v.is_root(v.find(k.children[j])));
        }
    }
    lemma_stores(w, z, kk, k);
}

/// An id of the forward set of the class that `z` was made for: it is an id
/// of the product graph, its image is recorded, and it stands for the pair
/// of `z` exactly if its image lies in the class that `z` corresponds to.
pub proof fn lemma_merge_peek(
    v1: GraphView,
    v2: GraphView,
    v: GraphView,
    l: Link,
    image: Seq<usize>,
    fwd: Seq<Seq<usize>>,
    z: usize,
    j: int,
)
    requires
        sound_at(v1, v2, v, l, image, fwd),
        v.has(z),
        0 <= j < fwd[l.origin[z as int] as int].len(),
    ensures
        v.has(fwd[l.origin[z as int] as int][j]),
        fwd[l.origin[z as int] as int][j] < image.len(),
        v2.has(image[fwd[l.origin[z as int] as int][j] as int]),
        (v2.find(image[fwd[l.origin[z as int] as int][j] as int]) == l.target[z as int]) == l.same(
            z,
            fwd[l.origin[z as int] as int][j],
        ),
{
    reveal(sound_at);
    let c1 = l.origin[z as int];
    assert(v1.is_root(c1));
    let s = fwd[c1 as int][j];
    assert(v.has(s));
}

/// Merging `z` with an id that stands for its pair keeps everything
/// fitting, the other classes apart, and what was joined to `z` joined.
pub proof fn lemma_move_united(
    v1: GraphView,
    v2: GraphView,
    v: GraphView,
    w: GraphView,
    l: Link,
    image: Seq<usize>,
    fwd: Seq<Seq<usize>>,
    z: usize,
    merged: bool,
    j: int,
)
    requires
        sound_at(v1, v2, v, l, image, fwd),
        v.has(z),
        0 <= j < fwd[l.origin[z as int] as int].len(),
        l.same(z, fwd[l.origin[z as int] as int][j]),
        v.has(fwd[l.origin[z as int] as int][j]),
        v.united_to(w, z, fwd[l.origin[z as int] as int][j], merged),
        separate_but(v, l, z),
        joined(v, l, z, fwd[l.origin[z as int] as int], j),
    ensures
        sound_at(v1, v2, w, l, image, fwd),
        separate_but(w, l, z),
        joined(w, l, z, fwd[l.origin[z as int] as int], j + 1),
        grows(v, w),
        w.leaders.len() == v.leaders.len(),
        w.class_total() + (if merged { 1nat } else { 0nat }) == v.class_total(),
{
    reveal(sound_at);
    let c1 = l.origin[z as int];
    assert(v1.is_root(c1));
    let sibs = fwd[c1 as int];
    let s = sibs[j];
    lemma_link_united(v1, v2, v, w, l, z, s, merged);
    lemma_united_valid(v, w, z, s, merged);
    lemma_united_grows(v, w, z, s, merged);
    lemma_total_united(v, w, z, s, merged);
    assert forall|i: int| 0 <= i < sibs.len() implies v.has(#[trigger] sibs[i]) by {
        assert(v.has(fwd[c1 as int][i]));
    }
    lemma_apart_united(v, w, l, z, s, merged, sibs, j);
    assert(img_ok(v2, w, l, image)) by {
        assert forall|x: usize| #[trigger] w.has(x) implies v2.has(image[x as int]) && v2.find(
            image[x as int],
        ) == l.target[x as int] by {
            assert(v.has(x));
        }
    }
    assert(fwd_ok(v1, w, l, fwd)) by {
        assert forall|c: int, i: int| 0 <= c < fwd.len() && 0 <= i < fwd[c].len() implies w.has(
            #[trigger] fwd[c][i],
        ) && l.origin[fwd[c][i] as int] == c by {
            assert(v.has(fwd[c][i]));
        }
        assert forall|x: usize| #[trigger] w.has(x) implies fwd[l.origin[x as int] as int]
            .contains(x) by {
            assert(v.has(x));
        }
    }
}

/// An id that does not stand for the pair of `z` is passed over.
pub proof fn lemma_move_skipped(v: GraphView, l: Link, z: usize, sibs: Seq<usize>, j: int)
    requires
        0 <= j < sibs.len(),
        joined(v, l, z, sibs, j),
        !l.same(z, sibs[j]),
    ensures
        joined(v, l, z, sibs, j + 1),
{
}

/// Once every id of the forward set has been tried, no two classes stand
/// for one pair.
pub proof fn lemma_merge_done(
    v1: GraphView,
    v2: GraphView,
    v: GraphView,
    l: Link,
    image: Seq<usize>,
    fwd: Seq<Seq<usize>>,
    z: usize,
)
    requires
        sound_at(v1, v2, v, l, image, fwd),
        v.has(z),
        separate_but(v, l, z),
        joined(
            v,
            l,
            z,
            fwd[l.origin[z as int] as int],
            fwd[l.origin[z as int] as int].len() as int,
        ),
    ensures
        separate(v, l),
{
    reveal(sound_at);
    let sibs = fwd[l.origin[z as int] as int];
    assert forall|x: usize| #[trigger]
        v.has(x) && l.origin[x as int] == l.origin[z as int] implies sibs.contains(x) by {
        assert(fwd[l.origin[x as int] as int].contains(x));
    }
    lemma_apart_done(v1, v, l, z, sibs);
}

/// `rebuild` keeps everything fitting and the classes apart, and makes the
/// product graph congruence-closed.
pub proof fn lemma_move_rebuilt(
    v1: GraphView,
    v2: GraphView,
    v: GraphView,
    w: GraphView,
    l: Link,
    image: Seq<usize>,
    fwd: Seq<Seq<usize>>,
)
    requires
        v1.clean(),
        v2.clean(),
        sound_at(v1, v2, v, l, image, fwd),
        separate(v, l),
        v.rebuilt_to(w),
    ensures
        sound_at(v1, v2, w, l, image, fwd),
        separate(w, l),
        w.clean(),
        grows(v, w),
        w.leaders.len() == v.leaders.len(),
        w.class_total() <= v.class_total(),
{
    reveal(sound_at);
    lemma_link_rebuilt(v1, v2, v, w, l);
    lemma_rebuilt_grows(v, w);
    lemma_total_rebuilt(v, w);
    assert(img_ok(v2, w, l, image)) by {
        assert forall|x: usize| #[trigger] w.has(x) implies v2.has(image[x as int]) && v2.find(
            image[x as int],
        ) == l.target[x as int] by {
            assert(v.has(x));
        }
    }
    assert(fwd_ok(v1, w, l, fwd)) by {
        assert forall|c: int, i: int| 0 <= c < fwd.len() && 0 <= i < fwd[c].len() implies w.has(
            #[trigger] fwd[c][i],
        ) && l.origin[fwd[c][i] as int] == c by {
            assert(v.has(fwd[c][i]));
        }
        assert forall|x: usize| #[trigger] w.has(x) implies fwd[l.origin[x as int] as int]
            .contains(x) by {
            assert(v.has(x));
        }
    }
}

/// The substitutions of a stored node of the first input, drawn from the
/// forward sets, are nodes over ids of the product graph that stand for it.
pub proof fn lemma_candidates(
    v1: GraphView,
    v2: GraphView,
    v: GraphView,
    l: Link,
    image: Seq<usize>,
    fwd: Seq<Seq<usize>>,
    c1: usize,
    n1: NodeView,
)
    requires
        v1.valid(),
        sound_at(v1, v2, v, l, image, fwd),
        v1.in_class(c1, n1),
    ensures
        forall|i: int|
            0 <= i < substitutions(n1, fwd).len() ==> v.holds(
                #[trigger] substitutions(n1, fwd)[i],
            ) && l.down(substitutions(n1, fwd)[i]) == n1,
        forall|x: usize|
            x < v.leaders.len() ==> (#[trigger] fwd[l.origin[x as int] as int]).contains(x),
{
    reveal(sound_at);
    assert(v1.holds(n1));
    assert forall|j: int| 0 <= j < n1.children.len() implies (#[trigger] n1.children[j])
        < fwd.len() by {
        assert(v1.has(n1.children[j]));
    }
    let subs = substitutions(n1, fwd);
    assert forall|i: int| 0 <= i < subs.len() implies v.holds(#[trigger] subs[i]) && l.down(
        subs[i],
    ) == n1 by {
        if n1.children.len() == 0 {
            assert(subs[i] == n1);
            assert(l.down(n1).children =~= n1.children);
        } else {
            let lists = crate::product::offers(n1, fwd);
            let t = crate::product::product(lists)[i];
            assert(crate::product::product(lists).contains(t));
            crate::product::lemma_product_contains(lists, t);
            assert(subs[i] == NodeView { op: n1.op, children: t });
            assert forall|j: int| 0 <= j < t.len() implies v.has(#[trigger] t[j])
                && l.origin[t[j] as int] == n1.children[j] by {
                assert(lists[j].contains(t[j]));
                let c = n1.children[j];
                assert(v1.has(n1.children[j]));
                let q = choose|q: int| 0 <= q < fwd[c as int].len() && fwd[c as int][q] == t[j];
                assert(v.has(fwd[c as int][q]));
            }
            assert(l.down(subs[i]).children =~= n1.children);
        }
    }
    assert forall|x: usize| x < v.leaders.len() implies (#[trigger] fwd[l.origin[x as int] as int])
        .contains(x) by {
        assert(v.has(x));
    }
}

} // verus!
