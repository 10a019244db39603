use egraph_intersect::node::Node;
use egraph_intersect::store::TermGraph;
use std::collections::HashMap;

type Plain = (String, Vec<usize>);

/// What the store is expected to hold, kept by hand.
struct Mirror {
    leaders: Vec<usize>,
    classes: Vec<Vec<Plain>>,
    memo: HashMap<Plain, usize>,
}

fn plain(n: &Node) -> Plain {
    (n.op.clone(), n.children.clone())
}

fn canon(leaders: &[usize], n: &Plain) -> Plain {
    (n.0.clone(), n.1.iter().map(|c| leaders[*c]).collect())
}

impl Mirror {
    fn new() -> Mirror {
        Mirror { leaders: vec![], classes: vec![], memo: HashMap::new() }
    }

    fn lookup(&self, n: &Plain) -> Option<usize> {
        self.memo.get(&canon(&self.leaders, n)).map(|id| self.leaders[*id])
    }

    fn add(&mut self, n: &Plain) -> usize {
        match self.lookup(n) {
            Some(c) => c,
            None => {
                let id = self.leaders.len();
                let k = canon(&self.leaders, n);
                self.leaders.push(id);
                self.classes.push(vec![k.clone()]);
                self.memo.insert(k, id);
                id
            }
        }
    }

    fn union(&mut self, a: usize, b: usize) -> bool {
        let (ra, rb) = (self.leaders[a], self.leaders[b]);
        if ra == rb {
            return false;
        }
        let (to, from) = if ra < rb { (ra, rb) } else { (rb, ra) };
        for l in self.leaders.iter_mut() {
            if *l == from {
                *l = to;
            }
        }
        let moved = std::mem::take(&mut self.classes[from]);
        let kept = std::mem::take(&mut self.classes[to]);
        self.classes[to] = if kept.len() < moved.len() {
            moved.into_iter().chain(kept).collect()
        } else {
            kept.into_iter().chain(moved).collect()
        };
        true
    }

    /// The least congruence that keeps the equalities: for each id its
    /// smallest equal id.
    fn closure(&self) -> Vec<usize> {
        let mut leaders = self.leaders.clone();
        loop {
            let mut seen: HashMap<Plain, usize> = HashMap::new();
            let mut merge: Option<(usize, usize)> = None;
            'scan: for (c, nodes) in self.classes.iter().enumerate() {
                for n in nodes {
                    let k = canon(&leaders, n);
                    let here = leaders[c];
                    match seen.get(&k) {
                        Some(&other) if other != here => {
                            merge = Some((other.min(here), other.max(here)));
                            break 'scan;
                        }
                        _ => {
                            seen.insert(k, here);
                        }
                    }
                }
            }
            match merge {
                None => return leaders,
                Some((to, from)) => {
                    for l in leaders.iter_mut() {
                        if *l == from {
                            *l = to;
                        }
                    }
                }
            }
        }
    }
}

fn stored(g: &TermGraph, id: usize) -> Vec<Plain> {
    g.class_nodes(id).iter().map(plain).collect()
}

/// Holds the store against the mirror, letter for letter.
fn agree(g: &TermGraph, m: &Mirror, probes: &[Plain]) {
    assert_eq!(g.num_ids(), m.leaders.len());
    let mut roots = vec![];
    for id in 0..m.leaders.len() {
        assert_eq!(g.find(id), m.leaders[id]);
        assert!(g.find(id) <= id);
        if m.leaders[id] == id {
            roots.push(id);
            assert_eq!(stored(g, id), m.classes[id]);
        } else {
            assert!(m.classes[id].is_empty());
        }
    }
    assert_eq!(g.class_ids(), roots);
    assert_eq!(g.node_total(), m.classes.iter().map(|c| c.len()).sum::<usize>());
    for p in probes {
        if p.1.iter().all(|c| *c < m.leaders.len()) {
            assert_eq!(g.lookup(&Node::new(&p.0, p.1.clone())), m.lookup(p));
        }
    }
}

/// Rebuilds the store, holds the result against what a rebuild owes, and
/// reads the mirror off the store again.
fn rebuild(g: &mut TermGraph, m: &mut Mirror) {
    let expected = m.closure();
    g.rebuild();
    let n = m.leaders.len();
    assert_eq!(g.num_ids(), n);
    let leaders: Vec<usize> = (0..n).map(|id| g.find(id)).collect();
    // the least congruence, with the smallest id of each class for it
    assert_eq!(leaders, expected);
    for id in 0..n {
        // every equality is kept, every representative was one
        assert_eq!(leaders[m.leaders[id]], leaders[id]);
        assert_eq!(m.leaders[leaders[id]], leaders[id]);
    }
    let mut classes: Vec<Vec<Plain>> = vec![vec![]; n];
    let mut memo: HashMap<Plain, usize> = HashMap::new();
    for &c in &g.class_ids() {
        let nodes = stored(g, c);
        for k in &nodes {
            // canonical, found by the table in its class, stored once
            assert_eq!(&canon(&leaders, k), k);
            assert_eq!(g.lookup(&Node::new(&k.0, k.1.clone())), Some(c));
            assert!(memo.insert(k.clone(), c).is_none());
            // the canonical form of a node that was there
            assert!((0..n).any(|d| leaders[d] == c
                && m.classes[d].iter().any(|old| &canon(&leaders, old) == k)));
        }
        classes[c] = nodes;
    }
    for (d, nodes) in m.classes.iter().enumerate() {
        for old in nodes {
            // every node is kept, in its canonical form, in the class of its id
            assert!(classes[leaders[d]].contains(&canon(&leaders, old)));
        }
    }
    // a canonical key of the old table is a stored node
    for (k, id) in &m.memo {
        if canon(&leaders, k) == *k {
            assert_eq!(memo.get(k), Some(&leaders[*id]));
        }
    }
    m.leaders = leaders;
    m.classes = classes;
    m.memo = memo;
}

/// A small generator of numbers, the same on every run.
struct Dice(u64);

impl Dice {
    fn roll(&mut self, sides: usize) -> usize {
        self.0 = self.0.wrapping_mul(6364136223846793005).wrapping_add(1442695040888963407);
        ((self.0 >> 33) as usize) % sides
    }
}

fn random_node(dice: &mut Dice, ids: usize) -> Plain {
    let leaves = ["a", "b", "c", "d"];
    let ops = ["f", "g", "+"];
    if ids == 0 || dice.roll(3) == 0 {
        (leaves[dice.roll(leaves.len())].to_string(), vec![])
    } else {
        let op = ops[dice.roll(ops.len())];
        let arity = if op == "+" { 2 } else { 1 };
        (op.to_string(), (0..arity).map(|_| dice.roll(ids)).collect())
    }
}

fn run(seed: u64, steps: usize) {
    let mut dice = Dice(seed);
    let mut g = TermGraph::new();
    let mut m = Mirror::new();
    for _ in 0..steps {
        let ids = m.leaders.len();
        let probes: Vec<Plain> = (0..4).map(|_| random_node(&mut dice, ids)).collect();
        match dice.roll(10) {
            0..=4 => {
                let n = random_node(&mut dice, ids);
                let id = g.add(&Node::new(&n.0, n.1.clone()));
                assert_eq!(id, m.add(&n));
            }
            5..=7 if ids > 0 => {
                let (a, b) = (dice.roll(ids), dice.roll(ids));
                assert_eq!(g.union(a, b), m.union(a, b));
            }
            _ => rebuild(&mut g, &mut m),
        }
        agree(&g, &m, &probes);
    }
    rebuild(&mut g, &mut m);
    agree(&g, &m, &[]);
}

#[test]
fn store_follows_the_model_1() {
    run(1, 120);
}

#[test]
fn store_follows_the_model_2() {
    run(20231, 120);
}

#[test]
fn store_follows_the_model_3() {
    run(0xdead_beef, 120);
}

#[test]
fn store_follows_the_model_4() {
    run(977, 200);
}

#[test]
fn store_follows_the_model_with_many_unions() {
    let mut dice = Dice(5);
    let mut g = TermGraph::new();
    let mut m = Mirror::new();
    for round in 0..12 {
        for _ in 0..8 {
            let n = random_node(&mut dice, m.leaders.len());
            assert_eq!(g.add(&Node::new(&n.0, n.1.clone())), m.add(&n));
        }
        for _ in 0..(round % 4 + 1) {
            let ids = m.leaders.len();
            let (a, b) = (dice.roll(ids), dice.roll(ids));
            assert_eq!(g.union(a, b), m.union(a, b));
            agree(&g, &m, &[]);
        }
        rebuild(&mut g, &mut m);
        agree(&g, &m, &[]);
    }
}
