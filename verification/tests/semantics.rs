use egraph_intersect::engine::intersect_traced;
use egraph_intersect::node::Node;
use egraph_intersect::store::TermGraph;
use std::collections::HashMap;

#[derive(Clone, Debug)]
struct Term {
    op: &'static str,
    args: Vec<Term>,
}

const LEAVES: [&str; 3] = ["a", "b", "c"];

/// Every term of at most the given depth over three leaves, two unary
/// operators and one binary operator.
fn terms(depth: usize) -> Vec<Term> {
    let mut all: Vec<Term> = LEAVES.iter().map(|l| Term { op: l, args: vec![] }).collect();
    for _ in 0..depth {
        let mut next = all.clone();
        for t in &all {
            for op in ["f", "g"] {
                next.push(Term { op, args: vec![t.clone()] });
            }
        }
        for t in &all {
            for u in &all {
                next.push(Term { op: "+", args: vec![t.clone(), u.clone()] });
            }
        }
        all = next;
    }
    all
}

/// The class that represents the term, if any.
fn class_of(g: &TermGraph, t: &Term) -> Option<usize> {
    let mut kids = vec![];
    for a in &t.args {
        kids.push(class_of(g, a)?);
    }
    g.lookup(&Node::new(t.op, kids))
}

/// A small generator of numbers, the same on every run.
struct Dice(u64);

impl Dice {
    fn roll(&mut self, sides: usize) -> usize {
        self.0 = self.0.wrapping_mul(6364136223846793005).wrapping_add(1442695040888963407);
        ((self.0 >> 33) as usize) % sides
    }
}

fn random_graph(dice: &mut Dice, nodes: usize, unions: usize) -> TermGraph {
    let mut g = TermGraph::new();
    for l in LEAVES {
        if dice.roll(4) != 0 {
            g.add(&Node::leaf(l));
        }
    }
    for _ in 0..nodes {
        let ids = g.num_ids();
        if ids == 0 {
            g.add(&Node::leaf("a"));
            continue;
        }
        match dice.roll(3) {
            0 => g.add(&Node::new("f", vec![dice.roll(ids)])),
            1 => g.add(&Node::new("g", vec![dice.roll(ids)])),
            _ => g.add(&Node::new("+", vec![dice.roll(ids), dice.roll(ids)])),
        };
    }
    for _ in 0..unions {
        let ids = g.num_ids();
        g.union(dice.roll(ids), dice.roll(ids));
    }
    g.rebuild();
    g
}

/// Holds an intersection against its inputs on every given term: it
/// represents a term exactly if both inputs do, and two terms are in one
/// class of it exactly if they are in one class of each input.
fn holds_on(g1: &TermGraph, g2: &TermGraph, all: &[Term]) -> usize {
    let r = intersect_traced(g1, g2);
    let out = &r.graph;
    let mut pair_of: HashMap<usize, (usize, usize)> = HashMap::new();
    let mut class_for: HashMap<(usize, usize), usize> = HashMap::new();
    let mut common = 0;
    for t in all {
        let (c, c1, c2) = (class_of(out, t), class_of(g1, t), class_of(g2, t));
        assert_eq!(c.is_some(), c1.is_some() && c2.is_some(), "{:?}", t);
        if let (Some(c), Some(c1), Some(c2)) = (c, c1, c2) {
            common += 1;
            assert_eq!(*pair_of.entry(c).or_insert((c1, c2)), (c1, c2), "{:?}", t);
            assert_eq!(*class_for.entry((c1, c2)).or_insert(c), c, "{:?}", t);
            assert_eq!(g2.find(r.image[c]), c2);
            assert!(r.forward[c1].contains(&c));
        }
    }
    assert!(out.num_ids() <= g1.node_total() * g2.node_total());
    assert!(r.merges + out.class_ids().len() <= out.num_ids());
    for c in out.class_ids() {
        assert!(!out.class_nodes(c).is_empty());
    }
    common
}

fn run(seed: u64, rounds: usize, nodes: usize, unions: usize) -> usize {
    let all = terms(2);
    let mut dice = Dice(seed);
    let mut common = 0;
    for _ in 0..rounds {
        let g1 = random_graph(&mut dice, nodes, unions);
        let g2 = random_graph(&mut dice, nodes, unions);
        common += holds_on(&g1, &g2, &all);
        common += holds_on(&g2, &g1, &all);
        common += holds_on(&g1, &g1, &all);
    }
    common
}

#[test]
fn random_graphs_without_unions() {
    assert!(run(3, 6, 10, 0) > 0);
}

#[test]
fn random_graphs_with_few_unions() {
    assert!(run(11, 6, 10, 2) > 0);
}

#[test]
fn random_graphs_with_many_unions() {
    assert!(run(42, 6, 12, 6) > 0);
}

#[test]
fn random_small_graphs() {
    assert!(run(7, 12, 4, 1) > 0);
}

#[test]
fn random_larger_graphs() {
    assert!(run(1234, 3, 20, 4) > 0);
}
