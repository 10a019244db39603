use egg::{EGraph, Id, Pattern, RecExpr, Rewrite, Runner, SymbolLang};
use egraph_intersect::engine::checked_intersect;
use egraph_intersect::engine::intersect;
use egraph_intersect::engine::intersect_traced;
use egraph_intersect::node::Node;
use egraph_intersect::store::TermGraph;
use std::collections::HashMap;

type Egg = EGraph<SymbolLang, ()>;

fn rule(name: &str, lhs: &str, rhs: &str) -> Rewrite<SymbolLang, ()> {
    let l: Pattern<SymbolLang> = lhs.parse().unwrap();
    let r: Pattern<SymbolLang> = rhs.parse().unwrap();
    Rewrite::new(name, format!("{} => {}", lhs, rhs), l, r).unwrap()
}

fn rules() -> Vec<Rewrite<SymbolLang, ()>> {
    vec![
        rule("add-0-l", "(+ ?x 0)", "?x"),
        rule("add-0-lr", "(+ ?y ?x)", "(+ ?x ?y)"),
        rule("mul-0-l", "(* ?x 0)", "0"),
        rule("mul-0-r", "(* 0 ?x)", "0"),
        rule("mul-0-lr", "(* 0 ?x)", "(* ?x 0)"),
        rule("mul-0-rl", "(* ?x 0)", "(* 0 ?x)"),
    ]
}

fn expr(s: &str) -> RecExpr<SymbolLang> {
    s.parse().unwrap()
}

fn saturate(g: Egg) -> Egg {
    Runner::default().with_egraph(g).run(&rules()).egraph
}

/// The same graph in the library's store.
fn from_egg(e: &Egg) -> TermGraph {
    let mut g = TermGraph::new();
    let mut map: HashMap<Id, usize> = HashMap::new();
    loop {
        let mut progress = false;
        for class in e.classes() {
            for node in &class.nodes {
                if node.children.iter().all(|c| map.contains_key(&e.find(*c))) {
                    let kids = node.children.iter().map(|c| map[&e.find(*c)]).collect();
                    let before = g.num_ids();
                    let id = g.add(&Node::new(node.op.as_str(), kids));
                    progress = progress || g.num_ids() > before;
                    match map.get(&class.id) {
                        Some(&c) => progress = g.union(c, id) || progress,
                        None => {
                            map.insert(class.id, id);
                            progress = true;
                        }
                    }
                }
            }
        }
        g.rebuild();
        if !progress {
            break;
        }
    }
    g
}

/// The class that represents the term, if any.
fn class_of(g: &TermGraph, term: &str) -> Option<usize> {
    let e = expr(term);
    let mut ids: Vec<Option<usize>> = Vec::new();
    for node in e.as_ref() {
        let kids: Option<Vec<usize>> =
            node.children.iter().map(|c| ids[usize::from(*c)]).collect();
        ids.push(kids.and_then(|k| g.lookup(&Node::new(node.op.as_str(), k))));
    }
    *ids.last().unwrap()
}

fn equal(g: &TermGraph, t: &str, u: &str) -> bool {
    match (class_of(g, t), class_of(g, u)) {
        (Some(a), Some(b)) => a == b,
        _ => false,
    }
}

fn start_graph() -> Egg {
    let mut g = Egg::default();
    g.add_expr(&expr("(+ e (* e r0))"));
    let zero = g.add_expr(&expr("0"));
    let r = g.add_expr(&expr("r0"));
    g.union(zero, r);
    saturate(g)
}

fn step_graph() -> Egg {
    let mut g = start_graph();
    let whole = g.add_expr(&expr("(+ e (* e r0))"));
    let r1 = g.add_expr(&expr("r1"));
    g.union(whole, r1);
    g.add_expr(&expr("(+ e (* e r1))"));
    saturate(g)
}

fn middle_graph() -> Egg {
    let mut g = Egg::default();
    g.add_expr(&expr("(+ e (* e r1))"));
    let zero = g.add_expr(&expr("0"));
    let r = g.add_expr(&expr("r1"));
    g.union(zero, r);
    saturate(g)
}

const TERMS: [&str; 16] = [
    "e",
    "0",
    "r0",
    "r1",
    "(* e r0)",
    "(* r0 e)",
    "(* e 0)",
    "(* e r1)",
    "(* e e)",
    "(+ e 0)",
    "(+ 0 e)",
    "(+ e (* e r0))",
    "(+ (* e r0) e)",
    "(+ e (* e r1))",
    "(+ e e)",
    "(* 0 0)",
];

/// Holds the output against what it must say of the given terms.
fn check_is_intersection(out: &TermGraph, g1: &TermGraph, g2: &TermGraph) {
    for t in TERMS {
        assert_eq!(
            class_of(out, t).is_some(),
            class_of(g1, t).is_some() && class_of(g2, t).is_some(),
            "presence of {}",
            t
        );
        for u in TERMS {
            assert_eq!(
                equal(out, t, u),
                equal(g1, t, u) && equal(g2, t, u),
                "equality of {} and {}",
                t,
                u
            );
        }
    }
}

#[test]
fn conversion_keeps_the_equalities() {
    let e = start_graph();
    let g = from_egg(&e);
    assert_eq!(g.class_ids().len(), e.number_of_classes());
    assert!(equal(&g, "e", "(+ e (* e r0))"));
    assert!(equal(&g, "r0", "0"));
    assert!(equal(&g, "(* e r0)", "0"));
    assert!(!equal(&g, "e", "0"));
    assert_eq!(class_of(&g, "r1"), None);
}

#[test]
fn start_and_step() {
    let g1 = from_egg(&start_graph());
    let g2 = from_egg(&step_graph());
    assert!(equal(&g1, "e", "(+ e (* e r0))"));
    assert!(equal(&g2, "e", "(+ e (* e r0))"));
    assert!(equal(&g2, "e", "r1"));
    assert!(!equal(&g1, "e", "r1"));
    let out = intersect(&g1, &g2);
    assert!(equal(&out, "e", "(+ e (* e r0))"));
    assert!(!equal(&out, "e", "r1"));
    assert!(!equal(&out, "r0", "r1"));
    assert_eq!(class_of(&out, "r1"), None);
    assert!(equal(&out, "r0", "0"));
    assert!(!equal(&out, "e", "r0"));
    check_is_intersection(&out, &g1, &g2);
}

#[test]
fn middle_and_step() {
    let g1 = from_egg(&middle_graph());
    let g2 = from_egg(&step_graph());
    let out = intersect(&g1, &g2);
    assert!(class_of(&out, "e").is_some());
    assert!(class_of(&out, "r1").is_some());
    assert!(equal(&g1, "r1", "0"));
    assert!(!equal(&g2, "r1", "0"));
    assert!(!equal(&out, "r1", "0"));
    assert!(equal(&g2, "r1", "e"));
    assert!(!equal(&g1, "r1", "e"));
    assert!(!equal(&out, "r1", "e"));
    assert_eq!(class_of(&out, "r0"), None);
    check_is_intersection(&out, &g1, &g2);
}

#[test]
fn missing_node_gets_no_class() {
    let mut g1 = TermGraph::new();
    let a = g1.add(&Node::leaf("a"));
    let b = g1.add(&Node::leaf("b"));
    let fb = g1.add(&Node::new("f", vec![b]));
    g1.union(a, b);
    g1.rebuild();
    let mut g2 = TermGraph::new();
    let a2 = g2.add(&Node::leaf("a"));
    g2.add(&Node::new("f", vec![a2]));
    g2.rebuild();
    let out = intersect(&g1, &g2);
    assert!(class_of(&out, "a").is_some());
    assert_eq!(class_of(&out, "b"), None);
    assert_eq!(class_of(&out, "(f b)"), None);
    assert!(class_of(&out, "(f a)").is_some());
    assert!(!equal(&out, "a", "(f a)"));
    assert_eq!(out.class_ids().len(), 2);
    assert_eq!(out.node_total(), 2);
    assert_eq!(g1.find(fb), fb);
}

#[test]
fn with_itself() {
    for e in [start_graph(), step_graph(), middle_graph()] {
        let g = from_egg(&e);
        let out = intersect(&g, &g);
        assert_eq!(out.class_ids().len(), g.class_ids().len());
        assert_eq!(out.node_total(), g.node_total());
        check_is_intersection(&out, &g, &g);
        for t in TERMS {
            assert_eq!(class_of(&out, t).is_some(), class_of(&g, t).is_some());
            for u in TERMS {
                assert_eq!(equal(&out, t, u), equal(&g, t, u));
            }
        }
    }
}

#[test]
fn either_order() {
    let g1 = from_egg(&start_graph());
    let g2 = from_egg(&step_graph());
    let g3 = from_egg(&middle_graph());
    for (a, b) in [(&g1, &g2), (&g3, &g2), (&g1, &g3)] {
        let ab = intersect(a, b);
        let ba = intersect(b, a);
        assert_eq!(ab.class_ids().len(), ba.class_ids().len());
        assert_eq!(ab.node_total(), ba.node_total());
        for t in TERMS {
            assert_eq!(class_of(&ab, t).is_some(), class_of(&ba, t).is_some());
            for u in TERMS {
                assert_eq!(equal(&ab, t, u), equal(&ba, t, u));
            }
        }
    }
}

#[test]
fn equal_in_one_input_only() {
    let mut g1 = TermGraph::new();
    let a = g1.add(&Node::leaf("a"));
    let b = g1.add(&Node::leaf("b"));
    g1.add(&Node::new("f", vec![a]));
    g1.add(&Node::new("f", vec![b]));
    g1.union(a, b);
    g1.rebuild();
    let mut g2 = TermGraph::new();
    let a2 = g2.add(&Node::leaf("a"));
    let b2 = g2.add(&Node::leaf("b"));
    g2.add(&Node::new("f", vec![a2]));
    g2.add(&Node::new("f", vec![b2]));
    g2.rebuild();
    assert!(equal(&g1, "(f a)", "(f b)"));
    let out = intersect(&g1, &g2);
    assert!(!equal(&out, "a", "b"));
    assert!(!equal(&out, "(f a)", "(f b)"));
    assert!(class_of(&out, "(f b)").is_some());
    assert_eq!(out.class_ids().len(), 4);
    let back = intersect(&g2, &g1);
    assert!(!equal(&back, "a", "b"));
    assert_eq!(back.class_ids().len(), 4);
}

#[test]
fn equal_in_both_inputs() {
    let mut g1 = TermGraph::new();
    let a = g1.add(&Node::leaf("a"));
    let b = g1.add(&Node::leaf("b"));
    let c = g1.add(&Node::leaf("c"));
    g1.add(&Node::new("f", vec![a]));
    g1.add(&Node::new("f", vec![b]));
    g1.union(a, b);
    g1.union(b, c);
    g1.rebuild();
    let mut g2 = TermGraph::new();
    let b2 = g2.add(&Node::leaf("b"));
    let a2 = g2.add(&Node::leaf("a"));
    g2.add(&Node::leaf("c"));
    g2.add(&Node::new("f", vec![b2]));
    g2.add(&Node::new("f", vec![a2]));
    g2.union(a2, b2);
    g2.rebuild();
    let out = intersect(&g1, &g2);
    assert!(equal(&out, "a", "b"));
    assert!(equal(&out, "(f a)", "(f b)"));
    assert!(!equal(&out, "a", "c"));
    assert!(class_of(&out, "c").is_some());
    assert_eq!(out.class_ids().len(), 3);
}

#[test]
fn cyclic_classes() {
    let mut g1 = TermGraph::new();
    let x = g1.add(&Node::leaf("x"));
    let fx = g1.add(&Node::new("f", vec![x]));
    g1.union(x, fx);
    g1.rebuild();
    let mut g2 = TermGraph::new();
    let x2 = g2.add(&Node::leaf("x"));
    let fx2 = g2.add(&Node::new("f", vec![x2]));
    let ffx2 = g2.add(&Node::new("f", vec![fx2]));
    g2.union(x2, ffx2);
    g2.rebuild();
    let out = intersect(&g1, &g2);
    assert!(equal(&out, "x", "(f (f x))"));
    assert!(!equal(&out, "x", "(f x)"));
    assert!(equal(&out, "(f x)", "(f (f (f x)))"));
    assert_eq!(out.class_ids().len(), 2);
    assert!(out.num_ids() <= g1.node_total() * g2.node_total());
}

#[test]
fn empty_inputs() {
    let empty = TermGraph::new();
    let g = from_egg(&start_graph());
    assert_eq!(intersect(&empty, &empty).num_ids(), 0);
    assert_eq!(intersect(&empty, &g).num_ids(), 0);
    assert_eq!(intersect(&g, &empty).num_ids(), 0);
}

#[test]
fn ids_stay_below_the_bound() {
    let g1 = from_egg(&start_graph());
    let g2 = from_egg(&step_graph());
    let out = intersect(&g1, &g2);
    assert!(out.num_ids() <= g1.node_total() * g2.node_total());
    assert!(out.num_ids() - out.class_ids().len() <= g1.node_total() * g2.node_total());
}

#[test]
fn many_nodes_in_one_class() {
    let mut g = TermGraph::new();
    let x = g.add(&Node::leaf("x"));
    for op in ["f", "g", "h", "k"] {
        let n = g.add(&Node::new(op, vec![x]));
        g.union(x, n);
    }
    g.rebuild();
    assert_eq!(g.class_ids().len(), 1);
    assert_eq!(g.node_total(), 5);
    let out = intersect(&g, &g);
    assert_eq!(out.class_ids().len(), 1);
    assert_eq!(out.node_total(), 5);
    assert_eq!(out.num_ids(), 5);
    assert!(equal(&out, "x", "(f (g (h (k x))))"));
}

#[test]
fn traced_maps_lead_back() {
    let g1 = from_egg(&start_graph());
    let g2 = from_egg(&step_graph());
    let r = intersect_traced(&g1, &g2);
    assert_eq!(r.forward.len(), g1.num_ids());
    assert_eq!(r.image.len(), r.graph.num_ids());
    for t in TERMS {
        if let Some(c) = class_of(&r.graph, t) {
            assert_eq!(Some(g2.find(r.image[c])), class_of(&g2, t));
            let c1 = class_of(&g1, t).unwrap();
            assert!(r.forward[c1].contains(&c));
        }
    }
    let mut seen = vec![false; r.graph.num_ids()];
    for (c1, set) in r.forward.iter().enumerate() {
        if g1.find(c1) != c1 {
            assert!(set.is_empty());
        }
        for x in set {
            assert!(*x < r.graph.num_ids());
            assert!(!seen[*x]);
            seen[*x] = true;
        }
    }
    assert!(seen.iter().all(|s| *s));
    for x in 0..r.graph.num_ids() {
        assert_eq!(g2.find(r.image[x]), g2.find(r.image[r.graph.find(x)]));
    }
    assert!(r.merges + r.graph.class_ids().len() <= r.graph.num_ids());
    assert!(r.merges <= g1.node_total() * g2.node_total());
}

#[test]
fn traced_small() {
    let mut g1 = TermGraph::new();
    let a = g1.add(&Node::leaf("a"));
    let b = g1.add(&Node::leaf("b"));
    g1.union(a, b);
    g1.rebuild();
    let mut g2 = TermGraph::new();
    g2.add(&Node::leaf("c"));
    let b2 = g2.add(&Node::leaf("b"));
    let a2 = g2.add(&Node::leaf("a"));
    g2.union(a2, b2);
    g2.rebuild();
    let r = intersect_traced(&g1, &g2);
    assert_eq!(r.graph.num_ids(), 2);
    assert_eq!(r.graph.class_ids(), vec![0]);
    assert_eq!(r.merges, 1);
    assert_eq!(r.forward, vec![vec![0, 1], vec![]]);
    assert_eq!(r.image.len(), 2);
    assert_eq!(g2.find(r.image[0]), b2);
    assert_eq!(g2.find(r.image[1]), b2);
}

#[test]
fn merges_are_counted() {
    let mut g = TermGraph::new();
    let x = g.add(&Node::leaf("x"));
    for op in ["f", "g", "h", "k"] {
        let n = g.add(&Node::new(op, vec![x]));
        g.union(x, n);
    }
    g.rebuild();
    let r = intersect_traced(&g, &g);
    assert_eq!(r.merges, 4);
    assert_eq!(r.graph.class_ids().len(), 1);
    assert_eq!(r.graph.num_ids(), 5);
    assert!(r.merges > g.class_ids().len() * g.class_ids().len());
    assert!(r.merges <= g.node_total() * g.node_total());
}

#[test]
fn checked_intersection_of_small_graphs() {
    let g1 = from_egg(&start_graph());
    let g2 = from_egg(&step_graph());
    let out = checked_intersect(&g1, &g2).unwrap();
    check_is_intersection(&out, &g1, &g2);
    let empty = TermGraph::new();
    assert_eq!(checked_intersect(&empty, &g2).unwrap().num_ids(), 0);
}

#[test]
fn checked_intersection_refuses_large_graphs() {
    let mut g = TermGraph::new();
    for i in 0..65536 {
        g.add(&Node::leaf(&format!("s{}", i)));
    }
    assert_eq!(g.node_total(), 65536);
    assert!(checked_intersect(&g, &g).is_none());
    let mut h = TermGraph::new();
    h.add(&Node::leaf("s7"));
    let out = checked_intersect(&g, &h).unwrap();
    assert_eq!(out.num_ids(), 1);
    assert!(class_of(&out, "s7").is_some());
    assert_eq!(class_of(&out, "s8"), None);
}

#[test]
fn nested_terms_need_several_passes() {
    let mut g1 = TermGraph::new();
    let mut g2 = TermGraph::new();
    // In `g1` the outermost node has the smallest id, so that a pass meets
    // it before its children have ids in the product.
    let top = g1.add(&Node::leaf("tmp"));
    let x = g1.add(&Node::leaf("x"));
    let fx = g1.add(&Node::new("f", vec![x]));
    let ffx = g1.add(&Node::new("f", vec![fx]));
    let fffx = g1.add(&Node::new("f", vec![ffx]));
    g1.union(top, fffx);
    g1.rebuild();
    let x2 = g2.add(&Node::leaf("x"));
    let fx2 = g2.add(&Node::new("f", vec![x2]));
    let ffx2 = g2.add(&Node::new("f", vec![fx2]));
    g2.add(&Node::new("f", vec![ffx2]));
    g2.rebuild();
    let out = intersect(&g1, &g2);
    assert!(class_of(&out, "(f (f (f x)))").is_some());
    assert_eq!(class_of(&out, "tmp"), None);
    assert_eq!(class_of(&out, "(f (f (f (f x))))"), None);
    assert_eq!(out.class_ids().len(), 4);
    assert_eq!(out.num_ids(), 4);
}
