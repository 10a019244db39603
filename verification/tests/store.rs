use egraph_intersect::node::Node;
use egraph_intersect::store::TermGraph;

fn views(nodes: &[Node]) -> Vec<(String, Vec<usize>)> {
    let mut out: Vec<(String, Vec<usize>)> =
        nodes.iter().map(|n| (n.op.clone(), n.children.clone())).collect();
    out.sort();
    out
}

#[test]
fn new_graph_is_empty() {
    let g = TermGraph::new();
    assert_eq!(g.num_ids(), 0);
    assert_eq!(g.class_ids(), Vec::<usize>::new());
    assert_eq!(g.node_total(), 0);
}

#[test]
fn add_is_hash_consed() {
    let mut g = TermGraph::new();
    let a = g.add(&Node::leaf("a"));
    let b = g.add(&Node::leaf("b"));
    let a2 = g.add(&Node::leaf("a"));
    assert_eq!(a, 0);
    assert_eq!(b, 1);
    assert_eq!(a2, a);
    let f = g.add(&Node::new("f", vec![a, b]));
    assert_eq!(f, 2);
    assert_eq!(g.add(&Node::new("f", vec![a, b])), f);
    assert_eq!(g.num_ids(), 3);
    assert_eq!(g.node_total(), 3);
    assert_eq!(g.lookup(&Node::new("f", vec![a, b])), Some(f));
    assert_eq!(g.lookup(&Node::new("f", vec![b, a])), None);
    assert_eq!(g.lookup(&Node::new("g", vec![a, b])), None);
}

#[test]
fn leaves_differ_by_payload() {
    let mut g = TermGraph::new();
    let zero = g.add(&Node::leaf("0"));
    let one = g.add(&Node::leaf("1"));
    let x = g.add(&Node::leaf("x"));
    assert_ne!(zero, one);
    assert_ne!(zero, x);
    assert_eq!(g.lookup(&Node::leaf("0")), Some(zero));
    assert_eq!(g.lookup(&Node::leaf("2")), None);
}

#[test]
fn find_is_idempotent() {
    let mut g = TermGraph::new();
    let a = g.add(&Node::leaf("a"));
    let b = g.add(&Node::leaf("b"));
    let c = g.add(&Node::leaf("c"));
    g.union(c, b);
    g.union(b, a);
    g.rebuild();
    for id in [a, b, c] {
        assert_eq!(g.find(g.find(id)), g.find(id));
    }
}

#[test]
fn union_keeps_the_smaller_representative() {
    let mut g = TermGraph::new();
    let a = g.add(&Node::leaf("a"));
    let b = g.add(&Node::leaf("b"));
    let c = g.add(&Node::leaf("c"));
    assert_eq!(g.find(c), c);
    assert!(g.union(c, b));
    assert_eq!(g.find(c), b);
    assert_eq!(g.find(b), b);
    assert_eq!(g.find(a), a);
    assert!(!g.union(b, c));
    assert!(g.union(c, a));
    assert_eq!(g.find(a), a);
    assert_eq!(g.find(b), a);
    assert_eq!(g.find(c), a);
    assert_eq!(g.num_ids(), 3);
    assert_eq!(g.class_ids(), vec![a]);
}

#[test]
fn union_leaves_congruence_to_rebuild() {
    let mut g = TermGraph::new();
    let a = g.add(&Node::leaf("a"));
    let x = g.add(&Node::leaf("x"));
    let y = g.add(&Node::leaf("y"));
    let ax = g.add(&Node::new("+", vec![a, x]));
    let ay = g.add(&Node::new("+", vec![a, y]));
    assert!(g.union(x, y));
    assert_ne!(g.find(ax), g.find(ay));
    assert_eq!(g.class_ids().len(), 4);
    g.rebuild();
    assert_eq!(g.find(ax), g.find(ay));
    assert_eq!(g.class_ids().len(), 3);
    assert_eq!(g.num_ids(), 5);
}

#[test]
fn rebuild_canonicalizes_and_dedups_nodes() {
    let mut g = TermGraph::new();
    let a = g.add(&Node::leaf("a"));
    let x = g.add(&Node::leaf("x"));
    let y = g.add(&Node::leaf("y"));
    let ax = g.add(&Node::new("+", vec![a, x]));
    let _ay = g.add(&Node::new("+", vec![a, y]));
    g.union(x, y);
    g.rebuild();
    let nodes = g.class_nodes(g.find(ax));
    assert_eq!(views(&nodes), vec![("+".to_string(), vec![a, x])]);
    assert_eq!(g.node_total(), 4);
    assert_eq!(g.lookup(&Node::new("+", vec![a, y])), Some(g.find(ax)));
}

#[test]
fn rebuild_of_a_clean_graph_changes_nothing() {
    let mut g = TermGraph::new();
    let a = g.add(&Node::leaf("a"));
    let b = g.add(&Node::leaf("b"));
    let f = g.add(&Node::new("f", vec![a, b]));
    g.rebuild();
    assert_eq!(g.class_ids(), vec![a, b, f]);
    assert_eq!(g.find(f), f);
    assert_eq!(views(&g.class_nodes(f)), vec![("f".to_string(), vec![a, b])]);
    assert_eq!(g.node_total(), 3);
}

#[test]
fn rebuild_closes_upwards() {
    let mut g = TermGraph::new();
    let x = g.add(&Node::leaf("x"));
    let y = g.add(&Node::leaf("y"));
    let fx = g.add(&Node::new("f", vec![x]));
    let fy = g.add(&Node::new("f", vec![y]));
    let gfx = g.add(&Node::new("g", vec![fx]));
    let gfy = g.add(&Node::new("g", vec![fy]));
    g.union(x, y);
    g.rebuild();
    assert_eq!(g.find(fx), g.find(fy));
    assert_eq!(g.find(gfx), g.find(gfy));
    assert_eq!(g.class_ids(), vec![x, fx, gfx]);
}

#[test]
fn lookup_canonicalizes_children() {
    let mut g = TermGraph::new();
    let a = g.add(&Node::leaf("a"));
    let b = g.add(&Node::leaf("b"));
    let c = g.add(&Node::leaf("c"));
    let f = g.add(&Node::new("f", vec![a, c]));
    g.union(b, c);
    g.rebuild();
    assert_eq!(g.lookup(&Node::new("f", vec![a, b])), Some(f));
    assert_eq!(g.lookup(&Node::new("f", vec![a, c])), Some(f));
    assert_eq!(g.lookup(&Node::new("f", vec![b, a])), None);
}

#[test]
fn add_after_union_finds_the_merged_class() {
    let mut g = TermGraph::new();
    let a = g.add(&Node::leaf("a"));
    let b = g.add(&Node::leaf("b"));
    let fa = g.add(&Node::new("f", vec![a]));
    g.union(a, b);
    g.rebuild();
    assert_eq!(g.add(&Node::new("f", vec![b])), fa);
    assert_eq!(g.num_ids(), 3);
}

#[test]
fn class_ids_rise() {
    let mut g = TermGraph::new();
    for name in ["a", "b", "c", "d", "e"] {
        g.add(&Node::leaf(name));
    }
    g.union(1, 3);
    g.union(4, 0);
    g.rebuild();
    assert_eq!(g.class_ids(), vec![0, 1, 2]);
    assert_eq!(views(&g.class_nodes(0)).len(), 2);
    assert_eq!(
        views(&g.class_nodes(1)),
        vec![("b".to_string(), vec![]), ("d".to_string(), vec![])]
    );
}

#[test]
fn node_constructors() {
    let n = Node::new("+", vec![1, 2]);
    assert_eq!(n.op, "+");
    assert_eq!(n.children, vec![1, 2]);
    let l = Node::leaf("x");
    assert_eq!(l.op, "x");
    assert!(l.children.is_empty());
    let m = n.with_children(vec![7, 8]);
    assert_eq!(m.op, "+");
    assert_eq!(m.children, vec![7, 8]);
    let d = n.duplicate();
    assert_eq!(d.op, n.op);
    assert_eq!(d.children, n.children);
}

#[test]
fn classes_list_every_class_once() {
    let mut g = TermGraph::new();
    let a = g.add(&Node::leaf("a"));
    let b = g.add(&Node::leaf("b"));
    let f = g.add(&Node::new("f", vec![a, b]));
    let h = g.add(&Node::new("h", vec![f]));
    g.union(b, a);
    g.union(h, a);
    g.rebuild();
    let classes = g.classes();
    assert_eq!(classes.len(), 2);
    assert_eq!(classes[0].id, a);
    assert_eq!(classes[1].id, f);
    assert_eq!(
        views(&classes[0].nodes),
        vec![
            ("a".to_string(), vec![]),
            ("b".to_string(), vec![]),
            ("h".to_string(), vec![f]),
        ]
    );
    assert_eq!(views(&classes[1].nodes), vec![("f".to_string(), vec![a, a])]);
    assert!(TermGraph::new().classes().is_empty());
}

fn ops(nodes: &[Node]) -> Vec<String> {
    nodes.iter().map(|n| n.op.clone()).collect()
}

#[test]
fn union_puts_the_shorter_list_behind() {
    let mut g = TermGraph::new();
    let a = g.add(&Node::leaf("a"));
    let b = g.add(&Node::leaf("b"));
    let c = g.add(&Node::leaf("c"));
    let d = g.add(&Node::leaf("d"));
    assert!(g.union(c, b));
    assert_eq!(ops(&g.class_nodes(b)), vec!["b", "c"]);
    assert!(g.union(b, a));
    assert_eq!(ops(&g.class_nodes(a)), vec!["b", "c", "a"]);
    assert!(g.union(a, d));
    assert_eq!(ops(&g.class_nodes(a)), vec!["b", "c", "a", "d"]);
    assert_eq!(g.class_ids(), vec![a]);
    assert_eq!(g.node_total(), 4);
}

#[test]
fn table_is_stale_until_rebuild() {
    let mut g = TermGraph::new();
    let b = g.add(&Node::leaf("b"));
    let c = g.add(&Node::leaf("c"));
    let fc = g.add(&Node::new("f", vec![c]));
    assert!(g.union(b, c));
    assert_eq!(g.find(c), b);
    assert_eq!(g.lookup(&Node::new("f", vec![c])), None);
    assert_eq!(g.lookup(&Node::new("f", vec![b])), None);
    g.rebuild();
    assert_eq!(g.lookup(&Node::new("f", vec![c])), Some(fc));
    assert_eq!(g.lookup(&Node::new("f", vec![b])), Some(fc));
    assert_eq!(views(&g.class_nodes(fc)), vec![("f".to_string(), vec![b])]);
}

#[test]
fn add_before_rebuild_makes_a_class_that_rebuild_merges() {
    let mut g = TermGraph::new();
    let b = g.add(&Node::leaf("b"));
    let c = g.add(&Node::leaf("c"));
    let fc = g.add(&Node::new("f", vec![c]));
    g.union(b, c);
    let fb = g.add(&Node::new("f", vec![b]));
    assert_eq!(fb, 3);
    assert_eq!(g.num_ids(), 4);
    assert_ne!(g.find(fb), g.find(fc));
    g.rebuild();
    assert_eq!(g.find(fb), fc);
    assert_eq!(g.class_ids(), vec![b, fc]);
    assert_eq!(g.node_total(), 3);
}

#[test]
fn lookup_changes_nothing() {
    let mut g = TermGraph::new();
    let a = g.add(&Node::leaf("a"));
    assert_eq!(g.lookup(&Node::new("f", vec![a])), None);
    assert_eq!(g.lookup(&Node::leaf("b")), None);
    assert_eq!(g.num_ids(), 1);
    assert_eq!(g.node_total(), 1);
    assert_eq!(g.class_ids(), vec![a]);
}

#[test]
fn same_name_other_arity_is_another_node() {
    let mut g = TermGraph::new();
    let a = g.add(&Node::leaf("a"));
    let f0 = g.add(&Node::leaf("f"));
    let f1 = g.add(&Node::new("f", vec![a]));
    let f2 = g.add(&Node::new("f", vec![a, a]));
    assert_eq!(g.num_ids(), 4);
    assert_ne!(f0, f1);
    assert_ne!(f1, f2);
}
