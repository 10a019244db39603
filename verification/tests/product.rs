use egraph_intersect::node::Node;
use egraph_intersect::product::flatmap_children;

fn kids(nodes: &[Node]) -> Vec<Vec<usize>> {
    nodes.iter().map(|n| n.children.clone()).collect()
}

#[test]
fn leaf_is_its_own_substitution() {
    let out = flatmap_children(&Node::leaf("e"), &vec![vec![1, 2], vec![]]);
    assert_eq!(out.len(), 1);
    assert_eq!(out[0].op, "e");
    assert!(out[0].children.is_empty());
}

#[test]
fn leaf_needs_no_offers() {
    let out = flatmap_children(&Node::leaf("0"), &vec![]);
    assert_eq!(out.len(), 1);
    assert_eq!(out[0].op, "0");
}

#[test]
fn product_is_lexicographic() {
    let choices = vec![vec![10, 11], vec![20], vec![30, 31, 32]];
    let out = flatmap_children(&Node::new("f", vec![0, 2]), &choices);
    assert_eq!(
        kids(&out),
        vec![
            vec![10, 30],
            vec![10, 31],
            vec![10, 32],
            vec![11, 30],
            vec![11, 31],
            vec![11, 32],
        ]
    );
    assert!(out.iter().all(|n| n.op == "f"));
}

#[test]
fn product_of_three() {
    let choices = vec![vec![0, 1], vec![2, 3], vec![4, 5]];
    let out = flatmap_children(&Node::new("g", vec![0, 1, 2]), &choices);
    assert_eq!(
        kids(&out),
        vec![
            vec![0, 2, 4],
            vec![0, 2, 5],
            vec![0, 3, 4],
            vec![0, 3, 5],
            vec![1, 2, 4],
            vec![1, 2, 5],
            vec![1, 3, 4],
            vec![1, 3, 5],
        ]
    );
}

#[test]
fn same_child_twice() {
    let choices = vec![vec![7, 8]];
    let out = flatmap_children(&Node::new("*", vec![0, 0]), &choices);
    assert_eq!(kids(&out), vec![vec![7, 7], vec![7, 8], vec![8, 7], vec![8, 8]]);
}

#[test]
fn child_without_offer_yields_nothing() {
    let choices = vec![vec![1, 2], vec![]];
    let out = flatmap_children(&Node::new("+", vec![0, 1]), &choices);
    assert!(out.is_empty());
    let out = flatmap_children(&Node::new("+", vec![1, 0]), &choices);
    assert!(out.is_empty());
}

#[test]
fn single_child() {
    let choices = vec![vec![], vec![5, 3, 5]];
    let out = flatmap_children(&Node::new("neg", vec![1]), &choices);
    assert_eq!(kids(&out), vec![vec![5], vec![3], vec![5]]);
}

#[test]
fn child_without_entry_yields_nothing() {
    let choices = vec![vec![1, 2]];
    let out = flatmap_children(&Node::new("+", vec![0, 5]), &choices);
    assert!(out.is_empty());
    let out = flatmap_children(&Node::new("neg", vec![9]), &vec![]);
    assert!(out.is_empty());
}
