use rstar::envelope::{Envelope, Point};
use rstar::node::{ParentNodeData, RTreeNode};
use rstar::params::RTreeParams;
use rstar::chooser::choose_subtree;
use rstar::rtree::RTree;

fn pt(x: i32, y: i32) -> Point {
    Point { x, y }
}

/// xorshift128: a small deterministic generator for test data.
struct XorShift {
    s: [u32; 4],
}

impl XorShift {
    fn next(&mut self) -> u32 {
        let t = self.s[0] ^ (self.s[0] << 11);
        self.s[0] = self.s[1];
        self.s[1] = self.s[2];
        self.s[2] = self.s[3];
        self.s[3] = self.s[3] ^ (self.s[3] >> 19) ^ t ^ (t >> 8);
        self.s[3]
    }
}

fn create_random_points(n: usize, seed: [u32; 4]) -> Vec<Point> {
    let mut rng = XorShift { s: seed };
    (0..n)
        .map(|_| pt((rng.next() % 2001) as i32 - 1000, (rng.next() % 2001) as i32 - 1000))
        .collect()
}

fn params(min: usize, max: usize, r: usize) -> RTreeParams {
    RTreeParams::custom(min, max, r).unwrap()
}

/// Checks balance, fan-out, tight envelopes, and returns the number of leaves.
fn audit(node: &RTreeNode, level: usize, is_root: bool, p: &RTreeParams) -> usize {
    match node {
        RTreeNode::Leaf(_) => {
            assert_eq!(level, 0);
            1
        }
        RTreeNode::Parent(d) => {
            assert!(level >= 1);
            if !is_root {
                assert!(d.children.len() >= p.min_size && d.children.len() <= p.max_size);
            }
            let mut env = Envelope::new_empty();
            let mut count = 0;
            for c in &d.children {
                env.merge(&c.envelope());
                assert!(d.envelope.contains_envelope(&c.envelope()));
                count += audit(c, level - 1, false, p);
            }
            assert_eq!(env, d.envelope);
            count
        }
    }
}

fn audit_tree(tree: &RTree) {
    let root = tree.root();
    let mut count = 0;
    if tree.height() == 0 {
        assert!(root.children.is_empty());
    }
    for c in &root.children {
        count += audit(c, tree.height() - 1, false, &tree.params());
    }
    assert!(root.children.len() >= 2 || tree.size() <= 1);
    assert_eq!(count, tree.size());
}

fn shape(node: &RTreeNode) -> String {
    match node {
        RTreeNode::Leaf(p) => format!("({},{})", p.x, p.y),
        RTreeNode::Parent(d) => {
            let inner: Vec<String> = d.children.iter().map(shape).collect();
            format!("[{:?}|{}]", d.envelope, inner.join(","))
        }
    }
}

fn root_shape(tree: &RTree) -> String {
    let inner: Vec<String> = tree.root().children.iter().map(shape).collect();
    format!("{}:{:?}:{}", tree.height(), tree.root().envelope, inner.join(","))
}

#[test]
fn test_create_rtree_with_parameters() {
    let tree = RTree::new();
    let other_tree = RTree::new_with_params(params(2, 7, 1));
    assert_eq!(tree.size(), 0);
    assert_eq!(other_tree.size(), 0);
}

#[test]
fn test_insert_single() {
    let mut tree = RTree::new();
    tree.insert(pt(2, 40));
    assert_eq!(tree.size(), 1);
    assert!(tree.contains(&pt(2, 40)));
    assert_eq!(tree.height(), 1);
    assert!(!tree.contains(&pt(30, 20)));
}

#[test]
fn test_insert_many() {
    const NUM_POINTS: usize = 1000;
    let points = create_random_points(NUM_POINTS, [231, 22912, 399939, 922931]);
    let mut tree = RTree::new();
    for p in &points {
        tree.insert(*p);
    }
    assert_eq!(tree.size(), NUM_POINTS);
    for p in &points {
        assert!(tree.contains(p));
    }
    audit_tree(&tree);
}

#[test]
fn custom_params_bounds() {
    assert!(RTreeParams::custom(5, 7, 1).is_none());
    assert!(RTreeParams::custom(0, 4, 1).is_none());
    assert!(RTreeParams::custom(2, 4, 4).is_none());
    assert!(RTreeParams::custom(2, 4, 3).is_some());
    let d = RTreeParams::default_params();
    assert_eq!((d.min_size, d.max_size, d.reinsertion_count), (3, 6, 2));
}

#[test]
fn first_insert_makes_one_leaf_under_root() {
    let mut tree = RTree::new();
    assert_eq!(tree.height(), 0);
    tree.insert(pt(5, -3));
    assert_eq!(tree.height(), 1);
    assert_eq!(tree.size(), 1);
    assert_eq!(tree.root().children.len(), 1);
    assert!(matches!(tree.root().children[0], RTreeNode::Leaf(p) if p == pt(5, -3)));
    assert_eq!(tree.root().envelope, Envelope { lower: pt(5, -3), upper: pt(5, -3) });
}

#[test]
fn root_split_on_overflow() {
    for r in [0usize, 2] {
        let mut tree = RTree::new_with_params(params(3, 6, r));
        for i in 0..6 {
            tree.insert(pt(i * 10, i % 3));
        }
        assert_eq!(tree.height(), 1);
        assert_eq!(tree.root().children.len(), 6);
        tree.insert(pt(70, 1));
        assert_eq!(tree.height(), 2);
        assert_eq!(tree.root().children.len(), 2);
        for c in &tree.root().children {
            assert!(matches!(c, RTreeNode::Parent(_)));
        }
        audit_tree(&tree);
    }
}

#[test]
fn unit_grid_split_without_reinsertion() {
    let mut tree = RTree::new_with_params(params(2, 4, 0));
    for p in [pt(0, 0), pt(2, 0), pt(0, 2), pt(2, 2), pt(1, 1)] {
        tree.insert(p);
    }
    assert_eq!(tree.height(), 2);
    assert_eq!(tree.root().children.len(), 2);
    for c in &tree.root().children {
        match c {
            RTreeNode::Parent(d) => assert!(d.children.len() == 2 || d.children.len() == 3),
            RTreeNode::Leaf(_) => panic!("a leaf directly under a root of height 2"),
        }
    }
    audit_tree(&tree);
}

#[test]
fn unit_grid_with_reinsertion() {
    let mut tree = RTree::new_with_params(params(2, 4, 2));
    let points = [pt(0, 0), pt(2, 0), pt(0, 2), pt(2, 2), pt(1, 1), pt(4, 4)];
    for p in points {
        tree.insert(p);
    }
    assert_eq!(tree.size(), 6);
    assert_eq!(tree.height(), 2);
    for p in &points {
        assert!(tree.contains(p));
    }
    audit_tree(&tree);
}

#[test]
fn identical_points() {
    let mut tree = RTree::new();
    for _ in 0..100 {
        tree.insert(pt(0, 0));
    }
    assert_eq!(tree.size(), 100);
    assert!(tree.contains(&pt(0, 0)));
    assert!(!tree.contains(&pt(0, 1)));
    assert_eq!(tree.locate_all(&pt(0, 0)).len(), 100);
    audit_tree(&tree);
}

#[test]
fn nearest_neighbor_matches_brute_force() {
    let points = create_random_points(100, [1, 2, 3, 4]);
    let mut tree = RTree::new();
    for p in &points {
        tree.insert(*p);
    }
    let queries = create_random_points(50, [9, 8, 7, 6]);
    for q in &queries {
        let best = points.iter().map(|p| p.distance_2(q)).min().unwrap();
        let found = tree.nearest_neighbor(q).unwrap();
        assert_eq!(found.distance_2(q), best);
    }
    assert!(RTree::new().nearest_neighbor(&pt(0, 0)).is_none());
}

#[test]
fn insertion_is_deterministic() {
    let points = create_random_points(300, [11, 22, 33, 44]);
    let mut a = RTree::new();
    let mut b = RTree::new();
    for p in &points {
        a.insert(*p);
        b.insert(*p);
    }
    assert_eq!(root_shape(&a), root_shape(&b));
}

#[test]
fn contents_do_not_depend_on_order() {
    let points = create_random_points(200, [5, 6, 7, 8]);
    let mut a = RTree::new();
    let mut b = RTree::new_with_params(params(2, 5, 1));
    for p in &points {
        a.insert(*p);
    }
    for p in points.iter().rev() {
        b.insert(*p);
    }
    let key = |p: &Point| (p.x, p.y);
    let mut expected = points.clone();
    expected.sort_by_key(key);
    let mut got_a = a.iter();
    got_a.sort_by_key(key);
    let mut got_b = b.iter();
    got_b.sort_by_key(key);
    assert_eq!(got_a, expected);
    assert_eq!(got_b, expected);
    audit_tree(&b);
}

#[test]
fn envelope_queries() {
    let mut tree = RTree::new();
    for x in 0..10 {
        for y in 0..10 {
            tree.insert(pt(x, y));
        }
    }
    let q = Envelope { lower: pt(2, 3), upper: pt(4, 4) };
    let mut found = tree.locate_in_envelope(&q);
    found.sort_by_key(|p| (p.x, p.y));
    assert_eq!(found, vec![pt(2, 3), pt(2, 4), pt(3, 3), pt(3, 4), pt(4, 3), pt(4, 4)]);
    assert_eq!(tree.locate(&pt(9, 9)), Some(pt(9, 9)));
    assert_eq!(tree.locate(&pt(10, 9)), None);
    assert!(tree.locate_all(&pt(11, 0)).is_empty());
    assert_eq!(tree.iter().len(), 100);
}

#[test]
fn envelope_arithmetic() {
    let a = Envelope { lower: pt(0, 0), upper: pt(4, 3) };
    let b = Envelope { lower: pt(2, 1), upper: pt(6, 5) };
    assert_eq!(a.area(), 12);
    assert_eq!(a.margin_value(), 7);
    assert_eq!(a.intersection_area(&b), 4);
    assert_eq!(a.merged(&b), Envelope { lower: pt(0, 0), upper: pt(6, 5) });
    assert!(a.merged(&b).contains_envelope(&b));
    assert!(!a.contains_envelope(&b));
    let far = Envelope { lower: pt(10, 10), upper: pt(11, 11) };
    assert_eq!(a.intersection_area(&far), 0);
    assert!(!a.intersects(&far));
    assert!(a.intersects(&b));
    let e = Envelope::new_empty();
    assert_eq!(e.area(), 0);
    assert_eq!(e.merged(&a), a);
    assert_eq!(a.center_distance_2(&b), 4 * 4 + 3 * 3);
    assert_eq!(pt(1, 2).distance_2(&pt(4, 6)), 25);
    let wide = Envelope { lower: pt(i32::MIN, i32::MIN), upper: pt(i32::MAX, i32::MAX) };
    assert_eq!(wide.area(), (u32::MAX as u128) * (u32::MAX as u128));
}

#[test]
fn chooser_prefers_containing_child_of_least_area() {
    let big = ParentNodeData::new_parent(vec![RTreeNode::Leaf(pt(0, 0)), RTreeNode::Leaf(pt(10, 10))]);
    let small = ParentNodeData::new_parent(vec![RTreeNode::Leaf(pt(4, 4)), RTreeNode::Leaf(pt(6, 6))]);
    let node = ParentNodeData::new_parent(vec![RTreeNode::Parent(big), RTreeNode::Parent(small)]);
    assert_eq!(choose_subtree(&node, &RTreeNode::Leaf(pt(5, 5)), false), 1);
    assert_eq!(choose_subtree(&node, &RTreeNode::Leaf(pt(1, 9)), false), 0);
}

#[test]
fn chooser_scores_by_growth_when_nothing_contains() {
    let left = ParentNodeData::new_parent(vec![RTreeNode::Leaf(pt(0, 0)), RTreeNode::Leaf(pt(2, 2))]);
    let right = ParentNodeData::new_parent(vec![RTreeNode::Leaf(pt(10, 0)), RTreeNode::Leaf(pt(12, 2))]);
    let node = ParentNodeData::new_parent(vec![RTreeNode::Parent(left), RTreeNode::Parent(right)]);
    assert_eq!(choose_subtree(&node, &RTreeNode::Leaf(pt(9, 1)), true), 1);
    assert_eq!(choose_subtree(&node, &RTreeNode::Leaf(pt(3, 1)), false), 0);
    // Equal scores: the first child wins.
    assert_eq!(choose_subtree(&node, &RTreeNode::Leaf(pt(6, 1)), false), 0);
}
