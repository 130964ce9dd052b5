use miniredis::{add_leaf_nodes, fibonacci, generate_binary_tree, Solution, TreeNode};

#[test]
fn test_tree_generator() {
    let root = generate_binary_tree(100);
    assert!(root.is_some());
}

#[test]
fn max_depth_counts_the_longest_path() {
    assert_eq!(Solution::max_depth(None), 0);
    let leaf = TreeNode::new(3);
    assert_eq!(Solution::max_depth(Some(Box::new(leaf))), 1);
    let mut root = TreeNode::new(1);
    let mut right = TreeNode::new(2);
    right.right = Some(Box::new(TreeNode::new(4)));
    root.right = Some(Box::new(right));
    assert_eq!(Solution::max_depth(Some(Box::new(root))), 3);
}

#[test]
fn leaf_growth_advances_the_counter_evenly() {
    let mut root = Some(Box::new(TreeNode::new(0)));
    let mut cnt: i32 = 0;
    add_leaf_nodes(&mut root, &mut cnt, 10);
    assert!(cnt >= 10);
    assert_eq!(cnt % 2, 0);
    assert_eq!(root.as_ref().unwrap().val, 0);

    // a spent counter leaves the tree alone
    let mut root = Some(Box::new(TreeNode::new(7)));
    let mut cnt: i32 = 5;
    add_leaf_nodes(&mut root, &mut cnt, 5);
    assert_eq!(cnt, 5);
    assert_eq!(**root.as_ref().unwrap(), TreeNode::new(7));
}

#[test]
fn fibonacci_values() {
    assert_eq!(fibonacci(0), 1);
    assert_eq!(fibonacci(1), 1);
    assert_eq!(fibonacci(2), 2);
    assert_eq!(fibonacci(10), 89);
    assert_eq!(fibonacci(92), 12200160415121876738);
}
