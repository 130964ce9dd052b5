//! A miniature in-memory key-value store spoken to over a line-delimited
//! binary wire protocol: a frame codec, a buffered connection core, the
//! GET/SET command model, and the per-connection handler decisions.

pub mod cmd;
pub mod connection;
pub mod database;
pub mod frame;
pub mod server;

use vstd::prelude::*;

verus! {

/// Mathematical Fibonacci sequence: 0, 1, 1, 2, 3, 5, ...
pub open spec fn fib(n: nat) -> nat
    decreases n,
{
    if n < 2 {
        n
    } else {
        fib((n - 1) as nat) + fib((n - 2) as nat)
    }
}

proof fn lemma_fib_increases(a: nat, b: nat)
    requires
        a <= b,
    ensures
        fib(a) <= fib(b),
    decreases b - a,
{
    if a < b {
        lemma_fib_increases(a, (b - 1) as nat);
    }
}

/// Iterative Fibonacci; the result is the successor entry `fib(n + 1)`,
/// matching an accumulator that starts at one.
#[inline]
pub fn fibonacci(n: u64) -> (r: u64)
    requires
        fib(n as nat + 1) <= u64::MAX,
    ensures
        r == fib(n as nat + 1),
{
    let mut a: u64 = 0;
    let mut b: u64 = 1;
    let mut i: u64 = 0;
    while i < n
        invariant
            i <= n,
            a == fib(i as nat),
            b == fib(i as nat + 1),
            fib(n as nat + 1) <= u64::MAX,
        decreases n - i,
    {
        proof {
            lemma_fib_increases(i as nat + 2, n as nat + 1);
        }
        let c = a + b;
        a = b;
        b = c;
        i = i + 1;
    }
    b
}

/// A binary tree node for the load-generating helpers below.
#[derive(Debug, PartialEq, Eq)]
pub struct TreeNode {
    pub val: i32,
    pub left: Option<Box<TreeNode>>,
    pub right: Option<Box<TreeNode>>,
}

impl TreeNode {
    #[inline]
    pub fn new(val: i32) -> (t: TreeNode)
        ensures
            t.val == val,
            t.left is None,
            t.right is None,
    {
        TreeNode { val, left: None, right: None }
    }
}

/// Number of nodes on the longest root-to-leaf path.
pub open spec fn depth(t: &Option<Box<TreeNode>>) -> nat
    decreases t,
{
    match t {
        Option::None => 0,
        Option::Some(n) => 1 + if depth(&n.left) >= depth(&n.right) {
            depth(&n.left)
        } else {
            depth(&n.right)
        },
    }
}

pub struct Solution;

impl Solution {
    /// The depth of the tree.
    pub fn max_depth(root: Option<Box<TreeNode>>) -> (d: i32)
        requires
            depth(&root) <= i32::MAX,
        ensures
            d == depth(&root),
    {
        Self::next_node(&root, 0)
    }

    /// Walks down, carrying the number of nodes above; returns the largest
    /// count any path reaches.
    fn next_node(node: &Option<Box<TreeNode>>, num: i32) -> (d: i32)
        requires
            0 <= num,
            num + depth(node) <= i32::MAX,
        ensures
            d == num + depth(node),
        decreases *node,
    {
        match node {
            Option::None => num,
            Option::Some(n) => {
                let lmax = Self::next_node(&n.left, num + 1);
                let rmax = Self::next_node(&n.right, num + 1);
                if lmax >= rmax {
                    lmax
                } else {
                    rmax
                }
            },
        }
    }
}

/// How much growth budget is left before `cnt` reaches `max`.
pub open spec fn budget(max: int, cnt: int) -> nat {
    if max > cnt {
        (max - cnt) as nat
    } else {
        0
    }
}

/// Grows fresh leaves under every node it visits, two counter ticks per
/// visited node, until the counter reaches `max`. The counter never moves
/// backwards and always advances by an even amount.
pub fn add_leaf_nodes(node: &mut Option<Box<TreeNode>>, cnt: &mut i32, max: i32)
    requires
        max <= i32::MAX - 2,
    ensures
        *old(cnt) <= *final(cnt),
        (*final(cnt) - *old(cnt)) % 2 == 0,
        *old(cnt) >= max ==> *final(cnt) == *old(cnt),
        match *old(node) {
            Option::None => *final(node) is None,
            Option::Some(b) => *final(node) matches Some(b2) && b2.val == b.val,
        },
    decreases budget(max as int, *cnt as int),
{
    match node {
        Option::None => (),
        Option::Some(root) => {
            if *cnt >= max {
                return ;
            }
            match *cnt % 99 {
                5 => {
                    root.left = None;
                    root.right = Some(Box::new(TreeNode::new(*cnt)));
                },
                9 => {
                    root.left = Some(Box::new(TreeNode::new(*cnt)));
                    root.right = None;
                },
                _ => {
                    root.left = Some(Box::new(TreeNode::new(*cnt)));
                    root.right = Some(Box::new(TreeNode::new(*cnt)));
                },
            }
            *cnt = *cnt + 2;
            add_leaf_nodes(&mut root.left, cnt, max);
            add_leaf_nodes(&mut root.right, cnt, max);
        },
    }
}

/// A tree of roughly `max / 2` nodes, rooted at value zero.
pub fn generate_binary_tree(max: i32) -> (r: Option<Box<TreeNode>>)
    requires
        max <= i32::MAX - 2,
    ensures
        r matches Some(root) && root.val == 0,
{
    let mut root = Some(Box::new(TreeNode::new(0)));
    let mut cnt: i32 = 0;
    add_leaf_nodes(&mut root, &mut cnt, max);
    root
}

} // verus!
