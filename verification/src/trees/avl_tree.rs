//! Height-balanced (AVL) search tree: insertion with rotation-based
//! rebalancing, cached subtree heights and inorder traversal.

use vstd::prelude::*;

verus! {

/// One key, its cached subtree height and exclusively owned optional subtrees.
#[derive(Debug)]
pub struct Node {
    pub val: i32,
    pub height: i32,
    pub left: Option<Box<Node>>,
    pub right: Option<Box<Node>>,
}

/// The set of keys stored below a link.
pub open spec fn keys(link: Option<Box<Node>>) -> Set<i32>
    decreases link,
{
    match link {
        None => Set::empty(),
        Some(n) => keys(n.left).union(keys(n.right)).insert(n.val),
    }
}

/// Search-tree order: at every node, left keys < node key < right keys.
pub open spec fn ordered(link: Option<Box<Node>>) -> bool
    decreases link,
{
    match link {
        None => true,
        Some(n) => {
            &&& ordered(n.left)
            &&& ordered(n.right)
            &&& forall|k: i32| #[trigger] keys(n.left).contains(k) ==> k < n.val
            &&& forall|k: i32| #[trigger] keys(n.right).contains(k) ==> n.val < k
        },
    }
}

/// The larger of two integers.
pub open spec fn larger(a: int, b: int) -> int {
    if a >= b {
        a
    } else {
        b
    }
}

/// Height in nodes: 0 for an absent link, 1 for a leaf.
pub open spec fn depth(link: Option<Box<Node>>) -> int
    decreases link,
{
    match link {
        None => 0,
        Some(n) => 1 + larger(depth(n.left), depth(n.right)),
    }
}

/// The cached height of a link: 0 if absent, else the height field of its node.
pub open spec fn link_height(link: Option<Box<Node>>) -> int {
    match link {
        None => 0,
        Some(n) => n.height as int,
    }
}

/// Left height minus right height, over the cached heights of the children.
pub open spec fn balance_factor(node: Node) -> int {
    link_height(node.left) - link_height(node.right)
}

/// At every node the cached height is the true height and the heights of the
/// two subtrees differ by at most one.
pub open spec fn balanced(link: Option<Box<Node>>) -> bool
    decreases link,
{
    match link {
        None => true,
        Some(n) => {
            &&& balanced(n.left)
            &&& balanced(n.right)
            &&& n.height == depth(link)
            &&& -1 <= depth(n.left) - depth(n.right) <= 1
        },
    }
}

/// Keys in left, node, right order.
pub open spec fn inorder(link: Option<Box<Node>>) -> Seq<i32>
    decreases link,
{
    match link {
        None => Seq::empty(),
        Some(n) => inorder(n.left).push(n.val) + inorder(n.right),
    }
}

/// A node over the given subtrees whose cached height is computed from theirs.
pub open spec fn joined(val: i32, left: Option<Box<Node>>, right: Option<Box<Node>>) -> Node {
    Node { val, height: (1 + larger(link_height(left), link_height(right))) as i32, left, right }
}

/// Right rotation at `y` with left child `x`: `x` becomes the root, `x`'s right
/// subtree becomes `y`'s left subtree, and `y` becomes `x`'s right child.
pub open spec fn rotated_right(y: Node) -> Node
    recommends
        y.left.is_some(),
{
    let x = y.left.unwrap();
    joined(x.val, x.left, Some(Box::new(joined(y.val, x.right, y.right))))
}

/// Left rotation at `x` with right child `y`: the mirror image.
pub open spec fn rotated_left(x: Node) -> Node
    recommends
        x.right.is_some(),
{
    let y = x.right.unwrap();
    joined(y.val, Some(Box::new(joined(x.val, x.left, y.left))), y.right)
}

/// The subtree that rebalancing makes of `n`: unchanged if the balance factor
/// is within one; otherwise rotated towards the lighter side, after rotating
/// the heavier child the other way if that child leans inwards.
pub open spec fn rebalanced(n: Node) -> Node {
    if balance_factor(n) > 1 {
        let l = n.left.unwrap();
        if balance_factor(*l) < 0 {
            rotated_right(
                Node {
                    val: n.val,
                    height: n.height,
                    left: Some(Box::new(rotated_left(*l))),
                    right: n.right,
                },
            )
        } else {
            rotated_right(n)
        }
    } else if balance_factor(n) < -1 {
        let r = n.right.unwrap();
        if balance_factor(*r) > 0 {
            rotated_left(
                Node {
                    val: n.val,
                    height: n.height,
                    left: n.left,
                    right: Some(Box::new(rotated_right(*r))),
                },
            )
        } else {
            rotated_left(n)
        }
    } else {
        n
    }
}

/// The tree that results from inserting `val` below `link`: a new leaf at the
/// end of the comparison path, every node on the path given its new height
/// and rebalanced on the way back; the same tree if `val` is met.
pub open spec fn inserted(link: Option<Box<Node>>, val: i32) -> Option<Box<Node>>
    decreases link,
{
    match link {
        None => Some(Box::new(Node { val, height: 1, left: None, right: None })),
        Some(n) => if val < n.val {
            Some(Box::new(rebalanced(joined(n.val, inserted(n.left, val), n.right))))
        } else if val > n.val {
            Some(Box::new(rebalanced(joined(n.val, n.left, inserted(n.right, val)))))
        } else {
            link
        },
    }
}

/// The true height is never negative, and at least one for a present link.
pub proof fn lemma_depth_nonnegative(link: Option<Box<Node>>)
    ensures
        depth(link) >= 0,
        link.is_some() ==> depth(link) >= 1,
    decreases link,
{
    if let Some(n) = link {
        lemma_depth_nonnegative(n.left);
        lemma_depth_nonnegative(n.right);
    }
}

/// In a balanced tree the cached height of a link is its true height.
pub proof fn lemma_balanced_height(link: Option<Box<Node>>)
    requires
        balanced(link),
    ensures
        link_height(link) == depth(link),
        0 <= depth(link),
{
    lemma_depth_nonnegative(link);
}

/// A right rotation keeps the key set and the search-tree order.
pub proof fn lemma_rotated_right_keys(y: Node)
    requires
        y.left.is_some(),
        ordered(Some(Box::new(y))),
    ensures
        ordered(Some(Box::new(rotated_right(y)))),
        keys(Some(Box::new(rotated_right(y)))) == keys(Some(Box::new(y))),
{
    reveal_with_fuel(keys, 3);
    reveal_with_fuel(ordered, 3);
    let x = y.left.unwrap();
    let r = rotated_right(y);
    assert(keys(Some(Box::new(r))) =~= keys(Some(Box::new(y))));
    assert(keys(y.left) =~= keys(x.left).union(keys(x.right)).insert(x.val));
    assert(keys(x.left).union(keys(x.right)).insert(x.val).contains(x.val));
    assert(keys(y.left).contains(x.val));
    assert forall|k: i32| #[trigger] keys(r.right).contains(k) implies x.val < k by {
        if keys(x.right).contains(k) {
        } else if keys(y.right).contains(k) {
        }
    }
    assert forall|k: i32| #[trigger] keys(x.right).contains(k) implies k < y.val by {
        assert(keys(y.left).contains(k));
    }
}

/// A left rotation keeps the key set and the search-tree order.
pub proof fn lemma_rotated_left_keys(x: Node)
    requires
        x.right.is_some(),
        ordered(Some(Box::new(x))),
    ensures
        ordered(Some(Box::new(rotated_left(x)))),
        keys(Some(Box::new(rotated_left(x)))) == keys(Some(Box::new(x))),
{
    reveal_with_fuel(keys, 3);
    reveal_with_fuel(ordered, 3);
    let y = x.right.unwrap();
    let r = rotated_left(x);
    assert(keys(Some(Box::new(r))) =~= keys(Some(Box::new(x))));
    assert(keys(x.right) =~= keys(y.left).union(keys(y.right)).insert(y.val));
    assert(keys(y.left).union(keys(y.right)).insert(y.val).contains(y.val));
    assert(keys(x.right).contains(y.val));
    assert forall|k: i32| #[trigger] keys(r.left).contains(k) implies k < y.val by {
        if keys(y.left).contains(k) {
        } else if keys(x.left).contains(k) {
        }
    }
    assert forall|k: i32| #[trigger] keys(y.left).contains(k) implies x.val < k by {
        assert(keys(x.right).contains(k));
    }
}

/// Rebalancing a node whose left subtree is two higher than its right one
/// gives a balanced, ordered subtree with the same keys, of the same height
/// or one less.
pub proof fn lemma_rebalanced_left_heavy(n: Node)
    requires
        ordered(Some(Box::new(n))),
        balanced(n.left),
        balanced(n.right),
        n.height == depth(Some(Box::new(n))),
        depth(n.left) - depth(n.right) == 2,
    ensures
        ordered(Some(Box::new(rebalanced(n)))),
        balanced(Some(Box::new(rebalanced(n)))),
        keys(Some(Box::new(rebalanced(n)))) == keys(Some(Box::new(n))),
        depth(Some(Box::new(rebalanced(n)))) == depth(Some(Box::new(n))) || depth(
            Some(Box::new(rebalanced(n))),
        ) == depth(Some(Box::new(n))) - 1,
{
    reveal_with_fuel(balanced, 4);
    reveal_with_fuel(depth, 4);
    lemma_depth_nonnegative(n.right);
    let x = n.left.unwrap();
    lemma_depth_nonnegative(x.left);
    lemma_depth_nonnegative(x.right);
    assert(balance_factor(n) == 2);
    if balance_factor(*x) < 0 {
        let z = x.right.unwrap();
        lemma_depth_nonnegative(z.left);
        lemma_depth_nonnegative(z.right);
        lemma_rotated_left_keys(*x);
        let turned = Node {
            val: n.val,
            height: n.height,
            left: Some(Box::new(rotated_left(*x))),
            right: n.right,
        };
        assert(keys(Some(Box::new(turned))) =~= keys(Some(Box::new(n))));
        lemma_rotated_right_keys(turned);
        assert(rebalanced(n) == rotated_right(turned));
    } else {
        lemma_rotated_right_keys(n);
        assert(rebalanced(n) == rotated_right(n));
    }
}

/// Rebalancing a node whose right subtree is two higher than its left one
/// gives a balanced, ordered subtree with the same keys, of the same height
/// or one less.
pub proof fn lemma_rebalanced_right_heavy(n: Node)
    requires
        ordered(Some(Box::new(n))),
        balanced(n.left),
        balanced(n.right),
        n.height == depth(Some(Box::new(n))),
        depth(n.left) - depth(n.right) == -2,
    ensures
        ordered(Some(Box::new(rebalanced(n)))),
        balanced(Some(Box::new(rebalanced(n)))),
        keys(Some(Box::new(rebalanced(n)))) == keys(Some(Box::new(n))),
        depth(Some(Box::new(rebalanced(n)))) == depth(Some(Box::new(n))) || depth(
            Some(Box::new(rebalanced(n))),
        ) == depth(Some(Box::new(n))) - 1,
{
    reveal_with_fuel(balanced, 4);
    reveal_with_fuel(depth, 4);
    lemma_depth_nonnegative(n.left);
    let y = n.right.unwrap();
    lemma_depth_nonnegative(y.left);
    lemma_depth_nonnegative(y.right);
    assert(balance_factor(n) == -2);
    if balance_factor(*y) > 0 {
        let z = y.left.unwrap();
        lemma_depth_nonnegative(z.left);
        lemma_depth_nonnegative(z.right);
        lemma_rotated_right_keys(*y);
        let turned = Node {
            val: n.val,
            height: n.height,
            left: n.left,
            right: Some(Box::new(rotated_right(*y))),
        };
        assert(keys(Some(Box::new(turned))) =~= keys(Some(Box::new(n))));
        lemma_rotated_left_keys(turned);
        assert(rebalanced(n) == rotated_left(turned));
    } else {
        lemma_rotated_left_keys(n);
        assert(rebalanced(n) == rotated_left(n));
    }
}

/// Rebalancing a node whose subtrees are balanced and differ in height by at
/// most two gives a balanced, ordered subtree with the same keys, of the same
/// height or one less; a node that is already balanced is left as it is.
pub proof fn lemma_rebalanced(n: Node)
    requires
        ordered(Some(Box::new(n))),
        balanced(n.left),
        balanced(n.right),
        n.height == depth(Some(Box::new(n))),
        -2 <= depth(n.left) - depth(n.right) <= 2,
    ensures
        ordered(Some(Box::new(rebalanced(n)))),
        balanced(Some(Box::new(rebalanced(n)))),
        keys(Some(Box::new(rebalanced(n)))) == keys(Some(Box::new(n))),
        depth(Some(Box::new(rebalanced(n)))) == depth(Some(Box::new(n))) || depth(
            Some(Box::new(rebalanced(n))),
        ) == depth(Some(Box::new(n))) - 1,
        -1 <= depth(n.left) - depth(n.right) <= 1 ==> rebalanced(n) == n,
{
    lemma_balanced_height(n.left);
    lemma_balanced_height(n.right);
    if depth(n.left) - depth(n.right) == 2 {
        lemma_rebalanced_left_heavy(n);
    } else if depth(n.left) - depth(n.right) == -2 {
        lemma_rebalanced_right_heavy(n);
    }
}

/// Insertion keeps the search-tree order and the height balance, adds exactly
/// the inserted key, raises the height by at most one, and leaves a tree that
/// already stores the key as it is.
pub proof fn lemma_inserted(link: Option<Box<Node>>, val: i32)
    requires
        ordered(link),
        balanced(link),
        depth(link) < i32::MAX,
    ensures
        inserted(link, val).is_some(),
        ordered(inserted(link, val)),
        balanced(inserted(link, val)),
        keys(inserted(link, val)) == keys(link).insert(val),
        keys(link).contains(val) ==> inserted(link, val) == link,
        depth(inserted(link, val)) == depth(link) || depth(inserted(link, val)) == depth(link) + 1,
    decreases link,
{
    match link {
        None => {
            assert(keys(inserted(link, val)) =~= keys(link).insert(val));
        },
        Some(n) => {
            lemma_balanced_height(n.left);
            lemma_balanced_height(n.right);
            if val < n.val {
                assert(!keys(n.right).contains(val));
                lemma_inserted(n.left, val);
                lemma_balanced_height(inserted(n.left, val));
                let grown = joined(n.val, inserted(n.left, val), n.right);
                assert(keys(Some(Box::new(grown))) =~= keys(link).insert(val));
                lemma_rebalanced(grown);
            } else if val > n.val {
                assert(!keys(n.left).contains(val));
                lemma_inserted(n.right, val);
                lemma_balanced_height(inserted(n.right, val));
                let grown = joined(n.val, n.left, inserted(n.right, val));
                assert(keys(Some(Box::new(grown))) =~= keys(link).insert(val));
                lemma_rebalanced(grown);
            } else {
                assert(keys(link) =~= keys(link).insert(val));
            }
        },
    }
}

/// The inorder traversal of an ordered tree is strictly ascending and lists
/// exactly the stored keys, each once.
pub proof fn lemma_inorder_ascending(link: Option<Box<Node>>)
    requires
        ordered(link),
    ensures
        forall|i: int| 0 <= i < inorder(link).len() ==> keys(link).contains(#[trigger] inorder(link)[i]),
        forall|k: i32| #[trigger] keys(link).contains(k) ==> inorder(link).contains(k),
        forall|i: int, j: int|
            0 <= i < j < inorder(link).len() ==> #[trigger] inorder(link)[i] < #[trigger] inorder(
                link,
            )[j],
    decreases link,
{
    match link {
        None => {},
        Some(n) => {
            lemma_inorder_ascending(n.left);
            lemma_inorder_ascending(n.right);
            let l = inorder(n.left);
            let r = inorder(n.right);
            let s = inorder(link);
            assert(s =~= l.push(n.val) + r);
            assert forall|i: int| 0 <= i < s.len() implies keys(link).contains(#[trigger] s[i]) by {
                if i < l.len() {
                    assert(s[i] == l[i]);
                } else if i > l.len() {
                    assert(s[i] == r[i - l.len() - 1]);
                }
            }
            assert forall|k: i32| #[trigger] keys(link).contains(k) implies s.contains(k) by {
                if keys(n.left).contains(k) {
                    let i = choose|i: int| 0 <= i < l.len() && l[i] == k;
                    assert(s[i] == k);
                } else if keys(n.right).contains(k) {
                    let i = choose|i: int| 0 <= i < r.len() && r[i] == k;
                    assert(s[l.len() + 1 + i] == k);
                } else {
                    assert(s[l.len() as int] == k);
                }
            }
            assert forall|i: int, j: int| 0 <= i < j < s.len() implies #[trigger] s[i]
                < #[trigger] s[j] by {
                if i < l.len() {
                    assert(s[i] == l[i]);
                    assert(keys(n.left).contains(l[i]));
                } else if i > l.len() {
                    assert(s[i] == r[i - l.len() - 1]);
                    assert(keys(n.right).contains(r[i - l.len() - 1]));
                }
                if j < l.len() {
                    assert(s[j] == l[j]);
                    assert(keys(n.left).contains(l[j]));
                } else if j > l.len() {
                    assert(s[j] == r[j - l.len() - 1]);
                    assert(keys(n.right).contains(r[j - l.len() - 1]));
                }
            }
        },
    }
}

impl Node {
    /// A leaf: no children, height one.
    pub fn new(val: i32) -> (node: Self)
        ensures
            node == (Node { val, height: 1, left: None, right: None }),
    {
        Node { val, height: 1, left: None, right: None }
    }
}

/// A height-balanced search tree of distinct `i32` keys.
#[derive(Debug)]
pub struct AVLTree {
    pub root: Option<Box<Node>>,
}

impl View for AVLTree {
    type V = Set<i32>;

    /// The set of stored keys.
    open spec fn view(&self) -> Set<i32> {
        keys(self.root)
    }
}

impl AVLTree {
    /// Search-tree order and height balance hold at every node, and every
    /// cached height is exact.
    pub open spec fn wf(&self) -> bool {
        ordered(self.root) && balanced(self.root)
    }

    /// The empty tree.
    pub fn new() -> (tree: Self)
        ensures
            tree.root.is_none(),
            tree.wf(),
            tree@ == Set::<i32>::empty(),
    {
        AVLTree { root: None }
    }

    /// Height in nodes: 0 for the empty tree, 1 for a single node.
    pub fn height(&self) -> (h: i32)
        ensures
            h == link_height(self.root),
            self.wf() ==> h == depth(self.root),
    {
        Self::get_height(&self.root)
    }

    fn get_height(node: &Option<Box<Node>>) -> (h: i32)
        ensures
            h == link_height(*node),
    {
        match node {
            None => 0,
            Some(n) => n.height,
        }
    }

    fn get_balance(node: &Box<Node>) -> (b: i32)
        requires
            0 <= link_height(node.left),
            0 <= link_height(node.right),
        ensures
            b == balance_factor(**node),
    {
        Self::get_height(&node.left) - Self::get_height(&node.right)
    }

    fn update_height(node: &mut Box<Node>)
        requires
            link_height(old(node).left) < i32::MAX,
            link_height(old(node).right) < i32::MAX,
        ensures
            **final(node) == joined(old(node).val, old(node).left, old(node).right),
    {
        let l: i32 = Self::get_height(&node.left);
        let r: i32 = Self::get_height(&node.right);
        node.height = 1 + if l >= r { l } else { r };
    }

    fn rotate_right(mut y: Box<Node>) -> (x: Box<Node>)
        requires
            y.left.is_some(),
            link_height(y.right) < i32::MAX - 1,
            link_height(y.left.unwrap().left) < i32::MAX - 1,
            link_height(y.left.unwrap().right) < i32::MAX - 1,
        ensures
            *x == rotated_right(*y),
    {
        let mut x = y.left.take().unwrap();
        let t2 = x.right.take();
        y.left = t2;
        Self::update_height(&mut y);
        x.right = Some(y);
        Self::update_height(&mut x);
        x
    }

    fn rotate_left(mut x: Box<Node>) -> (y: Box<Node>)
        requires
            x.right.is_some(),
            link_height(x.left) < i32::MAX - 1,
            link_height(x.right.unwrap().left) < i32::MAX - 1,
            link_height(x.right.unwrap().right) < i32::MAX - 1,
        ensures
            *y == rotated_left(*x),
    {
        let mut y = x.right.take().unwrap();
        let t2 = y.left.take();
        x.right = t2;
        Self::update_height(&mut x);
        y.left = Some(x);
        Self::update_height(&mut y);
        y
    }
    fn rebalance(mut node: Box<Node>) -> (out: Box<Node>)
        requires
            ordered(Some(node)),
            balanced(node.left),
            balanced(node.right),
            node.height == depth(Some(node)),
            -2 <= depth(node.left) - depth(node.right) <= 2,
        ensures
            *out == rebalanced(*node),
            ordered(Some(out)),
            balanced(Some(out)),
            keys(Some(out)) == keys(Some(node)),
            depth(Some(out)) == depth(Some(node)) || depth(Some(out)) == depth(Some(node)) - 1,
            -1 <= depth(node.left) - depth(node.right) <= 1 ==> out == node,
    {
        proof {
            reveal_with_fuel(balanced, 3);
            reveal_with_fuel(depth, 3);
            lemma_rebalanced(*node);
            lemma_balanced_height(node.left);
            lemma_balanced_height(node.right);
        }
        let balance: i32 = Self::get_balance(&node);
        if balance > 1 {
            proof {
                let x = node.left.unwrap();
                lemma_balanced_height(x.left);
                lemma_balanced_height(x.right);
            }
            let left_balance: i32 = Self::get_balance(node.left.as_ref().unwrap());
            if left_balance < 0 {
                proof {
                    let z = node.left.unwrap().right.unwrap();
                    lemma_balanced_height(z.left);
                    lemma_balanced_height(z.right);
                }
                node.left = Some(Self::rotate_left(node.left.take().unwrap()));
            }
            return Self::rotate_right(node);
        }
        if balance < -1 {
            proof {
                let y = node.right.unwrap();
                lemma_balanced_height(y.left);
                lemma_balanced_height(y.right);
            }
            let right_balance: i32 = Self::get_balance(node.right.as_ref().unwrap());
            if right_balance > 0 {
                proof {
                    let z = node.right.unwrap().left.unwrap();
                    lemma_balanced_height(z.left);
                    lemma_balanced_height(z.right);
                }
                node.right = Some(Self::rotate_right(node.right.take().unwrap()));
            }
            return Self::rotate_left(node);
        }
        node
    }

    /// Stores `val` and restores the height balance on the way back up. A key
    /// that is already stored changes nothing.
    pub fn insert(&mut self, val: i32)
        requires
            old(self).wf(),
            depth(old(self).root) < i32::MAX,
        ensures
            final(self).wf(),
            final(self).root == inserted(old(self).root, val),
            final(self)@ == old(self)@.insert(val),
            old(self)@.contains(val) ==> *final(self) == *old(self),
            depth(final(self).root) == depth(old(self).root) || depth(final(self).root) == depth(
                old(self).root,
            ) + 1,
    {
        self.root = Self::insert_rec(self.root.take(), val);
    }

    fn insert_rec(node: Option<Box<Node>>, val: i32) -> (out: Option<Box<Node>>)
        requires
            ordered(node),
            balanced(node),
            depth(node) < i32::MAX,
        ensures
            out == inserted(node, val),
            out.is_some(),
            ordered(out),
            balanced(out),
            keys(out) == keys(node).insert(val),
            keys(node).contains(val) ==> out == node,
            depth(out) == depth(node) || depth(out) == depth(node) + 1,
        decreases node,
    {
        proof {
            lemma_inserted(node, val);
        }
        let mut n = match node {
            None => {
                return Some(Box::new(Node::new(val)));
            },
            Some(n) => n,
        };
        proof {
            lemma_balanced_height(n.left);
            lemma_balanced_height(n.right);
        }
        if val < n.val {
            n.left = Self::insert_rec(n.left.take(), val);
        } else if val > n.val {
            n.right = Self::insert_rec(n.right.take(), val);
        } else {
            return Some(n);
        }
        proof {
            lemma_balanced_height(n.left);
            lemma_balanced_height(n.right);
        }
        Self::update_height(&mut n);
        Some(Self::rebalance(n))
    }

    /// The keys in inorder: strictly ascending for a well-formed tree.
    pub fn traverse_inorder(&self) -> (out: Vec<i32>)
        ensures
            out@ == inorder(self.root),
            self.wf() ==> forall|i: int, j: int|
                0 <= i < j < out@.len() ==> #[trigger] out@[i] < #[trigger] out@[j],
    {
        let mut out: Vec<i32> = Vec::new();
        Self::inorder_rec(&self.root, &mut out);
        proof {
            if self.wf() {
                lemma_inorder_ascending(self.root);
            }
        }
        out
    }

    fn inorder_rec(node: &Option<Box<Node>>, out: &mut Vec<i32>)
        ensures
            final(out)@ == old(out)@ + inorder(*node),
        decreases *node,
    {
        if let Some(n) = node {
            Self::inorder_rec(&n.left, out);
            out.push(n.val);
            Self::inorder_rec(&n.right, out);
            assert(final(out)@ =~= old(out)@ + inorder(*node));
        } else {
            assert(final(out)@ =~= old(out)@ + inorder(*node));
        }
    }
}

} // verus!
