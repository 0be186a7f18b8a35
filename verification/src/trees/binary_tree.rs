//! Unbalanced binary search tree: the baseline index, with insertion, search,
//! deletion by successor splice, structural counts and the three traversals.

use vstd::prelude::*;

verus! {

/// One key with exclusively owned optional subtrees.
#[derive(Debug)]
pub struct Node {
    pub val: i32,
    pub left: Option<Box<Node>>,
    pub right: Option<Box<Node>>,
}

/// The set of keys stored below a link.
pub open spec fn keys(link: Option<Box<Node>>) -> Set<i32>
    decreases link,
{
    match link {
        None => Set::empty(),
        Some(n) => keys(n.left).union(keys(n.right)).insert(n.val),
    }
}

/// Search-tree order: at every node, left keys < node key < right keys.
pub open spec fn ordered(link: Option<Box<Node>>) -> bool
    decreases link,
{
    match link {
        None => true,
        Some(n) => {
            &&& ordered(n.left)
            &&& ordered(n.right)
            &&& forall|k: i32| #[trigger] keys(n.left).contains(k) ==> k < n.val
            &&& forall|k: i32| #[trigger] keys(n.right).contains(k) ==> n.val < k
        },
    }
}

/// Height in edges: -1 for an absent link, 0 for a leaf.
pub open spec fn height(link: Option<Box<Node>>) -> int
    decreases link,
{
    match link {
        None => -1,
        Some(n) => {
            let l = height(n.left);
            let r = height(n.right);
            1 + if l >= r { l } else { r }
        },
    }
}

/// Number of nodes below a link.
pub open spec fn size(link: Option<Box<Node>>) -> nat
    decreases link,
{
    match link {
        None => 0,
        Some(n) => 1 + size(n.left) + size(n.right),
    }
}

/// Number of nodes without children below a link.
pub open spec fn leaves(link: Option<Box<Node>>) -> nat
    decreases link,
{
    match link {
        None => 0,
        Some(n) => if n.left.is_none() && n.right.is_none() {
            1
        } else {
            leaves(n.left) + leaves(n.right)
        },
    }
}

/// Keys in left, node, right order.
pub open spec fn inorder(link: Option<Box<Node>>) -> Seq<i32>
    decreases link,
{
    match link {
        None => Seq::empty(),
        Some(n) => inorder(n.left).push(n.val) + inorder(n.right),
    }
}

/// Keys in node, left, right order.
pub open spec fn preorder(link: Option<Box<Node>>) -> Seq<i32>
    decreases link,
{
    match link {
        None => Seq::empty(),
        Some(n) => seq![n.val] + preorder(n.left) + preorder(n.right),
    }
}

/// Keys in left, right, node order.
pub open spec fn postorder(link: Option<Box<Node>>) -> Seq<i32>
    decreases link,
{
    match link {
        None => Seq::empty(),
        Some(n) => (postorder(n.left) + postorder(n.right)).push(n.val),
    }
}

/// The tree that results from inserting `val` below `link`: a new leaf at the
/// first absent link on the comparison path, or the same tree if `val` is met.
pub open spec fn inserted(link: Option<Box<Node>>, val: i32) -> Option<Box<Node>>
    decreases link,
{
    match link {
        None => Some(Box::new(Node { val, left: None, right: None })),
        Some(n) => if val < n.val {
            Some(Box::new(Node { val: n.val, left: inserted(n.left, val), right: n.right }))
        } else if val > n.val {
            Some(Box::new(Node { val: n.val, left: n.left, right: inserted(n.right, val) }))
        } else {
            link
        },
    }
}

/// The key of the leftmost node below a present link.
pub open spec fn min_key(link: Option<Box<Node>>) -> i32
    decreases link,
{
    match link {
        None => 0,
        Some(n) => if n.left.is_none() { n.val } else { min_key(n.left) },
    }
}

/// The tree that results from deleting `val` below `link`. A node with two
/// children keeps its place and takes the least key of its right subtree,
/// which is then deleted there.
pub open spec fn deleted(link: Option<Box<Node>>, val: i32) -> Option<Box<Node>>
    decreases link,
{
    match link {
        None => None,
        Some(n) => if val < n.val {
            Some(Box::new(Node { val: n.val, left: deleted(n.left, val), right: n.right }))
        } else if val > n.val {
            Some(Box::new(Node { val: n.val, left: n.left, right: deleted(n.right, val) }))
        } else if n.left.is_none() {
            n.right
        } else if n.right.is_none() {
            n.left
        } else {
            let m = min_key(n.right);
            Some(Box::new(Node { val: m, left: n.left, right: deleted(n.right, m) }))
        },
    }
}

/// Insertion keeps the search-tree order and adds exactly the inserted key.
pub proof fn lemma_inserted(link: Option<Box<Node>>, val: i32)
    requires
        ordered(link),
    ensures
        ordered(inserted(link, val)),
        keys(inserted(link, val)) == keys(link).insert(val),
    decreases link,
{
    match link {
        None => {
            assert(keys(inserted(link, val)) =~= keys(link).insert(val));
        },
        Some(n) => {
            lemma_inserted(n.left, val);
            lemma_inserted(n.right, val);
            assert(keys(inserted(link, val)) =~= keys(link).insert(val));
        },
    }
}

/// Inserting a key that is already stored leaves the tree as it was.
pub proof fn lemma_inserted_existing(link: Option<Box<Node>>, val: i32)
    requires
        ordered(link),
        keys(link).contains(val),
    ensures
        inserted(link, val) == link,
    decreases link,
{
    match link {
        None => {},
        Some(n) => {
            if val < n.val {
                assert(!keys(n.right).contains(val));
                lemma_inserted_existing(n.left, val);
            } else if val > n.val {
                assert(!keys(n.left).contains(val));
                lemma_inserted_existing(n.right, val);
            }
        },
    }
}

/// The leftmost key of a present, ordered link is stored there and is its
/// least key.
pub proof fn lemma_min_key(link: Option<Box<Node>>)
    requires
        ordered(link),
        link.is_some(),
    ensures
        keys(link).contains(min_key(link)),
        forall|k: i32| #[trigger] keys(link).contains(k) ==> min_key(link) <= k,
    decreases link,
{
    let n = link.unwrap();
    if n.left.is_some() {
        lemma_min_key(n.left);
    }
    assert forall|k: i32| #[trigger] keys(link).contains(k) implies min_key(link) <= k by {
        if keys(n.left).contains(k) {
        } else if keys(n.right).contains(k) {
        }
    }
}

/// Deletion keeps the search-tree order and removes exactly the deleted key.
pub proof fn lemma_deleted(link: Option<Box<Node>>, val: i32)
    requires
        ordered(link),
    ensures
        ordered(deleted(link, val)),
        keys(deleted(link, val)) == keys(link).remove(val),
    decreases link,
{
    match link {
        None => {
            assert(keys(deleted(link, val)) =~= keys(link).remove(val));
        },
        Some(n) => {
            lemma_deleted(n.left, val);
            lemma_deleted(n.right, val);
            if val == n.val && n.left.is_some() && n.right.is_some() {
                lemma_min_key(n.right);
                lemma_deleted(n.right, min_key(n.right));
            }
            assert(keys(deleted(link, val)) =~= keys(link).remove(val));
        },
    }
}

/// Deleting a key that is not stored leaves the tree as it was.
pub proof fn lemma_deleted_absent(link: Option<Box<Node>>, val: i32)
    requires
        !keys(link).contains(val),
    ensures
        deleted(link, val) == link,
    decreases link,
{
    match link {
        None => {},
        Some(n) => {
            lemma_deleted_absent(n.left, val);
            lemma_deleted_absent(n.right, val);
        },
    }
}

/// Round trip: an inserted key is stored and a deleted key is not, and
/// neither operation touches the membership of any other key.
pub proof fn lemma_round_trip(link: Option<Box<Node>>, a: i32, b: i32)
    requires
        ordered(link),
    ensures
        keys(inserted(link, a)).contains(a),
        !keys(deleted(link, a)).contains(a),
        a != b ==> keys(inserted(link, a)).contains(b) == keys(link).contains(b),
        a != b ==> keys(deleted(link, a)).contains(b) == keys(link).contains(b),
        ordered(deleted(inserted(link, a), b)),
        a != b ==> keys(deleted(inserted(link, a), b)).contains(a),
{
    lemma_inserted(link, a);
    lemma_deleted(link, a);
    lemma_deleted(inserted(link, a), b);
}

/// Insertion adds one node, or none if the key is already stored.
pub proof fn lemma_inserted_size(link: Option<Box<Node>>, val: i32)
    requires
        ordered(link),
    ensures
        size(inserted(link, val)) == size(link) + (if keys(link).contains(val) {
            0nat
        } else {
            1nat
        }),
    decreases link,
{
    match link {
        None => {},
        Some(n) => {
            if val < n.val {
                assert(!keys(n.right).contains(val));
                lemma_inserted_size(n.left, val);
            } else if val > n.val {
                assert(!keys(n.left).contains(val));
                lemma_inserted_size(n.right, val);
            }
        },
    }
}

/// A tree is lower than it has nodes, and has no more leaves than nodes.
pub proof fn lemma_height_and_leaves_below_size(link: Option<Box<Node>>)
    ensures
        -1 <= height(link) < size(link),
        leaves(link) <= size(link),
    decreases link,
{
    if let Some(n) = link {
        lemma_height_and_leaves_below_size(n.left);
        lemma_height_and_leaves_below_size(n.right);
    }
}

/// Insertion raises the height by at most one and never lowers it.
pub proof fn lemma_inserted_height(link: Option<Box<Node>>, val: i32)
    ensures
        height(link) <= height(inserted(link, val)) <= height(link) + 1,
    decreases link,
{
    if let Some(n) = link {
        lemma_inserted_height(n.left, val);
        lemma_inserted_height(n.right, val);
    }
}

/// The inorder traversal of an ordered tree is strictly ascending and lists
/// exactly the stored keys, each once.
pub proof fn lemma_inorder_ascending(link: Option<Box<Node>>)
    requires
        ordered(link),
    ensures
        inorder(link).len() == size(link),
        forall|i: int| 0 <= i < inorder(link).len() ==> keys(link).contains(#[trigger] inorder(link)[i]),
        forall|k: i32| #[trigger] keys(link).contains(k) ==> inorder(link).contains(k),
        forall|i: int, j: int|
            0 <= i < j < inorder(link).len() ==> #[trigger] inorder(link)[i] < #[trigger] inorder(
                link,
            )[j],
    decreases link,
{
    match link {
        None => {},
        Some(n) => {
            lemma_inorder_ascending(n.left);
            lemma_inorder_ascending(n.right);
            let l = inorder(n.left);
            let r = inorder(n.right);
            let s = inorder(link);
            assert(s =~= l.push(n.val) + r);
            assert forall|i: int| 0 <= i < s.len() implies keys(link).contains(#[trigger] s[i]) by {
                if i < l.len() {
                    assert(s[i] == l[i]);
                } else if i > l.len() {
                    assert(s[i] == r[i - l.len() - 1]);
                }
            }
            assert forall|k: i32| #[trigger] keys(link).contains(k) implies s.contains(k) by {
                if keys(n.left).contains(k) {
                    let i = choose|i: int| 0 <= i < l.len() && l[i] == k;
                    assert(s[i] == k);
                } else if keys(n.right).contains(k) {
                    let i = choose|i: int| 0 <= i < r.len() && r[i] == k;
                    assert(s[l.len() + 1 + i] == k);
                } else {
                    assert(s[l.len() as int] == k);
                }
            }
            assert forall|i: int, j: int| 0 <= i < j < s.len() implies #[trigger] s[i]
                < #[trigger] s[j] by {
                if i < l.len() {
                    assert(s[i] == l[i]);
                    assert(keys(n.left).contains(l[i]));
                } else if i > l.len() {
                    assert(s[i] == r[i - l.len() - 1]);
                    assert(keys(n.right).contains(r[i - l.len() - 1]));
                }
                if j < l.len() {
                    assert(s[j] == l[j]);
                    assert(keys(n.left).contains(l[j]));
                } else if j > l.len() {
                    assert(s[j] == r[j - l.len() - 1]);
                    assert(keys(n.right).contains(r[j - l.len() - 1]));
                }
            }
        },
    }
}

impl Node {
    /// A node without children.
    pub fn new(val: i32) -> (node: Self)
        ensures
            node.val == val,
            node.left.is_none(),
            node.right.is_none(),
    {
        Node { val, left: None, right: None }
    }
}

/// An unbalanced binary search tree of distinct `i32` keys.
#[derive(Debug)]
pub struct BinaryTree {
    pub root: Option<Box<Node>>,
}

impl View for BinaryTree {
    type V = Set<i32>;

    /// The set of stored keys.
    open spec fn view(&self) -> Set<i32> {
        keys(self.root)
    }
}

impl Default for BinaryTree {
    fn default() -> (tree: Self)
        ensures
            tree.root.is_none(),
    {
        BinaryTree::new()
    }
}

impl BinaryTree {
    /// The search-tree order holds at every node.
    pub open spec fn wf(&self) -> bool {
        ordered(self.root)
    }

    /// The empty tree.
    pub fn new() -> (tree: Self)
        ensures
            tree.root.is_none(),
            tree.wf(),
            tree@ == Set::<i32>::empty(),
    {
        BinaryTree { root: None }
    }

    /// Stores `val`. A key that is already stored changes nothing.
    pub fn insert(&mut self, val: i32)
        requires
            old(self).wf(),
        ensures
            final(self).wf(),
            final(self).root == inserted(old(self).root, val),
            final(self)@ == old(self)@.insert(val),
            old(self)@.contains(val) ==> *final(self) == *old(self),
    {
        proof {
            lemma_inserted(self.root, val);
            if self@.contains(val) {
                lemma_inserted_existing(self.root, val);
            }
        }
        self.root = Self::insert_rec(self.root.take(), val);
    }

    fn insert_rec(node: Option<Box<Node>>, val: i32) -> (out: Option<Box<Node>>)
        ensures
            out == inserted(node, val),
        decreases node,
    {
        match node {
            None => Some(Box::new(Node::new(val))),
            Some(mut n) => {
                if val < n.val {
                    n.left = Self::insert_rec(n.left.take(), val);
                } else if val > n.val {
                    n.right = Self::insert_rec(n.right.take(), val);
                }
                Some(n)
            },
        }
    }

    /// Whether `val` is stored.
    pub fn search(&self, val: i32) -> (found: bool)
        requires
            self.wf(),
        ensures
            found == self@.contains(val),
    {
        let mut current = &self.root;
        while current.is_some()
            invariant
                ordered(*current),
                keys(self.root).contains(val) == keys(*current).contains(val),
            decreases size(*current),
        {
            let n = current.as_ref().unwrap();
            if val == n.val {
                return true;
            } else if val < n.val {
                assert(!keys(n.right).contains(val));
                current = &n.left;
            } else {
                assert(!keys(n.left).contains(val));
                current = &n.right;
            }
        }
        false
    }

    /// Height in edges: -1 for the empty tree, 0 for a single node.
    pub fn height(&self) -> (h: i32)
        requires
            height(self.root) <= i32::MAX,
        ensures
            h == height(self.root),
    {
        Self::height_rec(&self.root)
    }

    fn height_rec(node: &Option<Box<Node>>) -> (h: i32)
        requires
            height(*node) <= i32::MAX,
        ensures
            h == height(*node),
            h >= -1,
        decreases *node,
    {
        match node {
            None => -1,
            Some(n) => {
                let left_h: i32 = Self::height_rec(&n.left);
                let right_h: i32 = Self::height_rec(&n.right);
                if left_h >= right_h {
                    left_h + 1
                } else {
                    right_h + 1
                }
            },
        }
    }

    /// Number of stored keys.
    pub fn count_nodes(&self) -> (n: i32)
        requires
            size(self.root) <= i32::MAX,
        ensures
            n == size(self.root),
    {
        Self::count_nodes_rec(&self.root)
    }

    fn count_nodes_rec(node: &Option<Box<Node>>) -> (c: i32)
        requires
            size(*node) <= i32::MAX,
        ensures
            c == size(*node),
        decreases *node,
    {
        match node {
            None => 0,
            Some(n) => 1 + Self::count_nodes_rec(&n.left) + Self::count_nodes_rec(&n.right),
        }
    }

    /// Number of nodes that have no child.
    pub fn count_leaves(&self) -> (n: i32)
        requires
            leaves(self.root) <= i32::MAX,
        ensures
            n == leaves(self.root),
    {
        Self::count_leaves_rec(&self.root)
    }

    fn count_leaves_rec(node: &Option<Box<Node>>) -> (c: i32)
        requires
            leaves(*node) <= i32::MAX,
        ensures
            c == leaves(*node),
        decreases *node,
    {
        match node {
            None => 0,
            Some(n) => {
                if n.left.is_none() && n.right.is_none() {
                    1
                } else {
                    Self::count_leaves_rec(&n.left) + Self::count_leaves_rec(&n.right)
                }
            },
        }
    }

    /// The keys in inorder: strictly ascending for a well-formed tree.
    pub fn traverse_inorder(&self) -> (out: Vec<i32>)
        ensures
            out@ == inorder(self.root),
            self.wf() ==> forall|i: int, j: int|
                0 <= i < j < out@.len() ==> #[trigger] out@[i] < #[trigger] out@[j],
    {
        let mut out: Vec<i32> = Vec::new();
        Self::inorder_rec(&self.root, &mut out);
        proof {
            if self.wf() {
                lemma_inorder_ascending(self.root);
            }
        }
        out
    }

    fn inorder_rec(node: &Option<Box<Node>>, out: &mut Vec<i32>)
        ensures
            final(out)@ == old(out)@ + inorder(*node),
        decreases *node,
    {
        if let Some(n) = node {
            Self::inorder_rec(&n.left, out);
            out.push(n.val);
            Self::inorder_rec(&n.right, out);
            assert(final(out)@ =~= old(out)@ + inorder(*node));
        } else {
            assert(final(out)@ =~= old(out)@ + inorder(*node));
        }
    }

    /// The keys in preorder: each node before its subtrees.
    pub fn traverse_preorder(&self) -> (out: Vec<i32>)
        ensures
            out@ == preorder(self.root),
    {
        let mut out: Vec<i32> = Vec::new();
        Self::preorder_rec(&self.root, &mut out);
        out
    }

    fn preorder_rec(node: &Option<Box<Node>>, out: &mut Vec<i32>)
        ensures
            final(out)@ == old(out)@ + preorder(*node),
        decreases *node,
    {
        if let Some(n) = node {
            out.push(n.val);
            Self::preorder_rec(&n.left, out);
            Self::preorder_rec(&n.right, out);
            assert(final(out)@ =~= old(out)@ + preorder(*node));
        } else {
            assert(final(out)@ =~= old(out)@ + preorder(*node));
        }
    }

    /// The keys in postorder: each node after its subtrees.
    pub fn traverse_postorder(&self) -> (out: Vec<i32>)
        ensures
            out@ == postorder(self.root),
    {
        let mut out: Vec<i32> = Vec::new();
        Self::postorder_rec(&self.root, &mut out);
        out
    }

    fn postorder_rec(node: &Option<Box<Node>>, out: &mut Vec<i32>)
        ensures
            final(out)@ == old(out)@ + postorder(*node),
        decreases *node,
    {
        if let Some(n) = node {
            Self::postorder_rec(&n.left, out);
            Self::postorder_rec(&n.right, out);
            out.push(n.val);
            assert(final(out)@ =~= old(out)@ + postorder(*node));
        } else {
            assert(final(out)@ =~= old(out)@ + postorder(*node));
        }
    }

    /// Removes `val`. A key that is not stored changes nothing.
    pub fn delete(&mut self, val: i32)
        requires
            old(self).wf(),
        ensures
            final(self).wf(),
            final(self).root == deleted(old(self).root, val),
            final(self)@ == old(self)@.remove(val),
            !old(self)@.contains(val) ==> *final(self) == *old(self),
    {
        proof {
            lemma_deleted(self.root, val);
            if !self@.contains(val) {
                lemma_deleted_absent(self.root, val);
            }
        }
        self.root = Self::delete_rec(self.root.take(), val);
    }

    fn delete_rec(node: Option<Box<Node>>, val: i32) -> (out: Option<Box<Node>>)
        ensures
            out == deleted(node, val),
        decreases node,
    {
        match node {
            None => None,
            Some(mut n) => {
                if val < n.val {
                    n.left = Self::delete_rec(n.left.take(), val);
                    Some(n)
                } else if val > n.val {
                    n.right = Self::delete_rec(n.right.take(), val);
                    Some(n)
                } else {
                    if n.left.is_none() {
                        return n.right;
                    }
                    if n.right.is_none() {
                        return n.left;
                    }
                    let min_val: i32 = Self::find_min(&n.right);
                    n.val = min_val;
                    n.right = Self::delete_rec(n.right.take(), min_val);
                    Some(n)
                }
            },
        }
    }

    fn find_min(node: &Option<Box<Node>>) -> (m: i32)
        requires
            node.is_some(),
        ensures
            m == min_key(*node),
    {
        let mut current = node;
        loop
            invariant
                current.is_some(),
                min_key(*current) == min_key(*node),
            decreases size(*current),
        {
            let n = current.as_ref().unwrap();
            if n.left.is_none() {
                return n.val;
            }
            current = &n.left;
        }
    }
}

} // verus!
