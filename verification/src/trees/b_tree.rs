//! Multiway (B-) tree: search and insertion with node splitting and median
//! promotion, including growth at the root.

use vstd::prelude::*;

verus! {

/// An ascending run of keys and, unless the node is a leaf, one more child
/// subtree than keys.
#[derive(Debug)]
pub struct Node {
    pub keys: Vec<i32>,
    pub children: Vec<Node>,
    pub is_leaf: bool,
}

/// Whether `k` is stored in the subtree rooted at `n`.
pub open spec fn stored(n: Node, k: i32) -> bool
    decreases n,
{
    n.keys@.contains(k) || exists|i: int|
        0 <= i < n.children@.len() && stored(#[trigger] n.children@[i], k)
}

/// The exclusive lower bound of child slot `i`: the key to its left, or the
/// bound inherited from above.
pub open spec fn lower(keys: Seq<i32>, i: int, lo: int) -> int {
    if i == 0 {
        lo
    } else {
        keys[i - 1] as int
    }
}

/// The exclusive upper bound of child slot `i`: the key to its right, or the
/// bound inherited from above.
pub open spec fn upper(keys: Seq<i32>, i: int, hi: int) -> int {
    if i == keys.len() {
        hi
    } else {
        keys[i] as int
    }
}

/// The structural invariant of a subtree whose leaves all lie `level` links
/// below `n` and whose keys lie strictly between `lo` and `hi`: `n` holds
/// fewer than `cap` keys, ascending; an internal node has at least one key
/// and one more child than keys; every child holds between 1 and `order - 1`
/// keys, lies between its neighbouring keys, and satisfies the same one level
/// down.
pub open spec fn within(n: Node, cap: int, order: int, level: nat, lo: int, hi: int) -> bool
    decreases n,
{
    &&& n.keys@.len() < cap
    &&& forall|i: int| 0 <= i < n.keys@.len() ==> lo < #[trigger] n.keys@[i] < hi
    &&& forall|i: int, j: int|
        0 <= i < j < n.keys@.len() ==> #[trigger] n.keys@[i] < #[trigger] n.keys@[j]
    &&& if n.is_leaf {
        level == 0 && n.children@.len() == 0
    } else {
        &&& level > 0
        &&& n.keys@.len() >= 1
        &&& n.children@.len() == n.keys@.len() + 1
        &&& forall|i: int|
            0 <= i < n.children@.len() ==> {
                &&& (#[trigger] n.children@[i]).keys@.len() >= 1
                &&& within(
                    n.children@[i],
                    order,
                    order,
                    (level - 1) as nat,
                    lower(n.keys@, i, lo),
                    upper(n.keys@, i, hi),
                )
            }
    }
}

/// Number of links from `n` down its first children to a leaf.
pub open spec fn levels(n: Node) -> nat
    decreases n,
{
    if n.is_leaf || n.children@.len() == 0 {
        0
    } else {
        1 + levels(n.children@[0])
    }
}

/// `at` is the position of the first key that is not below `val`.
pub open spec fn is_position(keys: Seq<i32>, val: i32, at: int) -> bool {
    &&& 0 <= at <= keys.len()
    &&& forall|j: int| 0 <= j < at ==> #[trigger] keys[j] < val
    &&& at < keys.len() ==> val <= keys[at]
}

/// `left`, `median` and `right` are what splitting the full node `n` at the
/// middle key gives: the keys before it, the key itself, the keys after it,
/// and the children divided to match.
pub open spec fn is_split(n: Node, left: Node, median: i32, right: Node) -> bool {
    let mid = (n.keys@.len() / 2) as int;
    &&& median == n.keys@[mid]
    &&& left.keys@ == n.keys@.subrange(0, mid)
    &&& right.keys@ == n.keys@.subrange(mid + 1, n.keys@.len() as int)
    &&& left.is_leaf == n.is_leaf
    &&& right.is_leaf == n.is_leaf
    &&& if n.is_leaf {
        left.children@ == n.children@ && right.children@.len() == 0
    } else {
        &&& left.children@ == n.children@.subrange(0, mid + 1)
        &&& right.children@ == n.children@.subrange(mid + 1, n.children@.len() as int)
    }
}

/// Every key stored in a subtree lies strictly between the subtree's bounds.
pub proof fn lemma_stored_within(n: Node, cap: int, order: int, level: nat, lo: int, hi: int, k: i32)
    requires
        within(n, cap, order, level, lo, hi),
        stored(n, k),
    ensures
        lo < k < hi,
    decreases n,
{
    if n.keys@.contains(k) {
        let i = choose|i: int| 0 <= i < n.keys@.len() && n.keys@[i] == k;
        assert(lo < n.keys@[i] < hi);
    } else {
        let i = choose|i: int| 0 <= i < n.children@.len() && stored(#[trigger] n.children@[i], k);
        assert(n.children@[i].keys@.len() >= 1);
        if i > 0 {
            assert(lo < n.keys@[i - 1]);
        }
        if i < n.keys@.len() {
            assert(n.keys@[i] < hi);
        }
        lemma_stored_within(
            n.children@[i],
            order,
            order,
            (level - 1) as nat,
            lower(n.keys@, i, lo),
            upper(n.keys@, i, hi),
            k,
        );
    }
}

/// The invariant fixes the level: it is the length of the leftmost path.
pub proof fn lemma_within_levels(n: Node, cap: int, order: int, level: nat, lo: int, hi: int)
    requires
        within(n, cap, order, level, lo, hi),
    ensures
        levels(n) == level,
    decreases n,
{
    if !n.is_leaf {
        assert(n.children@[0].keys@.len() >= 1);
        lemma_within_levels(
            n.children@[0],
            order,
            order,
            (level - 1) as nat,
            lower(n.keys@, 0, lo),
            upper(n.keys@, 0, hi),
        );
    }
}

/// At a node that does not hold `val` itself, `val` can only be stored in the
/// child at its position, and it lies between that child's bounds.
pub proof fn lemma_descend(
    n: Node,
    cap: int,
    order: int,
    level: nat,
    lo: int,
    hi: int,
    val: i32,
    at: int,
)
    requires
        within(n, cap, order, level, lo, hi),
        is_position(n.keys@, val, at),
        at < n.keys@.len() ==> val != n.keys@[at],
        lo < val < hi,
    ensures
        !n.keys@.contains(val),
        lower(n.keys@, at, lo) < val < upper(n.keys@, at, hi),
        n.is_leaf ==> !stored(n, val),
        !n.is_leaf ==> stored(n, val) == stored(n.children@[at], val),
{
    assert forall|j: int| 0 <= j < n.keys@.len() implies n.keys@[j] != val by {
        if j < at {
            assert(n.keys@[j] < val);
        } else if j > at {
            assert(n.keys@[at] < n.keys@[j]);
        }
    }
    if at > 0 {
        assert(n.keys@[at - 1] < val);
    }
    if !n.is_leaf {
        assert forall|j: int|
            0 <= j < n.children@.len() && j != at implies !stored(
            #[trigger] n.children@[j],
            val,
        ) by {
            assert(n.children@[j].keys@.len() >= 1);
            if stored(n.children@[j], val) {
                lemma_stored_within(
                    n.children@[j],
                    order,
                    order,
                    (level - 1) as nat,
                    lower(n.keys@, j, lo),
                    upper(n.keys@, j, hi),
                    val,
                );
                if j < at {
                    assert(n.keys@[j] < val);
                } else {
                    assert(n.keys@[j - 1] >= n.keys@[at]) by {
                        if j - 1 > at {
                            assert(n.keys@[at] < n.keys@[j - 1]);
                        }
                    }
                }
            }
        }
    }
}

/// The mathematical value of a subtree: its keys, the values of its children
/// and its leaf flag.
pub struct Shape {
    pub keys: Seq<i32>,
    pub kids: Seq<Shape>,
    pub leaf: bool,
}

/// What inserting into a subtree gives its parent: the subtree alone, or, after
/// a split, its left part, the promoted median and the new right sibling.
pub enum Grown {
    Whole(Shape),
    Parts(Shape, i32, Shape),
}

/// The value of the subtree rooted at `n`.
pub open spec fn shape(n: Node) -> Shape
    decreases n,
{
    Shape {
        keys: n.keys@,
        kids: Seq::new(
            n.children@.len(),
            |i: int|
                if 0 <= i < n.children@.len() {
                    shape(n.children@[i])
                } else {
                    arbitrary()
                },
        ),
        leaf: n.is_leaf,
    }
}

/// The position of the first key that is not below `val`.
pub open spec fn position(keys: Seq<i32>, val: i32) -> int {
    choose|at: int| is_position(keys, val, at)
}

/// A node with the given contents, split at the middle key if it holds
/// `order` keys: keys before the middle stay, keys after it go to the new
/// sibling, and the children are divided to match.
pub open spec fn halved(keys: Seq<i32>, kids: Seq<Shape>, leaf: bool, order: int) -> Grown {
    if keys.len() == order {
        let mid = (keys.len() / 2) as int;
        Grown::Parts(
            Shape {
                keys: keys.subrange(0, mid),
                kids: if leaf {
                    kids
                } else {
                    kids.subrange(0, mid + 1)
                },
                leaf,
            },
            keys[mid],
            Shape {
                keys: keys.subrange(mid + 1, keys.len() as int),
                kids: if leaf {
                    Seq::empty()
                } else {
                    kids.subrange(mid + 1, kids.len() as int)
                },
                leaf,
            },
        )
    } else {
        Grown::Whole(Shape { keys, kids, leaf })
    }
}

/// Insertion of `val` into the subtree `t`: nothing changes if `val` is met on
/// the way down; otherwise it enters a leaf at its position, and every node on
/// the way back takes up what its child promoted and splits if it is full.
pub open spec fn grown(t: Shape, val: i32, order: int) -> Grown
    decreases t,
{
    let at = position(t.keys, val);
    if at < t.keys.len() && t.keys[at] == val {
        Grown::Whole(t)
    } else if t.leaf {
        halved(t.keys.insert(at, val), t.kids, true, order)
    } else if 0 <= at < t.kids.len() {
        match grown(t.kids[at], val, order) {
            Grown::Whole(c) => halved(t.keys, t.kids.update(at, c), false, order),
            Grown::Parts(l, m, r) => halved(
                t.keys.insert(at, m),
                t.kids.update(at, l).insert(at + 1, r),
                false,
                order,
            ),
        }
    } else {
        Grown::Whole(t)
    }
}

/// The first position of a key that is not below `val` is unique.
pub proof fn lemma_position(keys: Seq<i32>, val: i32, at: int)
    requires
        is_position(keys, val, at),
    ensures
        position(keys, val) == at,
{
    let p = position(keys, val);
    if p < at {
        assert(keys[p] < val);
    } else if at < p {
        assert(keys[at] < val);
    }
}

/// The value of a tree whose root took up what insertion into the old root
/// gave: the old root itself, or a new root over the two parts of a split.
pub open spec fn rooted(g: Grown) -> Shape {
    match g {
        Grown::Whole(t) => t,
        Grown::Parts(l, m, r) => Shape { keys: seq![m], kids: seq![l, r], leaf: false },
    }
}

/// The result of insertion below a node, as the node and what it hands up.
pub open spec fn handed_up(n: Node, out: Option<(i32, Node)>) -> Grown {
    match out {
        None => Grown::Whole(shape(n)),
        Some((m, r)) => Grown::Parts(shape(n), m, shape(r)),
    }
}

/// The value of a split's two parts is the model's split of the node's value.
pub proof fn lemma_split_shape(n: Node, left: Node, median: i32, right: Node)
    requires
        is_split(n, left, median, right),
        n.keys@.len() >= 1,
        !n.is_leaf ==> n.children@.len() == n.keys@.len() + 1,
    ensures
        halved(shape(n).keys, shape(n).kids, n.is_leaf, n.keys@.len() as int) == Grown::Parts(
            shape(left),
            median,
            shape(right),
        ),
{
    let mid = (n.keys@.len() / 2) as int;
    if n.is_leaf {
        assert(shape(left).kids =~= shape(n).kids);
        assert(shape(right).kids =~= Seq::<Shape>::empty());
    } else {
        assert(shape(left).kids =~= shape(n).kids.subrange(0, mid + 1));
        assert(shape(right).kids =~= shape(n).kids.subrange(
            mid + 1,
            shape(n).kids.len() as int,
        ));
    }
}

/// The value of a node whose child at `at` was replaced.
pub proof fn lemma_shape_replace(o: Node, n: Node, at: int)
    requires
        0 <= at < o.children@.len(),
        n.keys@ == o.keys@,
        n.is_leaf == o.is_leaf,
        n.children@.len() == o.children@.len(),
        forall|j: int| 0 <= j < o.children@.len() && j != at ==> n.children@[j] == o.children@[j],
    ensures
        shape(n).keys == shape(o).keys,
        shape(n).kids == shape(o).kids.update(at, shape(n.children@[at])),
{
    assert(shape(n).kids =~= shape(o).kids.update(at, shape(n.children@[at])));
}

/// The value of a node that took up a median at `at` and a new child behind it.
pub proof fn lemma_shape_absorb(o: Node, n: Node, at: int, median: i32)
    requires
        0 <= at < o.children@.len(),
        n.keys@ == o.keys@.insert(at, median),
        n.is_leaf == o.is_leaf,
        n.children@.len() == o.children@.len() + 1,
        forall|j: int| 0 <= j < at ==> n.children@[j] == o.children@[j],
        forall|j: int| at + 1 < j < n.children@.len() ==> n.children@[j] == o.children@[j - 1],
    ensures
        shape(n).keys == shape(o).keys.insert(at, median),
        shape(n).kids == shape(o).kids.update(at, shape(n.children@[at])).insert(
            at + 1,
            shape(n.children@[at + 1]),
        ),
{
    assert(shape(n).kids =~= shape(o).kids.update(at, shape(n.children@[at])).insert(
        at + 1,
        shape(n.children@[at + 1]),
    ));
}

/// The set of keys stored in the subtree rooted at `n`.
pub open spec fn contents(n: Node) -> Set<i32> {
    Set::new(|k: i32| stored(n, k))
}

/// Splitting a node that holds exactly `order` keys gives two valid nodes on
/// the same level, each with at least one key, separated by the median; no
/// key is lost or gained.
pub proof fn lemma_split(
    n: Node,
    left: Node,
    median: i32,
    right: Node,
    order: int,
    level: nat,
    lo: int,
    hi: int,
)
    requires
        order >= 3,
        n.keys@.len() == order,
        within(n, order + 1, order, level, lo, hi),
        is_split(n, left, median, right),
    ensures
        lo < median < hi,
        left.keys@.len() >= 1,
        right.keys@.len() >= 1,
        within(left, order, order, level, lo, median as int),
        within(right, order, order, level, median as int, hi),
        contents(left).union(contents(right)).insert(median) == contents(n),
{
    let mid = order / 2;
    assert(1 <= mid && mid + 1 < order);
    assert(lo < n.keys@[mid] < hi);
    assert forall|i: int| 0 <= i < left.keys@.len() implies
        lo < #[trigger] left.keys@[i] < median
    by {
        assert(left.keys@[i] == n.keys@[i]);
        assert(n.keys@[i] < n.keys@[mid]);
    }
    assert forall|i: int| 0 <= i < right.keys@.len() implies
        median < #[trigger] right.keys@[i] < hi
    by {
        assert(right.keys@[i] == n.keys@[mid + 1 + i]);
        assert(n.keys@[mid] < n.keys@[mid + 1 + i]);
    }
    assert forall|i: int, j: int| 0 <= i < j < left.keys@.len() implies
        #[trigger] left.keys@[i] < #[trigger] left.keys@[j]
    by {
        assert(left.keys@[i] == n.keys@[i]);
        assert(left.keys@[j] == n.keys@[j]);
    }
    assert forall|i: int, j: int| 0 <= i < j < right.keys@.len() implies
        #[trigger] right.keys@[i] < #[trigger] right.keys@[j]
    by {
        assert(right.keys@[i] == n.keys@[mid + 1 + i]);
        assert(right.keys@[j] == n.keys@[mid + 1 + j]);
    }
    if !n.is_leaf {
        assert forall|i: int| 0 <= i < left.children@.len() implies
            (#[trigger] left.children@[i]).keys@.len() >= 1 && within(
                left.children@[i],
                order,
                order,
                (level - 1) as nat,
                lower(left.keys@, i, lo),
                upper(left.keys@, i, median as int),
            )
        by {
            assert(left.children@[i] == n.children@[i]);
            assert(lower(left.keys@, i, lo) == lower(n.keys@, i, lo));
            assert(upper(left.keys@, i, median as int) == upper(n.keys@, i, hi));
        }
        assert forall|i: int| 0 <= i < right.children@.len() implies
            (#[trigger] right.children@[i]).keys@.len() >= 1 && within(
                right.children@[i],
                order,
                order,
                (level - 1) as nat,
                lower(right.keys@, i, median as int),
                upper(right.keys@, i, hi),
            )
        by {
            assert(right.children@[i] == n.children@[mid + 1 + i]);
            assert(lower(right.keys@, i, median as int) == lower(n.keys@, mid + 1 + i, lo));
            assert(upper(right.keys@, i, hi) == upper(n.keys@, mid + 1 + i, hi));
        }
    }
    assert forall|k: i32|
        contents(left).union(contents(right)).insert(median).contains(k) == contents(n).contains(
            k,
        ) by {
        if stored(n, k) {
            if n.keys@.contains(k) {
                let j = choose|j: int| 0 <= j < n.keys@.len() && n.keys@[j] == k;
                if j < mid {
                    assert(left.keys@[j] == k);
                } else if j > mid {
                    assert(right.keys@[j - mid - 1] == k);
                }
            } else {
                let j = choose|j: int|
                    0 <= j < n.children@.len() && stored(#[trigger] n.children@[j], k);
                if j <= mid {
                    assert(left.children@[j] == n.children@[j]);
                } else {
                    assert(right.children@[j - mid - 1] == n.children@[j]);
                }
            }
        }
        if stored(left, k) {
            if left.keys@.contains(k) {
                let j = choose|j: int| 0 <= j < left.keys@.len() && left.keys@[j] == k;
                assert(n.keys@[j] == k);
            } else {
                let j = choose|j: int|
                    0 <= j < left.children@.len() && stored(#[trigger] left.children@[j], k);
                assert(n.children@[j] == left.children@[j]);
            }
        }
        if stored(right, k) {
            if right.keys@.contains(k) {
                let j = choose|j: int| 0 <= j < right.keys@.len() && right.keys@[j] == k;
                assert(n.keys@[j + mid + 1] == k);
            } else {
                let j = choose|j: int|
                    0 <= j < right.children@.len() && stored(#[trigger] right.children@[j], k);
                assert(n.children@[j + mid + 1] == right.children@[j]);
            }
        }
        if k == median {
            assert(n.keys@[mid] == k);
        }
    }
    assert(contents(left).union(contents(right)).insert(median) =~= contents(n));
}

/// Placing a new key at its position in a leaf keeps the leaf valid, with room
/// for one key more than before, and adds exactly that key.
pub proof fn lemma_leaf_insert(
    o: Node,
    n: Node,
    at: int,
    val: i32,
    order: int,
    level: nat,
    lo: int,
    hi: int,
)
    requires
        within(o, order, order, level, lo, hi),
        o.is_leaf,
        n.is_leaf,
        n.children@ == o.children@,
        is_position(o.keys@, val, at),
        at < o.keys@.len() ==> val != o.keys@[at],
        lo < val < hi,
        n.keys@ == o.keys@.insert(at, val),
    ensures
        within(n, order + 1, order, level, lo, hi),
        contents(n) == contents(o).insert(val),
{
    assert forall|j: int| 0 <= j < n.keys@.len() implies
        #[trigger] n.keys@[j] == (if j < at { o.keys@[j] } else if j == at { val } else { o.keys@[j - 1] })
    by {}
    assert forall|j: int| at <= j < o.keys@.len() implies val < #[trigger] o.keys@[j] by {
        if j > at {
            assert(o.keys@[at] < o.keys@[j]);
        }
    }
    assert forall|i: int, j: int| 0 <= i < j < n.keys@.len() implies
        #[trigger] n.keys@[i] < #[trigger] n.keys@[j]
    by {
        if i < at {
            assert(o.keys@[i] < val);
            if j > at {
                assert(o.keys@[i] < o.keys@[j - 1]);
            }
        } else if i == at {
            assert(val < o.keys@[j - 1]);
        } else {
            assert(o.keys@[i - 1] < o.keys@[j - 1]);
        }
    }
    assert forall|i: int| 0 <= i < n.keys@.len() implies lo < #[trigger] n.keys@[i] < hi by {
        if i < at {
            assert(lo < o.keys@[i] < hi);
        } else if i > at {
            assert(lo < o.keys@[i - 1] < hi);
        }
    }
    assert forall|k: i32| contents(n).contains(k) == contents(o).insert(val).contains(k) by {
        if n.keys@.contains(k) {
            let j = choose|j: int| 0 <= j < n.keys@.len() && n.keys@[j] == k;
            if j < at {
                assert(o.keys@[j] == k);
            } else if j > at {
                assert(o.keys@[j - 1] == k);
            }
        }
        if o.keys@.contains(k) {
            let j = choose|j: int| 0 <= j < o.keys@.len() && o.keys@[j] == k;
            if j < at {
                assert(n.keys@[j] == k);
            } else {
                assert(n.keys@[j + 1] == k);
            }
        }
        if k == val {
            assert(n.keys@[at] == k);
        }
    }
    assert(contents(n) =~= contents(o).insert(val));
}

/// Replacing the child at `at` by a valid subtree within the same bounds that
/// stores one key more keeps the node valid and adds exactly that key.
pub proof fn lemma_replace_child(
    o: Node,
    n: Node,
    at: int,
    val: i32,
    order: int,
    level: nat,
    lo: int,
    hi: int,
)
    requires
        within(o, order, order, level, lo, hi),
        !o.is_leaf,
        !n.is_leaf,
        0 <= at < o.children@.len(),
        n.keys@ == o.keys@,
        n.children@.len() == o.children@.len(),
        forall|j: int| 0 <= j < o.children@.len() && j != at ==> n.children@[j] == o.children@[j],
        n.children@[at].keys@.len() >= 1,
        within(
            n.children@[at],
            order,
            order,
            (level - 1) as nat,
            lower(o.keys@, at, lo),
            upper(o.keys@, at, hi),
        ),
        contents(n.children@[at]) == contents(o.children@[at]).insert(val),
    ensures
        within(n, order, order, level, lo, hi),
        contents(n) == contents(o).insert(val),
{
    assert forall|i: int| 0 <= i < n.children@.len() implies
        (#[trigger] n.children@[i]).keys@.len() >= 1 && within(
            n.children@[i],
            order,
            order,
            (level - 1) as nat,
            lower(n.keys@, i, lo),
            upper(n.keys@, i, hi),
        )
    by {
        if i != at {
            assert(n.children@[i] == o.children@[i]);
        }
    }
    assert forall|k: i32| contents(n).contains(k) == contents(o).insert(val).contains(k) by {
        assert(contents(n.children@[at]).contains(k) == contents(o.children@[at]).insert(
            val,
        ).contains(k));
        if stored(n, k) && !n.keys@.contains(k) {
            let j = choose|j: int|
                0 <= j < n.children@.len() && stored(#[trigger] n.children@[j], k);
            if j != at {
                assert(n.children@[j] == o.children@[j]);
            }
        }
        if stored(o, k) && !o.keys@.contains(k) {
            let j = choose|j: int|
                0 <= j < o.children@.len() && stored(#[trigger] o.children@[j], k);
            if j != at {
                assert(n.children@[j] == o.children@[j]);
            }
        }
    }
    assert(contents(n) =~= contents(o).insert(val));
}

/// Taking up a promoted median at `at`, with the split child to its left and
/// the new sibling to its right, keeps the node valid, with room for one key
/// more than before, and adds exactly the inserted key to the subtree.
pub proof fn lemma_absorb(
    o: Node,
    n: Node,
    at: int,
    median: i32,
    val: i32,
    order: int,
    level: nat,
    lo: int,
    hi: int,
)
    requires
        within(o, order, order, level, lo, hi),
        !o.is_leaf,
        !n.is_leaf,
        0 <= at < o.children@.len(),
        n.keys@ == o.keys@.insert(at, median),
        n.children@.len() == o.children@.len() + 1,
        forall|j: int| 0 <= j < at ==> n.children@[j] == o.children@[j],
        forall|j: int| at + 1 < j < n.children@.len() ==> n.children@[j] == o.children@[j - 1],
        lower(o.keys@, at, lo) < median < upper(o.keys@, at, hi),
        n.children@[at].keys@.len() >= 1,
        n.children@[at + 1].keys@.len() >= 1,
        within(
            n.children@[at],
            order,
            order,
            (level - 1) as nat,
            lower(o.keys@, at, lo),
            median as int,
        ),
        within(
            n.children@[at + 1],
            order,
            order,
            (level - 1) as nat,
            median as int,
            upper(o.keys@, at, hi),
        ),
        contents(n.children@[at]).union(contents(n.children@[at + 1])).insert(median) == contents(
            o.children@[at],
        ).insert(val),
    ensures
        within(n, order + 1, order, level, lo, hi),
        contents(n) == contents(o).insert(val),
{
    assert forall|j: int| 0 <= j < n.keys@.len() implies
        #[trigger] n.keys@[j] == (if j < at { o.keys@[j] } else if j == at { median } else { o.keys@[j - 1] })
    by {}
    if at > 0 {
        assert(lo < o.keys@[at - 1]);
    }
    if at < o.keys@.len() {
        assert(o.keys@[at] < hi);
    }
    assert forall|i: int, j: int| 0 <= i < j < n.keys@.len() implies
        #[trigger] n.keys@[i] < #[trigger] n.keys@[j]
    by {
        if i < at {
            if i < at - 1 {
                assert(o.keys@[i] < o.keys@[at - 1]);
            }
            if j > at {
                assert(o.keys@[i] < o.keys@[j - 1]);
            }
        } else if i == at {
            if j - 1 > at {
                assert(o.keys@[at] < o.keys@[j - 1]);
            }
        } else {
            assert(o.keys@[i - 1] < o.keys@[j - 1]);
        }
    }
    assert forall|i: int| 0 <= i < n.keys@.len() implies lo < #[trigger] n.keys@[i] < hi by {
        if i < at {
            assert(lo < o.keys@[i] < hi);
        } else if i > at {
            assert(lo < o.keys@[i - 1] < hi);
        }
    }
    assert forall|i: int| 0 <= i < n.children@.len() implies
        (#[trigger] n.children@[i]).keys@.len() >= 1 && within(
            n.children@[i],
            order,
            order,
            (level - 1) as nat,
            lower(n.keys@, i, lo),
            upper(n.keys@, i, hi),
        )
    by {
        if i < at {
            assert(n.children@[i] == o.children@[i]);
            assert(lower(n.keys@, i, lo) == lower(o.keys@, i, lo));
            assert(upper(n.keys@, i, hi) == upper(o.keys@, i, hi));
        } else if i > at + 1 {
            assert(n.children@[i] == o.children@[i - 1]);
            assert(lower(n.keys@, i, lo) == lower(o.keys@, i - 1, lo));
            assert(upper(n.keys@, i, hi) == upper(o.keys@, i - 1, hi));
        } else if i == at {
            assert(lower(n.keys@, i, lo) == lower(o.keys@, at, lo));
            assert(upper(n.keys@, i, hi) == median);
        } else {
            assert(lower(n.keys@, i, lo) == median);
            assert(upper(n.keys@, i, hi) == upper(o.keys@, at, hi));
        }
    }
    let c = n.children@[at];
    let r = n.children@[at + 1];
    assert forall|k: i32| contents(n).contains(k) == contents(o).insert(val).contains(k) by {
        assert(contents(c).union(contents(r)).insert(median).contains(k) == contents(
            o.children@[at],
        ).insert(val).contains(k));
        if n.keys@.contains(k) {
            let j = choose|j: int| 0 <= j < n.keys@.len() && n.keys@[j] == k;
            if j < at {
                assert(o.keys@[j] == k);
            } else if j > at {
                assert(o.keys@[j - 1] == k);
            }
        } else if stored(n, k) {
            let j = choose|j: int|
                0 <= j < n.children@.len() && stored(#[trigger] n.children@[j], k);
            if j < at {
                assert(n.children@[j] == o.children@[j]);
            } else if j > at + 1 {
                assert(n.children@[j] == o.children@[j - 1]);
            }
        }
        if o.keys@.contains(k) {
            let j = choose|j: int| 0 <= j < o.keys@.len() && o.keys@[j] == k;
            if j < at {
                assert(n.keys@[j] == k);
            } else {
                assert(n.keys@[j + 1] == k);
            }
        } else if stored(o, k) {
            let j = choose|j: int|
                0 <= j < o.children@.len() && stored(#[trigger] o.children@[j], k);
            if j < at {
                assert(n.children@[j] == o.children@[j]);
            } else if j > at {
                assert(n.children@[j + 1] == o.children@[j]);
            }
        }
        if k == median {
            assert(n.keys@[at] == k);
        }
    }
    assert(contents(n) =~= contents(o).insert(val));
}

impl Node {
    /// A node without keys or children.
    pub fn new(is_leaf: bool) -> (node: Self)
        ensures
            node.keys@.len() == 0,
            node.children@.len() == 0,
            node.is_leaf == is_leaf,
    {
        Node { keys: Vec::new(), children: Vec::new(), is_leaf }
    }
}

/// A B-tree of distinct `i32` keys in which a node splits on reaching `order`
/// keys.
#[derive(Debug)]
pub struct BTree {
    pub root: Node,
    pub order: usize,
}

impl View for BTree {
    type V = Set<i32>;

    /// The set of stored keys.
    open spec fn view(&self) -> Set<i32> {
        Set::new(|k: i32| stored(self.root, k))
    }
}

impl BTree {
    /// The order is at least 3; every node holds at most `order - 1` ascending
    /// keys and every node but the root at least one; an internal node has one
    /// more child than keys; each child's keys lie between the keys next to
    /// it; all leaves lie at the same depth.
    pub open spec fn wf(&self) -> bool {
        &&& self.order >= 3
        &&& within(
            self.root,
            self.order as int,
            self.order as int,
            levels(self.root),
            i32::MIN - 1,
            i32::MAX + 1,
        )
    }

    /// The empty tree: a single leaf without keys.
    pub fn new(order: usize) -> (tree: Self)
        requires
            order >= 3,
        ensures
            tree.wf(),
            tree.order == order,
            tree.root.is_leaf,
            tree.root.keys@.len() == 0,
            tree.root.children@.len() == 0,
            tree@ == Set::<i32>::empty(),
    {
        let tree = BTree { root: Node::new(true), order };
        proof {
            assert(tree@ =~= Set::<i32>::empty());
        }
        tree
    }

    /// The position in `keys` of the first key that is not below `val`.
    pub fn find_position(keys: &Vec<i32>, val: i32) -> (at: usize)
        ensures
            is_position(keys@, val, at as int),
    {
        let mut i: usize = 0;
        while i < keys.len() && val > keys[i]
            invariant
                i <= keys.len(),
                forall|j: int| 0 <= j < i ==> #[trigger] keys@[j] < val,
            decreases keys.len() - i,
        {
            i += 1;
        }
        i
    }

    /// Whether `val` is stored.
    pub fn search(&self, val: i32) -> (found: bool)
        requires
            self.wf(),
        ensures
            found == self@.contains(val),
    {
        Self::search_node(
            &self.root,
            val,
            Ghost(self.order as int),
            Ghost(levels(self.root)),
            Ghost(i32::MIN - 1),
            Ghost(i32::MAX + 1),
        )
    }

    fn search_node(
        node: &Node,
        val: i32,
        Ghost(order): Ghost<int>,
        Ghost(level): Ghost<nat>,
        Ghost(lo): Ghost<int>,
        Ghost(hi): Ghost<int>,
    ) -> (found: bool)
        requires
            within(*node, order, order, level, lo, hi),
            lo < val < hi,
        ensures
            found == stored(*node, val),
        decreases *node,
    {
        let i: usize = Self::find_position(&node.keys, val);
        if i < node.keys.len() && val == node.keys[i] {
            return true;
        }
        proof {
            lemma_descend(*node, order, order, level, lo, hi, val, i as int);
        }
        if node.is_leaf {
            return false;
        }
        Self::search_node(
            &node.children[i],
            val,
            Ghost(order),
            Ghost((level - 1) as nat),
            Ghost(lower(node.keys@, i as int, lo)),
            Ghost(upper(node.keys@, i as int, hi)),
        )
    }

    /// Splits a full node at its middle key: the node keeps what lies before
    /// it, and the key is returned with a new sibling that holds what lies
    /// after it.
    fn split(node: &mut Node) -> (out: (i32, Node))
        requires
            old(node).keys@.len() >= 1,
            !old(node).is_leaf ==> old(node).children@.len() == old(node).keys@.len() + 1,
        ensures
            is_split(*old(node), *final(node), out.0, out.1),
            halved(
                shape(*old(node)).keys,
                shape(*old(node)).kids,
                old(node).is_leaf,
                old(node).keys@.len() as int,
            ) == Grown::Parts(shape(*final(node)), out.0, shape(out.1)),
    {
        let mid_index: usize = node.keys.len() / 2;
        let median: i32 = node.keys.remove(mid_index);
        let right_keys = node.keys.split_off(mid_index);
        let right_children = if node.is_leaf {
            Vec::new()
        } else {
            node.children.split_off(mid_index + 1)
        };
        let right_node = Node { keys: right_keys, children: right_children, is_leaf: node.is_leaf };
        proof {
            let before = old(node).keys@;
            assert(node.keys@ =~= before.subrange(0, mid_index as int));
            assert(right_node.keys@ =~= before.subrange(mid_index + 1, before.len() as int));
            lemma_split_shape(*old(node), *node, median, right_node);
        }
        (median, right_node)
    }

    fn insert_rec(
        node: &mut Node,
        val: i32,
        order: usize,
        Ghost(level): Ghost<nat>,
        Ghost(lo): Ghost<int>,
        Ghost(hi): Ghost<int>,
    ) -> (out: Option<(i32, Node)>)
        requires
            order >= 3,
            within(*old(node), order as int, order as int, level, lo, hi),
            lo < val < hi,
        ensures
            final(node).keys@.len() >= 1,
            match out {
                None => {
                    &&& within(*final(node), order as int, order as int, level, lo, hi)
                    &&& contents(*final(node)) == contents(*old(node)).insert(val)
                },
                Some((median, right)) => {
                    &&& lo < median < hi
                    &&& right.keys@.len() >= 1
                    &&& within(*final(node), order as int, order as int, level, lo, median as int)
                    &&& within(right, order as int, order as int, level, median as int, hi)
                    &&& contents(*final(node)).union(contents(right)).insert(median) == contents(
                        *old(node),
                    ).insert(val)
                },
            },
            stored(*old(node), val) ==> out.is_none() && shape(*final(node)) == shape(*old(node)),
            grown(shape(*old(node)), val, order as int) == handed_up(*final(node), out),
        decreases *old(node),
    {
        let ghost before = *node;
        let i: usize = Self::find_position(&node.keys, val);
        if i < node.keys.len() && val == node.keys[i] {
            proof {
                assert(stored(before, val));
                assert(contents(before) =~= contents(before).insert(val));
                lemma_position(before.keys@, val, i as int);
            }
            return None;
        }
        proof {
            lemma_descend(before, order as int, order as int, level, lo, hi, val, i as int);
            lemma_position(before.keys@, val, i as int);
        }
        if node.is_leaf {
            node.keys.insert(i, val);
            proof {
                lemma_leaf_insert(before, *node, i as int, val, order as int, level, lo, hi);
                assert(shape(*node).kids =~= shape(before).kids);
            }
        } else {
            let ghost child = before.children@[i as int];
            assert(child.keys@.len() >= 1);
            let child_split = Self::insert_rec(
                &mut node.children[i],
                val,
                order,
                Ghost((level - 1) as nat),
                Ghost(lower(before.keys@, i as int, lo)),
                Ghost(upper(before.keys@, i as int, hi)),
            );
            if let Some((median, right_node)) = child_split {
                node.keys.insert(i, median);
                node.children.insert(i + 1, right_node);
                proof {
                    lemma_absorb(before, *node, i as int, median, val, order as int, level, lo, hi);
                    lemma_shape_absorb(before, *node, i as int, median);
                }
            } else {
                proof {
                    lemma_replace_child(before, *node, i as int, val, order as int, level, lo, hi);
                    lemma_shape_replace(before, *node, i as int);
                    if stored(before, val) {
                        assert(shape(*node).kids =~= shape(before).kids);
                    }
                }
            }
        }
        assert(within(*node, order + 1, order as int, level, lo, hi));
        assert(contents(*node) == contents(before).insert(val));
        assert(grown(shape(before), val, order as int) == halved(
            shape(*node).keys,
            shape(*node).kids,
            node.is_leaf,
            order as int,
        ));
        assert(stored(before, val) ==> shape(*node) == shape(before) && node.keys@.len() < order);
        if node.keys.len() == order {
            let ghost full = *node;
            let parts = Self::split(node);
            proof {
                lemma_split(full, *node, parts.0, parts.1, order as int, level, lo, hi);
            }
            return Some(parts);
        }
        None
    }

    /// Stores `val`. A key that is already stored changes nothing. A root that
    /// fills up is split, and a new root takes its median and the two halves.
    pub fn insert(&mut self, val: i32)
        requires
            old(self).wf(),
        ensures
            final(self).wf(),
            final(self).order == old(self).order,
            final(self)@ == old(self)@.insert(val),
            old(self)@.contains(val) ==> shape(final(self).root) == shape(old(self).root),
            shape(final(self).root) == rooted(
                grown(shape(old(self).root), val, old(self).order as int),
            ),
            levels(final(self).root) == levels(old(self).root) || {
                &&& levels(final(self).root) == levels(old(self).root) + 1
                &&& final(self).root.keys@.len() == 1
                &&& final(self).root.children@.len() == 2
            },
    {
        let ghost level = levels(self.root);
        let ghost before = self.root;
        let split_result = Self::insert_rec(
            &mut self.root,
            val,
            self.order,
            Ghost(level),
            Ghost(i32::MIN - 1),
            Ghost(i32::MAX + 1),
        );
        if let Some((median, right_child)) = split_result {
            let ghost left = self.root;
            let mut left_child = Node::new(false);
            core::mem::swap(&mut self.root, &mut left_child);
            let mut keys: Vec<i32> = Vec::new();
            keys.push(median);
            let mut children: Vec<Node> = Vec::new();
            children.push(left_child);
            children.push(right_child);
            self.root = Node { keys, children, is_leaf: false };
            proof {
                let root = self.root;
                assert(root.keys@[0] == median);
                assert(root.children@[0] == left);
                assert(root.children@[1] == right_child);
                assert(shape(root).keys =~= seq![median]);
                assert(shape(root).kids =~= seq![shape(left), shape(right_child)]);
                assert forall|k: i32| contents(root).contains(k) == contents(before).insert(
                    val,
                ).contains(k) by {
                    assert(contents(left).union(contents(right_child)).insert(median).contains(k)
                        == contents(before).insert(val).contains(k));
                    if root.keys@.contains(k) {
                    } else if stored(root, k) {
                        let j = choose|j: int|
                            0 <= j < root.children@.len() && stored(#[trigger] root.children@[j], k);
                    }
                }
                assert(contents(root) =~= contents(before).insert(val));
                lemma_within_levels(
                    left,
                    self.order as int,
                    self.order as int,
                    level,
                    i32::MIN - 1,
                    median as int,
                );
                assert(levels(root) == level + 1);
            }
        } else {
            proof {
                lemma_within_levels(
                    self.root,
                    self.order as int,
                    self.order as int,
                    level,
                    i32::MIN - 1,
                    i32::MAX + 1,
                );
            }
        }
    }
}

} // verus!
