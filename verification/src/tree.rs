//! An ordered binary search tree over `i64` keys, with iterative
//! (stack-machine) lazy traversal producers.

use vstd::prelude::*;

verus! {

/// The abstract shape of a binary search tree: either empty, or a root key
/// with a left and a right subtree.  Contracts of the executable tree are
/// stated over this shape.
pub enum TreeShape {
    Empty,
    Node { key: i64, left: Box<TreeShape>, right: Box<TreeShape> },
}

/// The set of keys held by a shape.
pub open spec fn shape_keys(s: TreeShape) -> Set<i64>
    decreases s,
{
    match s {
        TreeShape::Empty => Set::empty(),
        TreeShape::Node { key, left, right } => shape_keys(*left).union(shape_keys(*right)).insert(key),
    }
}

/// The number of keys held by a shape.
pub open spec fn shape_size(s: TreeShape) -> nat
    decreases s,
{
    match s {
        TreeShape::Empty => 0,
        TreeShape::Node { key, left, right } => 1 + shape_size(*left) + shape_size(*right),
    }
}

/// The binary-search-tree ordering invariant: every key in a left subtree
/// is strictly below the node's key, every key in a right subtree strictly
/// above it, recursively.
pub open spec fn is_bst(s: TreeShape) -> bool
    decreases s,
{
    match s {
        TreeShape::Empty => true,
        TreeShape::Node { key, left, right } => {
            &&& forall|k: i64| shape_keys(*left).contains(k) ==> k < key
            &&& forall|k: i64| shape_keys(*right).contains(k) ==> k > key
            &&& is_bst(*left)
            &&& is_bst(*right)
        },
    }
}

/// Preorder: the node's key, then the left subtree, then the right subtree.
pub open spec fn preorder_of(s: TreeShape) -> Seq<i64>
    decreases s,
{
    match s {
        TreeShape::Empty => Seq::empty(),
        TreeShape::Node { key, left, right } => seq![key] + preorder_of(*left) + preorder_of(*right),
    }
}

/// Inorder: the left subtree, then the node's key, then the right subtree.
pub open spec fn inorder_of(s: TreeShape) -> Seq<i64>
    decreases s,
{
    match s {
        TreeShape::Empty => Seq::empty(),
        TreeShape::Node { key, left, right } => inorder_of(*left) + seq![key] + inorder_of(*right),
    }
}

/// Postorder: the left subtree, then the right subtree, then the node's key.
pub open spec fn postorder_of(s: TreeShape) -> Seq<i64>
    decreases s,
{
    match s {
        TreeShape::Empty => Seq::empty(),
        TreeShape::Node { key, left, right } => postorder_of(*left) + postorder_of(*right) + seq![key],
    }
}

/// Binary-search-tree membership: descend left below the key, right above.
pub open spec fn bst_contains(s: TreeShape, k: i64) -> bool
    decreases s,
{
    match s {
        TreeShape::Empty => false,
        TreeShape::Node { key, left, right } => {
            if k == key {
                true
            } else if k < key {
                bst_contains(*left, k)
            } else {
                bst_contains(*right, k)
            }
        },
    }
}

/// Binary-search-tree insertion: descend as in `bst_contains` and place the
/// key in the empty slot it reaches; a key already present changes nothing.
pub open spec fn bst_insert(s: TreeShape, k: i64) -> TreeShape
    decreases s,
{
    match s {
        TreeShape::Empty => TreeShape::Node {
            key: k,
            left: Box::new(TreeShape::Empty),
            right: Box::new(TreeShape::Empty),
        },
        TreeShape::Node { key, left, right } => {
            if k == key {
                TreeShape::Node { key, left, right }
            } else if k < key {
                TreeShape::Node { key, left: Box::new(bst_insert(*left, k)), right }
            } else {
                TreeShape::Node { key, left, right: Box::new(bst_insert(*right, k)) }
            }
        },
    }
}

/// Law: on an ordered tree, membership by binary-search descent agrees with
/// membership in the set of all keys, so `find` answers `true` for exactly
/// the keys that were inserted.
pub proof fn lemma_bst_contains_keys(s: TreeShape, k: i64)
    requires
        is_bst(s),
    ensures
        bst_contains(s, k) == shape_keys(s).contains(k),
    decreases s,
{
    match s {
        TreeShape::Empty => {},
        TreeShape::Node { key, left, right } => {
            lemma_bst_contains_keys(*left, k);
            lemma_bst_contains_keys(*right, k);
        },
    }
}

/// Law: insertion adds exactly the given key, preserves the ordering
/// invariant, leaves the tree unchanged when the key is already present,
/// and grows the key count by one otherwise.
pub proof fn lemma_bst_insert(s: TreeShape, k: i64)
    requires
        is_bst(s),
    ensures
        is_bst(bst_insert(s, k)),
        shape_keys(bst_insert(s, k)) == shape_keys(s).insert(k),
        bst_contains(s, k) ==> bst_insert(s, k) == s,
        shape_size(bst_insert(s, k)) == shape_size(s) + (if bst_contains(s, k) { 0int } else { 1 }),
    decreases s,
{
    match s {
        TreeShape::Empty => {
            assert(shape_keys(bst_insert(s, k)) =~= shape_keys(s).insert(k));
        },
        TreeShape::Node { key, left, right } => {
            if k == key {
                assert(shape_keys(bst_insert(s, k)) =~= shape_keys(s).insert(k));
            } else if k < key {
                lemma_bst_insert(*left, k);
                assert(shape_keys(bst_insert(s, k)) =~= shape_keys(s).insert(k));
            } else {
                lemma_bst_insert(*right, k);
                assert(shape_keys(bst_insert(s, k)) =~= shape_keys(s).insert(k));
            }
        },
    }
}

/// Law: inserting a key and then looking one up finds the new key and
/// exactly the keys that were already there, no others.
pub proof fn lemma_insert_find(s: TreeShape, inserted: i64, probe: i64)
    requires
        is_bst(s),
    ensures
        bst_contains(bst_insert(s, inserted), probe) == (probe == inserted || bst_contains(s, probe)),
{
    lemma_bst_insert(s, inserted);
    lemma_bst_contains_keys(s, probe);
    lemma_bst_contains_keys(bst_insert(s, inserted), probe);
}

/// Whether a sequence of keys is strictly ascending.
pub open spec fn strictly_sorted(s: Seq<i64>) -> bool {
    forall|i: int, j: int| 0 <= i < j < s.len() ==> s[i] < s[j]
}

/// Law: on an ordered tree the inorder traversal is strictly ascending and
/// mentions exactly the keys of the tree; being strictly sorted it is the
/// ascending sort of the keys, whatever the tree's shape.
pub proof fn lemma_inorder_sorted(s: TreeShape)
    requires
        is_bst(s),
    ensures
        strictly_sorted(inorder_of(s)),
        forall|k: i64| inorder_of(s).contains(k) == shape_keys(s).contains(k),
    decreases s,
{
    match s {
        TreeShape::Empty => {
            assert forall|k: i64| inorder_of(s).contains(k) == shape_keys(s).contains(k) by {
                assert(!inorder_of(s).contains(k));
                assert(!shape_keys(s).contains(k));
            }
        },
        TreeShape::Node { key, left, right } => {
            lemma_inorder_sorted(*left);
            lemma_inorder_sorted(*right);
            let lio = inorder_of(*left);
            let rio = inorder_of(*right);
            let io = inorder_of(s);
            assert(io == lio + seq![key] + rio);
            assert forall|k: i64| io.contains(k) == shape_keys(s).contains(k) by {
                if io.contains(k) {
                    let n = choose|n: int| 0 <= n < io.len() && io[n] == k;
                    if n < lio.len() {
                        assert(lio.contains(k));
                    } else if n == lio.len() {
                        assert(k == key);
                    } else {
                        assert(rio[n - lio.len() - 1] == k);
                        assert(rio.contains(k));
                    }
                }
                if shape_keys(s).contains(k) {
                    if k == key {
                        assert(io[lio.len() as int] == k);
                    } else if shape_keys(*left).contains(k) {
                        assert(lio.contains(k));
                        let n = choose|n: int| 0 <= n < lio.len() && lio[n] == k;
                        assert(io[n] == k);
                    } else {
                        assert(shape_keys(*right).contains(k));
                        assert(rio.contains(k));
                        let n = choose|n: int| 0 <= n < rio.len() && rio[n] == k;
                        assert(io[lio.len() + 1 + n] == k);
                    }
                    assert(io.contains(k));
                }
            }
            assert forall|i: int, j: int| 0 <= i < j < io.len() implies io[i] < io[j] by {
                if i < lio.len() {
                    assert(lio.contains(lio[i]));
                    assert(shape_keys(*left).contains(io[i]));
                    assert(io[i] < key);
                }
                if j > lio.len() {
                    assert(rio.contains(rio[j - lio.len() - 1]));
                    assert(shape_keys(*right).contains(io[j]));
                    assert(io[j] > key);
                }
                if i < lio.len() && j < lio.len() {
                    assert(io[i] == lio[i] && io[j] == lio[j]);
                }
                if i > lio.len() && j > lio.len() {
                    assert(io[i] == rio[i - lio.len() - 1] && io[j] == rio[j - lio.len() - 1]);
                }
            }
        },
    }
}

/// Law: two strictly ascending sequences with the same members are the same
/// sequence, so the sorted traversal of a key set is unique.
pub proof fn lemma_sorted_unique(a: Seq<i64>, b: Seq<i64>)
    requires
        strictly_sorted(a),
        strictly_sorted(b),
        forall|k: i64| a.contains(k) == b.contains(k),
    ensures
        a == b,
    decreases a.len(),
{
    if a.len() == 0 {
        if b.len() > 0 {
            assert(b.contains(b[0]));
            assert(a.contains(b[0]));
            assert(false);
        }
        assert(a =~= b);
    } else {
        assert(a.contains(a[0]));
        assert(b.contains(a[0]));
        assert(b.len() > 0);
        assert(b.contains(b[0]));
        assert(a.contains(b[0]));
        let ia = choose|n: int| 0 <= n < a.len() && a[n] == b[0];
        let ib = choose|n: int| 0 <= n < b.len() && b[n] == a[0];
        assert(a[0] <= a[ia] && b[0] <= b[ib]);
        assert(a[0] == b[0]);
        let at = a.drop_first();
        let bt = b.drop_first();
        assert forall|k: i64| at.contains(k) == bt.contains(k) by {
            if at.contains(k) {
                let n = choose|n: int| 0 <= n < at.len() && at[n] == k;
                assert(a[n + 1] == k);
                assert(a[0] < k);
                assert(b.contains(k));
                let m = choose|m: int| 0 <= m < b.len() && b[m] == k;
                assert(m != 0);
                assert(bt[m - 1] == k);
            }
            if bt.contains(k) {
                let n = choose|n: int| 0 <= n < bt.len() && bt[n] == k;
                assert(b[n + 1] == k);
                assert(b[0] < k);
                assert(a.contains(k));
                let m = choose|m: int| 0 <= m < a.len() && a[m] == k;
                assert(m != 0);
                assert(at[m - 1] == k);
            }
        }
        assert forall|i: int, j: int| 0 <= i < j < at.len() implies at[i] < at[j] by {
            assert(at[i] == a[i + 1] && at[j] == a[j + 1]);
        }
        assert forall|i: int, j: int| 0 <= i < j < bt.len() implies bt[i] < bt[j] by {
            assert(bt[i] == b[i + 1] && bt[j] == b[j + 1]);
        }
        lemma_sorted_unique(at, bt);
        assert(a.len() == b.len());
        assert forall|i: int| 0 <= i < a.len() implies a[i] == b[i] by {
            if i > 0 {
                assert(a[i] == at[i - 1] && b[i] == bt[i - 1]);
            }
        }
        assert(a =~= b);
    }
}

/// Law: the three traversals of one tree all produce exactly one key per
/// node, so their lengths all equal the number of keys in the tree.
pub proof fn lemma_traversal_lengths(s: TreeShape)
    ensures
        preorder_of(s).len() == shape_size(s),
        inorder_of(s).len() == shape_size(s),
        postorder_of(s).len() == shape_size(s),
    decreases s,
{
    match s {
        TreeShape::Empty => {},
        TreeShape::Node { key, left, right } => {
            lemma_traversal_lengths(*left);
            lemma_traversal_lengths(*right);
        },
    }
}

/// Law: at every node, preorder puts the node's key before both subtrees,
/// inorder between them, and postorder after both, each with the whole left
/// subtree before the whole right subtree; and the first element of a
/// nonempty tree's preorder is its root key.
pub proof fn lemma_traversal_order(key: i64, left: TreeShape, right: TreeShape)
    ensures
        preorder_of(TreeShape::Node { key, left: Box::new(left), right: Box::new(right) })
            == seq![key] + preorder_of(left) + preorder_of(right),
        inorder_of(TreeShape::Node { key, left: Box::new(left), right: Box::new(right) })
            == inorder_of(left) + seq![key] + inorder_of(right),
        postorder_of(TreeShape::Node { key, left: Box::new(left), right: Box::new(right) })
            == postorder_of(left) + postorder_of(right) + seq![key],
        preorder_of(TreeShape::Node { key, left: Box::new(left), right: Box::new(right) })[0] == key,
{
}

/// Law: the traversals of the empty tree produce no keys at all.
pub proof fn lemma_empty_traversals()
    ensures
        preorder_of(TreeShape::Empty) == Seq::<i64>::empty(),
        inorder_of(TreeShape::Empty) == Seq::<i64>::empty(),
        postorder_of(TreeShape::Empty) == Seq::<i64>::empty(),
{
}

/// Law: insertion never moves the root: the first preorder element of a
/// nonempty tree stays what it was, and the first insertion into an empty
/// tree becomes the root.
pub proof fn lemma_insert_keeps_root(s: TreeShape, k: i64)
    requires
        is_bst(s),
    ensures
        s is Node ==> bst_insert(s, k) is Node
            && preorder_of(bst_insert(s, k))[0] == preorder_of(s)[0],
        s is Empty ==> preorder_of(bst_insert(s, k)) == seq![k],
{
    match s {
        TreeShape::Empty => {
            assert(preorder_of(TreeShape::Empty) =~= Seq::<i64>::empty());
            assert(preorder_of(bst_insert(s, k)) =~= seq![k]);
        },
        TreeShape::Node { key, left, right } => {
            assert(preorder_of(s)[0] == key);
            assert(preorder_of(bst_insert(s, k))[0] == key);
        },
    }
}

/// The tree that a sequence of insertions builds, starting from the empty
/// tree.
pub open spec fn bst_insert_all(ks: Seq<i64>) -> TreeShape
    decreases ks.len(),
{
    if ks.len() == 0 {
        TreeShape::Empty
    } else {
        bst_insert(bst_insert_all(ks.drop_last()), ks.last())
    }
}

/// Law: after any sequence of insertions into an empty tree, the tree is
/// ordered and lookup answers `true` for exactly the keys inserted and
/// `false` for every key never inserted; and when the inserted keys were
/// distinct, the tree holds exactly one node per key.
pub proof fn lemma_find_after_inserts(ks: Seq<i64>, probe: i64)
    ensures
        is_bst(bst_insert_all(ks)),
        bst_contains(bst_insert_all(ks), probe) == ks.contains(probe),
        ks.no_duplicates() ==> shape_size(bst_insert_all(ks)) == ks.len(),
    decreases ks.len(),
{
    if ks.len() == 0 {
        assert(!ks.contains(probe));
    } else {
        let rest = ks.drop_last();
        let t = bst_insert_all(rest);
        lemma_find_after_inserts(rest, probe);
        lemma_find_after_inserts(rest, ks.last());
        lemma_bst_insert(t, ks.last());
        lemma_insert_find(t, ks.last(), probe);
        assert(ks.contains(probe) == (probe == ks.last() || rest.contains(probe))) by {
            if ks.contains(probe) {
                let n = choose|n: int| 0 <= n < ks.len() && ks[n] == probe;
                if n < ks.len() - 1 {
                    assert(rest[n] == probe);
                    assert(rest.contains(probe));
                }
            }
            if rest.contains(probe) {
                let n = choose|n: int| 0 <= n < rest.len() && rest[n] == probe;
                assert(ks[n] == probe);
                assert(ks.contains(probe));
            }
            if probe == ks.last() {
                assert(ks.contains(probe));
            }
        }
        if ks.no_duplicates() {
            assert(rest.no_duplicates());
            assert(!rest.contains(ks.last())) by {
                if rest.contains(ks.last()) {
                    let n = choose|n: int| 0 <= n < rest.len() && rest[n] == ks.last();
                    assert(ks[n] == ks[ks.len() - 1]);
                }
            }
        }
    }
}

/// One node of the tree, held in the arena.  Children are arena indices;
/// a child is always created after its parent, so a child index is always
/// strictly above the parent's.
#[derive(Clone, Copy)]
struct Node {
    key: i64,
    left: Option<usize>,
    right: Option<usize>,
}

/// An ordered binary search tree.  Nodes live in an arena and point to
/// their children by index; the root, when the tree is not empty, is the
/// node at index zero.  An index names a node uniquely, which is what the
/// postorder producer's identity comparison relies on.
pub struct Tree {
    nodes: Vec<Node>,
}

/// The set of arena indices of the subtree rooted at `i`.
spec fn idxs_at(nodes: Seq<Node>, i: int) -> Set<int>
    decreases nodes.len() - i,
{
    if 0 <= i < nodes.len() {
        let ls = match nodes[i].left {
            Some(l) => if i < l < nodes.len() { idxs_at(nodes, l as int) } else { Set::empty() },
            None => Set::empty(),
        };
        let rs = match nodes[i].right {
            Some(r) => if i < r < nodes.len() { idxs_at(nodes, r as int) } else { Set::empty() },
            None => Set::empty(),
        };
        ls.union(rs).insert(i)
    } else {
        Set::empty()
    }
}

/// The abstract shape of the subtree rooted at `i`.
spec fn shape_at(nodes: Seq<Node>, i: int) -> TreeShape
    decreases nodes.len() - i,
{
    if 0 <= i < nodes.len() {
        let ls = match nodes[i].left {
            Some(l) => if i < l < nodes.len() { shape_at(nodes, l as int) } else { TreeShape::Empty },
            None => TreeShape::Empty,
        };
        let rs = match nodes[i].right {
            Some(r) => if i < r < nodes.len() { shape_at(nodes, r as int) } else { TreeShape::Empty },
            None => TreeShape::Empty,
        };
        TreeShape::Node { key: nodes[i].key, left: Box::new(ls), right: Box::new(rs) }
    } else {
        TreeShape::Empty
    }
}

/// Structural well-formedness of the subtree rooted at `i`: children are in
/// range and strictly above their parent, and the two child subtrees use
/// disjoint sets of arena indices.
spec fn sub_wf(nodes: Seq<Node>, i: int) -> bool
    decreases nodes.len() - i,
{
    &&& 0 <= i < nodes.len()
    &&& match nodes[i].left {
        Some(l) => i < l < nodes.len() && sub_wf(nodes, l as int),
        None => true,
    }
    &&& match nodes[i].right {
        Some(r) => i < r < nodes.len() && sub_wf(nodes, r as int),
        None => true,
    }
    &&& match (nodes[i].left, nodes[i].right) {
        (Some(l), Some(r)) => idxs_at(nodes, l as int).disjoint(idxs_at(nodes, r as int)),
        _ => true,
    }
}

/// A well-formed subtree occupies indices between its root and the end of
/// the arena, its root included.
proof fn lemma_idxs_range(nodes: Seq<Node>, i: int)
    requires
        sub_wf(nodes, i),
    ensures
        idxs_at(nodes, i).contains(i),
        forall|j: int| idxs_at(nodes, i).contains(j) ==> i <= j < nodes.len(),
    decreases nodes.len() - i,
{
    match nodes[i].left {
        Some(l) => lemma_idxs_range(nodes, l as int),
        None => {},
    }
    match nodes[i].right {
        Some(r) => lemma_idxs_range(nodes, r as int),
        None => {},
    }
}

/// A subtree's shape, index set and well-formedness are untouched by any
/// change to the arena that leaves the subtree's own entries in place.
proof fn lemma_stable(nodes1: Seq<Node>, nodes2: Seq<Node>, i: int)
    requires
        sub_wf(nodes1, i),
        nodes1.len() <= nodes2.len(),
        forall|j: int| idxs_at(nodes1, i).contains(j) ==> nodes2[j] == nodes1[j],
    ensures
        sub_wf(nodes2, i),
        idxs_at(nodes2, i) == idxs_at(nodes1, i),
        shape_at(nodes2, i) == shape_at(nodes1, i),
    decreases nodes1.len() - i,
{
    lemma_idxs_range(nodes1, i);
    assert(nodes2[i] == nodes1[i]);
    match nodes1[i].left {
        Some(l) => {
            lemma_idxs_range(nodes1, l as int);
            lemma_stable(nodes1, nodes2, l as int);
        },
        None => {},
    }
    match nodes1[i].right {
        Some(r) => {
            lemma_idxs_range(nodes1, r as int);
            lemma_stable(nodes1, nodes2, r as int);
        },
        None => {},
    }
    assert(idxs_at(nodes2, i) =~= idxs_at(nodes1, i));
}

impl Tree {
    /// The abstract shape of the whole tree.
    pub closed spec fn shape(self) -> TreeShape {
        if self.nodes.len() == 0 {
            TreeShape::Empty
        } else {
            shape_at(self.nodes@, 0)
        }
    }

    /// The tree is structurally sound and satisfies the ordering invariant.
    pub closed spec fn wf(self) -> bool {
        self.nodes.len() > 0 ==> sub_wf(self.nodes@, 0) && is_bst(self.shape())
    }

    /// Creates an empty tree.
    pub fn new() -> (t: Self)
        ensures
            t.wf(),
            t@ == TreeShape::Empty,
    {
        Tree { nodes: Vec::new() }
    }
}

/// Binary-search descent below index `i`, read-only.
fn find_at(nodes: &Vec<Node>, i: usize, key: i64) -> (r: bool)
    requires
        sub_wf(nodes@, i as int),
    ensures
        r == bst_contains(shape_at(nodes@, i as int), key),
    decreases nodes@.len() - i,
{
    let n = nodes[i];
    let ghost sh = shape_at(nodes@, i as int);
    if key == n.key {
        true
    } else if key < n.key {
        match n.left {
            Some(l) => {
                proof {
                    assert(bst_contains(sh, key) == bst_contains(shape_at(nodes@, l as int), key));
                }
                find_at(nodes, l, key)
            },
            None => {
                proof {
                    assert(!bst_contains(TreeShape::Empty, key));
                    assert(!bst_contains(sh, key));
                }
                false
            },
        }
    } else {
        match n.right {
            Some(r) => {
                proof {
                    assert(bst_contains(sh, key) == bst_contains(shape_at(nodes@, r as int), key));
                }
                find_at(nodes, r, key)
            },
            None => {
                proof {
                    assert(!bst_contains(TreeShape::Empty, key));
                    assert(!bst_contains(sh, key));
                }
                false
            },
        }
    }
}

/// Binary-search descent below index `i`; a missing slot on the descent
/// path receives a fresh node at the end of the arena.
fn insert_at(nodes: &mut Vec<Node>, i: usize, key: i64) -> (r: bool)
    requires
        sub_wf(old(nodes)@, i as int),
    ensures
        final(nodes)@.len() == old(nodes)@.len() + (if r { 1int } else { 0int }),
        forall|j: int|
            0 <= j < old(nodes)@.len() && !idxs_at(old(nodes)@, i as int).contains(j)
                ==> final(nodes)@[j] == old(nodes)@[j],
        sub_wf(final(nodes)@, i as int),
        idxs_at(final(nodes)@, i as int) == if r {
            idxs_at(old(nodes)@, i as int).insert(old(nodes)@.len() as int)
        } else {
            idxs_at(old(nodes)@, i as int)
        },
        shape_at(final(nodes)@, i as int) == bst_insert(shape_at(old(nodes)@, i as int), key),
        r == !bst_contains(shape_at(old(nodes)@, i as int), key),
        !r ==> final(nodes)@ == old(nodes)@,
    decreases old(nodes)@.len() - i,
{
    let ghost n0 = nodes@;
    let n = nodes[i];
    if key == n.key {
        false
    } else if key < n.key {
        match n.left {
            Some(l) => {
                proof {
                    lemma_idxs_range(n0, l as int);
                }
                let r = insert_at(nodes, l, key);
                proof {
                    lemma_insert_frame_left(n0, nodes@, i as int, l, key, r);
                }
                r
            },
            None => {
                let idx = nodes.len();
                nodes.push(Node { key, left: None, right: None });
                let updated = Node { key: n.key, left: Some(idx), right: n.right };
                nodes[i] = updated;
                proof {
                    lemma_insert_leaf_left(n0, nodes@, i as int, key, idx);
                }
                true
            },
        }
    } else {
        match n.right {
            Some(rt) => {
                proof {
                    lemma_idxs_range(n0, rt as int);
                }
                let r = insert_at(nodes, rt, key);
                proof {
                    lemma_insert_frame_right(n0, nodes@, i as int, rt, key, r);
                }
                r
            },
            None => {
                let idx = nodes.len();
                nodes.push(Node { key, left: None, right: None });
                let updated = Node { key: n.key, left: n.left, right: Some(idx) };
                nodes[i] = updated;
                proof {
                    lemma_insert_leaf_right(n0, nodes@, i as int, key, idx);
                }
                true
            },
        }
    }
}

impl Tree {
    /// Inserts `key`.  Returns `true` and adds the key at the empty slot
    /// the binary-search descent reaches when the key is absent; returns
    /// `false` and leaves the tree exactly as it was when the key is
    /// already present.
    pub fn insert(&mut self, key: i64) -> (r: bool)
        requires
            old(self).wf(),
        ensures
            final(self).wf(),
            r == !bst_contains(old(self)@, key),
            final(self)@ == bst_insert(old(self)@, key),
            shape_keys(final(self)@) == shape_keys(old(self)@).insert(key),
            !r ==> final(self)@ == old(self)@,
    {
        if self.nodes.len() == 0 {
            self.nodes.push(Node { key, left: None, right: None });
            proof {
                lemma_bst_insert(TreeShape::Empty, key);
                assert(sub_wf(self.nodes@, 0));
                assert(self@ == bst_insert(TreeShape::Empty, key));
            }
            true
        } else {
            proof {
                lemma_bst_insert(old(self)@, key);
            }
            insert_at(&mut self.nodes, 0, key)
        }
    }

    /// Returns `true` if `key` exists in the tree, and `false` otherwise.
    pub fn find(&self, key: &i64) -> (r: bool)
        requires
            self.wf(),
        ensures
            r == bst_contains(self@, *key),
    {
        if self.nodes.len() == 0 {
            false
        } else {
            find_at(&self.nodes, 0, *key)
        }
    }
}

/// After a successful descent into the left child `l` of node `i`, the rest
/// of the subtree at `i` is untouched and its shape is the inserted shape.
proof fn lemma_insert_frame_left(n0: Seq<Node>, n2: Seq<Node>, i: int, l: usize, key: i64, r: bool)
    requires
        sub_wf(n0, i),
        n0[i].left == Some(l),
        key < n0[i].key,
        n2.len() == n0.len() + (if r { 1int } else { 0int }),
        forall|j: int| 0 <= j < n0.len() && !idxs_at(n0, l as int).contains(j) ==> n2[j] == n0[j],
        sub_wf(n2, l as int),
        idxs_at(n2, l as int) == if r { idxs_at(n0, l as int).insert(n0.len() as int) } else { idxs_at(n0, l as int) },
        shape_at(n2, l as int) == bst_insert(shape_at(n0, l as int), key),
        r == !bst_contains(shape_at(n0, l as int), key),
    ensures
        forall|j: int| 0 <= j < n0.len() && !idxs_at(n0, i).contains(j) ==> n2[j] == n0[j],
        sub_wf(n2, i),
        idxs_at(n2, i) == if r { idxs_at(n0, i).insert(n0.len() as int) } else { idxs_at(n0, i) },
        shape_at(n2, i) == bst_insert(shape_at(n0, i), key),
        r == !bst_contains(shape_at(n0, i), key),
{
    lemma_idxs_range(n0, l as int);
    lemma_idxs_range(n0, i);
    assert(n2[i] == n0[i]);
    match n0[i].right {
        Some(rt) => {
            lemma_idxs_range(n0, rt as int);
            lemma_stable(n0, n2, rt as int);
            assert(idxs_at(n2, l as int).disjoint(idxs_at(n2, rt as int)));
        },
        None => {},
    }
    assert(sub_wf(n2, i));
    assert(idxs_at(n2, i) =~= if r { idxs_at(n0, i).insert(n0.len() as int) } else { idxs_at(n0, i) });
    assert(shape_at(n2, i) == bst_insert(shape_at(n0, i), key));
}

/// Mirror image of `lemma_insert_frame_left` for a descent to the right.
proof fn lemma_insert_frame_right(n0: Seq<Node>, n2: Seq<Node>, i: int, rt: usize, key: i64, r: bool)
    requires
        sub_wf(n0, i),
        n0[i].right == Some(rt),
        key > n0[i].key,
        n2.len() == n0.len() + (if r { 1int } else { 0int }),
        forall|j: int| 0 <= j < n0.len() && !idxs_at(n0, rt as int).contains(j) ==> n2[j] == n0[j],
        sub_wf(n2, rt as int),
        idxs_at(n2, rt as int) == if r { idxs_at(n0, rt as int).insert(n0.len() as int) } else { idxs_at(n0, rt as int) },
        shape_at(n2, rt as int) == bst_insert(shape_at(n0, rt as int), key),
        r == !bst_contains(shape_at(n0, rt as int), key),
    ensures
        forall|j: int| 0 <= j < n0.len() && !idxs_at(n0, i).contains(j) ==> n2[j] == n0[j],
        sub_wf(n2, i),
        idxs_at(n2, i) == if r { idxs_at(n0, i).insert(n0.len() as int) } else { idxs_at(n0, i) },
        shape_at(n2, i) == bst_insert(shape_at(n0, i), key),
        r == !bst_contains(shape_at(n0, i), key),
{
    lemma_idxs_range(n0, rt as int);
    lemma_idxs_range(n0, i);
    assert(n2[i] == n0[i]);
    match n0[i].left {
        Some(l) => {
            lemma_idxs_range(n0, l as int);
            lemma_stable(n0, n2, l as int);
            assert(idxs_at(n2, l as int).disjoint(idxs_at(n2, rt as int)));
        },
        None => {},
    }
    assert(sub_wf(n2, i));
    assert(idxs_at(n2, i) =~= if r { idxs_at(n0, i).insert(n0.len() as int) } else { idxs_at(n0, i) });
    assert(shape_at(n2, i) == bst_insert(shape_at(n0, i), key));
}

/// A fresh leaf pushed at the end of the arena and hung on the empty left
/// slot of node `i` gives the subtree at `i` its inserted shape.
proof fn lemma_insert_leaf_left(n0: Seq<Node>, n2: Seq<Node>, i: int, key: i64, idx: usize)
    requires
        sub_wf(n0, i),
        n0[i].left is None,
        key < n0[i].key,
        idx as int == n0.len(),
        n2 == n0.push(Node { key, left: None, right: None }).update(
            i,
            Node { key: n0[i].key, left: Some(idx), right: n0[i].right },
        ),
    ensures
        forall|j: int| 0 <= j < n0.len() && !idxs_at(n0, i).contains(j) ==> n2[j] == n0[j],
        sub_wf(n2, i),
        idxs_at(n2, i) == idxs_at(n0, i).insert(n0.len() as int),
        shape_at(n2, i) == bst_insert(shape_at(n0, i), key),
        !bst_contains(shape_at(n0, i), key),
{
    let idx = idx as int;
    lemma_idxs_range(n0, i);
    assert(sub_wf(n2, idx));
    assert(idxs_at(n2, idx) =~= Set::empty().insert(idx));
    assert(shape_at(n2, idx) == bst_insert(TreeShape::Empty, key));
    match n0[i].right {
        Some(rt) => {
            lemma_idxs_range(n0, rt as int);
            lemma_stable(n0, n2, rt as int);
            assert(idxs_at(n2, idx).disjoint(idxs_at(n2, rt as int)));
        },
        None => {},
    }
    assert(sub_wf(n2, i));
    assert(idxs_at(n2, i) =~= idxs_at(n0, i).insert(idx));
    assert(shape_at(n2, i) == bst_insert(shape_at(n0, i), key));
    assert(!bst_contains(TreeShape::Empty, key));
    assert(!bst_contains(shape_at(n0, i), key));
}

/// Mirror image of `lemma_insert_leaf_left` for an empty right slot.
proof fn lemma_insert_leaf_right(n0: Seq<Node>, n2: Seq<Node>, i: int, key: i64, idx: usize)
    requires
        sub_wf(n0, i),
        n0[i].right is None,
        key > n0[i].key,
        idx as int == n0.len(),
        n2 == n0.push(Node { key, left: None, right: None }).update(
            i,
            Node { key: n0[i].key, left: n0[i].left, right: Some(idx) },
        ),
    ensures
        forall|j: int| 0 <= j < n0.len() && !idxs_at(n0, i).contains(j) ==> n2[j] == n0[j],
        sub_wf(n2, i),
        idxs_at(n2, i) == idxs_at(n0, i).insert(n0.len() as int),
        shape_at(n2, i) == bst_insert(shape_at(n0, i), key),
        !bst_contains(shape_at(n0, i), key),
{
    let idx = idx as int;
    lemma_idxs_range(n0, i);
    assert(sub_wf(n2, idx));
    assert(idxs_at(n2, idx) =~= Set::empty().insert(idx));
    assert(shape_at(n2, idx) == bst_insert(TreeShape::Empty, key));
    match n0[i].left {
        Some(l) => {
            lemma_idxs_range(n0, l as int);
            lemma_stable(n0, n2, l as int);
            assert(idxs_at(n2, l as int).disjoint(idxs_at(n2, idx)));
        },
        None => {},
    }
    assert(sub_wf(n2, i));
    assert(idxs_at(n2, i) =~= idxs_at(n0, i).insert(idx));
    assert(shape_at(n2, i) == bst_insert(shape_at(n0, i), key));
    assert(!bst_contains(TreeShape::Empty, key));
    assert(!bst_contains(shape_at(n0, i), key));
}

/// The keys a preorder walk has yet to produce: the preorder sequences of
/// the pending subtrees on the stack, top of the stack first.
spec fn pre_stack_rem(nodes: Seq<Node>, sta: Seq<usize>) -> Seq<i64>
    decreases sta.len(),
{
    if sta.len() == 0 {
        Seq::empty()
    } else {
        preorder_of(shape_at(nodes, sta.last() as int)) + pre_stack_rem(nodes, sta.drop_last())
    }
}

/// A lazy preorder producer: a single explicit stack of pending subtrees,
/// popped one node at a time, the right child pushed before the left so
/// that the left comes off first.
pub struct IterPreorder<'a> {
    tree: &'a Tree,
    sta: Vec<usize>,
}

impl<'a> IterPreorder<'a> {
    /// The keys this producer has yet to yield, in order.
    pub closed spec fn remaining(self) -> Seq<i64> {
        pre_stack_rem(self.tree.nodes@, self.sta@)
    }

    /// Every stack entry roots a well-formed subtree of the tree.
    pub closed spec fn wf(self) -> bool {
        forall|j: int|
            0 <= j < self.sta@.len() ==> sub_wf(self.tree.nodes@, #[trigger] (self.sta@[j] as int))
    }

    fn new(root: &'a Tree) -> (it: Self)
        requires
            root.wf(),
        ensures
            it.wf(),
            it.remaining() == preorder_of(root@),
    {
        let mut sta: Vec<usize> = Vec::new();
        if root.nodes.len() > 0 {
            sta.push(0);
        }
        let it = IterPreorder { tree: root, sta };
        proof {
            if root.nodes.len() > 0 {
                assert(it.sta@.drop_last() =~= Seq::<usize>::empty());
                assert(pre_stack_rem(root.nodes@, Seq::<usize>::empty()) =~= Seq::<i64>::empty());
                assert(it.remaining() =~= preorder_of(root@));
            }
        }
        it
    }

    /// Yields the next key of the traversal, or `None` once every key has
    /// been produced; after that, every further call yields `None` again.
    pub fn next(&mut self) -> (r: Option<i64>)
        requires
            old(self).wf(),
        ensures
            final(self).wf(),
            old(self).remaining().len() == 0 ==> r is None && final(self).remaining()
                == old(self).remaining(),
            old(self).remaining().len() > 0 ==> r == Some(old(self).remaining()[0])
                && final(self).remaining() == old(self).remaining().drop_first(),
    {
        if self.sta.len() != 0 {
            let ghost nodes = self.tree.nodes@;
            let ghost sta0 = self.sta@;
            let i = self.sta.pop().unwrap();
            proof {
                assert(sub_wf(nodes, sta0[sta0.len() - 1] as int));
            }
            let n = self.tree.nodes[i];
            let ghost sh = shape_at(nodes, i as int);
            if let Some(rt) = n.right {
                self.sta.push(rt);
            }
            if let Some(lf) = n.left {
                self.sta.push(lf);
            }
            proof {
                let rest = sta0.drop_last();
                lemma_shape_unfold(nodes, i as int);
                assert(old(self).remaining() == preorder_of(sh) + pre_stack_rem(nodes, rest));
                match (n.left, n.right) {
                    (Some(lf), Some(rt)) => {
                        assert(self.sta@.drop_last() =~= rest.push(rt));
                        assert(self.sta@.last() == lf);
                        assert(rest.push(rt).drop_last() =~= rest);
                        assert(pre_stack_rem(nodes, rest.push(rt))
                            == preorder_of(shape_at(nodes, rt as int)) + pre_stack_rem(nodes, rest));
                        assert(final(self).remaining()
                            == preorder_of(shape_at(nodes, lf as int)) + pre_stack_rem(nodes, rest.push(rt)));
                    },
                    (Some(lf), None) => {
                        assert(self.sta@.drop_last() =~= rest);
                        assert(self.sta@.last() == lf);
                        assert(final(self).remaining()
                            == preorder_of(shape_at(nodes, lf as int)) + pre_stack_rem(nodes, rest));
                    },
                    (None, Some(rt)) => {
                        assert(self.sta@.drop_last() =~= rest);
                        assert(self.sta@.last() == rt);
                        assert(final(self).remaining()
                            == preorder_of(shape_at(nodes, rt as int)) + pre_stack_rem(nodes, rest));
                    },
                    (None, None) => {
                        assert(self.sta@ =~= rest);
                        assert(final(self).remaining() == pre_stack_rem(nodes, rest));
                    },
                }
                assert(final(self).remaining() =~= old(self).remaining().drop_first());
            }
            Some(n.key)
        } else {
            None
        }
    }
}

/// The preorder sequence of the subtree hanging off an optional child.
spec fn opt_shape_pre(nodes: Seq<Node>, c: Option<usize>) -> Seq<i64> {
    match c {
        Some(c) => preorder_of(shape_at(nodes, c as int)),
        None => Seq::empty(),
    }
}

/// The shape of the subtree hanging off an optional child.
spec fn opt_shape(nodes: Seq<Node>, c: Option<usize>) -> TreeShape {
    match c {
        Some(c) => shape_at(nodes, c as int),
        None => TreeShape::Empty,
    }
}

/// Unfolds the shape of a well-formed subtree one level: the root node's
/// key between the shapes of its two optional children.
proof fn lemma_shape_unfold(nodes: Seq<Node>, i: int)
    requires
        sub_wf(nodes, i),
    ensures
        shape_at(nodes, i) == (TreeShape::Node {
            key: nodes[i].key,
            left: Box::new(opt_shape(nodes, nodes[i].left)),
            right: Box::new(opt_shape(nodes, nodes[i].right)),
        }),
        preorder_of(shape_at(nodes, i)) == seq![nodes[i].key]
            + opt_shape_pre(nodes, nodes[i].left) + opt_shape_pre(nodes, nodes[i].right),
        preorder_of(shape_at(nodes, i)).len() >= 1,
        inorder_of(shape_at(nodes, i)) == opt_shape_in(nodes, nodes[i].left) + seq![nodes[i].key]
            + opt_shape_in(nodes, nodes[i].right),
        inorder_of(shape_at(nodes, i)).len() >= 1,
        postorder_of(shape_at(nodes, i)) == opt_shape_post(nodes, nodes[i].left)
            + opt_shape_post(nodes, nodes[i].right) + seq![nodes[i].key],
        postorder_of(shape_at(nodes, i)).len() >= 1,
        shape_size(shape_at(nodes, i)) == 1 + shape_size(opt_shape(nodes, nodes[i].left))
            + shape_size(opt_shape(nodes, nodes[i].right)),
{
    assert(preorder_of(TreeShape::Empty) == Seq::<i64>::empty());
    assert(inorder_of(TreeShape::Empty) == Seq::<i64>::empty());
    assert(postorder_of(TreeShape::Empty) == Seq::<i64>::empty());
    let sh = shape_at(nodes, i);
    assert(sh is Node);
    assert(preorder_of(sh) == seq![nodes[i].key]
        + preorder_of(opt_shape(nodes, nodes[i].left))
        + preorder_of(opt_shape(nodes, nodes[i].right)));
    assert(inorder_of(sh) == inorder_of(opt_shape(nodes, nodes[i].left))
        + seq![nodes[i].key] + inorder_of(opt_shape(nodes, nodes[i].right)));
    assert(postorder_of(sh) == postorder_of(opt_shape(nodes, nodes[i].left))
        + postorder_of(opt_shape(nodes, nodes[i].right)) + seq![nodes[i].key]);
    assert(shape_size(sh) == 1 + shape_size(opt_shape(nodes, nodes[i].left))
        + shape_size(opt_shape(nodes, nodes[i].right)));
}

/// The inorder sequence of the subtree hanging off an optional child.
spec fn opt_shape_in(nodes: Seq<Node>, c: Option<usize>) -> Seq<i64> {
    match c {
        Some(c) => inorder_of(shape_at(nodes, c as int)),
        None => Seq::empty(),
    }
}

/// The postorder sequence of the subtree hanging off an optional child.
spec fn opt_shape_post(nodes: Seq<Node>, c: Option<usize>) -> Seq<i64> {
    match c {
        Some(c) => postorder_of(shape_at(nodes, c as int)),
        None => Seq::empty(),
    }
}

/// The keys an inorder walk has yet to produce from its backtrack stack:
/// each entry contributes its own key and then its right subtree, top of
/// the stack first.
spec fn in_stack_rem(nodes: Seq<Node>, sta: Seq<usize>) -> Seq<i64>
    decreases sta.len(),
{
    if sta.len() == 0 {
        Seq::empty()
    } else {
        seq![nodes[sta.last() as int].key] + opt_shape_in(nodes, nodes[sta.last() as int].right)
            + in_stack_rem(nodes, sta.drop_last())
    }
}

/// A lazy inorder producer: a descent stack holding at most the subtree
/// whose leftmost spine is still to be walked, and a backtrack stack of
/// nodes whose keys and right subtrees are still to be produced.
pub struct IterInorder<'a> {
    tree: &'a Tree,
    sta: Vec<usize>,
    cur: Vec<usize>,
}

impl<'a> IterInorder<'a> {
    /// The keys this producer has yet to yield, in order.
    pub closed spec fn remaining(self) -> Seq<i64> {
        (if self.cur@.len() > 0 {
            inorder_of(shape_at(self.tree.nodes@, self.cur@.last() as int))
        } else {
            Seq::empty()
        }) + in_stack_rem(self.tree.nodes@, self.sta@)
    }

    /// Every stack entry roots a well-formed subtree, and the descent stack
    /// holds at most one entry.
    pub closed spec fn wf(self) -> bool {
        &&& forall|j: int|
            0 <= j < self.sta@.len() ==> sub_wf(self.tree.nodes@, #[trigger] (self.sta@[j] as int))
        &&& forall|j: int|
            0 <= j < self.cur@.len() ==> sub_wf(self.tree.nodes@, #[trigger] (self.cur@[j] as int))
        &&& self.cur@.len() <= 1
    }

    /// Builds a fresh producer whose pending output is the whole inorder
    /// traversal of `root`.
    pub fn new(root: &'a Tree) -> (it: Self)
        requires
            root.wf(),
        ensures
            it.wf(),
            it.remaining() == inorder_of(root@),
    {
        let sta: Vec<usize> = Vec::new();
        let mut cur: Vec<usize> = Vec::new();
        if root.nodes.len() > 0 {
            cur.push(0);
        }
        let it = IterInorder { tree: root, sta, cur };
        proof {
            assert(in_stack_rem(root.nodes@, Seq::<usize>::empty()) =~= Seq::<i64>::empty());
            assert(it.remaining() =~= inorder_of(root@));
        }
        it
    }

    /// Yields the next key of the traversal, or `None` once every key has
    /// been produced; after that, every further call yields `None` again.
    pub fn next(&mut self) -> (r: Option<i64>)
        requires
            old(self).wf(),
        ensures
            final(self).wf(),
            old(self).remaining().len() == 0 ==> r is None && final(self).remaining()
                == old(self).remaining(),
            old(self).remaining().len() > 0 ==> r == Some(old(self).remaining()[0])
                && final(self).remaining() == old(self).remaining().drop_first(),
    {
        let ghost nodes = self.tree.nodes@;
        if self.cur.len() == 1 || self.sta.len() != 0 {
            while self.cur.len() == 1
                invariant
                    self.tree == old(self).tree,
                    nodes == self.tree.nodes@,
                    self.wf(),
                    self.remaining() == old(self).remaining(),
                    self.cur@.len() == 1 || self.sta@.len() >= 1,
                decreases (if self.cur@.len() == 1 {
                    self.tree.nodes@.len() - self.cur@[0]
                } else {
                    0int
                }),
            {
                let ghost sta0 = self.sta@;
                let ghost cur0 = self.cur@;
                let t = self.cur.pop().unwrap();
                proof {
                    assert(sub_wf(nodes, cur0[0] as int));
                }
                let n = self.tree.nodes[t];
                if let Some(l) = n.left {
                    self.cur.push(l);
                }
                self.sta.push(t);
                proof {
                    lemma_shape_unfold(nodes, t as int);
                    assert(sta0.push(t).drop_last() =~= sta0);
                    assert(in_stack_rem(nodes, sta0.push(t)) == seq![n.key]
                        + opt_shape_in(nodes, n.right) + in_stack_rem(nodes, sta0));
                    assert(self.remaining() =~= old(self).remaining());
                }
            }
            let ghost sta1 = self.sta@;
            let b = self.sta.pop().unwrap();
            let n = self.tree.nodes[b];
            if let Some(rt) = n.right {
                self.cur.push(rt);
            }
            proof {
                lemma_shape_unfold(nodes, b as int);
                assert(in_stack_rem(nodes, sta1) == seq![n.key] + opt_shape_in(nodes, n.right)
                    + in_stack_rem(nodes, sta1.drop_last()));
                assert(final(self).remaining() =~= old(self).remaining().drop_first());
            }
            Some(n.key)
        } else {
            proof {
                assert(old(self).remaining() =~= Seq::<i64>::empty());
            }
            None
        }
    }
}

/// Whether `c` is a child index of node `p`.
spec fn is_child(nodes: Seq<Node>, p: usize, c: usize) -> bool {
    nodes[p as int].left == Some(c) || nodes[p as int].right == Some(c)
}

/// Whether, seen from stack entry `t`, the walk below it sits in (or has
/// just emitted the whole of) `t`'s right subtree: the node just below `t`
/// is `t`'s right child.
spec fn right_done(nodes: Seq<Node>, t: usize, below: Option<usize>) -> bool {
    match below {
        Some(x) => nodes[t as int].right == Some(x),
        None => false,
    }
}

/// The keys a postorder walk has yet to produce from its waiting stack,
/// top first: each entry still owes its own key, preceded by its right
/// subtree unless the walk below it already sits there.
spec fn post_stack_rem(nodes: Seq<Node>, sta: Seq<usize>, below: Option<usize>) -> Seq<i64>
    decreases sta.len(),
{
    if sta.len() == 0 {
        Seq::empty()
    } else {
        let t = sta.last();
        (if right_done(nodes, t, below) {
            seq![nodes[t as int].key]
        } else {
            opt_shape_post(nodes, nodes[t as int].right) + seq![nodes[t as int].key]
        }) + post_stack_rem(nodes, sta.drop_last(), Some(t))
    }
}

/// Well-formedness of a postorder walk's state: the waiting stack is a
/// descending path of parent-to-child links, every entry roots a
/// well-formed subtree, and the cursor or last-emitted node stands in a
/// known position relative to the top of the stack.
spec fn post_state_wf(nodes: Seq<Node>, sta: Seq<usize>, cur: Option<usize>, pre: Option<usize>) -> bool {
    &&& forall|j: int| 0 <= j < sta.len() ==> sub_wf(nodes, #[trigger] (sta[j] as int))
    &&& forall|j: int| #![trigger sta[j]] 0 <= j && j + 1 < sta.len() ==> is_child(nodes, sta[j], sta[j + 1])
    &&& match cur {
        Some(c) => {
            &&& sub_wf(nodes, c as int)
            &&& sta.len() == 0 || is_child(nodes, sta.last(), c)
            &&& match pre {
                Some(e) => !idxs_at(nodes, c as int).contains(e as int),
                None => true,
            }
        },
        None => match pre {
            Some(e) => sta.len() == 0 || is_child(nodes, sta.last(), e)
                || !idxs_at(nodes, sta.last() as int).contains(e as int),
            None => true,
        },
    }
}

/// The two children of a well-formed node are distinct nodes.
proof fn lemma_children_distinct(nodes: Seq<Node>, i: int)
    requires
        sub_wf(nodes, i),
    ensures
        match (nodes[i].left, nodes[i].right) {
            (Some(l), Some(r)) => l != r,
            _ => true,
        },
{
    match (nodes[i].left, nodes[i].right) {
        (Some(l), Some(r)) => {
            lemma_idxs_range(nodes, l as int);
            lemma_idxs_range(nodes, r as int);
        },
        _ => {},
    }
}

/// A child's subtree indices are among its parent's, and each child is one
/// of its parent's subtree indices.
proof fn lemma_child_idxs(nodes: Seq<Node>, i: int)
    requires
        sub_wf(nodes, i),
    ensures
        match nodes[i].left {
            Some(l) => idxs_at(nodes, i).contains(l as int) && forall|x: int|
                idxs_at(nodes, l as int).contains(x) ==> idxs_at(nodes, i).contains(x),
            None => true,
        },
        match nodes[i].right {
            Some(r) => idxs_at(nodes, i).contains(r as int) && forall|x: int|
                idxs_at(nodes, r as int).contains(x) ==> idxs_at(nodes, i).contains(x),
            None => true,
        },
{
    match nodes[i].left {
        Some(l) => lemma_idxs_range(nodes, l as int),
        None => {},
    }
    match nodes[i].right {
        Some(r) => lemma_idxs_range(nodes, r as int),
        None => {},
    }
}

/// A lazy postorder producer: a waiting stack of ancestors pre-loaded with
/// the leftmost spine, and the identity (arena index) of the last emitted
/// node, used to tell "returning from the right child" apart from "seeing
/// this node for the first time".
pub struct IterPostorder<'a> {
    tree: &'a Tree,
    waiting: Vec<usize>,
    pre: Option<usize>,
}

impl<'a> IterPostorder<'a> {
    /// The keys this producer has yet to yield, in order.
    pub closed spec fn remaining(self) -> Seq<i64> {
        post_stack_rem(self.tree.nodes@, self.waiting@, self.pre)
    }

    /// The producer's state is a well-formed walk of the tree.
    pub closed spec fn wf(self) -> bool {
        post_state_wf(self.tree.nodes@, self.waiting@, None, self.pre)
    }

    fn new(root: &'a Tree) -> (it: Self)
        requires
            root.wf(),
        ensures
            it.wf(),
            it.remaining() == postorder_of(root@),
    {
        let ghost nodes = root.nodes@;
        let mut waiting: Vec<usize> = Vec::new();
        if root.nodes.len() > 0 {
            let mut t: usize = 0;
            waiting.push(0);
            proof {
                lemma_shape_unfold(nodes, 0);
                assert(post_stack_rem(nodes, Seq::<usize>::empty(), Some(0usize)) =~= Seq::<i64>::empty());
                assert(waiting@.drop_last() =~= Seq::<usize>::empty());
                assert(post_stack_rem(nodes, waiting@, None) == opt_shape_post(nodes, nodes[0].right) + seq![nodes[0].key]);
            }
            while root.nodes[t].left.is_some()
                invariant
                    nodes == root.nodes@,
                    sub_wf(nodes, t as int),
                    waiting@.len() >= 1,
                    waiting@.last() == t,
                    forall|j: int| 0 <= j < waiting@.len() ==> sub_wf(nodes, #[trigger] (waiting@[j] as int)),
                    forall|j: int| #![trigger waiting@[j]] 0 <= j && j + 1 < waiting@.len() ==> is_child(nodes, waiting@[j], waiting@[j + 1]),
                    postorder_of(shape_at(nodes, 0)) == opt_shape_post(nodes, nodes[t as int].left)
                        + post_stack_rem(nodes, waiting@, None),
                decreases nodes.len() - t,
            {
                let ghost w0 = waiting@;
                let l = root.nodes[t].left.unwrap();
                waiting.push(l);
                proof {
                    lemma_shape_unfold(nodes, l as int);
                    lemma_children_distinct(nodes, t as int);
                    assert(waiting@.drop_last() =~= w0);
                    assert(!right_done(nodes, t, Some(l)));
                    assert(post_stack_rem(nodes, w0, Some(l))
                        == post_stack_rem(nodes, w0, None));
                    assert(post_stack_rem(nodes, waiting@, None)
                        == opt_shape_post(nodes, nodes[l as int].right) + seq![nodes[l as int].key]
                            + post_stack_rem(nodes, w0, Some(l)));
                }
                t = l;
            }
        }
        let it = IterPostorder { tree: root, waiting, pre: None };
        proof {
            if root.nodes@.len() == 0 {
                assert(it.remaining() =~= postorder_of(root@));
            } else {
                assert(it.remaining() =~= postorder_of(root@));
            }
        }
        it
    }

    /// Yields the next key of the traversal, or `None` once every key has
    /// been produced; after that, every further call yields `None` again.
    pub fn next(&mut self) -> (r: Option<i64>)
        requires
            old(self).wf(),
        ensures
            final(self).wf(),
            old(self).remaining().len() == 0 ==> r is None && final(self).remaining()
                == old(self).remaining(),
            old(self).remaining().len() > 0 ==> r == Some(old(self).remaining()[0])
                && final(self).remaining() == old(self).remaining().drop_first(),
    {
        let ghost nodes = self.tree.nodes@;
        let mut cur: Option<usize> = None;
        loop
            invariant
                self.tree == old(self).tree,
                nodes == self.tree.nodes@,
                post_state_wf(nodes, self.waiting@, cur, self.pre),
                (match cur {
                    Some(c) => postorder_of(shape_at(nodes, c as int)),
                    None => Seq::empty(),
                }) + post_stack_rem(
                    nodes,
                    self.waiting@,
                    if cur is Some { cur } else { self.pre },
                ) == old(self).remaining(),
            decreases (match cur {
                Some(c) => shape_size(shape_at(nodes, c as int)),
                None => if self.waiting@.len() > 0 {
                    shape_size(shape_at(nodes, self.waiting@.last() as int))
                } else {
                    0
                },
            }),
        {
            let ghost m0: nat = match cur {
                Some(c) => shape_size(shape_at(nodes, c as int)),
                None => if self.waiting@.len() > 0 {
                    shape_size(shape_at(nodes, self.waiting@.last() as int))
                } else {
                    0
                },
            };
            while cur.is_some()
                invariant
                    self.tree == old(self).tree,
                    nodes == self.tree.nodes@,
                    post_state_wf(nodes, self.waiting@, cur, self.pre),
                    (match cur {
                        Some(c) => postorder_of(shape_at(nodes, c as int)),
                        None => Seq::empty(),
                    }) + post_stack_rem(
                        nodes,
                        self.waiting@,
                        if cur is Some { cur } else { self.pre },
                    ) == old(self).remaining(),
                    match cur {
                        Some(c) => shape_size(shape_at(nodes, c as int)) <= m0,
                        None => self.waiting@.len() == 0
                            || shape_size(shape_at(nodes, self.waiting@.last() as int)) <= m0,
                    },
                decreases (match cur {
                    Some(c) => shape_size(shape_at(nodes, c as int)),
                    None => 0,
                }),
            {
                let ghost w0 = self.waiting@;
                let c = cur.unwrap();
                self.waiting.push(c);
                cur = self.tree.nodes[c].left;
                proof {
                    lemma_shape_unfold(nodes, c as int);
                    lemma_children_distinct(nodes, c as int);
                    lemma_child_idxs(nodes, c as int);
                    assert(self.waiting@.drop_last() =~= w0);
                    assert(!right_done(nodes, c, cur) || cur is None);
                    match cur {
                        Some(l) => {
                            assert(!right_done(nodes, c, Some(l)));
                            assert(post_stack_rem(nodes, self.waiting@, Some(l))
                                == opt_shape_post(nodes, nodes[c as int].right)
                                    + seq![nodes[c as int].key] + post_stack_rem(nodes, w0, Some(c)));
                        },
                        None => {
                            assert(!right_done(nodes, c, self.pre));
                            assert(post_stack_rem(nodes, self.waiting@, self.pre)
                                == opt_shape_post(nodes, nodes[c as int].right)
                                    + seq![nodes[c as int].key] + post_stack_rem(nodes, w0, Some(c)));
                        },
                    }
                }
            }
            if self.waiting.len() == 0 {
                proof {
                    assert(old(self).remaining() =~= Seq::<i64>::empty());
                    assert(final(self).remaining() =~= Seq::<i64>::empty());
                }
                return None;
            }
            let ghost w1 = self.waiting@;
            let cand = self.waiting.pop().unwrap();
            let n = self.tree.nodes[cand];
            proof {
                lemma_shape_unfold(nodes, cand as int);
                lemma_children_distinct(nodes, cand as int);
                lemma_child_idxs(nodes, cand as int);
            }
            let ready = match n.right {
                None => true,
                Some(rc) => match self.pre {
                    Some(e) => rc == e,
                    None => false,
                },
            };
            if ready {
                let ghost pre0 = self.pre;
                self.pre = Some(cand);
                proof {
                    assert(w1.last() == cand);
                    assert(self.waiting@ =~= w1.drop_last());
                    assert(post_stack_rem(nodes, w1, pre0) == (if right_done(nodes, cand, pre0) {
                        seq![n.key]
                    } else {
                        opt_shape_post(nodes, n.right) + seq![n.key]
                    }) + post_stack_rem(nodes, w1.drop_last(), Some(cand)));
                    if !right_done(nodes, cand, pre0) {
                        assert(n.right is None);
                        assert(opt_shape_post(nodes, n.right) =~= Seq::<i64>::empty());
                    }
                    assert(old(self).remaining().len() > 0);
                    assert(old(self).remaining()[0] == n.key);
                    assert(final(self).remaining() =~= old(self).remaining().drop_first());
                }
                return Some(n.key);
            } else {
                self.waiting.push(cand);
                let rc = match n.right {
                    Some(rc) => rc,
                    None => vstd::pervasive::unreached(),
                };
                cur = Some(rc);
                proof {
                    let ghost pre0 = self.pre;
                    assert(w1.last() == cand);
                    assert(self.waiting@ =~= w1);
                    assert(right_done(nodes, cand, Some(rc)));
                    assert(!right_done(nodes, cand, pre0));
                    assert(post_stack_rem(nodes, w1, pre0)
                        == opt_shape_post(nodes, n.right) + seq![n.key]
                            + post_stack_rem(nodes, w1.drop_last(), Some(cand)));
                    assert(post_stack_rem(nodes, w1, Some(rc))
                        == seq![n.key] + post_stack_rem(nodes, w1.drop_last(), Some(cand)));
                    match pre0 {
                        Some(e) => {
                            if is_child(nodes, cand, e) {
                                assert(nodes[cand as int].left == Some(e));
                                lemma_idxs_range(nodes, e as int);
                                assert(!idxs_at(nodes, rc as int).contains(e as int));
                            } else {
                                assert(!idxs_at(nodes, cand as int).contains(e as int));
                                assert(!idxs_at(nodes, rc as int).contains(e as int));
                            }
                        },
                        None => {},
                    }
                    assert(shape_size(shape_at(nodes, rc as int))
                        < shape_size(shape_at(nodes, cand as int)));
                }
            }
        }
    }
}

impl Tree {
    /// Returns a fresh lazy preorder traversal of the tree.
    pub fn preorder<'a>(&'a self) -> (it: IterPreorder<'a>)
        requires
            self.wf(),
        ensures
            it.wf(),
            it.remaining() == preorder_of(self@),
    {
        IterPreorder::new(self)
    }

    /// Returns a fresh lazy inorder traversal of the tree.
    pub fn inorder<'a>(&'a self) -> (it: IterInorder<'a>)
        requires
            self.wf(),
        ensures
            it.wf(),
            it.remaining() == inorder_of(self@),
    {
        IterInorder::new(self)
    }

    /// Returns a fresh lazy postorder traversal of the tree.
    pub fn postorder<'a>(&'a self) -> (it: IterPostorder<'a>)
        requires
            self.wf(),
        ensures
            it.wf(),
            it.remaining() == postorder_of(self@),
    {
        IterPostorder::new(self)
    }
}

impl View for Tree {
    type V = TreeShape;

    open spec fn view(&self) -> TreeShape {
        self.shape()
    }
}

} // verus!

