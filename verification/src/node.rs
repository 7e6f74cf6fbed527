use vstd::prelude::*;

verus! {

/// A single node of the AVL tree. Each node owns its children and caches the
/// height of the subtree rooted at it.
#[derive(Debug, PartialEq)]
pub struct AVLNode {
    pub value: u64,
    pub left: Option<Box<AVLNode>>,
    pub right: Option<Box<AVLNode>>,
    pub height: usize,
}

/// The larger of two natural numbers.
pub open spec fn nat_max(a: nat, b: nat) -> nat {
    if a >= b {
        a
    } else {
        b
    }
}

/// Actual height of a subtree: 0 for an absent child, otherwise one more
/// than the taller child subtree.
pub open spec fn tree_height(t: Option<Box<AVLNode>>) -> nat
    decreases t,
{
    match t {
        None => 0,
        Some(n) => 1 + nat_max(tree_height(n.left), tree_height(n.right)),
    }
}

/// The height a node has cached for a subtree, without recomputing it.
pub open spec fn cached_height(t: Option<Box<AVLNode>>) -> nat {
    match t {
        None => 0,
        Some(n) => n.height as nat,
    }
}

/// The set of values stored in a subtree.
pub open spec fn tree_set(t: Option<Box<AVLNode>>) -> Set<u64>
    decreases t,
{
    match t {
        None => Set::empty(),
        Some(n) => tree_set(n.left).union(tree_set(n.right)).insert(n.value),
    }
}

/// The in-order sequence of values of a subtree.
pub open spec fn tree_seq(t: Option<Box<AVLNode>>) -> Seq<u64>
    decreases t,
{
    match t {
        None => Seq::empty(),
        Some(n) => tree_seq(n.left) + seq![n.value] + tree_seq(n.right),
    }
}

/// Well-formedness of an optional subtree.
pub open spec fn wf_tree(t: Option<Box<AVLNode>>) -> bool {
    match t {
        None => true,
        Some(n) => n.wf(),
    }
}

/// In-order sequence of the subtree rooted at a node.
pub open spec fn node_seq(n: AVLNode) -> Seq<u64> {
    tree_seq(n.left) + seq![n.value] + tree_seq(n.right)
}

/// Set of values of the subtree rooted at a node.
pub open spec fn node_set(n: AVLNode) -> Set<u64> {
    tree_set(n.left).union(tree_set(n.right)).insert(n.value)
}

/// Actual height of the subtree rooted at a node.
pub open spec fn node_height(n: AVLNode) -> nat {
    1 + nat_max(tree_height(n.left), tree_height(n.right))
}

/// Exact structural effect of a successful right rotation around a node:
/// the left child's value moves to the root, the old root value moves into a
/// new right child that adopts the left child's right subtree and the old
/// right subtree, and both rewritten nodes get freshly computed heights.
pub open spec fn rotated_right(pre: AVLNode, post: AVLNode) -> bool {
    &&& pre.left is Some
    &&& {
        let l = pre.left.unwrap();
        &&& post.value == l.value
        &&& post.left == l.left
        &&& post.right is Some
        &&& {
            let nr = post.right.unwrap();
            &&& nr.value == pre.value
            &&& nr.left == l.right
            &&& nr.right == pre.right
            &&& nr.height as nat == 1 + nat_max(
                cached_height(l.right),
                cached_height(pre.right),
            )
        }
        &&& post.height as nat == 1 + nat_max(
            cached_height(l.left),
            cached_height(post.right),
        )
    }
}

/// Exact structural effect of a successful left rotation around a node,
/// the mirror image of `rotated_right`.
pub open spec fn rotated_left(pre: AVLNode, post: AVLNode) -> bool {
    &&& pre.right is Some
    &&& {
        let r = pre.right.unwrap();
        &&& post.value == r.value
        &&& post.right == r.right
        &&& post.left is Some
        &&& {
            let nl = post.left.unwrap();
            &&& nl.value == pre.value
            &&& nl.right == r.left
            &&& nl.left == pre.left
            &&& nl.height as nat == 1 + nat_max(
                cached_height(pre.left),
                cached_height(r.left),
            )
        }
        &&& post.height as nat == 1 + nat_max(
            cached_height(post.left),
            cached_height(r.right),
        )
    }
}

impl Clone for AVLNode {
    /// A clone is spec-equal to the original subtree.
    fn clone(&self) -> (res: Self)
        ensures
            res == *self,
        decreases self,
    {
        AVLNode {
            value: self.value,
            left: (match &self.left {
                Some(n) => Some(Box::new((&**n).clone())),
                None => None,
            }),
            right: (match &self.right {
                Some(n) => Some(Box::new((&**n).clone())),
                None => None,
            }),
            height: self.height,
        }
    }
}

/// On a well-formed subtree the cached height is the actual height.
pub proof fn lemma_cached_height(t: Option<Box<AVLNode>>)
    requires
        wf_tree(t),
    ensures
        cached_height(t) == tree_height(t),
{
    match t {
        None => {
        },
        Some(n) => {
            assert(n.wf());
        },
    }
}

/// A right rotation restores well-formedness when the left child exists, its
/// own subtrees are well-formed and ordered, and the heights satisfy the
/// bounds that make the rotated shape balanced. The left child itself need
/// not be balanced at its root, which is what the double-rotation case of
/// `rebalance` relies on.
proof fn lemma_rotate_right_rebalances(pre: AVLNode, post: AVLNode)
    requires
        rotated_right(pre, post),
        wf_tree(pre.right),
        ({
            let l = pre.left.unwrap();
            &&& wf_tree(l.left)
            &&& wf_tree(l.right)
            &&& (forall|x: u64| tree_set(l.left).contains(x) ==> x < l.value)
            &&& (forall|x: u64| tree_set(l.right).contains(x) ==> x > l.value)
            &&& tree_height(l.right) <= tree_height(pre.right) + 1
            &&& tree_height(pre.right) <= tree_height(l.right) + 1
            &&& tree_height(l.left) <= 1 + nat_max(tree_height(l.right), tree_height(pre.right))
            &&& 1 + nat_max(tree_height(l.right), tree_height(pre.right)) <= tree_height(l.left)
                + 1
        }),
        forall|x: u64| tree_set(pre.left).contains(x) ==> x < pre.value,
        forall|x: u64| tree_set(pre.right).contains(x) ==> x > pre.value,
    ensures
        post.wf(),
        node_height(post) == 1 + nat_max(
            tree_height(pre.left.unwrap().left),
            1 + nat_max(tree_height(pre.left.unwrap().right), tree_height(pre.right)),
        ),
{
    let l = pre.left.unwrap();
    let nr = post.right.unwrap();
    lemma_cached_height(l.left);
    lemma_cached_height(l.right);
    lemma_cached_height(pre.right);
    assert(tree_set(pre.left).contains(l.value));
    assert forall|x: u64| tree_set(nr.left).contains(x) implies x < nr.value by {
        assert(tree_set(pre.left).contains(x));
    }
    assert(nr.wf());
    assert(tree_height(post.right) == 1 + nat_max(tree_height(l.right), tree_height(pre.right)));
    assert forall|x: u64| tree_set(post.right).contains(x) implies x > post.value by {
        if tree_set(l.right).contains(x) {
        } else if tree_set(pre.right).contains(x) {
            assert(x > pre.value);
        } else {
            assert(x == pre.value);
        }
    }
    assert(post.wf());
}

/// Mirror image of `lemma_rotate_right_rebalances` for a left rotation.
proof fn lemma_rotate_left_rebalances(pre: AVLNode, post: AVLNode)
    requires
        rotated_left(pre, post),
        wf_tree(pre.left),
        ({
            let r = pre.right.unwrap();
            &&& wf_tree(r.left)
            &&& wf_tree(r.right)
            &&& (forall|x: u64| tree_set(r.left).contains(x) ==> x < r.value)
            &&& (forall|x: u64| tree_set(r.right).contains(x) ==> x > r.value)
            &&& tree_height(r.left) <= tree_height(pre.left) + 1
            &&& tree_height(pre.left) <= tree_height(r.left) + 1
            &&& tree_height(r.right) <= 1 + nat_max(tree_height(r.left), tree_height(pre.left))
            &&& 1 + nat_max(tree_height(r.left), tree_height(pre.left)) <= tree_height(r.right)
                + 1
        }),
        forall|x: u64| tree_set(pre.left).contains(x) ==> x < pre.value,
        forall|x: u64| tree_set(pre.right).contains(x) ==> x > pre.value,
    ensures
        post.wf(),
        node_height(post) == 1 + nat_max(
            tree_height(pre.right.unwrap().right),
            1 + nat_max(tree_height(pre.right.unwrap().left), tree_height(pre.left)),
        ),
{
    let r = pre.right.unwrap();
    let nl = post.left.unwrap();
    lemma_cached_height(r.left);
    lemma_cached_height(r.right);
    lemma_cached_height(pre.left);
    assert(tree_set(pre.right).contains(r.value));
    assert forall|x: u64| tree_set(nl.right).contains(x) implies x > nl.value by {
        assert(tree_set(pre.right).contains(x));
    }
    assert(nl.wf());
    assert(tree_height(post.left) == 1 + nat_max(tree_height(pre.left), tree_height(r.left)));
    assert forall|x: u64| tree_set(post.left).contains(x) implies x < post.value by {
        if tree_set(r.left).contains(x) {
        } else if tree_set(pre.left).contains(x) {
            assert(x < pre.value);
        } else {
            assert(x == pre.value);
        }
    }
    assert(post.wf());
}

/// A left rotation on a well-formed node whose right side is one taller than
/// its left leaves both new children well-formed and ordered around the new
/// root value, with the stated heights. The rotated node itself may still
/// lean; this is the preparatory step of a double rotation.
proof fn lemma_rotate_left_inner(pre: AVLNode, post: AVLNode)
    requires
        rotated_left(pre, post),
        pre.wf(),
        tree_height(pre.right) == tree_height(pre.left) + 1,
    ensures
        wf_tree(post.left),
        wf_tree(post.right),
        forall|x: u64| tree_set(post.left).contains(x) ==> x < post.value,
        forall|x: u64| tree_set(post.right).contains(x) ==> x > post.value,
        tree_height(post.left) == tree_height(pre.left) + 1,
        tree_height(post.right) <= tree_height(pre.left),
        tree_height(pre.left) <= tree_height(post.right) + 1,
{
    let r = pre.right.unwrap();
    let nl = post.left.unwrap();
    assert(r.wf());
    lemma_cached_height(r.left);
    lemma_cached_height(r.right);
    lemma_cached_height(pre.left);
    assert(tree_set(pre.right).contains(r.value));
    assert forall|x: u64| tree_set(nl.right).contains(x) implies x > nl.value by {
        assert(tree_set(pre.right).contains(x));
    }
    assert(nl.wf());
    assert forall|x: u64| tree_set(post.left).contains(x) implies x < post.value by {
        if tree_set(r.left).contains(x) {
        } else if tree_set(pre.left).contains(x) {
            assert(x < pre.value);
        } else {
            assert(x == pre.value);
        }
    }
}

/// Mirror image of `lemma_rotate_left_inner` for a right rotation.
proof fn lemma_rotate_right_inner(pre: AVLNode, post: AVLNode)
    requires
        rotated_right(pre, post),
        pre.wf(),
        tree_height(pre.left) == tree_height(pre.right) + 1,
    ensures
        wf_tree(post.left),
        wf_tree(post.right),
        forall|x: u64| tree_set(post.left).contains(x) ==> x < post.value,
        forall|x: u64| tree_set(post.right).contains(x) ==> x > post.value,
        tree_height(post.right) == tree_height(pre.right) + 1,
        tree_height(post.left) <= tree_height(pre.right),
        tree_height(pre.right) <= tree_height(post.left) + 1,
{
    let l = pre.left.unwrap();
    let nr = post.right.unwrap();
    assert(l.wf());
    lemma_cached_height(l.left);
    lemma_cached_height(l.right);
    lemma_cached_height(pre.right);
    assert(tree_set(pre.left).contains(l.value));
    assert forall|x: u64| tree_set(nr.left).contains(x) implies x < nr.value by {
        assert(tree_set(pre.left).contains(x));
    }
    assert(nr.wf());
    assert forall|x: u64| tree_set(post.right).contains(x) implies x > post.value by {
        if tree_set(l.right).contains(x) {
        } else if tree_set(pre.right).contains(x) {
            assert(x > pre.value);
        } else {
            assert(x == pre.value);
        }
    }
}

impl AVLNode {
    /// Well-formedness of the subtree rooted at this node:
    /// both children are well-formed, every value on the left is smaller and
    /// every value on the right is larger than the node's own value (search
    /// order), the cached height is consistent, and the child heights differ
    /// by at most one (the AVL balance invariant).
    pub open spec fn wf(self) -> bool
        decreases self,
    {
        &&& (match self.left {
            Some(l) => l.wf(),
            None => true,
        })
        &&& (match self.right {
            Some(r) => r.wf(),
            None => true,
        })
        &&& (forall|x: u64| tree_set(self.left).contains(x) ==> x < self.value)
        &&& (forall|x: u64| tree_set(self.right).contains(x) ==> x > self.value)
        &&& self.height as nat == node_height(self)
        &&& tree_height(self.left) <= tree_height(self.right) + 1
        &&& tree_height(self.right) <= tree_height(self.left) + 1
    }

    /// Creates a fresh leaf holding `value`.
    pub fn new(value: u64) -> (n: AVLNode)
        ensures
            n.wf(),
            n.value == value,
            n.left is None,
            n.right is None,
            n.height == 1,
            node_set(n) == Set::empty().insert(value),
            node_seq(n) == seq![value],
    {
        let n = AVLNode { value, left: None, right: None, height: 1 };
        proof {
            assert(node_set(n) =~= Set::empty().insert(value));
            assert(node_seq(n) =~= seq![value]);
        }
        n
    }

    /// Cached height of the left child subtree, 0 if absent.
    pub fn left_height(&self) -> (h: usize)
        ensures
            h as nat == cached_height(self.left),
    {
        match &self.left {
            None => 0,
            Some(n) => n.height,
        }
    }

    /// Cached height of the right child subtree, 0 if absent.
    pub fn right_height(&self) -> (h: usize)
        ensures
            h as nat == cached_height(self.right),
    {
        match &self.right {
            None => 0,
            Some(n) => n.height,
        }
    }

    /// Difference between the cached left and right heights.
    pub fn balance_factor(&self) -> (bf: i8)
        requires
            cached_height(self.left) <= cached_height(self.right) + 127,
            cached_height(self.right) <= cached_height(self.left) + 127,
        ensures
            bf as int == cached_height(self.left) - cached_height(self.right),
    {
        let lh = self.left_height();
        let rh = self.right_height();
        if lh >= rh {
            (lh - rh) as i8
        } else {
            -((rh - lh) as i8)
        }
    }

    /// Recomputes the cached height from the children's cached heights.
    pub fn update_height(&mut self)
        requires
            cached_height(old(self).left) + 1 <= usize::MAX,
            cached_height(old(self).right) + 1 <= usize::MAX,
        ensures
            final(self).value == old(self).value,
            final(self).left == old(self).left,
            final(self).right == old(self).right,
            final(self).height as nat == 1 + nat_max(
                cached_height(old(self).left),
                cached_height(old(self).right),
            ),
    {
        let lh = self.left_height();
        let rh = self.right_height();
        self.height = 1 + if lh >= rh {
            lh
        } else {
            rh
        };
    }

    /// Rotates the subtree right around this node, keeping the node identity
    /// stable by moving values rather than the root node itself. Returns
    /// `false` and leaves the subtree untouched when there is no left child.
    ///
    /// The in-order sequence (and so the set of values) is preserved, which
    /// is why a right rotation followed by a left rotation — or the other
    /// way round — restores the original in-order sequence.
    pub fn rotate_right(&mut self) -> (r: bool)
        requires
            (match old(self).left {
                Some(l) => cached_height(l.left) + 2 <= usize::MAX
                    && cached_height(l.right) + 2 <= usize::MAX
                    && cached_height(old(self).right) + 2 <= usize::MAX,
                None => true,
            }),
        ensures
            r == (old(self).left is Some),
            !r ==> *final(self) == *old(self),
            r ==> rotated_right(*old(self), *final(self)),
            node_seq(*final(self)) == node_seq(*old(self)),
            node_set(*final(self)) == node_set(*old(self)),
    {
        if self.left.is_none() {
            return false;
        }
        let l = self.left.take().unwrap();
        let AVLNode { value: lv, left: ll, right: lr, height: _ } = *l;
        let old_value = self.value;
        let old_right = self.right.take();
        let mut new_right = AVLNode { value: old_value, left: lr, right: old_right, height: 0 };
        new_right.update_height();
        self.value = lv;
        self.left = ll;
        self.right = Some(Box::new(new_right));
        self.update_height();
        proof {
            assert(node_seq(*self) =~= node_seq(*old(self)));
            assert(node_set(*self) =~= node_set(*old(self)));
        }
        true
    }

    /// Rotates the subtree left around this node, the mirror image of
    /// `rotate_right`. Returns `false` and leaves the subtree untouched when
    /// there is no right child.
    pub fn rotate_left(&mut self) -> (r: bool)
        requires
            (match old(self).right {
                Some(rn) => cached_height(rn.left) + 2 <= usize::MAX
                    && cached_height(rn.right) + 2 <= usize::MAX
                    && cached_height(old(self).left) + 2 <= usize::MAX,
                None => true,
            }),
        ensures
            r == (old(self).right is Some),
            !r ==> *final(self) == *old(self),
            r ==> rotated_left(*old(self), *final(self)),
            node_seq(*final(self)) == node_seq(*old(self)),
            node_set(*final(self)) == node_set(*old(self)),
    {
        if self.right.is_none() {
            return false;
        }
        let rn = self.right.take().unwrap();
        let AVLNode { value: rv, left: rl, right: rr, height: _ } = *rn;
        let old_value = self.value;
        let old_left = self.left.take();
        let mut new_left = AVLNode { value: old_value, left: old_left, right: rl, height: 0 };
        new_left.update_height();
        self.value = rv;
        self.right = rr;
        self.left = Some(Box::new(new_left));
        self.update_height();
        proof {
            assert(node_seq(*self) =~= node_seq(*old(self)));
            assert(node_set(*self) =~= node_set(*old(self)));
        }
        true
    }

    /// Restores the AVL balance at this node with zero, one, or two
    /// rotations, assuming both children are well-formed AVL subtrees, the
    /// cached height is up to date, and the node leans by at most two.
    /// Returns whether a rotation occurred.
    pub fn rebalance(&mut self) -> (r: bool)
        requires
            wf_tree(old(self).left),
            wf_tree(old(self).right),
            old(self).height as nat == node_height(*old(self)),
            tree_height(old(self).left) <= tree_height(old(self).right) + 2,
            tree_height(old(self).right) <= tree_height(old(self).left) + 2,
            forall|x: u64| tree_set(old(self).left).contains(x) ==> x < old(self).value,
            forall|x: u64| tree_set(old(self).right).contains(x) ==> x > old(self).value,
        ensures
            final(self).wf(),
            node_seq(*final(self)) == node_seq(*old(self)),
            node_set(*final(self)) == node_set(*old(self)),
            node_height(*final(self)) <= node_height(*old(self)),
            node_height(*old(self)) <= node_height(*final(self)) + 1,
            r == (tree_height(old(self).left) == tree_height(old(self).right) + 2
                || tree_height(old(self).right) == tree_height(old(self).left) + 2),
            !r ==> *final(self) == *old(self),
    {
        proof {
            lemma_cached_height(self.left);
            lemma_cached_height(self.right);
        }
        let bf = self.balance_factor();
        if bf == -2 {
            // The right subtree is two taller, so it exists.
            let mut r_child = self.right.take().unwrap();
            proof {
                assert(r_child.wf());
                lemma_cached_height(r_child.left);
                lemma_cached_height(r_child.right);
                assert(node_height(*old(self)) == 1 + tree_height(old(self).right));
                assert(tree_height(old(self).right) + 1 <= usize::MAX);
                assert(tree_height(old(self).right) == 1 + nat_max(
                    tree_height(r_child.left),
                    tree_height(r_child.right),
                ));
            }
            let rbf = r_child.balance_factor();
            if rbf == 1 {
                proof {
                    let l = r_child.left.unwrap();
                    assert(l.wf());
                    lemma_cached_height(l.left);
                    lemma_cached_height(l.right);
                    assert(tree_height(r_child.left) == 1 + nat_max(
                        tree_height(l.left),
                        tree_height(l.right),
                    ));
                }
                let ghost r_pre = *r_child;
                (&mut *r_child).rotate_right();
                proof {
                    lemma_rotate_right_inner(r_pre, *r_child);
                }
            }
            self.right = Some(r_child);
            let ghost mid = *self;
            proof {
                assert(tree_set(mid.right) == tree_set(old(self).right));
                assert forall|x: u64| tree_set(mid.right).contains(x) implies x > mid.value by {
                    assert(tree_set(old(self).right).contains(x));
                }
                assert(tree_seq(mid.right) == tree_seq(old(self).right));
            }
            self.rotate_left();
            proof {
                lemma_rotate_left_rebalances(mid, *self);
                assert(node_seq(mid) == node_seq(*old(self)));
                assert(node_set(mid) =~= node_set(*old(self)));
            }
            true
        } else if bf == 2 {
            // The left subtree is two taller, so it exists.
            let mut l_child = self.left.take().unwrap();
            proof {
                assert(l_child.wf());
                lemma_cached_height(l_child.left);
                lemma_cached_height(l_child.right);
                assert(node_height(*old(self)) == 1 + tree_height(old(self).left));
                assert(tree_height(old(self).left) + 1 <= usize::MAX);
                assert(tree_height(old(self).left) == 1 + nat_max(
                    tree_height(l_child.left),
                    tree_height(l_child.right),
                ));
            }
            let lbf = l_child.balance_factor();
            if lbf == -1 {
                proof {
                    let r = l_child.right.unwrap();
                    assert(r.wf());
                    lemma_cached_height(r.left);
                    lemma_cached_height(r.right);
                    assert(tree_height(l_child.right) == 1 + nat_max(
                        tree_height(r.left),
                        tree_height(r.right),
                    ));
                }
                let ghost l_pre = *l_child;
                (&mut *l_child).rotate_left();
                proof {
                    lemma_rotate_left_inner(l_pre, *l_child);
                }
            }
            self.left = Some(l_child);
            let ghost mid = *self;
            proof {
                assert(tree_set(mid.left) == tree_set(old(self).left));
                assert forall|x: u64| tree_set(mid.left).contains(x) implies x < mid.value by {
                    assert(tree_set(old(self).left).contains(x));
                }
                assert(tree_seq(mid.left) == tree_seq(old(self).left));
            }
            self.rotate_right();
            proof {
                lemma_rotate_right_rebalances(mid, *self);
                assert(node_seq(mid) == node_seq(*old(self)));
                assert(node_set(mid) =~= node_set(*old(self)));
            }
            true
        } else {
            false
        }
    }
}

} // verus!
