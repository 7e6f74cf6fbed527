use vstd::prelude::*;

use crate::node::AVLNode;
use crate::node::lemma_cached_height;
use crate::node::node_set;
use crate::node::tree_height;
use crate::node::tree_seq;
use crate::node::tree_set;
use crate::node::wf_tree;

verus! {

/// Inserts `value` into a well-formed subtree, rebalancing on the way back
/// up. Returns whether the value was added; a duplicate leaves the subtree
/// untouched. The height of the subtree never shrinks and grows by at most
/// one.
fn insert_into(node: &mut Option<Box<AVLNode>>, value: u64) -> (added: bool)
    requires
        wf_tree(*old(node)),
        tree_height(*old(node)) < usize::MAX,
    ensures
        wf_tree(*final(node)),
        tree_set(*final(node)) == tree_set(*old(node)).insert(value),
        added == !tree_set(*old(node)).contains(value),
        !added ==> *final(node) == *old(node),
        tree_height(*old(node)) <= tree_height(*final(node)),
        tree_height(*final(node)) <= tree_height(*old(node)) + 1,
    decreases *old(node),
{
    match node.take() {
        None => {
            *node = Some(Box::new(AVLNode::new(value)));
            proof {
                assert(tree_set(*node) =~= tree_set(*old(node)).insert(value));
            }
            true
        },
        Some(mut b) => {
            proof {
                assert(b.wf());
            }
            if value < b.value {
                let added = insert_into(&mut b.left, value);
                proof {
                    assert(!tree_set(b.right).contains(value));
                }
                if added {
                    proof {
                        lemma_cached_height(b.left);
                        lemma_cached_height(b.right);
                    }
                    (&mut *b).update_height();
                    proof {
                        lemma_cached_height(b.left);
                        lemma_cached_height(b.right);
                        assert forall|x: u64| tree_set(b.left).contains(x) implies x
                            < b.value by {
                            if tree_set(old(node).unwrap().left).contains(x) {
                            } else {
                                assert(x == value);
                            }
                        }
                    }
                    let ghost mid = *b;
                    (&mut *b).rebalance();
                    proof {
                        assert(node_set(mid) =~= node_set(*old(node).unwrap()).insert(value));
                    }
                }
                *node = Some(b);
                proof {
                    assert(tree_set(*node) =~= tree_set(*old(node)).insert(value));
                }
                added
            } else if value > b.value {
                let added = insert_into(&mut b.right, value);
                proof {
                    assert(!tree_set(b.left).contains(value));
                }
                if added {
                    proof {
                        lemma_cached_height(b.left);
                        lemma_cached_height(b.right);
                    }
                    (&mut *b).update_height();
                    proof {
                        lemma_cached_height(b.left);
                        lemma_cached_height(b.right);
                        assert forall|x: u64| tree_set(b.right).contains(x) implies x
                            > b.value by {
                            if tree_set(old(node).unwrap().right).contains(x) {
                            } else {
                                assert(x == value);
                            }
                        }
                    }
                    let ghost mid = *b;
                    (&mut *b).rebalance();
                    proof {
                        assert(node_set(mid) =~= node_set(*old(node).unwrap()).insert(value));
                    }
                }
                *node = Some(b);
                proof {
                    assert(tree_set(*node) =~= tree_set(*old(node)).insert(value));
                }
                added
            } else {
                *node = Some(b);
                proof {
                    assert(tree_set(*node).contains(value));
                    assert(tree_set(*node) =~= tree_set(*old(node)).insert(value));
                }
                false
            }
        },
    }
}

/// Removes the smallest value of a non-empty, well-formed subtree and
/// returns it, rebalancing on the way back up. The height shrinks by at most
/// one and never grows.
fn remove_min(node: &mut Option<Box<AVLNode>>) -> (m: u64)
    requires
        old(node).is_some(),
        wf_tree(*old(node)),
    ensures
        wf_tree(*final(node)),
        tree_set(*old(node)).contains(m),
        forall|x: u64| tree_set(*old(node)).contains(x) ==> m <= x,
        tree_set(*final(node)) == tree_set(*old(node)).remove(m),
        tree_height(*final(node)) <= tree_height(*old(node)),
        tree_height(*old(node)) <= tree_height(*final(node)) + 1,
    decreases *old(node),
{
    let mut b = node.take().unwrap();
    proof {
        assert(b.wf());
    }
    if b.left.is_none() {
        let m = b.value;
        *node = b.right;
        proof {
            assert(tree_set(old(node).unwrap().left) =~= Set::<u64>::empty());
            assert forall|x: u64|
                tree_set(*node).contains(x) <==> tree_set(*old(node)).remove(m).contains(
                    x,
                ) by {
                if tree_set(old(node).unwrap().right).contains(x) {
                    assert(x > m);
                }
            }
            assert(tree_set(*node) =~= tree_set(*old(node)).remove(m));
            assert forall|x: u64| tree_set(*old(node)).contains(x) implies m <= x by {
                if tree_set(old(node).unwrap().right).contains(x) {
                    assert(x > m);
                }
            }
        }
        m
    } else {
        let m = remove_min(&mut b.left);
        proof {
            lemma_cached_height(b.left);
            lemma_cached_height(b.right);
        }
        (&mut *b).update_height();
        proof {
            lemma_cached_height(b.left);
            lemma_cached_height(b.right);
            assert forall|x: u64| tree_set(b.left).contains(x) implies x < b.value by {
                assert(tree_set(old(node).unwrap().left).contains(x));
            }
        }
        let ghost mid = *b;
        (&mut *b).rebalance();
        *node = Some(b);
        proof {
            assert(tree_set(old(node).unwrap().left).contains(m));
            assert(node_set(mid) =~= node_set(*old(node).unwrap()).remove(m));
            assert(tree_set(*node) =~= tree_set(*old(node)).remove(m));
            assert forall|x: u64| tree_set(*old(node)).contains(x) implies m <= x by {
                let ob = old(node).unwrap();
                if tree_set(ob.left).contains(x) {
                } else if tree_set(ob.right).contains(x) {
                    assert(m < ob.value);
                    assert(x > ob.value);
                } else {
                    assert(x == ob.value);
                    assert(m < ob.value);
                }
            }
        }
        m
    }
}

/// Removes `value` from a well-formed subtree if present, rebalancing on the
/// way back up. Returns whether the value was found; a miss leaves the
/// subtree untouched. The height shrinks by at most one and never grows.
fn take_from(node: &mut Option<Box<AVLNode>>, value: u64) -> (removed: bool)
    requires
        wf_tree(*old(node)),
    ensures
        wf_tree(*final(node)),
        tree_set(*final(node)) == tree_set(*old(node)).remove(value),
        removed == tree_set(*old(node)).contains(value),
        !removed ==> *final(node) == *old(node),
        tree_height(*final(node)) <= tree_height(*old(node)),
        tree_height(*old(node)) <= tree_height(*final(node)) + 1,
    decreases *old(node),
{
    match node.take() {
        None => {
            proof {
                assert(tree_set(*node) =~= tree_set(*old(node)).remove(value));
            }
            false
        },
        Some(mut b) => {
            proof {
                assert(b.wf());
            }
            if value < b.value {
                proof {
                    assert(!tree_set(b.right).contains(value));
                }
                let removed = take_from(&mut b.left, value);
                if removed {
                    proof {
                        lemma_cached_height(b.left);
                        lemma_cached_height(b.right);
                    }
                    (&mut *b).update_height();
                    proof {
                        lemma_cached_height(b.left);
                        lemma_cached_height(b.right);
                        assert forall|x: u64| tree_set(b.left).contains(x) implies x
                            < b.value by {
                            assert(tree_set(old(node).unwrap().left).contains(x));
                        }
                    }
                    let ghost mid = *b;
                    (&mut *b).rebalance();
                    proof {
                        assert(node_set(mid) =~= node_set(*old(node).unwrap()).remove(value));
                    }
                }
                *node = Some(b);
                proof {
                    assert(tree_set(*node) =~= tree_set(*old(node)).remove(value));
                }
                removed
            } else if value > b.value {
                proof {
                    assert(!tree_set(b.left).contains(value));
                }
                let removed = take_from(&mut b.right, value);
                if removed {
                    proof {
                        lemma_cached_height(b.left);
                        lemma_cached_height(b.right);
                    }
                    (&mut *b).update_height();
                    proof {
                        lemma_cached_height(b.left);
                        lemma_cached_height(b.right);
                        assert forall|x: u64| tree_set(b.right).contains(x) implies x
                            > b.value by {
                            assert(tree_set(old(node).unwrap().right).contains(x));
                        }
                    }
                    let ghost mid = *b;
                    (&mut *b).rebalance();
                    proof {
                        assert(node_set(mid) =~= node_set(*old(node).unwrap()).remove(value));
                    }
                }
                *node = Some(b);
                proof {
                    assert(tree_set(*node) =~= tree_set(*old(node)).remove(value));
                }
                removed
            } else {
                // Found the target; its removal has three structural cases.
                proof {
                    assert(!tree_set(b.left).contains(value));
                    assert(!tree_set(b.right).contains(value));
                }
                if b.left.is_none() {
                    // No left child: the right subtree (possibly empty) moves up.
                    *node = b.right;
                    proof {
                        assert(tree_set(*node) =~= tree_set(*old(node)).remove(value));
                    }
                } else if b.right.is_none() {
                    // Only a left child: it moves up.
                    *node = b.left;
                    proof {
                        assert(tree_set(*node) =~= tree_set(*old(node)).remove(value));
                    }
                } else {
                    // Two children: the in-order successor — the smallest value
                    // of the right subtree — replaces the target's value, and
                    // its old node is spliced out of the right subtree.
                    let m = remove_min(&mut b.right);
                    proof {
                        assert(tree_set(old(node).unwrap().right).contains(m));
                        assert(m > b.value);
                        lemma_cached_height(b.left);
                        lemma_cached_height(b.right);
                    }
                    b.value = m;
                    (&mut *b).update_height();
                    proof {
                        lemma_cached_height(b.left);
                        lemma_cached_height(b.right);
                        assert forall|x: u64| tree_set(b.left).contains(x) implies x
                            < b.value by {
                            assert(tree_set(old(node).unwrap().left).contains(x));
                            assert(x < old(node).unwrap().value);
                        }
                        assert forall|x: u64| tree_set(b.right).contains(x) implies x
                            > b.value by {
                            assert(tree_set(old(node).unwrap().right).contains(x));
                        }
                    }
                    let ghost mid = *b;
                    (&mut *b).rebalance();
                    *node = Some(b);
                    proof {
                        assert(node_set(mid) =~= node_set(*old(node).unwrap()).remove(value));
                        assert(tree_set(*node) =~= tree_set(*old(node)).remove(value));
                    }
                }
                true
            }
        },
    }
}

/// Membership test by a pure descent along the search order.
fn contains_in(t: &Option<Box<AVLNode>>, value: u64) -> (r: bool)
    requires
        wf_tree(*t),
    ensures
        r == tree_set(*t).contains(value),
    decreases t,
{
    match t {
        None => false,
        Some(n) => {
            if value < n.value {
                proof {
                    assert(!tree_set(n.right).contains(value));
                }
                contains_in(&n.left, value)
            } else if value > n.value {
                proof {
                    assert(!tree_set(n.left).contains(value));
                }
                contains_in(&n.right, value)
            } else {
                true
            }
        },
    }
}

/// An ordered set of `u64` values backed by an AVL tree.
#[derive(Debug, PartialEq)]
pub struct AVLTreeSet {
    pub root: Option<Box<AVLNode>>,
}

impl View for AVLTreeSet {
    type V = Set<u64>;

    open spec fn view(&self) -> Set<u64> {
        tree_set(self.root)
    }
}

impl AVLTreeSet {
    /// The tree behind the set is a well-formed AVL tree.
    pub open spec fn wf(self) -> bool {
        wf_tree(self.root)
    }

    /// Creates a new, empty set.
    pub fn new() -> (s: Self)
        ensures
            s.wf(),
            s@ == Set::<u64>::empty(),
            s.root is None,
    {
        AVLTreeSet { root: None }
    }

    /// Adds a value to the set.
    ///
    /// Returns `true` if the set did not have an equal element present;
    /// returns `false` and leaves the set untouched if it did.
    pub fn insert(&mut self, value: u64) -> (added: bool)
        requires
            old(self).wf(),
            tree_height(old(self).root) < usize::MAX,
        ensures
            final(self).wf(),
            final(self)@ == old(self)@.insert(value),
            added == !old(self)@.contains(value),
            !added ==> *final(self) == *old(self),
            tree_height(old(self).root) <= tree_height(final(self).root),
            tree_height(final(self).root) <= tree_height(old(self).root) + 1,
    {
        insert_into(&mut self.root, value)
    }

    /// Removes and returns the element in the set, if any, that is equal to
    /// the value. Returns `None` and leaves the set untouched otherwise.
    pub fn take(&mut self, value: &u64) -> (taken: Option<u64>)
        requires
            old(self).wf(),
        ensures
            final(self).wf(),
            final(self)@ == old(self)@.remove(*value),
            taken == (if old(self)@.contains(*value) {
                Some(*value)
            } else {
                None::<u64>
            }),
            !old(self)@.contains(*value) ==> *final(self) == *old(self),
            tree_height(final(self).root) <= tree_height(old(self).root),
            tree_height(old(self).root) <= tree_height(final(self).root) + 1,
    {
        let removed = take_from(&mut self.root, *value);
        if removed {
            Some(*value)
        } else {
            None
        }
    }

    /// Returns `true` if the set contains an element equal to the value.
    pub fn contains(&self, value: &u64) -> (r: bool)
        requires
            self.wf(),
        ensures
            r == self@.contains(*value),
    {
        contains_in(&self.root, *value)
    }

    /// Starts a fresh traversal that visits the elements in ascending order.
    /// The set must not be mutated while the iterator is in use; the borrow
    /// makes that impossible here.
    pub fn iter<'a>(&'a self) -> (it: AVLTreeSetNodeIter<'a>)
        ensures
            it.remaining() == tree_seq(self.root),
    {
        let it = AVLTreeSetNodeIter { prev_nodes: Vec::new(), current_tree: &self.root };
        proof {
            assert(it.remaining() =~= tree_seq(self.root));
        }
        it
    }

    /// Collects the elements into a vector, in the iterator's order.
    pub fn to_vec(&self) -> (out: Vec<u64>)
        ensures
            out@ == tree_seq(self.root),
    {
        let mut it = self.iter();
        let mut out: Vec<u64> = Vec::new();
        proof {
            assert(out@ + it.remaining() =~= tree_seq(self.root));
        }
        loop
            invariant
                out@ + it.remaining() == tree_seq(self.root),
            decreases it.remaining().len(),
        {
            match it.next() {
                Some(v) => {
                    out.push(v);
                    proof {
                        assert(out@ + it.remaining() =~= tree_seq(self.root));
                    }
                },
                None => {
                    proof {
                        assert(out@ =~= tree_seq(self.root));
                    }
                    return out;
                },
            }
        }
    }

    /// Builds a set from a sequence of values by repeated insertion; later
    /// duplicates are ignored.
    pub fn from_vec(values: &Vec<u64>) -> (s: Self)
        ensures
            s.wf(),
            s@ == values@.to_set(),
    {
        let mut s = AVLTreeSet::new();
        let n = values.len();
        let mut i: usize = 0;
        proof {
            assert(s@ =~= values@.take(0).to_set());
        }
        while i < n
            invariant
                s.wf(),
                i <= n,
                n == values@.len(),
                s@ == values@.take(i as int).to_set(),
                tree_height(s.root) <= i,
            decreases n - i,
        {
            let v = values[i];
            s.insert(v);
            proof {
                let before = values@.take(i as int);
                let after = values@.take(i as int + 1);
                assert forall|x: u64|
                    after.to_set().contains(x) <==> (before.to_set().contains(x) || x == v) by {
                    if after.contains(x) {
                        let j = choose|j: int| 0 <= j < after.len() && after[j] == x;
                        if j < i as int {
                            assert(before[j] == x);
                            assert(before.contains(x));
                        } else {
                            assert(x == v);
                        }
                    }
                    if before.contains(x) {
                        let j = choose|j: int| 0 <= j < before.len() && before[j] == x;
                        assert(after[j] == x);
                        assert(after.contains(x));
                    }
                    if x == v {
                        assert(after[i as int] == x);
                        assert(after.contains(x));
                    }
                }
                assert(after.to_set() =~= before.to_set().insert(v));
            }
            i = i + 1;
        }
        proof {
            assert(values@.take(n as int) =~= values@);
        }
        s
    }
}

impl Clone for AVLTreeSet {
    /// A clone is spec-equal to the original set.
    fn clone(&self) -> (res: Self)
        ensures
            res == *self,
    {
        AVLTreeSet {
            root: (match &self.root {
                Some(n) => Some(Box::new((&**n).clone())),
                None => None,
            }),
        }
    }
}

impl Default for AVLTreeSet {
    /// The default set is the empty set.
    fn default() -> (s: Self)
        ensures
            s.wf(),
            s@ == Set::<u64>::empty(),
    {
        AVLTreeSet::new()
    }
}

/// A lazy in-order traversal of an AVL tree. It keeps an explicit stack of
/// the ancestors still to be visited; each produced value comes with the
/// subtree to its right still pending.
pub struct AVLTreeSetNodeIter<'a> {
    pub prev_nodes: Vec<&'a AVLNode>,
    pub current_tree: &'a Option<Box<AVLNode>>,
}

/// Values still pending from a stack of ancestors: for each stacked node,
/// from the top of the stack down, its own value followed by its right
/// subtree in order.
pub open spec fn stack_rest(s: Seq<&AVLNode>) -> Seq<u64>
    decreases s.len(),
{
    if s.len() == 0 {
        Seq::empty()
    } else {
        seq![s.last().value] + tree_seq(s.last().right) + stack_rest(s.drop_last())
    }
}

impl<'a> AVLTreeSetNodeIter<'a> {
    /// The values this iterator has yet to produce, in order.
    pub open spec fn remaining(self) -> Seq<u64> {
        tree_seq(*self.current_tree) + stack_rest(self.prev_nodes@)
    }

    /// Produces the next pending value, or `None` once the traversal is
    /// done. Each call removes exactly the first pending value.
    pub fn next(&mut self) -> (r: Option<u64>)
        ensures
            old(self).remaining().len() == 0 ==> r is None && final(self).remaining()
                == old(self).remaining(),
            old(self).remaining().len() > 0 ==> r == Some(old(self).remaining()[0])
                && final(self).remaining() == old(self).remaining().drop_first(),
    {
        let ghost orig = self.remaining();
        loop
            invariant
                self.remaining() == orig,
                orig == old(self).remaining(),
            decreases tree_height(*self.current_tree),
        {
            let cur = self.current_tree;
            match cur {
                None => {
                    let ghost s = self.prev_nodes@;
                    let popped = self.prev_nodes.pop();
                    match popped {
                        None => {
                            proof {
                                assert(orig =~= Seq::<u64>::empty());
                            }
                            return None;
                        },
                        Some(p) => {
                            self.current_tree = &p.right;
                            proof {
                                assert(self.prev_nodes@ =~= s.drop_last());
                                assert(orig =~= seq![p.value] + (tree_seq(p.right) + stack_rest(
                                    s.drop_last(),
                                )));
                                assert(self.remaining() =~= orig.drop_first());
                            }
                            return Some(p.value);
                        },
                    }
                },
                Some(boxed) => {
                    if boxed.left.is_some() {
                        let ghost s = self.prev_nodes@;
                        self.prev_nodes.push(&**boxed);
                        self.current_tree = &boxed.left;
                        proof {
                            assert(s.push(&**boxed).drop_last() =~= s);
                            assert(stack_rest(self.prev_nodes@) =~= seq![boxed.value] + tree_seq(
                                boxed.right,
                            ) + stack_rest(s));
                            assert(self.remaining() =~= orig);
                        }
                    } else {
                        self.current_tree = &boxed.right;
                        proof {
                            assert(tree_seq(boxed.left) =~= Seq::<u64>::empty());
                            assert(orig =~= seq![boxed.value] + (tree_seq(boxed.right)
                                + stack_rest(self.prev_nodes@)));
                            assert(self.remaining() =~= orig.drop_first());
                        }
                        return Some(boxed.value);
                    }
                },
            }
        }
    }
}

} // verus!
