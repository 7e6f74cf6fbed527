use vstd::prelude::*;

use crate::node::AVLNode;
use crate::node::tree_seq;
use crate::node::tree_set;
use crate::node::wf_tree;
use crate::set::AVLTreeSet;

verus! {

/// A sequence is strictly ascending.
pub open spec fn ascending(s: Seq<u64>) -> bool {
    forall|i: int, j: int| 0 <= i < j < s.len() ==> s[i] < s[j]
}

/// In a well-formed tree the in-order sequence is strictly ascending, and a
/// value occurs in it exactly when the tree holds it.
pub proof fn lemma_in_order_ascending(t: Option<Box<AVLNode>>)
    requires
        wf_tree(t),
    ensures
        ascending(tree_seq(t)),
        forall|x: u64| tree_seq(t).contains(x) <==> tree_set(t).contains(x),
    decreases t,
{
    match t {
        None => {
        },
        Some(n) => {
            assert(n.wf());
            lemma_in_order_ascending(n.left);
            lemma_in_order_ascending(n.right);
            let sl = tree_seq(n.left);
            let sr = tree_seq(n.right);
            let s = tree_seq(t);
            let li = sl.len() as int;
            assert(s == sl + seq![n.value] + sr);
            assert forall|x: u64| s.contains(x) <==> tree_set(t).contains(x) by {
                if s.contains(x) {
                    let j = choose|j: int| 0 <= j < s.len() && s[j] == x;
                    if j < li {
                        assert(sl[j] == x);
                        assert(sl.contains(x));
                    } else if j == li {
                        assert(x == n.value);
                    } else {
                        assert(sr[j - li - 1] == x);
                        assert(sr.contains(x));
                    }
                }
                if tree_set(t).contains(x) {
                    if tree_set(n.left).contains(x) {
                        assert(sl.contains(x));
                        let j = choose|j: int| 0 <= j < sl.len() && sl[j] == x;
                        assert(s[j] == x);
                        assert(s.contains(x));
                    } else if tree_set(n.right).contains(x) {
                        assert(sr.contains(x));
                        let j = choose|j: int| 0 <= j < sr.len() && sr[j] == x;
                        assert(s[li + 1 + j] == x);
                        assert(s.contains(x));
                    } else {
                        assert(x == n.value);
                        assert(s[li] == x);
                        assert(s.contains(x));
                    }
                }
            }
            assert forall|k: int| 0 <= k < li implies s[k] < n.value by {
                assert(s[k] == sl[k]);
                assert(sl.contains(sl[k]));
                assert(tree_set(n.left).contains(s[k]));
            }
            assert(s[li] == n.value);
            assert forall|k: int| li < k < s.len() implies s[k] > n.value by {
                assert(s[k] == sr[k - li - 1]);
                assert(sr.contains(sr[k - li - 1]));
                assert(tree_set(n.right).contains(s[k]));
            }
            assert forall|i: int, j: int| 0 <= i < j < s.len() implies s[i] < s[j] by {
                if j < li {
                    assert(s[i] == sl[i] && s[j] == sl[j]);
                    assert(sl[i] < sl[j]);
                } else if li < i {
                    assert(s[i] == sr[i - li - 1] && s[j] == sr[j - li - 1]);
                    assert(sr[i - li - 1] < sr[j - li - 1]);
                }
            }
        },
    }
}

/// The in-order traversal of a well-formed set yields a strictly ascending
/// sequence — so every stored value exactly once, with no duplicates — and
/// the values yielded are exactly the values the set holds.
pub proof fn lemma_iter_ascending(s: AVLTreeSet)
    requires
        s.wf(),
    ensures
        ascending(tree_seq(s.root)),
        tree_seq(s.root).to_set() == s@,
{
    lemma_in_order_ascending(s.root);
    assert forall|x: u64|
        tree_seq(s.root).to_set().contains(x) == tree_set(s.root).contains(x) by {
        assert(tree_seq(s.root).to_set().contains(x) == tree_seq(s.root).contains(x));
    }
    assert(tree_seq(s.root).to_set() =~= tree_set(s.root));
}

/// After a removal succeeds the removed value is no longer in the set of
/// stored values, while the membership of every other value is untouched.
/// This connects `take`'s effect on the model to `contains`.
pub proof fn lemma_take_then_contains(before: Set<u64>, x: u64, y: u64)
    ensures
        !before.remove(x).contains(x),
        y != x ==> before.remove(x).contains(y) == before.contains(y),
{
}

} // verus!
