//! The abstract model of the AVL tree.
//!
//! `TreeV` is a mathematical binary tree; every exec operation of the arena
//! is specified as a function on this model. Each abstract node carries the
//! arena slot it occupies, so the correspondence between concrete storage
//! and model can be stated precisely.

use vstd::prelude::*;

verus! {

/// Abstract binary tree. `slot` is the arena position of the node.
pub ghost enum TreeV {
    Nil,
    Node { slot: nat, value: u64, left: Box<TreeV>, right: Box<TreeV> },
}

/// Height of a subtree: 0 for an empty tree, 1 for a leaf,
/// `1 + max(height(left), height(right))` for an internal node.
pub open spec fn height(t: TreeV) -> nat
    decreases t,
{
    match t {
        TreeV::Nil => 0,
        TreeV::Node { left, right, .. } => {
            let hl = height(*left);
            let hr = height(*right);
            1 + if hl >= hr {
                hl
            } else {
                hr
            }
        },
    }
}

/// Number of nodes in a subtree.
pub open spec fn node_count(t: TreeV) -> nat
    decreases t,
{
    match t {
        TreeV::Nil => 0,
        TreeV::Node { left, right, .. } => 1 + node_count(*left) + node_count(*right),
    }
}

/// In-order sequence of the values of a subtree (left, self, right).
pub open spec fn to_seq(t: TreeV) -> Seq<u64>
    decreases t,
{
    match t {
        TreeV::Nil => Seq::empty(),
        TreeV::Node { value, left, right, .. } => to_seq(*left) + seq![value] + to_seq(*right),
    }
}

/// The set of arena slots occupied by a subtree.
pub open spec fn slots(t: TreeV) -> Set<int>
    decreases t,
{
    match t {
        TreeV::Nil => Set::empty(),
        TreeV::Node { slot, left, right, .. } => slots(*left) + slots(*right) + set![slot as int],
    }
}

/// The slots of the subtrees are pairwise disjoint and none repeats its
/// parent's: the structure is a tree, not a DAG, at the slot level.
pub open spec fn shape_ok(t: TreeV) -> bool
    decreases t,
{
    match t {
        TreeV::Nil => true,
        TreeV::Node { slot, left, right, .. } => {
            &&& shape_ok(*left)
            &&& shape_ok(*right)
            &&& !slots(*left).contains(slot as int)
            &&& !slots(*right).contains(slot as int)
            &&& slots(*left).disjoint(slots(*right))
        },
    }
}

/// Every value in the subtree is at most `x`.
pub open spec fn all_le(t: TreeV, x: u64) -> bool
    decreases t,
{
    match t {
        TreeV::Nil => true,
        TreeV::Node { value, left, right, .. } => value <= x && all_le(*left, x) && all_le(
            *right,
            x,
        ),
    }
}

/// Every value in the subtree is strictly below `x`.
pub open spec fn all_lt(t: TreeV, x: u64) -> bool
    decreases t,
{
    match t {
        TreeV::Nil => true,
        TreeV::Node { value, left, right, .. } => value < x && all_lt(*left, x) && all_lt(
            *right,
            x,
        ),
    }
}

/// Every value in the subtree is at least `x`.
pub open spec fn all_ge(t: TreeV, x: u64) -> bool
    decreases t,
{
    match t {
        TreeV::Nil => true,
        TreeV::Node { value, left, right, .. } => value >= x && all_ge(*left, x) && all_ge(
            *right,
            x,
        ),
    }
}

/// Binary-search-tree order. Values equal to a node's value sit in its right
/// subtree (duplicates go right on insertion), so the left bound is strict
/// only when all stored values are distinct; the invariant kept here is
/// `left <= node <= right` with a strict `<` on the left for fresh values.
pub open spec fn bst(t: TreeV) -> bool
    decreases t,
{
    match t {
        TreeV::Nil => true,
        TreeV::Node { value, left, right, .. } => {
            &&& all_le(*left, value)
            &&& all_ge(*right, value)
            &&& bst(*left)
            &&& bst(*right)
        },
    }
}

/// Strict binary-search-tree order: left subtree strictly below the node.
pub open spec fn bst_strict(t: TreeV) -> bool
    decreases t,
{
    match t {
        TreeV::Nil => true,
        TreeV::Node { value, left, right, .. } => {
            &&& all_lt(*left, value)
            &&& all_ge(*right, value)
            &&& bst_strict(*left)
            &&& bst_strict(*right)
        },
    }
}

/// AVL balance: at every node the children's heights differ by at most one.
pub open spec fn balanced(t: TreeV) -> bool
    decreases t,
{
    match t {
        TreeV::Nil => true,
        TreeV::Node { left, right, .. } => {
            &&& height(*left) <= height(*right) + 1
            &&& height(*right) <= height(*left) + 1
            &&& balanced(*left)
            &&& balanced(*right)
        },
    }
}

/// Non-decreasing sequence.
pub open spec fn sorted(s: Seq<u64>) -> bool {
    forall|i: int, j: int| 0 <= i < j < s.len() ==> #[trigger] s[i] <= #[trigger] s[j]
}

/// Single left rotation at the root of `t`; identity when the right child is
/// missing (the rotation then has no pivot partner).
pub open spec fn rotate_left_spec(t: TreeV) -> TreeV {
    match t {
        TreeV::Nil => t,
        TreeV::Node { slot, value, left, right } => match *right {
            TreeV::Nil => t,
            TreeV::Node { slot: rs, value: rv, left: rl, right: rr } => TreeV::Node {
                slot: rs,
                value: rv,
                left: Box::new(
                    TreeV::Node { slot, value, left, right: rl },
                ),
                right: rr,
            },
        },
    }
}

/// Single right rotation at the root of `t`; identity when the left child is
/// missing.
pub open spec fn rotate_right_spec(t: TreeV) -> TreeV {
    match t {
        TreeV::Nil => t,
        TreeV::Node { slot, value, left, right } => match *left {
            TreeV::Nil => t,
            TreeV::Node { slot: ls, value: lv, left: ll, right: lr } => TreeV::Node {
                slot: ls,
                value: lv,
                left: ll,
                right: Box::new(
                    TreeV::Node { slot, value, left: lr, right },
                ),
            },
        },
    }
}

/// Rebalancing step applied at a node whose subtrees are already AVL trees:
/// when the height difference exceeds one, apply the single or double
/// rotation that the taller side's shape calls for.
pub open spec fn rebalance(t: TreeV) -> TreeV {
    match t {
        TreeV::Nil => t,
        TreeV::Node { slot, value, left, right } => {
            let lh = height(*left);
            let rh = height(*right);
            if lh > rh + 1 {
                match *left {
                    TreeV::Nil => t,
                    TreeV::Node { left: ll, right: lr, .. } => {
                        if height(*lr) > height(*ll) {
                            rotate_right_spec(
                                TreeV::Node {
                                    slot,
                                    value,
                                    left: Box::new(rotate_left_spec(*left)),
                                    right,
                                },
                            )
                        } else {
                            rotate_right_spec(t)
                        }
                    },
                }
            } else if rh > lh + 1 {
                match *right {
                    TreeV::Nil => t,
                    TreeV::Node { left: rl, right: rr, .. } => {
                        if height(*rl) > height(*rr) {
                            rotate_left_spec(
                                TreeV::Node {
                                    slot,
                                    value,
                                    left,
                                    right: Box::new(rotate_right_spec(*right)),
                                },
                            )
                        } else {
                            rotate_left_spec(t)
                        }
                    },
                }
            } else {
                t
            }
        },
    }
}

/// AVL insertion into the model: descend by the order (strictly smaller
/// values go left, greater-or-equal values go right), place the new value as
/// a leaf in slot `ns`, and rebalance on the way back up.
pub open spec fn avl_insert(t: TreeV, v: u64, ns: nat) -> TreeV
    decreases t,
{
    match t {
        TreeV::Nil => TreeV::Node {
            slot: ns,
            value: v,
            left: Box::new(TreeV::Nil),
            right: Box::new(TreeV::Nil),
        },
        TreeV::Node { slot, value, left, right } => {
            if v < value {
                rebalance(
                    TreeV::Node { slot, value, left: Box::new(avl_insert(*left, v, ns)), right },
                )
            } else {
                rebalance(
                    TreeV::Node { slot, value, left, right: Box::new(avl_insert(*right, v, ns)) },
                )
            }
        },
    }
}

/// A subtree's height never exceeds its node count.
pub proof fn lemma_height_le_count(t: TreeV)
    ensures
        height(t) <= node_count(t),
    decreases t,
{
    match t {
        TreeV::Nil => {},
        TreeV::Node { left, right, .. } => {
            lemma_height_le_count(*left);
            lemma_height_le_count(*right);
        },
    }
}

/// An upper bound on all values of a subtree weakens upward.
pub proof fn lemma_all_le_mono(t: TreeV, x: u64, y: u64)
    requires
        all_le(t, x),
        x <= y,
    ensures
        all_le(t, y),
    decreases t,
{
    match t {
        TreeV::Nil => {},
        TreeV::Node { left, right, .. } => {
            lemma_all_le_mono(*left, x, y);
            lemma_all_le_mono(*right, x, y);
        },
    }
}

/// A lower bound on all values of a subtree weakens downward.
pub proof fn lemma_all_ge_mono(t: TreeV, x: u64, y: u64)
    requires
        all_ge(t, x),
        y <= x,
    ensures
        all_ge(t, y),
    decreases t,
{
    match t {
        TreeV::Nil => {},
        TreeV::Node { left, right, .. } => {
            lemma_all_ge_mono(*left, x, y);
            lemma_all_ge_mono(*right, x, y);
        },
    }
}

/// Under a tree-shaped slot assignment, the number of slots equals the
/// number of nodes.
pub proof fn lemma_count_slots(t: TreeV)
    requires
        shape_ok(t),
    ensures
        slots(t).finite(),
        slots(t).len() == node_count(t),
    decreases t,
{
    match t {
        TreeV::Nil => {
            assert(slots(t) =~= Set::<int>::empty());
        },
        TreeV::Node { slot, left, right, .. } => {
            lemma_count_slots(*left);
            lemma_count_slots(*right);
            let a = slots(*left);
            let b = slots(*right);
            vstd::set_lib::lemma_set_disjoint_lens(a, b);
            let s = set![slot as int];
            assert(s =~= Set::<int>::empty().insert(slot as int));
            assert(s.finite() && s.len() == 1);
            assert((a + b).disjoint(s));
            vstd::set_lib::lemma_set_disjoint_lens(a + b, s);
        },
    }
}

/// A left rotation keeps the in-order sequence, the occupied slots, the
/// node count, the tree shape and the search order; it also keeps any value
/// bound.
pub proof fn lemma_rotate_left_props(t: TreeV)
    ensures
        to_seq(rotate_left_spec(t)) == to_seq(t),
        slots(rotate_left_spec(t)) == slots(t),
        node_count(rotate_left_spec(t)) == node_count(t),
        shape_ok(t) ==> shape_ok(rotate_left_spec(t)),
        bst(t) ==> bst(rotate_left_spec(t)),
        forall|x: u64| all_le(t, x) ==> #[trigger] all_le(rotate_left_spec(t), x),
        forall|x: u64| all_ge(t, x) ==> #[trigger] all_ge(rotate_left_spec(t), x),
{
    match t {
        TreeV::Nil => {},
        TreeV::Node { slot, value, left, right } => match *right {
            TreeV::Nil => {},
            TreeV::Node { slot: rs, value: rv, left: rl, right: rr } => {
                let res = rotate_left_spec(t);
                let nl = TreeV::Node { slot, value, left, right: rl };
                assert(res == (TreeV::Node { slot: rs, value: rv, left: Box::new(nl), right: rr }));
                assert(to_seq(nl) == to_seq(*left) + seq![value] + to_seq(*rl));
                assert(to_seq(res) == to_seq(nl) + seq![rv] + to_seq(*rr));
                assert(to_seq(*right) == to_seq(*rl) + seq![rv] + to_seq(*rr));
                assert(to_seq(t) == to_seq(*left) + seq![value] + to_seq(*right));
                assert(to_seq(res) =~= to_seq(t));
                assert(slots(nl) == slots(*left) + slots(*rl) + set![slot as int]);
                assert(slots(res) == slots(nl) + slots(*rr) + set![rs as int]);
                assert(slots(*right) == slots(*rl) + slots(*rr) + set![rs as int]);
                assert(slots(t) == slots(*left) + slots(*right) + set![slot as int]);
                assert(slots(res) =~= slots(t));
                assert(node_count(nl) == 1 + node_count(*left) + node_count(*rl));
                assert(node_count(res) == 1 + node_count(nl) + node_count(*rr));
                assert(node_count(*right) == 1 + node_count(*rl) + node_count(*rr));
                assert(node_count(t) == 1 + node_count(*left) + node_count(*right));
                if shape_ok(t) {
                    assert(shape_ok(*right));
                    assert(slots(*right).contains(rs as int));
                    assert(forall|p: int|
                        slots(*rl).contains(p) ==> #[trigger] slots(*right).contains(p));
                    assert(forall|p: int|
                        slots(*rr).contains(p) ==> #[trigger] slots(*right).contains(p));
                    assert(shape_ok(nl));
                    assert(shape_ok(res));
                }
                if bst(t) {
                    assert(all_ge(*right, value));
                    assert(bst(*right));
                    lemma_all_le_mono(*left, value, rv);
                    assert(bst(nl));
                    assert(all_le(nl, rv));
                    assert(bst(res));
                }
                assert forall|x: u64| all_le(t, x) implies #[trigger] all_le(res, x) by {
                    assert(all_le(*right, x));
                    assert(all_le(nl, x));
                }
                assert forall|x: u64| all_ge(t, x) implies #[trigger] all_ge(res, x) by {
                    assert(all_ge(*right, x));
                    assert(all_ge(nl, x));
                }
            },
        },
    }
}

/// A right rotation keeps the same properties as a left one.
pub proof fn lemma_rotate_right_props(t: TreeV)
    ensures
        to_seq(rotate_right_spec(t)) == to_seq(t),
        slots(rotate_right_spec(t)) == slots(t),
        node_count(rotate_right_spec(t)) == node_count(t),
        shape_ok(t) ==> shape_ok(rotate_right_spec(t)),
        bst(t) ==> bst(rotate_right_spec(t)),
        forall|x: u64| all_le(t, x) ==> #[trigger] all_le(rotate_right_spec(t), x),
        forall|x: u64| all_ge(t, x) ==> #[trigger] all_ge(rotate_right_spec(t), x),
{
    match t {
        TreeV::Nil => {},
        TreeV::Node { slot, value, left, right } => match *left {
            TreeV::Nil => {},
            TreeV::Node { slot: ls, value: lv, left: ll, right: lr } => {
                let res = rotate_right_spec(t);
                let nr = TreeV::Node { slot, value, left: lr, right };
                assert(res == (TreeV::Node { slot: ls, value: lv, left: ll, right: Box::new(nr) }));
                assert(to_seq(nr) == to_seq(*lr) + seq![value] + to_seq(*right));
                assert(to_seq(res) == to_seq(*ll) + seq![lv] + to_seq(nr));
                assert(to_seq(*left) == to_seq(*ll) + seq![lv] + to_seq(*lr));
                assert(to_seq(t) == to_seq(*left) + seq![value] + to_seq(*right));
                assert(to_seq(res) =~= to_seq(t));
                assert(slots(nr) == slots(*lr) + slots(*right) + set![slot as int]);
                assert(slots(res) == slots(*ll) + slots(nr) + set![ls as int]);
                assert(slots(*left) == slots(*ll) + slots(*lr) + set![ls as int]);
                assert(slots(t) == slots(*left) + slots(*right) + set![slot as int]);
                assert(slots(res) =~= slots(t));
                assert(node_count(nr) == 1 + node_count(*lr) + node_count(*right));
                assert(node_count(res) == 1 + node_count(*ll) + node_count(nr));
                assert(node_count(*left) == 1 + node_count(*ll) + node_count(*lr));
                assert(node_count(t) == 1 + node_count(*left) + node_count(*right));
                if shape_ok(t) {
                    assert(shape_ok(*left));
                    assert(slots(*left).contains(ls as int));
                    assert(forall|p: int|
                        slots(*ll).contains(p) ==> #[trigger] slots(*left).contains(p));
                    assert(forall|p: int|
                        slots(*lr).contains(p) ==> #[trigger] slots(*left).contains(p));
                    assert(shape_ok(nr));
                    assert(shape_ok(res));
                }
                if bst(t) {
                    assert(all_le(*left, value));
                    assert(bst(*left));
                    lemma_all_ge_mono(*right, value, lv);
                    assert(bst(nr));
                    assert(all_ge(nr, lv));
                    assert(bst(res));
                }
                assert forall|x: u64| all_le(t, x) implies #[trigger] all_le(res, x) by {
                    assert(all_le(*left, x));
                    assert(all_le(nr, x));
                }
                assert forall|x: u64| all_ge(t, x) implies #[trigger] all_ge(res, x) by {
                    assert(all_ge(*left, x));
                    assert(all_ge(nr, x));
                }
            },
        },
    }
}

/// Rebalancing keeps the in-order sequence, the occupied slots, the node
/// count, the shape, the search order and any value bound.
pub proof fn lemma_rebalance_props(t: TreeV)
    ensures
        to_seq(rebalance(t)) == to_seq(t),
        slots(rebalance(t)) == slots(t),
        node_count(rebalance(t)) == node_count(t),
        shape_ok(t) ==> shape_ok(rebalance(t)),
        bst(t) ==> bst(rebalance(t)),
        forall|x: u64| all_le(t, x) ==> #[trigger] all_le(rebalance(t), x),
        forall|x: u64| all_ge(t, x) ==> #[trigger] all_ge(rebalance(t), x),
{
    match t {
        TreeV::Nil => {},
        TreeV::Node { slot, value, left, right } => {
            let lh = height(*left);
            let rh = height(*right);
            if lh > rh + 1 {
                match *left {
                    TreeV::Nil => {},
                    TreeV::Node { left: ll, right: lr, .. } => {
                        if height(*lr) > height(*ll) {
                            let inner = rotate_left_spec(*left);
                            let t2 = TreeV::Node { slot, value, left: Box::new(inner), right };
                            lemma_rotate_left_props(*left);
                            assert(to_seq(t2) == to_seq(t));
                            assert(slots(t2) =~= slots(t));
                            lemma_rotate_right_props(t2);
                            assert(rebalance(t) == rotate_right_spec(t2));
                            if shape_ok(t) {
                                assert(shape_ok(t2));
                            }
                            if bst(t) {
                                assert(all_le(inner, value));
                                assert(bst(t2));
                            }
                            assert forall|x: u64| all_le(t, x) implies #[trigger] all_le(
                                rebalance(t),
                                x,
                            ) by {
                                assert(all_le(inner, x));
                                assert(all_le(t2, x));
                            }
                            assert forall|x: u64| all_ge(t, x) implies #[trigger] all_ge(
                                rebalance(t),
                                x,
                            ) by {
                                assert(all_ge(inner, x));
                                assert(all_ge(t2, x));
                            }
                        } else {
                            lemma_rotate_right_props(t);
                            assert(rebalance(t) == rotate_right_spec(t));
                        }
                    },
                }
            } else if rh > lh + 1 {
                match *right {
                    TreeV::Nil => {},
                    TreeV::Node { left: rl, right: rr, .. } => {
                        if height(*rl) > height(*rr) {
                            let inner = rotate_right_spec(*right);
                            let t2 = TreeV::Node { slot, value, left, right: Box::new(inner) };
                            lemma_rotate_right_props(*right);
                            assert(to_seq(t2) == to_seq(t));
                            assert(slots(t2) =~= slots(t));
                            lemma_rotate_left_props(t2);
                            assert(rebalance(t) == rotate_left_spec(t2));
                            if shape_ok(t) {
                                assert(shape_ok(t2));
                            }
                            if bst(t) {
                                assert(all_ge(inner, value));
                                assert(bst(t2));
                            }
                            assert forall|x: u64| all_le(t, x) implies #[trigger] all_le(
                                rebalance(t),
                                x,
                            ) by {
                                assert(all_le(inner, x));
                                assert(all_le(t2, x));
                            }
                            assert forall|x: u64| all_ge(t, x) implies #[trigger] all_ge(
                                rebalance(t),
                                x,
                            ) by {
                                assert(all_ge(inner, x));
                                assert(all_ge(t2, x));
                            }
                        } else {
                            lemma_rotate_left_props(t);
                            assert(rebalance(t) == rotate_left_spec(t));
                        }
                    },
                }
            }
        },
    }
}

/// The state at which `rebalance` is reached while walking back up after an
/// insertion: both subtrees are balanced and their heights differ by at most
/// two.
pub open spec fn rebalance_pre(t: TreeV) -> bool {
    match t {
        TreeV::Nil => false,
        TreeV::Node { left, right, .. } => {
            &&& balanced(*left)
            &&& balanced(*right)
            &&& height(*left) <= height(*right) + 2
            &&& height(*right) <= height(*left) + 2
        },
    }
}

/// Rebalancing a node whose subtrees are balanced and whose skew is at most
/// two yields a balanced tree of the same height or one less; when the node
/// was already balanced, nothing changes.
pub proof fn lemma_rebalance_balanced(t: TreeV)
    requires
        rebalance_pre(t),
    ensures
        balanced(rebalance(t)),
        height(rebalance(t)) <= height(t),
        height(t) <= height(rebalance(t)) + 1,
        (match t {
            TreeV::Nil => true,
            TreeV::Node { left, right, .. } => height(*left) <= height(*right) + 1 && height(
                *right,
            ) <= height(*left) + 1,
        }) ==> rebalance(t) == t,
{
    assert(height(TreeV::Nil) == 0);
    match t {
        TreeV::Nil => {},
        TreeV::Node { slot, value, left, right } => {
            let lh = height(*left);
            let rh = height(*right);
            assert(height(t) == 1 + if lh >= rh {
                lh
            } else {
                rh
            });
            if lh > rh + 1 {
                assert(lh == rh + 2);
                match *left {
                    TreeV::Nil => {
                        assert(false);
                    },
                    TreeV::Node { slot: ls, value: lv, left: ll, right: lr } => {
                        let llh = height(*ll);
                        let lrh = height(*lr);
                        assert(height(*left) == 1 + if llh >= lrh {
                            llh
                        } else {
                            lrh
                        });
                        if lrh > llh {
                            assert(lrh == rh + 1 && llh == rh);
                            match *lr {
                                TreeV::Nil => {
                                    assert(false);
                                },
                                TreeV::Node { slot: cs, value: cv, left: cl, right: cr } => {
                                    let clh = height(*cl);
                                    let crh = height(*cr);
                                    assert(height(*lr) == 1 + if clh >= crh {
                                        clh
                                    } else {
                                        crh
                                    });
                                    let a = TreeV::Node { slot: ls, value: lv, left: ll, right: cl,
                                    };
                                    let b = TreeV::Node { slot, value, left: cr, right };
                                    let res = TreeV::Node {
                                        slot: cs,
                                        value: cv,
                                        left: Box::new(a),
                                        right: Box::new(b),
                                    };
                                    let inner = rotate_left_spec(*left);
                                    let t2 = TreeV::Node {
                                        slot,
                                        value,
                                        left: Box::new(inner),
                                        right,
                                    };
                                    assert(rebalance(t) == rotate_right_spec(t2));
                                    assert(inner == (TreeV::Node {
                                        slot: cs,
                                        value: cv,
                                        left: Box::new(a),
                                        right: cr,
                                    }));
                                    assert(rotate_right_spec(t2) == res);
                                    assert(height(a) == 1 + if llh >= clh {
                                        llh
                                    } else {
                                        clh
                                    });
                                    assert(height(b) == 1 + if crh >= rh {
                                        crh
                                    } else {
                                        rh
                                    });
                                    assert(balanced(*ll));
                                    assert(balanced(*lr));
                                    assert(balanced(*cl));
                                    assert(balanced(*cr));
                                    assert(height(a) == rh + 1);
                                    assert(height(b) == rh + 1);
                                    assert(height(res) == rh + 2);
                                    assert(balanced(a));
                                    assert(balanced(b));
                                    assert(balanced(res));
                                },
                            }
                        } else {
                            assert(llh == rh + 1);
                            let b = TreeV::Node { slot, value, left: lr, right };
                            let res = TreeV::Node {
                                slot: ls,
                                value: lv,
                                left: ll,
                                right: Box::new(b),
                            };
                            assert(rebalance(t) == rotate_right_spec(t));
                            assert(rotate_right_spec(t) == res);
                            assert(height(b) == 1 + if lrh >= rh {
                                lrh
                            } else {
                                rh
                            });
                            assert(height(b) == lrh + 1);
                            assert(height(res) == 1 + if llh >= height(b) {
                                llh
                            } else {
                                height(b)
                            });
                            assert(balanced(b));
                            assert(balanced(res));
                            assert(height(res) <= height(t));
                            assert(height(t) <= height(res) + 1);
                        }
                    },
                }
            } else if rh > lh + 1 {
                assert(rh == lh + 2);
                match *right {
                    TreeV::Nil => {
                        assert(false);
                    },
                    TreeV::Node { slot: rs, value: rv, left: rl, right: rr } => {
                        let rlh = height(*rl);
                        let rrh = height(*rr);
                        assert(height(*right) == 1 + if rlh >= rrh {
                            rlh
                        } else {
                            rrh
                        });
                        if rlh > rrh {
                            assert(rlh == lh + 1 && rrh == lh);
                            match *rl {
                                TreeV::Nil => {
                                    assert(false);
                                },
                                TreeV::Node { slot: cs, value: cv, left: cl, right: cr } => {
                                    let clh = height(*cl);
                                    let crh = height(*cr);
                                    assert(height(*rl) == 1 + if clh >= crh {
                                        clh
                                    } else {
                                        crh
                                    });
                                    let a = TreeV::Node { slot, value, left, right: cl };
                                    let b = TreeV::Node { slot: rs, value: rv, left: cr, right: rr,
                                    };
                                    let res = TreeV::Node {
                                        slot: cs,
                                        value: cv,
                                        left: Box::new(a),
                                        right: Box::new(b),
                                    };
                                    let inner = rotate_right_spec(*right);
                                    let t2 = TreeV::Node {
                                        slot,
                                        value,
                                        left,
                                        right: Box::new(inner),
                                    };
                                    assert(rebalance(t) == rotate_left_spec(t2));
                                    assert(inner == (TreeV::Node {
                                        slot: cs,
                                        value: cv,
                                        left: cl,
                                        right: Box::new(b),
                                    }));
                                    assert(rotate_left_spec(t2) == res);
                                    assert(height(a) == 1 + if lh >= clh {
                                        lh
                                    } else {
                                        clh
                                    });
                                    assert(height(b) == 1 + if crh >= rrh {
                                        crh
                                    } else {
                                        rrh
                                    });
                                    assert(balanced(*rl));
                                    assert(balanced(*rr));
                                    assert(balanced(*cl));
                                    assert(balanced(*cr));
                                    assert(height(a) == lh + 1);
                                    assert(height(b) == lh + 1);
                                    assert(height(res) == lh + 2);
                                    assert(balanced(a));
                                    assert(balanced(b));
                                    assert(balanced(res));
                                },
                            }
                        } else {
                            assert(rrh == lh + 1);
                            let a = TreeV::Node { slot, value, left, right: rl };
                            let res = TreeV::Node {
                                slot: rs,
                                value: rv,
                                left: Box::new(a),
                                right: rr,
                            };
                            assert(rebalance(t) == rotate_left_spec(t));
                            assert(rotate_left_spec(t) == res);
                            assert(height(a) == 1 + if lh >= rlh {
                                lh
                            } else {
                                rlh
                            });
                            assert(height(a) == rlh + 1);
                            assert(height(res) == 1 + if height(a) >= rrh {
                                height(a)
                            } else {
                                rrh
                            });
                            assert(balanced(a));
                            assert(balanced(res));
                            assert(height(res) <= height(t));
                            assert(height(t) <= height(res) + 1);
                        }
                    },
                }
            } else {
                assert(rebalance(t) == t);
                assert(balanced(t));
            }
        },
    }
}

/// Inserting into a balanced tree keeps it balanced; the height grows by at
/// most one.
pub proof fn lemma_avl_insert_balanced(t: TreeV, v: u64, ns: nat)
    requires
        balanced(t),
    ensures
        balanced(avl_insert(t, v, ns)),
        height(t) <= height(avl_insert(t, v, ns)),
        height(avl_insert(t, v, ns)) <= height(t) + 1,
    decreases t,
{
    assert(height(TreeV::Nil) == 0);
    match t {
        TreeV::Nil => {
            let leaf = avl_insert(t, v, ns);
            assert(height(leaf) == 1);
            assert(balanced(leaf));
        },
        TreeV::Node { slot, value, left, right } => {
            let lh = height(*left);
            let rh = height(*right);
            assert(height(t) == 1 + if lh >= rh {
                lh
            } else {
                rh
            });
            if v < value {
                lemma_avl_insert_balanced(*left, v, ns);
                let l2 = avl_insert(*left, v, ns);
                let t1 = TreeV::Node { slot, value, left: Box::new(l2), right };
                assert(avl_insert(t, v, ns) == rebalance(t1));
                assert(rebalance_pre(t1));
                lemma_rebalance_balanced(t1);
                assert(height(t1) == 1 + if height(l2) >= rh {
                    height(l2)
                } else {
                    rh
                });
                if height(l2) > rh + 1 {
                    assert(height(l2) == rh + 2);
                    assert(lh == rh + 1);
                    assert(height(t1) == height(t) + 1);
                } else {
                    assert(rebalance(t1) == t1);
                }
            } else {
                lemma_avl_insert_balanced(*right, v, ns);
                let r2 = avl_insert(*right, v, ns);
                let t1 = TreeV::Node { slot, value, left, right: Box::new(r2) };
                assert(avl_insert(t, v, ns) == rebalance(t1));
                assert(rebalance_pre(t1));
                lemma_rebalance_balanced(t1);
                assert(height(t1) == 1 + if lh >= height(r2) {
                    lh
                } else {
                    height(r2)
                });
                if height(r2) > lh + 1 {
                    assert(height(r2) == lh + 2);
                    assert(rh == lh + 1);
                    assert(height(t1) == height(t) + 1);
                } else {
                    assert(rebalance(t1) == t1);
                }
            }
        },
    }
}

/// Insertion occupies exactly the one new slot `ns` and adds one node.
pub proof fn lemma_avl_insert_shape(t: TreeV, v: u64, ns: nat)
    requires
        shape_ok(t),
        !slots(t).contains(ns as int),
    ensures
        shape_ok(avl_insert(t, v, ns)),
        slots(avl_insert(t, v, ns)) == slots(t).insert(ns as int),
        node_count(avl_insert(t, v, ns)) == node_count(t) + 1,
    decreases t,
{
    match t {
        TreeV::Nil => {
            let leaf = avl_insert(t, v, ns);
            assert(slots(TreeV::Nil) =~= Set::<int>::empty());
            assert(shape_ok(leaf));
            assert(slots(leaf) =~= slots(t).insert(ns as int));
        },
        TreeV::Node { slot, value, left, right } => {
            assert(slots(t) == slots(*left) + slots(*right) + set![slot as int]);
            assert(slots(t).contains(slot as int));
            assert(forall|p: int| slots(*left).contains(p) ==> #[trigger] slots(t).contains(p));
            assert(forall|p: int| slots(*right).contains(p) ==> #[trigger] slots(t).contains(p));
            if v < value {
                lemma_avl_insert_shape(*left, v, ns);
                let l2 = avl_insert(*left, v, ns);
                let t1 = TreeV::Node { slot, value, left: Box::new(l2), right };
                assert(avl_insert(t, v, ns) == rebalance(t1));
                lemma_rebalance_props(t1);
                assert(shape_ok(t1));
                assert(slots(t1) =~= slots(t).insert(ns as int));
            } else {
                lemma_avl_insert_shape(*right, v, ns);
                let r2 = avl_insert(*right, v, ns);
                let t1 = TreeV::Node { slot, value, left, right: Box::new(r2) };
                assert(avl_insert(t, v, ns) == rebalance(t1));
                lemma_rebalance_props(t1);
                assert(shape_ok(t1));
                assert(slots(t1) =~= slots(t).insert(ns as int));
            }
        },
    }
}

/// Insertion keeps binary-search order; a bound that covers both the old
/// values and the new one covers the result.
pub proof fn lemma_avl_insert_bst(t: TreeV, v: u64, ns: nat)
    requires
        bst(t),
    ensures
        bst(avl_insert(t, v, ns)),
        forall|x: u64| all_le(t, x) && v <= x ==> #[trigger] all_le(avl_insert(t, v, ns), x),
        forall|x: u64| all_ge(t, x) && v >= x ==> #[trigger] all_ge(avl_insert(t, v, ns), x),
    decreases t,
{
    match t {
        TreeV::Nil => {
            let leaf = avl_insert(t, v, ns);
            assert(bst(leaf));
            assert forall|x: u64| v <= x implies #[trigger] all_le(leaf, x) by {
                assert(all_le(TreeV::Nil, x));
            }
            assert forall|x: u64| v >= x implies #[trigger] all_ge(leaf, x) by {
                assert(all_ge(TreeV::Nil, x));
            }
        },
        TreeV::Node { slot, value, left, right } => {
            if v < value {
                lemma_avl_insert_bst(*left, v, ns);
                let l2 = avl_insert(*left, v, ns);
                let t1 = TreeV::Node { slot, value, left: Box::new(l2), right };
                assert(avl_insert(t, v, ns) == rebalance(t1));
                lemma_rebalance_props(t1);
                assert(all_le(l2, value));
                assert(bst(t1));
                assert forall|x: u64| all_le(t, x) && v <= x implies #[trigger] all_le(
                    rebalance(t1),
                    x,
                ) by {
                    assert(all_le(l2, x));
                    assert(all_le(t1, x));
                }
                assert forall|x: u64| all_ge(t, x) && v >= x implies #[trigger] all_ge(
                    rebalance(t1),
                    x,
                ) by {
                    assert(all_ge(l2, x));
                    assert(all_ge(t1, x));
                }
            } else {
                lemma_avl_insert_bst(*right, v, ns);
                let r2 = avl_insert(*right, v, ns);
                let t1 = TreeV::Node { slot, value, left, right: Box::new(r2) };
                assert(avl_insert(t, v, ns) == rebalance(t1));
                lemma_rebalance_props(t1);
                assert(all_ge(r2, value));
                assert(bst(t1));
                assert forall|x: u64| all_le(t, x) && v <= x implies #[trigger] all_le(
                    rebalance(t1),
                    x,
                ) by {
                    assert(all_le(r2, x));
                    assert(all_le(t1, x));
                }
                assert forall|x: u64| all_ge(t, x) && v >= x implies #[trigger] all_ge(
                    rebalance(t1),
                    x,
                ) by {
                    assert(all_ge(r2, x));
                    assert(all_ge(t1, x));
                }
            }
        },
    }
}

/// Insertion adds exactly one occurrence of `v` to the stored values.
pub proof fn lemma_avl_insert_multiset(t: TreeV, v: u64, ns: nat)
    ensures
        to_seq(avl_insert(t, v, ns)).to_multiset() == to_seq(t).to_multiset().insert(v),
    decreases t,
{
    broadcast use vstd::seq_lib::group_to_multiset_ensures;
    broadcast use vstd::multiset::group_multiset_axioms;

    match t {
        TreeV::Nil => {
            let leaf = avl_insert(t, v, ns);
            assert(to_seq(leaf) =~= Seq::<u64>::empty().push(v));
            assert(to_seq(t) =~= Seq::<u64>::empty());
            assert(to_seq(leaf).to_multiset() =~= to_seq(t).to_multiset().insert(v));
        },
        TreeV::Node { slot, value, left, right } => {
            let a = to_seq(*left);
            let c = to_seq(*right);
            let mid = seq![value];
            assert(to_seq(t) == a + mid + c);
            if v < value {
                lemma_avl_insert_multiset(*left, v, ns);
                let l2 = avl_insert(*left, v, ns);
                let a2 = to_seq(l2);
                let t1 = TreeV::Node { slot, value, left: Box::new(l2), right };
                assert(avl_insert(t, v, ns) == rebalance(t1));
                lemma_rebalance_props(t1);
                assert(to_seq(t1) == a2 + mid + c);
                vstd::seq_lib::lemma_multiset_commutative(a2 + mid, c);
                vstd::seq_lib::lemma_multiset_commutative(a2, mid);
                vstd::seq_lib::lemma_multiset_commutative(a + mid, c);
                vstd::seq_lib::lemma_multiset_commutative(a, mid);
                assert(to_seq(t1).to_multiset() =~= to_seq(t).to_multiset().insert(v));
            } else {
                lemma_avl_insert_multiset(*right, v, ns);
                let r2 = avl_insert(*right, v, ns);
                let c2 = to_seq(r2);
                let t1 = TreeV::Node { slot, value, left, right: Box::new(r2) };
                assert(avl_insert(t, v, ns) == rebalance(t1));
                lemma_rebalance_props(t1);
                assert(to_seq(t1) == a + mid + c2);
                vstd::seq_lib::lemma_multiset_commutative(a + mid, c2);
                vstd::seq_lib::lemma_multiset_commutative(a + mid, c);
                assert(to_seq(t1).to_multiset() =~= to_seq(t).to_multiset().insert(v));
            }
        },
    }
}

/// A bound on all values of a subtree is the same as a bound on every entry
/// of its in-order sequence.
pub proof fn lemma_all_le_seq(t: TreeV, x: u64)
    ensures
        all_le(t, x) <==> (forall|i: int| 0 <= i < to_seq(t).len() ==> #[trigger] to_seq(t)[i]
            <= x),
    decreases t,
{
    match t {
        TreeV::Nil => {},
        TreeV::Node { value, left, right, .. } => {
            lemma_all_le_seq(*left, x);
            lemma_all_le_seq(*right, x);
            let s = to_seq(t);
            let a = to_seq(*left);
            let b = to_seq(*right);
            assert(s == a + seq![value] + b);
            if all_le(t, x) {
                assert forall|i: int| 0 <= i < s.len() implies #[trigger] s[i] <= x by {
                    if i < a.len() {
                        assert(s[i] == a[i]);
                    } else if i == a.len() {
                        assert(s[i] == value);
                    } else {
                        assert(s[i] == b[i - a.len() - 1]);
                    }
                }
            }
            if forall|i: int| 0 <= i < s.len() ==> #[trigger] s[i] <= x {
                assert forall|i: int| 0 <= i < a.len() implies #[trigger] a[i] <= x by {
                    assert(a[i] == s[i]);
                }
                assert forall|i: int| 0 <= i < b.len() implies #[trigger] b[i] <= x by {
                    assert(b[i] == s[i + a.len() + 1]);
                }
                assert(value == s[a.len() as int]);
            }
        },
    }
}

/// The lower-bound analogue of `lemma_all_le_seq`.
pub proof fn lemma_all_ge_seq(t: TreeV, x: u64)
    ensures
        all_ge(t, x) <==> (forall|i: int| 0 <= i < to_seq(t).len() ==> #[trigger] to_seq(t)[i]
            >= x),
    decreases t,
{
    match t {
        TreeV::Nil => {},
        TreeV::Node { value, left, right, .. } => {
            lemma_all_ge_seq(*left, x);
            lemma_all_ge_seq(*right, x);
            let s = to_seq(t);
            let a = to_seq(*left);
            let b = to_seq(*right);
            assert(s == a + seq![value] + b);
            if all_ge(t, x) {
                assert forall|i: int| 0 <= i < s.len() implies #[trigger] s[i] >= x by {
                    if i < a.len() {
                        assert(s[i] == a[i]);
                    } else if i == a.len() {
                        assert(s[i] == value);
                    } else {
                        assert(s[i] == b[i - a.len() - 1]);
                    }
                }
            }
            if forall|i: int| 0 <= i < s.len() ==> #[trigger] s[i] >= x {
                assert forall|i: int| 0 <= i < a.len() implies #[trigger] a[i] >= x by {
                    assert(a[i] == s[i]);
                }
                assert forall|i: int| 0 <= i < b.len() implies #[trigger] b[i] >= x by {
                    assert(b[i] == s[i + a.len() + 1]);
                }
                assert(value == s[a.len() as int]);
            }
        },
    }
}

/// The strict-bound analogue of `lemma_all_le_seq`.
pub proof fn lemma_all_lt_seq(t: TreeV, x: u64)
    ensures
        all_lt(t, x) <==> (forall|i: int| 0 <= i < to_seq(t).len() ==> #[trigger] to_seq(t)[i]
            < x),
    decreases t,
{
    match t {
        TreeV::Nil => {},
        TreeV::Node { value, left, right, .. } => {
            lemma_all_lt_seq(*left, x);
            lemma_all_lt_seq(*right, x);
            let s = to_seq(t);
            let a = to_seq(*left);
            let b = to_seq(*right);
            assert(s == a + seq![value] + b);
            if all_lt(t, x) {
                assert forall|i: int| 0 <= i < s.len() implies #[trigger] s[i] < x by {
                    if i < a.len() {
                        assert(s[i] == a[i]);
                    } else if i == a.len() {
                        assert(s[i] == value);
                    } else {
                        assert(s[i] == b[i - a.len() - 1]);
                    }
                }
            }
            if forall|i: int| 0 <= i < s.len() ==> #[trigger] s[i] < x {
                assert forall|i: int| 0 <= i < a.len() implies #[trigger] a[i] < x by {
                    assert(a[i] == s[i]);
                }
                assert forall|i: int| 0 <= i < b.len() implies #[trigger] b[i] < x by {
                    assert(b[i] == s[i + a.len() + 1]);
                }
                assert(value == s[a.len() as int]);
            }
        },
    }
}

/// In-order traversal of a search tree yields a sorted sequence.
pub proof fn lemma_bst_sorted(t: TreeV)
    requires
        bst(t),
    ensures
        sorted(to_seq(t)),
    decreases t,
{
    match t {
        TreeV::Nil => {},
        TreeV::Node { value, left, right, .. } => {
            lemma_bst_sorted(*left);
            lemma_bst_sorted(*right);
            lemma_all_le_seq(*left, value);
            lemma_all_ge_seq(*right, value);
            let s = to_seq(t);
            let a = to_seq(*left);
            let b = to_seq(*right);
            assert(s == a + seq![value] + b);
            assert forall|i: int, j: int| 0 <= i < j < s.len() implies #[trigger] s[i]
                <= #[trigger] s[j] by {
                if i < a.len() {
                    assert(s[i] == a[i]);
                    assert(s[i] <= value);
                } else if i == a.len() {
                    assert(s[i] == value);
                } else {
                    assert(s[i] == b[i - a.len() - 1]);
                }
                if j < a.len() {
                    assert(s[j] == a[j]);
                } else if j == a.len() {
                    assert(s[j] == value);
                } else {
                    assert(s[j] == b[j - a.len() - 1]);
                    assert(s[j] >= value);
                }
            }
        },
    }
}

/// A tree whose slots all lie below `n` has at most `n` nodes.
pub proof fn lemma_count_le_range(t: TreeV, n: int)
    requires
        shape_ok(t),
        slots(t).subset_of(vstd::set_lib::set_int_range(0, n)),
        0 <= n,
    ensures
        node_count(t) <= n,
{
    lemma_count_slots(t);
    vstd::set_lib::lemma_int_range(0, n);
    vstd::set_lib::lemma_len_subset(slots(t), vstd::set_lib::set_int_range(0, n));
}

/// The subtree of `t` rooted at the node occupying slot `s`; `Nil` when no
/// node occupies `s`.
pub open spec fn subtree_at(t: TreeV, s: nat) -> TreeV
    decreases t,
{
    match t {
        TreeV::Nil => TreeV::Nil,
        TreeV::Node { slot, left, right, .. } => {
            if slot == s {
                t
            } else if slots(*left).contains(s as int) {
                subtree_at(*left, s)
            } else {
                subtree_at(*right, s)
            }
        },
    }
}

/// Depth of the node occupying slot `s`: 0 at the root, one more per level.
pub open spec fn depth_of(t: TreeV, s: nat) -> nat
    decreases t,
{
    match t {
        TreeV::Nil => 0,
        TreeV::Node { slot, left, right, .. } => {
            if slot == s {
                0
            } else if slots(*left).contains(s as int) {
                1 + depth_of(*left, s)
            } else {
                1 + depth_of(*right, s)
            }
        },
    }
}

/// Slots are never negative.
pub proof fn lemma_slots_nonneg(t: TreeV)
    ensures
        forall|j: int| slots(t).contains(j) ==> j >= 0,
    decreases t,
{
    match t {
        TreeV::Nil => {},
        TreeV::Node { slot, left, right, .. } => {
            lemma_slots_nonneg(*left);
            lemma_slots_nonneg(*right);
            assert(slots(t) == slots(*left) + slots(*right) + set![slot as int]);
        },
    }
}

/// A search tree whose in-order sequence repeats no value satisfies the
/// strict order: left subtrees strictly below their node's value.
pub proof fn lemma_bst_strict(t: TreeV)
    requires
        bst(t),
        to_seq(t).no_duplicates(),
    ensures
        bst_strict(t),
    decreases t,
{
    match t {
        TreeV::Nil => {},
        TreeV::Node { value, left, right, .. } => {
            let s = to_seq(t);
            let a = to_seq(*left);
            let b = to_seq(*right);
            assert(s == a + seq![value] + b);
            assert(value == s[a.len() as int]);
            assert forall|i: int, j: int|
                0 <= i < a.len() && 0 <= j < a.len() && i != j implies a[i] != a[j] by {
                assert(a[i] == s[i] && a[j] == s[j]);
            }
            assert forall|i: int, j: int|
                0 <= i < b.len() && 0 <= j < b.len() && i != j implies b[i] != b[j] by {
                assert(b[i] == s[i + a.len() + 1] && b[j] == s[j + a.len() + 1]);
            }
            lemma_bst_strict(*left);
            lemma_bst_strict(*right);
            lemma_all_le_seq(*left, value);
            assert forall|i: int| 0 <= i < a.len() implies #[trigger] a[i] < value by {
                assert(a[i] == s[i]);
                assert(s[i] != s[a.len() as int]);
            }
            lemma_all_lt_seq(*left, value);
        },
    }
}

/// Left rotation applied at the node occupying slot `s`, wherever it stands
/// in the tree; identity when no node occupies `s` or the pivot has no right
/// child.
pub open spec fn rotate_left_at_slot(t: TreeV, s: nat) -> TreeV
    decreases t,
{
    match t {
        TreeV::Nil => t,
        TreeV::Node { slot, value, left, right } => {
            if slot == s {
                rotate_left_spec(t)
            } else {
                TreeV::Node {
                    slot,
                    value,
                    left: Box::new(rotate_left_at_slot(*left, s)),
                    right: Box::new(rotate_left_at_slot(*right, s)),
                }
            }
        },
    }
}

/// Right rotation applied at the node occupying slot `s`.
pub open spec fn rotate_right_at_slot(t: TreeV, s: nat) -> TreeV
    decreases t,
{
    match t {
        TreeV::Nil => t,
        TreeV::Node { slot, value, left, right } => {
            if slot == s {
                rotate_right_spec(t)
            } else {
                TreeV::Node {
                    slot,
                    value,
                    left: Box::new(rotate_right_at_slot(*left, s)),
                    right: Box::new(rotate_right_at_slot(*right, s)),
                }
            }
        },
    }
}

/// Whether a left rotation at slot `s` can fire: the node exists and has a
/// right child.
pub open spec fn rot_left_applies(t: TreeV, s: nat) -> bool
    decreases t,
{
    match t {
        TreeV::Nil => false,
        TreeV::Node { slot, left, right, .. } => {
            if slot == s {
                *right is Node
            } else {
                rot_left_applies(*left, s) || rot_left_applies(*right, s)
            }
        },
    }
}

/// Whether a right rotation at slot `s` can fire.
pub open spec fn rot_right_applies(t: TreeV, s: nat) -> bool
    decreases t,
{
    match t {
        TreeV::Nil => false,
        TreeV::Node { slot, left, right, .. } => {
            if slot == s {
                *left is Node
            } else {
                rot_right_applies(*left, s) || rot_right_applies(*right, s)
            }
        },
    }
}

/// A rotation anywhere in the tree keeps the in-order sequence, the slots,
/// the node count, the shape and the search order.
pub proof fn lemma_rotate_left_at_slot_props(t: TreeV, s: nat)
    ensures
        to_seq(rotate_left_at_slot(t, s)) == to_seq(t),
        slots(rotate_left_at_slot(t, s)) == slots(t),
        node_count(rotate_left_at_slot(t, s)) == node_count(t),
        shape_ok(t) ==> shape_ok(rotate_left_at_slot(t, s)),
        bst(t) ==> bst(rotate_left_at_slot(t, s)),
        t is Node ==> rotate_left_at_slot(t, s) is Node,
    decreases t,
{
    match t {
        TreeV::Nil => {},
        TreeV::Node { slot, value, left, right } => {
            if slot == s {
                lemma_rotate_left_props(t);
                assert(rotate_left_spec(t) is Node);
            } else {
                lemma_rotate_left_at_slot_props(*left, s);
                lemma_rotate_left_at_slot_props(*right, s);
                let l2 = rotate_left_at_slot(*left, s);
                let r2 = rotate_left_at_slot(*right, s);
                let res = rotate_left_at_slot(t, s);
                assert(res == (TreeV::Node {
                    slot,
                    value,
                    left: Box::new(l2),
                    right: Box::new(r2),
                }));
                assert(to_seq(res) == to_seq(l2) + seq![value] + to_seq(r2));
                assert(to_seq(res) =~= to_seq(t));
                assert(slots(res) == slots(l2) + slots(r2) + set![slot as int]);
                assert(slots(res) =~= slots(t));
                if shape_ok(t) {
                    assert(shape_ok(res));
                }
                if bst(t) {
                    lemma_all_le_seq(*left, value);
                    lemma_all_le_seq(l2, value);
                    lemma_all_ge_seq(*right, value);
                    lemma_all_ge_seq(r2, value);
                    assert(all_le(l2, value));
                    assert(all_ge(r2, value));
                    assert(bst(res));
                }
            }
        },
    }
}

/// The mirror of `lemma_rotate_left_at_slot_props`.
pub proof fn lemma_rotate_right_at_slot_props(t: TreeV, s: nat)
    ensures
        to_seq(rotate_right_at_slot(t, s)) == to_seq(t),
        slots(rotate_right_at_slot(t, s)) == slots(t),
        node_count(rotate_right_at_slot(t, s)) == node_count(t),
        shape_ok(t) ==> shape_ok(rotate_right_at_slot(t, s)),
        bst(t) ==> bst(rotate_right_at_slot(t, s)),
        t is Node ==> rotate_right_at_slot(t, s) is Node,
    decreases t,
{
    match t {
        TreeV::Nil => {},
        TreeV::Node { slot, value, left, right } => {
            if slot == s {
                lemma_rotate_right_props(t);
                assert(rotate_right_spec(t) is Node);
            } else {
                lemma_rotate_right_at_slot_props(*left, s);
                lemma_rotate_right_at_slot_props(*right, s);
                let l2 = rotate_right_at_slot(*left, s);
                let r2 = rotate_right_at_slot(*right, s);
                let res = rotate_right_at_slot(t, s);
                assert(res == (TreeV::Node {
                    slot,
                    value,
                    left: Box::new(l2),
                    right: Box::new(r2),
                }));
                assert(to_seq(res) == to_seq(l2) + seq![value] + to_seq(r2));
                assert(to_seq(res) =~= to_seq(t));
                assert(slots(res) == slots(l2) + slots(r2) + set![slot as int]);
                assert(slots(res) =~= slots(t));
                if shape_ok(t) {
                    assert(shape_ok(res));
                }
                if bst(t) {
                    lemma_all_le_seq(*left, value);
                    lemma_all_le_seq(l2, value);
                    lemma_all_ge_seq(*right, value);
                    lemma_all_ge_seq(r2, value);
                    assert(all_le(l2, value));
                    assert(all_ge(r2, value));
                    assert(bst(res));
                }
            }
        },
    }
}

/// The in-order sequence has one entry per node.
pub proof fn lemma_to_seq_len(t: TreeV)
    ensures
        to_seq(t).len() == node_count(t),
    decreases t,
{
    match t {
        TreeV::Nil => {},
        TreeV::Node { left, right, .. } => {
            lemma_to_seq_len(*left);
            lemma_to_seq_len(*right);
        },
    }
}

} // verus!
