//! The node store and the balanced-tree operations over it.
//!
//! All nodes live in one growable, append-only `Vec`; they refer to each
//! other by slot index only. The arena is specified against the abstract
//! model in `crate::model`: a ghost `TreeV` mirrors the concrete links, and
//! `opt_matches` ties every stored field (children, parent, height, value)
//! to the model.

use vstd::prelude::*;

use crate::model::{
    all_ge, all_le, avl_insert, balanced, bst, height, node_count, rebalance, rotate_left_spec,
    rotate_right_spec, shape_ok, slots, sorted, subtree_at, to_seq, TreeV,
};

verus! {

/// One node of the tree. Children and parent are optional slot indices into
/// the owning arena; `height` is the height of the subtree rooted here.
#[derive(Clone, Copy, Debug, PartialEq, Eq, Structural)]
pub struct AVLTreeNode {
    pub left: Option<usize>,
    pub right: Option<usize>,
    pub parent: Option<usize>,
    pub height: u64,
    pub value: u64,
}

/// The node store plus the tree bookkeeping: the sole owner of all nodes,
/// with the root's slot cached (rotations keep the cache current) and a
/// ghost abstract tree that the verified operations maintain.
pub struct AVLTreeArena {
    store: Vec<AVLTreeNode>,
    root: usize,
    tree: Ghost<TreeV>,
}

/// The subtree reached through the optional slot `opt` matches the abstract
/// tree `t`: same value, a parent link equal to `parent`, a stored height
/// equal to the recursively computed height of `t`, and children that match
/// `t`'s subtrees in turn.
pub open spec fn opt_matches(
    store: Seq<AVLTreeNode>,
    opt: Option<usize>,
    parent: Option<usize>,
    t: TreeV,
) -> bool
    decreases t,
{
    match t {
        TreeV::Nil => opt is None,
        TreeV::Node { slot, value, left, right } => match opt {
            Option::None => false,
            Option::Some(i) => {
                &&& i as nat == slot
                &&& (i as int) < store.len()
                &&& store[i as int].value == value
                &&& store[i as int].parent == parent
                &&& store[i as int].height as nat == height(t)
                &&& opt_matches(store, store[i as int].left, Some(i), *left)
                &&& opt_matches(store, store[i as int].right, Some(i), *right)
            },
        },
    }
}

/// Slot of the root of a non-empty abstract tree.
pub open spec fn root_of(t: TreeV) -> nat {
    match t {
        TreeV::Nil => 0,
        TreeV::Node { slot, .. } => slot,
    }
}

/// Matching is stable under store changes outside the subtree's slots; the
/// store may also grow.
pub proof fn lemma_opt_matches_frame(
    store1: Seq<AVLTreeNode>,
    store2: Seq<AVLTreeNode>,
    opt: Option<usize>,
    parent: Option<usize>,
    t: TreeV,
)
    requires
        opt_matches(store1, opt, parent, t),
        store2.len() >= store1.len(),
        forall|j: int| slots(t).contains(j) && 0 <= j < store1.len() ==> store2[j] == store1[j],
    ensures
        opt_matches(store2, opt, parent, t),
    decreases t,
{
    match t {
        TreeV::Nil => {},
        TreeV::Node { slot, value, left, right } => {
            let i = slot as int;
            assert(slots(t) == slots(*left) + slots(*right) + set![i]);
            assert(slots(t).contains(i));
            assert(store2[i] == store1[i]);
            assert(forall|j: int| slots(*left).contains(j) ==> #[trigger] slots(t).contains(j));
            assert(forall|j: int| slots(*right).contains(j) ==> #[trigger] slots(t).contains(j));
            lemma_opt_matches_frame(store1, store2, store1[i].left, Some(slot as usize), *left);
            lemma_opt_matches_frame(store1, store2, store1[i].right, Some(slot as usize), *right);
        },
    }
}

/// Matching survives rewriting the subtree root's parent link (and nothing
/// else), with the surrounding store unchanged on the subtree's other slots.
pub proof fn lemma_opt_matches_reparent(
    store1: Seq<AVLTreeNode>,
    store2: Seq<AVLTreeNode>,
    opt: Option<usize>,
    parent1: Option<usize>,
    parent2: Option<usize>,
    t: TreeV,
)
    requires
        opt_matches(store1, opt, parent1, t),
        shape_ok(t),
        t is Node,
        store2.len() >= store1.len(),
        forall|j: int|
            slots(t).contains(j) && j != root_of(t) as int && 0 <= j < store1.len()
                ==> store2[j] == store1[j],
        store2[root_of(t) as int].left == store1[root_of(t) as int].left,
        store2[root_of(t) as int].right == store1[root_of(t) as int].right,
        store2[root_of(t) as int].height == store1[root_of(t) as int].height,
        store2[root_of(t) as int].value == store1[root_of(t) as int].value,
        store2[root_of(t) as int].parent == parent2,
    ensures
        opt_matches(store2, opt, parent2, t),
{
    match t {
        TreeV::Nil => {},
        TreeV::Node { slot, value, left, right } => {
            let i = slot as int;
            assert(slots(t) == slots(*left) + slots(*right) + set![i]);
            assert(forall|j: int| slots(*left).contains(j) ==> #[trigger] slots(t).contains(j));
            assert(forall|j: int| slots(*right).contains(j) ==> #[trigger] slots(t).contains(j));
            assert(!slots(*left).contains(i) && !slots(*right).contains(i));
            lemma_opt_matches_frame(store1, store2, store1[i].left, Some(slot as usize), *left);
            lemma_opt_matches_frame(store1, store2, store1[i].right, Some(slot as usize), *right);
        },
    }
}

/// Reads the stored height of an optional subtree root: 0 when absent. By
/// the correspondence this is the height of the abstract subtree.
fn opt_height(
    store: &Vec<AVLTreeNode>,
    opt: Option<usize>,
    Ghost(parent): Ghost<Option<usize>>,
    Ghost(t): Ghost<TreeV>,
) -> (h: u64)
    requires
        opt_matches(store@, opt, parent, t),
    ensures
        h as nat == height(t),
{
    match opt {
        None => {
            proof {
                assert(t is Nil);
                assert(height(TreeV::Nil) == 0);
            }
            0
        },
        Some(i) => {
            proof {
                assert(t is Node);
            }
            store[i].height
        },
    }
}

/// Left rotation of the subtree rooted at `pivot`: the right child becomes
/// the subtree root. Child, parent and height fields are rewired exactly as
/// `rotate_left_spec` describes; heights are recomputed child-first. The
/// caller relinks its own child pointer to the returned slot.
fn rotate_left_at(
    store: &mut Vec<AVLTreeNode>,
    pivot: usize,
    parent: Option<usize>,
    Ghost(t): Ghost<TreeV>,
) -> (r: usize)
    requires
        opt_matches(old(store)@, Some(pivot), parent, t),
        shape_ok(t),
        slots(t).subset_of(vstd::set_lib::set_int_range(0, old(store)@.len() as int)),
        (match t {
            TreeV::Node { right, .. } => *right is Node,
            TreeV::Nil => false,
        }),
    ensures
        final(store)@.len() == old(store)@.len(),
        forall|j: int|
            0 <= j < final(store)@.len() && !slots(t).contains(j) ==> final(store)@[j] == old(
                store,
            )@[j],
        opt_matches(final(store)@, Some(r), parent, rotate_left_spec(t)),
        slots(t).contains(r as int),
{
    let ghost store0 = old(store)@;
    let ghost (pslot, pval, a, rt) = (match t {
        TreeV::Node { slot, value, left, right } => (slot, value, *left, *right),
        TreeV::Nil => (0 as nat, 0u64, TreeV::Nil, TreeV::Nil),
    });
    let ghost (qslot, qval, b, c) = (match rt {
        TreeV::Node { slot, value, left, right } => (slot, value, *left, *right),
        TreeV::Nil => (0 as nat, 0u64, TreeV::Nil, TreeV::Nil),
    });
    proof {
        assert(slots(t) == slots(a) + slots(rt) + set![pslot as int]);
        assert(slots(rt) == slots(b) + slots(c) + set![qslot as int]);
        assert(slots(t).contains(pslot as int));
        assert(slots(rt).contains(qslot as int));
        assert(forall|j: int| slots(a).contains(j) ==> #[trigger] slots(t).contains(j));
        assert(forall|j: int| slots(rt).contains(j) ==> #[trigger] slots(t).contains(j));
        assert(forall|j: int| slots(b).contains(j) ==> #[trigger] slots(rt).contains(j));
        assert(forall|j: int| slots(c).contains(j) ==> #[trigger] slots(rt).contains(j));
        assert(shape_ok(rt));
        crate::model::lemma_height_le_count(a);
        crate::model::lemma_height_le_count(b);
        crate::model::lemma_height_le_count(c);
        crate::model::lemma_count_le_range(t, store0.len() as int);
        assert(node_count(t) == 1 + node_count(a) + node_count(rt));
        assert(node_count(rt) == 1 + node_count(b) + node_count(c));
    }
    let n = store.len();
    proof {
        assert(store0.len() == n);
        assert(opt_matches(store0, store0[pivot as int].left, Some(pivot), a));
        assert(opt_matches(store0, store0[pivot as int].right, Some(pivot), rt));
    }
    let node = store[pivot];
    let q: usize = match node.right {
        Some(qq) => qq,
        None => {
            proof {
                assert(false);
            }
            0
        },
    };
    proof {
        assert(q as nat == qslot && (q as int) < store0.len());
        assert(opt_matches(store0, store0[q as int].left, Some(q), b));
        assert(opt_matches(store0, store0[q as int].right, Some(q), c));
    }
    let qnode = store[q];
    let ah = opt_height(store, node.left, Ghost(Some(pivot)), Ghost(a));
    let bh = opt_height(store, qnode.left, Ghost(Some(q)), Ghost(b));
    let ch = opt_height(store, qnode.right, Ghost(Some(q)), Ghost(c));
    proof {
        assert(height(a) + 2 <= node_count(t));
        assert(height(b) + 2 <= node_count(t));
        assert(height(c) + 2 <= node_count(t));
        assert(node_count(t) <= store0.len());
    }
    let nh = (if ah >= bh {
        ah
    } else {
        bh
    }) + 1;
    let qh = (if nh >= ch {
        nh
    } else {
        ch
    }) + 1;
    store[pivot] = AVLTreeNode {
        left: node.left,
        right: qnode.left,
        parent: Some(q),
        height: nh,
        value: node.value,
    };
    if let Some(broot) = qnode.left {
        let bn = store[broot];
        store[broot] = AVLTreeNode {
            left: bn.left,
            right: bn.right,
            parent: Some(pivot),
            height: bn.height,
            value: bn.value,
        };
    }
    store[q] = AVLTreeNode {
        left: Some(pivot),
        right: qnode.right,
        parent,
        height: qh,
        value: qnode.value,
    };
    proof {
        let store3 = store@;
        let nl = TreeV::Node { slot: pslot, value: pval, left: Box::new(a), right: Box::new(b) };
        let res = TreeV::Node {
            slot: qslot,
            value: qval,
            left: Box::new(nl),
            right: Box::new(c),
        };
        assert(rotate_left_spec(t) == res);
        // The three writes touch `pivot`, `q` and (when present) the root
        // of `b`; everything else is untouched.
        assert(!slots(a).contains(qslot as int));
        assert(b is Node ==> slots(b).contains(root_of(b) as int) && !slots(a).contains(
            root_of(b) as int,
        ) && !slots(c).contains(root_of(b) as int) && root_of(b) != pslot && root_of(b) != qslot);
        assert(forall|j: int|
            0 <= j < store3.len() && j != pslot as int && j != qslot as int && !(
            b is Node && j == root_of(b) as int) ==> store3[j] == store0[j]);
        // the untouched left subtree
        lemma_opt_matches_frame(store0, store3, store0[pslot as int].left, Some(pivot), a);
        // the untouched far-right subtree
        lemma_opt_matches_frame(store0, store3, store0[qslot as int].right, Some(q), c);
        // the transplanted middle subtree: same nodes, new parent
        if b is Node {
            lemma_opt_matches_reparent(
                store0,
                store3,
                store0[qslot as int].left,
                Some(q),
                Some(pivot),
                b,
            );
        }
        assert(height(nl) == 1 + if height(a) >= height(b) {
            height(a)
        } else {
            height(b)
        });
        assert(qslot != pslot);
        assert(store3[pslot as int].left == node.left);
        assert(store3[pslot as int].right == qnode.left);
        assert(store3[pslot as int].parent == Some(q));
        assert(store3[pslot as int].height == nh);
        assert(store3[pslot as int].value == pval);
        assert(nh as nat == height(nl));
        assert(opt_matches(store3, node.left, Some(pivot), a));
        if b is Nil {
            assert(qnode.left is None);
            assert(opt_matches(store3, qnode.left, Some(pivot), b));
        } else {
            assert(opt_matches(store3, qnode.left, Some(pivot), b));
        }
        assert(opt_matches(store3, Some(pivot), Some(q), nl));
        assert(height(res) == 1 + if height(nl) >= height(c) {
            height(nl)
        } else {
            height(c)
        });
        assert(opt_matches(store3, Some(q), parent, res));
    }
    q
}

/// Right rotation of the subtree rooted at `pivot`: the mirror image of
/// `rotate_left_at`.
fn rotate_right_at(
    store: &mut Vec<AVLTreeNode>,
    pivot: usize,
    parent: Option<usize>,
    Ghost(t): Ghost<TreeV>,
) -> (r: usize)
    requires
        opt_matches(old(store)@, Some(pivot), parent, t),
        shape_ok(t),
        slots(t).subset_of(vstd::set_lib::set_int_range(0, old(store)@.len() as int)),
        (match t {
            TreeV::Node { left, .. } => *left is Node,
            TreeV::Nil => false,
        }),
    ensures
        final(store)@.len() == old(store)@.len(),
        forall|j: int|
            0 <= j < final(store)@.len() && !slots(t).contains(j) ==> final(store)@[j] == old(
                store,
            )@[j],
        opt_matches(final(store)@, Some(r), parent, rotate_right_spec(t)),
        slots(t).contains(r as int),
{
    let ghost store0 = old(store)@;
    let ghost (pslot, pval, lt, c) = (match t {
        TreeV::Node { slot, value, left, right } => (slot, value, *left, *right),
        TreeV::Nil => (0 as nat, 0u64, TreeV::Nil, TreeV::Nil),
    });
    let ghost (qslot, qval, a, b) = (match lt {
        TreeV::Node { slot, value, left, right } => (slot, value, *left, *right),
        TreeV::Nil => (0 as nat, 0u64, TreeV::Nil, TreeV::Nil),
    });
    proof {
        assert(slots(t) == slots(lt) + slots(c) + set![pslot as int]);
        assert(slots(lt) == slots(a) + slots(b) + set![qslot as int]);
        assert(slots(t).contains(pslot as int));
        assert(slots(lt).contains(qslot as int));
        assert(forall|j: int| slots(lt).contains(j) ==> #[trigger] slots(t).contains(j));
        assert(forall|j: int| slots(c).contains(j) ==> #[trigger] slots(t).contains(j));
        assert(forall|j: int| slots(a).contains(j) ==> #[trigger] slots(lt).contains(j));
        assert(forall|j: int| slots(b).contains(j) ==> #[trigger] slots(lt).contains(j));
        assert(shape_ok(lt));
        crate::model::lemma_height_le_count(a);
        crate::model::lemma_height_le_count(b);
        crate::model::lemma_height_le_count(c);
        crate::model::lemma_count_le_range(t, store0.len() as int);
        assert(node_count(t) == 1 + node_count(lt) + node_count(c));
        assert(node_count(lt) == 1 + node_count(a) + node_count(b));
    }
    let n = store.len();
    proof {
        assert(store0.len() == n);
        assert(opt_matches(store0, store0[pivot as int].left, Some(pivot), lt));
        assert(opt_matches(store0, store0[pivot as int].right, Some(pivot), c));
    }
    let node = store[pivot];
    let q: usize = match node.left {
        Some(qq) => qq,
        None => {
            proof {
                assert(false);
            }
            0
        },
    };
    proof {
        assert(q as nat == qslot && (q as int) < store0.len());
        assert(opt_matches(store0, store0[q as int].left, Some(q), a));
        assert(opt_matches(store0, store0[q as int].right, Some(q), b));
    }
    let qnode = store[q];
    let bh = opt_height(store, qnode.right, Ghost(Some(q)), Ghost(b));
    let ch = opt_height(store, node.right, Ghost(Some(pivot)), Ghost(c));
    let ah = opt_height(store, qnode.left, Ghost(Some(q)), Ghost(a));
    proof {
        assert(height(a) + 2 <= node_count(t));
        assert(height(b) + 2 <= node_count(t));
        assert(height(c) + 2 <= node_count(t));
        assert(node_count(t) <= store0.len());
    }
    let nh = (if bh >= ch {
        bh
    } else {
        ch
    }) + 1;
    let qh = (if ah >= nh {
        ah
    } else {
        nh
    }) + 1;
    store[pivot] = AVLTreeNode {
        left: qnode.right,
        right: node.right,
        parent: Some(q),
        height: nh,
        value: node.value,
    };
    if let Some(broot) = qnode.right {
        let bn = store[broot];
        store[broot] = AVLTreeNode {
            left: bn.left,
            right: bn.right,
            parent: Some(pivot),
            height: bn.height,
            value: bn.value,
        };
    }
    store[q] = AVLTreeNode {
        left: qnode.left,
        right: Some(pivot),
        parent,
        height: qh,
        value: qnode.value,
    };
    proof {
        let store3 = store@;
        let nr = TreeV::Node { slot: pslot, value: pval, left: Box::new(b), right: Box::new(c) };
        let res = TreeV::Node {
            slot: qslot,
            value: qval,
            left: Box::new(a),
            right: Box::new(nr),
        };
        assert(rotate_right_spec(t) == res);
        assert(!slots(c).contains(qslot as int));
        assert(b is Node ==> slots(b).contains(root_of(b) as int) && !slots(a).contains(
            root_of(b) as int,
        ) && !slots(c).contains(root_of(b) as int) && root_of(b) != pslot && root_of(b) != qslot);
        assert(forall|j: int|
            0 <= j < store3.len() && j != pslot as int && j != qslot as int && !(
            b is Node && j == root_of(b) as int) ==> store3[j] == store0[j]);
        // the untouched far-left subtree
        lemma_opt_matches_frame(store0, store3, store0[qslot as int].left, Some(q), a);
        // the untouched right subtree
        lemma_opt_matches_frame(store0, store3, store0[pslot as int].right, Some(pivot), c);
        // the transplanted middle subtree: same nodes, new parent
        if b is Node {
            lemma_opt_matches_reparent(
                store0,
                store3,
                store0[qslot as int].right,
                Some(q),
                Some(pivot),
                b,
            );
        }
        assert(height(nr) == 1 + if height(b) >= height(c) {
            height(b)
        } else {
            height(c)
        });
        assert(qslot != pslot);
        assert(store3[pslot as int].left == qnode.right);
        assert(store3[pslot as int].right == node.right);
        assert(store3[pslot as int].parent == Some(q));
        assert(store3[pslot as int].height == nh);
        assert(store3[pslot as int].value == pval);
        assert(nh as nat == height(nr));
        assert(opt_matches(store3, node.right, Some(pivot), c));
        if b is Nil {
            assert(qnode.right is None);
            assert(opt_matches(store3, qnode.right, Some(pivot), b));
        } else {
            assert(opt_matches(store3, qnode.right, Some(pivot), b));
        }
        assert(opt_matches(store3, Some(pivot), Some(q), nr));
        assert(height(res) == 1 + if height(a) >= height(nr) {
            height(a)
        } else {
            height(nr)
        });
        assert(opt_matches(store3, Some(q), parent, res));
    }
    q
}

/// Applies at most one rebalancing step at node `i`, whose stored height is
/// already up to date for `t`: when the children's heights differ by more
/// than one, the single or double rotation chosen by `rebalance` is applied;
/// the new subtree root is returned.
fn rebalance_at(
    store: &mut Vec<AVLTreeNode>,
    i: usize,
    parent: Option<usize>,
    Ghost(t): Ghost<TreeV>,
) -> (r: usize)
    requires
        opt_matches(old(store)@, Some(i), parent, t),
        shape_ok(t),
        slots(t).subset_of(vstd::set_lib::set_int_range(0, old(store)@.len() as int)),
    ensures
        final(store)@.len() == old(store)@.len(),
        forall|j: int|
            0 <= j < final(store)@.len() && !slots(t).contains(j) ==> final(store)@[j] == old(
                store,
            )@[j],
        opt_matches(final(store)@, Some(r), parent, rebalance(t)),
        slots(t).contains(r as int),
    decreases t,
{
    let ghost store0 = old(store)@;
    let ghost (tslot, tval, lt, rt) = (match t {
        TreeV::Node { slot, value, left, right } => (slot, value, *left, *right),
        TreeV::Nil => (0 as nat, 0u64, TreeV::Nil, TreeV::Nil),
    });
    proof {
        assert(slots(t) == slots(lt) + slots(rt) + set![tslot as int]);
        assert(forall|j: int| slots(lt).contains(j) ==> #[trigger] slots(t).contains(j));
        assert(forall|j: int| slots(rt).contains(j) ==> #[trigger] slots(t).contains(j));
        assert(opt_matches(store0, store0[i as int].left, Some(i), lt));
        assert(opt_matches(store0, store0[i as int].right, Some(i), rt));
        crate::model::lemma_count_le_range(t, store0.len() as int);
        assert(node_count(t) == 1 + node_count(lt) + node_count(rt));
    }
    let node = store[i];
    let lh = opt_height(store, node.left, Ghost(Some(i)), Ghost(lt));
    let rh = opt_height(store, node.right, Ghost(Some(i)), Ghost(rt));
    if lh > rh && lh - rh > 1 {
        let l: usize = match node.left {
            Some(ll) => ll,
            None => {
                proof {
                    assert(height(TreeV::Nil) == 0);
                    assert(false);
                }
                0
            },
        };
        let ghost (lslot, lval, la, lb) = (match lt {
            TreeV::Node { slot, value, left, right } => (slot, value, *left, *right),
            TreeV::Nil => (0 as nat, 0u64, TreeV::Nil, TreeV::Nil),
        });
        proof {
            assert(lt is Node);
            assert(l as nat == lslot && (l as int) < store0.len());
            assert(opt_matches(store0, store0[l as int].left, Some(l), la));
            assert(opt_matches(store0, store0[l as int].right, Some(l), lb));
            assert(slots(lt) == slots(la) + slots(lb) + set![lslot as int]);
        }
        let lnode = store[l];
        let llh = opt_height(store, lnode.left, Ghost(Some(l)), Ghost(la));
        let lrh = opt_height(store, lnode.right, Ghost(Some(l)), Ghost(lb));
        if lrh > llh {
            proof {
                assert(height(lb) > 0);
                assert(lb is Node);
            }
            let nl = rotate_left_at(store, l, Some(i), Ghost(lt));
            let ghost store1 = store@;
            let ghost ltr = rotate_left_spec(lt);
            let n = store.len();
            proof {
                assert(store@.len() == n && store0.len() == n);
                crate::model::lemma_rotate_left_props(lt);
                crate::model::lemma_height_le_count(ltr);
                crate::model::lemma_height_le_count(rt);
                assert(node_count(ltr) == node_count(lt));
                assert(height(ltr) + 1 <= node_count(t));
                assert(height(rt) + 1 <= node_count(t));
            }
            let lh2 = opt_height(store, Some(nl), Ghost(Some(i)), Ghost(ltr));
            let nh = (if lh2 >= rh {
                lh2
            } else {
                rh
            }) + 1;
            store[i] = AVLTreeNode {
                left: Some(nl),
                right: node.right,
                parent: node.parent,
                height: nh,
                value: node.value,
            };
            let ghost t2 = TreeV::Node {
                slot: tslot,
                value: tval,
                left: Box::new(ltr),
                right: Box::new(rt),
            };
            proof {
                let store2 = store@;
                assert(!slots(lt).contains(tslot as int));
                assert(store2 == store1.update(i as int, store2[i as int]));
                lemma_opt_matches_frame(store1, store2, Some(nl), Some(i), ltr);
                assert(forall|j: int|
                    slots(rt).contains(j) && 0 <= j < store0.len() ==> store2[j] == store0[j]);
                lemma_opt_matches_frame(store0, store2, node.right, Some(i), rt);
                assert(height(t2) == 1 + if height(ltr) >= height(rt) {
                    height(ltr)
                } else {
                    height(rt)
                });
                assert(store2[tslot as int].height == nh && nh as nat == height(t2));
                assert(opt_matches(store2, Some(i), parent, t2));
                assert(shape_ok(ltr));
                assert(slots(t2) =~= slots(t));
                assert(shape_ok(t2));
                assert(ltr is Node);
                assert(rebalance(t) == rotate_right_spec(t2));
            }
            let r = rotate_right_at(store, i, parent, Ghost(t2));
            proof {
                assert(slots(t2) == slots(t));
            }
            r
        } else {
            proof {
                assert(rebalance(t) == rotate_right_spec(t));
            }
            rotate_right_at(store, i, parent, Ghost(t))
        }
    } else if rh > lh && rh - lh > 1 {
        let rr: usize = match node.right {
            Some(x) => x,
            None => {
                proof {
                    assert(height(TreeV::Nil) == 0);
                    assert(false);
                }
                0
            },
        };
        let ghost (rslot, rval, ra, rb) = (match rt {
            TreeV::Node { slot, value, left, right } => (slot, value, *left, *right),
            TreeV::Nil => (0 as nat, 0u64, TreeV::Nil, TreeV::Nil),
        });
        proof {
            assert(rt is Node);
            assert(rr as nat == rslot && (rr as int) < store0.len());
            assert(opt_matches(store0, store0[rr as int].left, Some(rr), ra));
            assert(opt_matches(store0, store0[rr as int].right, Some(rr), rb));
            assert(slots(rt) == slots(ra) + slots(rb) + set![rslot as int]);
        }
        let rnode = store[rr];
        let rlh = opt_height(store, rnode.left, Ghost(Some(rr)), Ghost(ra));
        let rrh = opt_height(store, rnode.right, Ghost(Some(rr)), Ghost(rb));
        if rlh > rrh {
            proof {
                assert(height(ra) > 0);
                assert(ra is Node);
            }
            let nr = rotate_right_at(store, rr, Some(i), Ghost(rt));
            let ghost store1 = store@;
            let ghost rtr = rotate_right_spec(rt);
            let n = store.len();
            proof {
                assert(store@.len() == n && store0.len() == n);
                crate::model::lemma_rotate_right_props(rt);
                crate::model::lemma_height_le_count(rtr);
                crate::model::lemma_height_le_count(lt);
                assert(node_count(rtr) == node_count(rt));
                assert(height(rtr) + 1 <= node_count(t));
                assert(height(lt) + 1 <= node_count(t));
            }
            let rh2 = opt_height(store, Some(nr), Ghost(Some(i)), Ghost(rtr));
            let nh = (if lh >= rh2 {
                lh
            } else {
                rh2
            }) + 1;
            store[i] = AVLTreeNode {
                left: node.left,
                right: Some(nr),
                parent: node.parent,
                height: nh,
                value: node.value,
            };
            let ghost t2 = TreeV::Node {
                slot: tslot,
                value: tval,
                left: Box::new(lt),
                right: Box::new(rtr),
            };
            proof {
                let store2 = store@;
                assert(!slots(rt).contains(tslot as int));
                assert(store2 == store1.update(i as int, store2[i as int]));
                lemma_opt_matches_frame(store1, store2, Some(nr), Some(i), rtr);
                assert(forall|j: int|
                    slots(lt).contains(j) && 0 <= j < store0.len() ==> store2[j] == store0[j]);
                lemma_opt_matches_frame(store0, store2, node.left, Some(i), lt);
                assert(height(t2) == 1 + if height(lt) >= height(rtr) {
                    height(lt)
                } else {
                    height(rtr)
                });
                assert(store2[tslot as int].height == nh && nh as nat == height(t2));
                assert(opt_matches(store2, Some(i), parent, t2));
                assert(shape_ok(rtr));
                assert(slots(t2) =~= slots(t));
                assert(shape_ok(t2));
                assert(rtr is Node);
                assert(rebalance(t) == rotate_left_spec(t2));
            }
            let r = rotate_left_at(store, i, parent, Ghost(t2));
            proof {
                assert(slots(t2) == slots(t));
            }
            r
        } else {
            proof {
                assert(rebalance(t) == rotate_left_spec(t));
            }
            rotate_left_at(store, i, parent, Ghost(t))
        }
    } else {
        proof {
            assert(rebalance(t) == t);
        }
        i
    }
}

/// Every stored height within a matched subtree equals the height of the
/// subtree rooted at that slot.
pub proof fn lemma_heights_in_subtree(
    store: Seq<AVLTreeNode>,
    opt: Option<usize>,
    parent: Option<usize>,
    t: TreeV,
)
    requires
        opt_matches(store, opt, parent, t),
        shape_ok(t),
    ensures
        forall|s: int|
            slots(t).contains(s) ==> #[trigger] store[s].height as nat == height(
                subtree_at(t, s as nat),
            ),
    decreases t,
{
    crate::model::lemma_slots_nonneg(t);
    match t {
        TreeV::Nil => {},
        TreeV::Node { slot, left, right, .. } => {
            let i = slot as int;
            assert(slots(t) == slots(*left) + slots(*right) + set![i]);
            lemma_heights_in_subtree(store, store[i].left, Some(slot as usize), *left);
            lemma_heights_in_subtree(store, store[i].right, Some(slot as usize), *right);
            assert forall|s: int| slots(t).contains(s) implies #[trigger] store[s].height as nat
                == height(subtree_at(t, s as nat)) by {
                if s == i {
                    assert(subtree_at(t, s as nat) == t);
                } else if slots(*left).contains(s) {
                    assert(subtree_at(t, s as nat) == subtree_at(*left, s as nat));
                } else {
                    assert(slots(*right).contains(s));
                    assert(subtree_at(t, s as nat) == subtree_at(*right, s as nat));
                }
            }
        },
    }
}

/// Within a matched subtree, every node but the subtree's own root carries a
/// `Some` parent link, and the root carries exactly the link that was passed
/// down.
pub proof fn lemma_parents_in_subtree(
    store: Seq<AVLTreeNode>,
    opt: Option<usize>,
    parent: Option<usize>,
    t: TreeV,
)
    requires
        opt_matches(store, opt, parent, t),
        shape_ok(t),
    ensures
        forall|s: int|
            slots(t).contains(s) && s != root_of(t) as int
                ==> #[trigger] store[s].parent is Some,
        t is Node ==> store[root_of(t) as int].parent == parent,
    decreases t,
{
    crate::model::lemma_slots_nonneg(t);
    match t {
        TreeV::Nil => {},
        TreeV::Node { slot, left, right, .. } => {
            let i = slot as int;
            assert(slots(t) == slots(*left) + slots(*right) + set![i]);
            lemma_parents_in_subtree(store, store[i].left, Some(slot as usize), *left);
            lemma_parents_in_subtree(store, store[i].right, Some(slot as usize), *right);
            assert forall|s: int|
                slots(t).contains(s) && s != root_of(t) as int implies #[trigger]
                store[s].parent is Some by {
                if slots(*left).contains(s) {
                    if *left is Node && s == root_of(*left) as int {
                        assert(store[s].parent == Some(slot as usize));
                    }
                } else if slots(*right).contains(s) {
                    if *right is Node && s == root_of(*right) as int {
                        assert(store[s].parent == Some(slot as usize));
                    }
                }
            }
        },
    }
}

/// Recursive descent of the insertion:/// Every non-root node's parent link points one level up: to a slot of the
/// same subtree whose depth is one less. This is what makes walking parent
/// links upward terminate.
pub proof fn lemma_parent_depths(
    store: Seq<AVLTreeNode>,
    opt: Option<usize>,
    parent: Option<usize>,
    t: TreeV,
)
    requires
        opt_matches(store, opt, parent, t),
        shape_ok(t),
    ensures
        forall|s: int|
            slots(t).contains(s) && s != root_of(t) as int ==> (#[trigger] store[s].parent)
                is Some && slots(t).contains(store[s].parent->0 as int) && crate::model::depth_of(
                t,
                store[s].parent->0 as nat,
            ) + 1 == crate::model::depth_of(t, s as nat),
    decreases t,
{
    crate::model::lemma_slots_nonneg(t);
    match t {
        TreeV::Nil => {},
        TreeV::Node { slot, left, right, .. } => {
            let i = slot as int;
            assert(slots(t) == slots(*left) + slots(*right) + set![i]);
            lemma_parent_depths(store, store[i].left, Some(slot as usize), *left);
            lemma_parent_depths(store, store[i].right, Some(slot as usize), *right);
            lemma_parents_in_subtree(store, store[i].left, Some(slot as usize), *left);
            lemma_parents_in_subtree(store, store[i].right, Some(slot as usize), *right);
            assert forall|s: int|
                slots(t).contains(s) && s != root_of(t) as int implies (#[trigger] store[s].parent)
                is Some && slots(t).contains(store[s].parent->0 as int) && crate::model::depth_of(
                t,
                store[s].parent->0 as nat,
            ) + 1 == crate::model::depth_of(t, s as nat) by {
                if slots(*left).contains(s) {
                    assert(s != i);
                    assert(crate::model::depth_of(t, s as nat) == 1 + crate::model::depth_of(
                        *left,
                        s as nat,
                    ));
                    if *left is Node && s == root_of(*left) as int {
                        assert(store[s].parent == Some(slot as usize));
                        assert(crate::model::depth_of(*left, s as nat) == 0);
                        assert(crate::model::depth_of(t, slot) == 0);
                    } else {
                        assert(slots(*left).contains(store[s].parent->0 as int));
                        assert(crate::model::depth_of(t, store[s].parent->0 as nat) == 1
                            + crate::model::depth_of(*left, store[s].parent->0 as nat));
                    }
                } else {
                    assert(slots(*right).contains(s));
                    assert(s != i);
                    assert(!slots(*left).contains(s));
                    assert(crate::model::depth_of(t, s as nat) == 1 + crate::model::depth_of(
                        *right,
                        s as nat,
                    ));
                    if *right is Node && s == root_of(*right) as int {
                        assert(store[s].parent == Some(slot as usize));
                        assert(crate::model::depth_of(*right, s as nat) == 0);
                        assert(crate::model::depth_of(t, slot) == 0);
                    } else {
                        assert(slots(*right).contains(store[s].parent->0 as int));
                        assert(!slots(*left).contains(store[s].parent->0 as int));
                        assert(crate::model::depth_of(t, store[s].parent->0 as nat) == 1
                            + crate::model::depth_of(*right, store[s].parent->0 as nat));
                    }
                }
            }
        },
    }
}

/// Walks the subtree looking for the node in slot `target`; when found and
/// its right child exists, rotates left there. Heights along the walk are
/// recomputed, so the correspondence (and with it the height bookkeeping)
/// survives the change in subtree heights that a rotation can cause.
/// Returns the possibly changed subtree root and whether a rotation fired.
fn rotate_left_search(
    store: &mut Vec<AVLTreeNode>,
    opt: Option<usize>,
    parent: Option<usize>,
    target: usize,
    Ghost(t): Ghost<TreeV>,
) -> (res: (Option<usize>, bool))
    requires
        opt_matches(old(store)@, opt, parent, t),
        shape_ok(t),
        slots(t).subset_of(vstd::set_lib::set_int_range(0, old(store)@.len() as int)),
    ensures
        final(store)@.len() == old(store)@.len(),
        forall|j: int|
            0 <= j < final(store)@.len() && !slots(t).contains(j) ==> final(store)@[j] == old(
                store,
            )@[j],
        opt_matches(final(store)@, res.0, parent, crate::model::rotate_left_at_slot(t, target as nat)),
        res.1 == crate::model::rot_left_applies(t, target as nat),
    decreases t,
{
    let ghost store0 = old(store)@;
    match opt {
        None => {
            proof {
                assert(t is Nil);
            }
            (None, false)
        },
        Some(i) => {
            let ghost (tslot, tval, lt, rt) = (match t {
                TreeV::Node { slot, value, left, right } => (slot, value, *left, *right),
                TreeV::Nil => (0 as nat, 0u64, TreeV::Nil, TreeV::Nil),
            });
            proof {
                assert(slots(t) == slots(lt) + slots(rt) + set![tslot as int]);
                assert(forall|j: int| slots(lt).contains(j) ==> #[trigger] slots(t).contains(j));
                assert(forall|j: int| slots(rt).contains(j) ==> #[trigger] slots(t).contains(j));
                assert(opt_matches(store0, store0[i as int].left, Some(i), lt));
                assert(opt_matches(store0, store0[i as int].right, Some(i), rt));
                crate::model::lemma_count_le_range(t, store0.len() as int);
                assert(node_count(t) == 1 + node_count(lt) + node_count(rt));
            }
            let node = store[i];
            if i == target {
                match node.right {
                    None => {
                        proof {
                            assert(rt is Nil);
                            assert(crate::model::rotate_left_at_slot(t, target as nat) == t);
                            assert(!crate::model::rot_left_applies(t, target as nat));
                        }
                        (Some(i), false)
                    },
                    Some(_) => {
                        proof {
                            assert(rt is Node);
                            assert(crate::model::rotate_left_at_slot(t, target as nat)
                                == rotate_left_spec(t));
                        }
                        let r = rotate_left_at(store, i, parent, Ghost(t));
                        (Some(r), true)
                    },
                }
            } else {
                let (nlopt, bl) = rotate_left_search(store, node.left, Some(i), target, Ghost(lt));
                let ghost store1 = store@;
                let ghost lt2 = crate::model::rotate_left_at_slot(lt, target as nat);
                proof {
                    crate::model::lemma_rotate_left_at_slot_props(lt, target as nat);
                    lemma_opt_matches_frame(store0, store1, node.right, Some(i), rt);
                    assert(store1[i as int] == node);
                }
                let (nropt, br) = rotate_left_search(store, node.right, Some(i), target, Ghost(rt));
                let ghost store2 = store@;
                let ghost rt2 = crate::model::rotate_left_at_slot(rt, target as nat);
                proof {
                    crate::model::lemma_rotate_left_at_slot_props(rt, target as nat);
                    lemma_opt_matches_frame(store1, store2, nlopt, Some(i), lt2);
                    assert(store2[i as int] == node);
                    crate::model::lemma_height_le_count(lt2);
                    crate::model::lemma_height_le_count(rt2);
                    assert(node_count(lt2) + 1 <= node_count(t));
                    assert(node_count(rt2) + 1 <= node_count(t));
                }
                let n = store.len();
                proof {
                    assert(store@.len() == n);
                    assert(node_count(t) <= n);
                }
                let lh = opt_height(store, nlopt, Ghost(Some(i)), Ghost(lt2));
                let rh = opt_height(store, nropt, Ghost(Some(i)), Ghost(rt2));
                let nh = (if lh >= rh {
                    lh
                } else {
                    rh
                }) + 1;
                store[i] = AVLTreeNode {
                    left: nlopt,
                    right: nropt,
                    parent: node.parent,
                    height: nh,
                    value: node.value,
                };
                let ghost t2 = TreeV::Node {
                    slot: tslot,
                    value: tval,
                    left: Box::new(lt2),
                    right: Box::new(rt2),
                };
                proof {
                    let store3 = store@;
                    assert(crate::model::rotate_left_at_slot(t, target as nat) == t2);
                    assert(!slots(lt2).contains(i as int));
                    assert(!slots(rt2).contains(i as int));
                    assert(store3 == store2.update(i as int, store3[i as int]));
                    lemma_opt_matches_frame(store2, store3, nlopt, Some(i), lt2);
                    lemma_opt_matches_frame(store2, store3, nropt, Some(i), rt2);
                    assert(height(t2) == 1 + if height(lt2) >= height(rt2) {
                        height(lt2)
                    } else {
                        height(rt2)
                    });
                    assert(store3[tslot as int].height == nh && nh as nat == height(t2));
                    assert(opt_matches(store3, Some(i), parent, t2));
                }
                (Some(i), bl || br)
            }
        },
    }
}

/// The mirror of `rotate_left_search`.
fn rotate_right_search(
    store: &mut Vec<AVLTreeNode>,
    opt: Option<usize>,
    parent: Option<usize>,
    target: usize,
    Ghost(t): Ghost<TreeV>,
) -> (res: (Option<usize>, bool))
    requires
        opt_matches(old(store)@, opt, parent, t),
        shape_ok(t),
        slots(t).subset_of(vstd::set_lib::set_int_range(0, old(store)@.len() as int)),
    ensures
        final(store)@.len() == old(store)@.len(),
        forall|j: int|
            0 <= j < final(store)@.len() && !slots(t).contains(j) ==> final(store)@[j] == old(
                store,
            )@[j],
        opt_matches(
            final(store)@,
            res.0,
            parent,
            crate::model::rotate_right_at_slot(t, target as nat),
        ),
        res.1 == crate::model::rot_right_applies(t, target as nat),
    decreases t,
{
    let ghost store0 = old(store)@;
    match opt {
        None => {
            proof {
                assert(t is Nil);
            }
            (None, false)
        },
        Some(i) => {
            let ghost (tslot, tval, lt, rt) = (match t {
                TreeV::Node { slot, value, left, right } => (slot, value, *left, *right),
                TreeV::Nil => (0 as nat, 0u64, TreeV::Nil, TreeV::Nil),
            });
            proof {
                assert(slots(t) == slots(lt) + slots(rt) + set![tslot as int]);
                assert(forall|j: int| slots(lt).contains(j) ==> #[trigger] slots(t).contains(j));
                assert(forall|j: int| slots(rt).contains(j) ==> #[trigger] slots(t).contains(j));
                assert(opt_matches(store0, store0[i as int].left, Some(i), lt));
                assert(opt_matches(store0, store0[i as int].right, Some(i), rt));
                crate::model::lemma_count_le_range(t, store0.len() as int);
                assert(node_count(t) == 1 + node_count(lt) + node_count(rt));
            }
            let node = store[i];
            if i == target {
                match node.left {
                    None => {
                        proof {
                            assert(lt is Nil);
                            assert(crate::model::rotate_right_at_slot(t, target as nat) == t);
                            assert(!crate::model::rot_right_applies(t, target as nat));
                        }
                        (Some(i), false)
                    },
                    Some(_) => {
                        proof {
                            assert(lt is Node);
                            assert(crate::model::rotate_right_at_slot(t, target as nat)
                                == rotate_right_spec(t));
                        }
                        let r = rotate_right_at(store, i, parent, Ghost(t));
                        (Some(r), true)
                    },
                }
            } else {
                let (nlopt, bl) = rotate_right_search(store, node.left, Some(i), target, Ghost(lt));
                let ghost store1 = store@;
                let ghost lt2 = crate::model::rotate_right_at_slot(lt, target as nat);
                proof {
                    crate::model::lemma_rotate_right_at_slot_props(lt, target as nat);
                    lemma_opt_matches_frame(store0, store1, node.right, Some(i), rt);
                    assert(store1[i as int] == node);
                }
                let (nropt, br) = rotate_right_search(
                    store,
                    node.right,
                    Some(i),
                    target,
                    Ghost(rt),
                );
                let ghost store2 = store@;
                let ghost rt2 = crate::model::rotate_right_at_slot(rt, target as nat);
                proof {
                    crate::model::lemma_rotate_right_at_slot_props(rt, target as nat);
                    lemma_opt_matches_frame(store1, store2, nlopt, Some(i), lt2);
                    assert(store2[i as int] == node);
                    crate::model::lemma_height_le_count(lt2);
                    crate::model::lemma_height_le_count(rt2);
                    assert(node_count(lt2) + 1 <= node_count(t));
                    assert(node_count(rt2) + 1 <= node_count(t));
                }
                let n = store.len();
                proof {
                    assert(store@.len() == n);
                    assert(node_count(t) <= n);
                }
                let lh = opt_height(store, nlopt, Ghost(Some(i)), Ghost(lt2));
                let rh = opt_height(store, nropt, Ghost(Some(i)), Ghost(rt2));
                let nh = (if lh >= rh {
                    lh
                } else {
                    rh
                }) + 1;
                store[i] = AVLTreeNode {
                    left: nlopt,
                    right: nropt,
                    parent: node.parent,
                    height: nh,
                    value: node.value,
                };
                let ghost t2 = TreeV::Node {
                    slot: tslot,
                    value: tval,
                    left: Box::new(lt2),
                    right: Box::new(rt2),
                };
                proof {
                    let store3 = store@;
                    assert(crate::model::rotate_right_at_slot(t, target as nat) == t2);
                    assert(!slots(lt2).contains(i as int));
                    assert(!slots(rt2).contains(i as int));
                    assert(store3 == store2.update(i as int, store3[i as int]));
                    lemma_opt_matches_frame(store2, store3, nlopt, Some(i), lt2);
                    lemma_opt_matches_frame(store2, store3, nropt, Some(i), rt2);
                    assert(height(t2) == 1 + if height(lt2) >= height(rt2) {
                        height(lt2)
                    } else {
                        height(rt2)
                    });
                    assert(store3[tslot as int].height == nh && nh as nat == height(t2));
                    assert(opt_matches(store3, Some(i), parent, t2));
                }
                (Some(i), bl || br)
            }
        },
    }
}

/// Recursive descent of the insertion: strictly smaller values go left,
/// greater-or-equal values go right. The new node is appended at the end of
/// the store; on the way back up every visited node gets its height
/// recomputed from its children and at most one rebalancing step. Returns
/// the slot of the new subtree root.
fn insert_rec(
    store: &mut Vec<AVLTreeNode>,
    opt: Option<usize>,
    parent: Option<usize>,
    val: u64,
    Ghost(t): Ghost<TreeV>,
) -> (r: usize)
    requires
        opt_matches(old(store)@, opt, parent, t),
        shape_ok(t),
        slots(t).subset_of(vstd::set_lib::set_int_range(0, old(store)@.len() as int)),
        old(store)@.len() < usize::MAX,
    ensures
        final(store)@.len() == old(store)@.len() + 1,
        forall|j: int|
            0 <= j < old(store)@.len() && !slots(t).contains(j) ==> final(store)@[j] == old(
                store,
            )@[j],
        opt_matches(
            final(store)@,
            Some(r),
            parent,
            avl_insert(t, val, old(store)@.len() as nat),
        ),
    decreases t,
{
    let ghost store0 = old(store)@;
    let ghost ns = store0.len() as nat;
    match opt {
        None => {
            let new_slot = store.len();
            store.push(AVLTreeNode { left: None, right: None, parent, height: 1, value: val });
            proof {
                let leaf = avl_insert(t, val, ns);
                assert(t is Nil);
                assert(leaf == (TreeV::Node {
                    slot: ns,
                    value: val,
                    left: Box::new(TreeV::Nil),
                    right: Box::new(TreeV::Nil),
                }));
                assert(store@ =~= store0.push(
                    AVLTreeNode {
                        left: None,
                        right: None,
                        parent,
                        height: 1,
                        value: val,
                    },
                ));
                assert(height(TreeV::Nil) == 0);
                assert(height(leaf) == 1);
                assert(opt_matches(store@, None, Some(new_slot), TreeV::Nil));
                assert(opt_matches(store@, Some(new_slot), parent, leaf));
            }
            new_slot
        },
        Some(i) => {
            let ghost (tslot, tval, lt, rt) = (match t {
                TreeV::Node { slot, value, left, right } => (slot, value, *left, *right),
                TreeV::Nil => (0 as nat, 0u64, TreeV::Nil, TreeV::Nil),
            });
            proof {
                assert(slots(t) == slots(lt) + slots(rt) + set![tslot as int]);
                assert(forall|j: int| slots(lt).contains(j) ==> #[trigger] slots(t).contains(j));
                assert(forall|j: int| slots(rt).contains(j) ==> #[trigger] slots(t).contains(j));
                assert(opt_matches(store0, store0[i as int].left, Some(i), lt));
                assert(opt_matches(store0, store0[i as int].right, Some(i), rt));
                crate::model::lemma_count_le_range(t, store0.len() as int);
                assert(node_count(t) == 1 + node_count(lt) + node_count(rt));
                assert(!slots(t).contains(ns as int));
            }
            let node = store[i];
            if val < node.value {
                let nl = insert_rec(store, node.left, Some(i), val, Ghost(lt));
                let ghost store1 = store@;
                let ghost lt2 = avl_insert(lt, val, ns);
                proof {
                    assert(!slots(lt).contains(ns as int));
                    crate::model::lemma_avl_insert_shape(lt, val, ns);
                    lemma_opt_matches_frame(store0, store1, node.right, Some(i), rt);
                    assert(store1[i as int] == node);
                    crate::model::lemma_height_le_count(lt2);
                    crate::model::lemma_height_le_count(rt);
                    assert(node_count(lt2) == node_count(lt) + 1);
                    assert(height(lt2) <= store0.len());
                    assert(height(rt) + 1 <= store0.len() + 1);
                }
                let lh2 = opt_height(store, Some(nl), Ghost(Some(i)), Ghost(lt2));
                let rh = opt_height(store, node.right, Ghost(Some(i)), Ghost(rt));
                let nh = (if lh2 >= rh {
                    lh2
                } else {
                    rh
                }) + 1;
                store[i] = AVLTreeNode {
                    left: Some(nl),
                    right: node.right,
                    parent: node.parent,
                    height: nh,
                    value: node.value,
                };
                let ghost t1 = TreeV::Node {
                    slot: tslot,
                    value: tval,
                    left: Box::new(lt2),
                    right: Box::new(rt),
                };
                proof {
                    let store2 = store@;
                    assert(slots(lt2) == slots(lt).insert(ns as int));
                    assert(!slots(lt2).contains(i as int));
                    assert(!slots(rt).contains(i as int));
                    assert(store2 == store1.update(i as int, store2[i as int]));
                    lemma_opt_matches_frame(store1, store2, Some(nl), Some(i), lt2);
                    lemma_opt_matches_frame(store1, store2, node.right, Some(i), rt);
                    assert(height(t1) == 1 + if height(lt2) >= height(rt) {
                        height(lt2)
                    } else {
                        height(rt)
                    });
                    assert(store2[tslot as int].height == nh && nh as nat == height(t1));
                    assert(opt_matches(store2, Some(i), parent, t1));
                    assert(slots(lt2).disjoint(slots(rt)));
                    assert(tslot != ns);
                    assert(!slots(lt2).contains(tslot as int));
                    assert(shape_ok(t1));
                    assert(slots(t1) =~= slots(t).insert(ns as int));
                    assert(slots(t1).subset_of(
                        vstd::set_lib::set_int_range(0, store2.len() as int),
                    ));
                    assert(avl_insert(t, val, ns) == rebalance(t1));
                }
                let r = rebalance_at(store, i, parent, Ghost(t1));
                proof {
                    assert forall|j: int|
                        0 <= j < store0.len() && !slots(t).contains(j) implies store@[j]
                        == store0[j] by {
                        assert(!slots(lt).contains(j));
                        assert(j != i as int);
                        assert(!slots(t1).contains(j));
                    }
                }
                r
            } else {
                let nr = insert_rec(store, node.right, Some(i), val, Ghost(rt));
                let ghost store1 = store@;
                let ghost rt2 = avl_insert(rt, val, ns);
                proof {
                    assert(!slots(rt).contains(ns as int));
                    crate::model::lemma_avl_insert_shape(rt, val, ns);
                    lemma_opt_matches_frame(store0, store1, node.left, Some(i), lt);
                    assert(store1[i as int] == node);
                    crate::model::lemma_height_le_count(rt2);
                    crate::model::lemma_height_le_count(lt);
                    assert(node_count(rt2) == node_count(rt) + 1);
                    assert(height(rt2) <= store0.len());
                    assert(height(lt) + 1 <= store0.len() + 1);
                }
                let rh2 = opt_height(store, Some(nr), Ghost(Some(i)), Ghost(rt2));
                let lh = opt_height(store, node.left, Ghost(Some(i)), Ghost(lt));
                let nh = (if lh >= rh2 {
                    lh
                } else {
                    rh2
                }) + 1;
                store[i] = AVLTreeNode {
                    left: node.left,
                    right: Some(nr),
                    parent: node.parent,
                    height: nh,
                    value: node.value,
                };
                let ghost t1 = TreeV::Node {
                    slot: tslot,
                    value: tval,
                    left: Box::new(lt),
                    right: Box::new(rt2),
                };
                proof {
                    let store2 = store@;
                    assert(slots(rt2) == slots(rt).insert(ns as int));
                    assert(!slots(rt2).contains(i as int));
                    assert(!slots(lt).contains(i as int));
                    assert(store2 == store1.update(i as int, store2[i as int]));
                    lemma_opt_matches_frame(store1, store2, Some(nr), Some(i), rt2);
                    lemma_opt_matches_frame(store1, store2, node.left, Some(i), lt);
                    assert(height(t1) == 1 + if height(lt) >= height(rt2) {
                        height(lt)
                    } else {
                        height(rt2)
                    });
                    assert(store2[tslot as int].height == nh && nh as nat == height(t1));
                    assert(opt_matches(store2, Some(i), parent, t1));
                    assert(slots(lt).disjoint(slots(rt2)));
                    assert(tslot != ns);
                    assert(!slots(rt2).contains(tslot as int));
                    assert(shape_ok(t1));
                    assert(slots(t1) =~= slots(t).insert(ns as int));
                    assert(slots(t1).subset_of(
                        vstd::set_lib::set_int_range(0, store2.len() as int),
                    ));
                    assert(avl_insert(t, val, ns) == rebalance(t1));
                }
                let r = rebalance_at(store, i, parent, Ghost(t1));
                proof {
                    assert forall|j: int|
                        0 <= j < store0.len() && !slots(t).contains(j) implies store@[j]
                        == store0[j] by {
                        assert(!slots(rt).contains(j));
                        assert(j != i as int);
                        assert(!slots(t1).contains(j));
                    }
                }
                r
            }
        },
    }
}

/// In-order walk of the subtree below `opt` (left, self, right), appending
/// the visited values to `out`.
fn collect_inorder(
    store: &Vec<AVLTreeNode>,
    opt: Option<usize>,
    Ghost(parent): Ghost<Option<usize>>,
    Ghost(t): Ghost<TreeV>,
    out: &mut Vec<u64>,
)
    requires
        opt_matches(store@, opt, parent, t),
    ensures
        final(out)@ == old(out)@ + to_seq(t),
    decreases t,
{
    match opt {
        None => {
            proof {
                assert(t is Nil);
                assert(to_seq(TreeV::Nil) =~= Seq::<u64>::empty());
                assert(out@ + to_seq(t) =~= out@);
            }
        },
        Some(i) => {
            let ghost (lt, rt) = (match t {
                TreeV::Node { left, right, .. } => (*left, *right),
                TreeV::Nil => (TreeV::Nil, TreeV::Nil),
            });
            proof {
                assert(t is Node);
                assert(opt_matches(store@, store@[i as int].left, Some(i), lt));
                assert(opt_matches(store@, store@[i as int].right, Some(i), rt));
            }
            let node = store[i];
            collect_inorder(store, node.left, Ghost(Some(i)), Ghost(lt), out);
            out.push(node.value);
            collect_inorder(store, node.right, Ghost(Some(i)), Ghost(rt), out);
            proof {
                assert(to_seq(t) == to_seq(lt) + seq![node.value] + to_seq(rt));
                assert(out@ =~= old(out)@ + to_seq(t));
            }
        },
    }
}

impl AVLTreeArena {
    /// The abstract tree this arena stores.
    pub closed spec fn tree(self) -> TreeV {
        self.tree@
    }

    /// The stored nodes, by slot.
    pub closed spec fn store_seq(self) -> Seq<AVLTreeNode> {
        self.store@
    }

    /// The cached root slot.
    pub closed spec fn root_slot(self) -> usize {
        self.root
    }

    /// Well-formedness: the stored links mirror the abstract tree, the
    /// slots of the tree are exactly the occupied slots, and the values obey
    /// binary-search order. Balance is stated separately (`balanced`), since
    /// a bare rotation may disturb it while keeping the rest intact.
    pub closed spec fn well_formed(self) -> bool {
        &&& opt_matches(self.store@, Some(self.root), None, self.tree@)
        &&& self.tree@ is Node
        &&& shape_ok(self.tree@)
        &&& bst(self.tree@)
        &&& slots(self.tree@) == vstd::set_lib::set_int_range(0, self.store@.len() as int)
        &&& node_count(self.tree@) == self.store@.len()
    }

    /// Well-formed and AVL-balanced: the state every public tree operation
    /// starts from and returns to.
    pub open spec fn avl_ok(self) -> bool {
        self.well_formed() && balanced(self.tree())
    }

    /// Creates an arena holding one root node with the given value.
    pub fn new(val: u64) -> (a: Self)
        ensures
            a.avl_ok(),
            a.tree() == (TreeV::Node {
                slot: 0,
                value: val,
                left: Box::new(TreeV::Nil),
                right: Box::new(TreeV::Nil),
            }),
            a@ == seq![val],
            a.store_seq().len() == 1,
            a.root_slot() == 0,
    {
        let node = AVLTreeNode { left: None, right: None, parent: None, height: 1, value: val };
        let ghost t = TreeV::Node {
            slot: 0,
            value: val,
            left: Box::new(TreeV::Nil),
            right: Box::new(TreeV::Nil),
        };
        let a = AVLTreeArena { store: vec![node], root: 0, tree: Ghost(t) };
        proof {
            assert(height(TreeV::Nil) == 0);
            assert(node_count(TreeV::Nil) == 0);
            assert(to_seq(TreeV::Nil) =~= Seq::<u64>::empty());
            assert(slots(TreeV::Nil) =~= Set::<int>::empty());
            assert(opt_matches(a.store@, None, Some(0usize), TreeV::Nil));
            assert(balanced(TreeV::Nil) && bst(TreeV::Nil) && shape_ok(TreeV::Nil));
            assert(all_le(TreeV::Nil, val) && all_ge(TreeV::Nil, val));
            assert(height(t) == 1);
            assert(opt_matches(a.store@, Some(0), None, t));
            assert(slots(t) =~= vstd::set_lib::set_int_range(0, 1));
            assert(a@ =~= seq![val]);
        }
        a
    }

    /// Number of occupied slots, which equals the number of stored values.
    pub fn size(&self) -> (n: usize)
        requires
            self.well_formed(),
        ensures
            n == self@.len(),
            n == self.store_seq().len(),
            n >= 1,
    {
        proof {
            crate::model::lemma_to_seq_len(self.tree@);
        }
        self.store.len()
    }

    /// Reads the node stored at `slot`.
    pub fn get(&self, slot: usize) -> (node: AVLTreeNode)
        requires
            slot < self.store_seq().len(),
        ensures
            node == self.store_seq()[slot as int],
    {
        self.store[slot]
    }

    /// The view and the store have the same length: one stored value per
    /// occupied slot.
    pub proof fn lemma_view_len(&self)
        requires
            self.well_formed(),
        ensures
            self@.len() == self.store_seq().len(),
    {
        crate::model::lemma_to_seq_len(self.tree@);
    }

    /// Inserts `val`: appends exactly one node, relinks it as a leaf on the
    /// search path (strictly smaller values to the left, greater-or-equal to
    /// the right) and rebalances every ancestor whose children's heights now
    /// differ by more than one. Returns the slot of the freshly inserted
    /// node, which is always the next free position.
    pub fn insert(&mut self, val: u64) -> (r: usize)
        requires
            old(self).avl_ok(),
            old(self)@.len() < usize::MAX,
        ensures
            final(self).avl_ok(),
            r == old(self).store_seq().len(),
            r == old(self)@.len(),
            final(self).store_seq().len() == old(self).store_seq().len() + 1,
            final(self).tree() == avl_insert(
                old(self).tree(),
                val,
                old(self).store_seq().len() as nat,
            ),
            final(self)@.len() == old(self)@.len() + 1,
            final(self)@.to_multiset() == old(self)@.to_multiset().insert(val),
            sorted(final(self)@),
    {
        let ghost t0 = self.tree@;
        proof {
            crate::model::lemma_to_seq_len(t0);
            assert(self.store@.len() == self@.len());
        }
        let ghost n0 = self.store@.len() as nat;
        let new_slot = self.store.len();
        let root = self.root;
        let nr = insert_rec(&mut self.store, Some(root), None, val, Ghost(t0));
        self.root = nr;
        self.tree = Ghost(avl_insert(t0, val, n0));
        proof {
            assert(!slots(t0).contains(n0 as int));
            crate::model::lemma_avl_insert_shape(t0, val, n0);
            crate::model::lemma_avl_insert_bst(t0, val, n0);
            crate::model::lemma_avl_insert_balanced(t0, val, n0);
            crate::model::lemma_avl_insert_multiset(t0, val, n0);
            crate::model::lemma_bst_sorted(self.tree@);
            crate::model::lemma_to_seq_len(self.tree@);
            assert(opt_matches(self.store@, Some(nr), None, self.tree@));
            assert(self.tree@ is Node);
            assert(slots(self.tree@) =~= vstd::set_lib::set_int_range(
                0,
                self.store@.len() as int,
            ));
        }
        new_slot
    }

    /// The first `n` stored values in sorted (in-order) order, or `None`
    /// when `n` exceeds the number of stored values.
    pub fn take(&self, n: usize) -> (r: Option<Vec<u64>>)
        requires
            self.well_formed(),
        ensures
            (match r {
                Option::Some(v) => n <= self@.len() && v@ == self@.take(n as int),
                Option::None => n > self@.len(),
            }),
    {
        proof {
            self.lemma_view_len();
        }
        if n > self.store.len() {
            return None;
        }
        let mut out: Vec<u64> = Vec::new();
        collect_inorder(&self.store, Some(self.root), Ghost(None), Ghost(self.tree@), &mut out);
        out.truncate(n);
        proof {
            assert(out@ =~= self@.take(n as int));
        }
        Some(out)
    }

    /// The k-th smallest stored value (0-indexed), found by in-order
    /// traversal; `None` when `k` is out of range.
    pub fn nth(&self, k: usize) -> (r: Option<u64>)
        requires
            self.well_formed(),
        ensures
            k < self@.len() ==> r == Some(self@[k as int]),
            k >= self@.len() ==> r is None,
    {
        proof {
            self.lemma_view_len();
        }
        if k >= self.store.len() {
            return None;
        }
        let mut out: Vec<u64> = Vec::new();
        collect_inorder(&self.store, Some(self.root), Ghost(None), Ghost(self.tree@), &mut out);
        Some(out[k])
    }

    /// Search order, strict form: when no value is stored twice, every
    /// value in a left subtree is strictly below its node's value and every
    /// value in a right subtree is greater-or-equal. The non-strict form
    /// (`bst`, with `<=` on the left) holds unconditionally as part of
    /// `well_formed`; with duplicates the strict form is unattainable, since
    /// a rotation can lift a duplicate above its equal.
    pub proof fn lemma_bst_order(&self)
        requires
            self.well_formed(),
            self@.no_duplicates(),
        ensures
            crate::model::bst_strict(self.tree()),
            bst(self.tree()),
    {
        crate::model::lemma_bst_strict(self.tree@);
    }

    /// Every node's stored height equals the recursively computed height of
    /// the subtree rooted at that node's slot: the height field is never
    /// stale.
    pub proof fn lemma_heights_correct(&self)
        requires
            self.well_formed(),
        ensures
            forall|s: int|
                0 <= s < self.store_seq().len() ==> #[trigger] self.store_seq()[s].height as nat
                    == height(subtree_at(self.tree(), s as nat)),
    {
        lemma_heights_in_subtree(self.store@, Some(self.root), None, self.tree@);
        assert(forall|s: int|
            0 <= s < self.store@.len() ==> #[trigger] slots(self.tree@).contains(s));
    }

    /// Exactly one node has no parent link, and that node is the root.
    pub proof fn lemma_single_root(&self)
        requires
            self.well_formed(),
        ensures
            self.store_seq()[self.root_slot() as int].parent is None,
            forall|s: int|
                0 <= s < self.store_seq().len() ==> ((#[trigger] self.store_seq()[s].parent
                    is None) <==> s == self.root_slot() as int),
    {
        lemma_parents_in_subtree(self.store@, Some(self.root), None, self.tree@);
        assert(forall|s: int|
            0 <= s < self.store@.len() ==> #[trigger] slots(self.tree@).contains(s));
        assert(root_of(self.tree@) == self.root as nat);
    }

    /// The size equals the number of nodes reachable from the root: slots,
    /// nodes and stored values are in one-to-one correspondence.
    pub proof fn lemma_size_is_node_count(&self)
        requires
            self.well_formed(),
        ensures
            self.store_seq().len() == node_count(self.tree()),
            self@.len() == node_count(self.tree()),
    {
        crate::model::lemma_to_seq_len(self.tree@);
    }

    /// The in-order view is sorted, so its k-th entry is the k-th smallest
    /// stored value.
    pub proof fn lemma_sorted(&self)
        requires
            self.well_formed(),
        ensures
            sorted(self@),
    {
        crate::model::lemma_bst_sorted(self.tree@);
    }

    /// Left rotation at the node in slot `pivot`: its right child takes its
    /// place and the pivot becomes that child's left child. Returns whether
    /// the rotation fired; when the pivot has no right child nothing
    /// changes. The in-order sequence, the size and the slot assignment are
    /// untouched, and heights stay correct; AVL balance, however, is not
    /// necessarily preserved, which is why `insert` asks for balance
    /// explicitly rather than this method's weaker invariant.
    pub fn rotate_left(&mut self, pivot: usize) -> (r: bool)
        requires
            old(self).well_formed(),
        ensures
            final(self).well_formed(),
            final(self)@ == old(self)@,
            final(self).store_seq().len() == old(self).store_seq().len(),
            final(self).tree() == crate::model::rotate_left_at_slot(old(self).tree(), pivot as nat),
            r == crate::model::rot_left_applies(old(self).tree(), pivot as nat),
    {
        let ghost t0 = self.tree@;
        let root = self.root;
        let (nr, rotated) = rotate_left_search(&mut self.store, Some(root), None, pivot, Ghost(t0));
        proof {
            crate::model::lemma_rotate_left_at_slot_props(t0, pivot as nat);
        }
        let newroot: usize = match nr {
            Some(x) => x,
            None => {
                proof {
                    assert(crate::model::rotate_left_at_slot(t0, pivot as nat) is Node);
                    assert(false);
                }
                0
            },
        };
        self.root = newroot;
        self.tree = Ghost(crate::model::rotate_left_at_slot(t0, pivot as nat));
        rotated
    }

    /// Right rotation at the node in slot `pivot`: the mirror image of
    /// `rotate_left`.
    pub fn rotate_right(&mut self, pivot: usize) -> (r: bool)
        requires
            old(self).well_formed(),
        ensures
            final(self).well_formed(),
            final(self)@ == old(self)@,
            final(self).store_seq().len() == old(self).store_seq().len(),
            final(self).tree() == crate::model::rotate_right_at_slot(
                old(self).tree(),
                pivot as nat,
            ),
            r == crate::model::rot_right_applies(old(self).tree(), pivot as nat),
    {
        let ghost t0 = self.tree@;
        let root = self.root;
        let (nr, rotated) = rotate_right_search(
            &mut self.store,
            Some(root),
            None,
            pivot,
            Ghost(t0),
        );
        proof {
            crate::model::lemma_rotate_right_at_slot_props(t0, pivot as nat);
        }
        let newroot: usize = match nr {
            Some(x) => x,
            None => {
                proof {
                    assert(crate::model::rotate_right_at_slot(t0, pivot as nat) is Node);
                    assert(false);
                }
                0
            },
        };
        self.root = newroot;
        self.tree = Ghost(crate::model::rotate_right_at_slot(t0, pivot as nat));
        rotated
    }

    /// The slot of the distinguished root node, found by following parent
    /// links upward from slot 0 until the one node with no parent is
    /// reached. `lemma_single_root` shows that node is unique, so the walk
    /// provably ends at the cached root slot.
    pub fn root(&self) -> (r: usize)
        requires
            self.well_formed(),
        ensures
            r < self.store_seq().len(),
            self.store_seq()[r as int].parent is None,
            r as nat == root_of(self.tree()),
            r == self.root_slot(),
    {
        proof {
            lemma_parent_depths(self.store@, Some(self.root), None, self.tree@);
            self.lemma_single_root();
            assert(node_count(self.tree@) >= 1);
            assert(slots(self.tree@).contains(0));
        }
        let mut current: usize = 0;
        while self.store[current].parent.is_some()
            invariant
                self.well_formed(),
                slots(self.tree()).contains(current as int),
                (current as int) < self.store_seq().len(),
            decreases crate::model::depth_of(self.tree(), current as nat),
        {
            proof {
                lemma_parent_depths(self.store@, Some(self.root), None, self.tree@);
                self.lemma_single_root();
                assert(current != self.root);
                assert(current as int != root_of(self.tree@) as int);
            }
            current = match self.store[current].parent {
                Some(p) => p,
                None => current,
            };
        }
        proof {
            self.lemma_single_root();
        }
        current
    }
}

impl View for AVLTreeArena {
    type V = Seq<u64>;

    /// The arena viewed as the in-order sequence of its values.
    open spec fn view(&self) -> Seq<u64> {
        to_seq(self.tree())
    }
}

} // verus!
