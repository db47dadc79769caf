//! The user-facing AVL tree: a thin handle that owns the arena outright and
//! re-exposes its operations, so no shared or aliased view of the store is
//! ever needed.

use vstd::prelude::*;

use crate::arena::AVLTreeArena;
use crate::model::{balanced, to_seq};

verus! {

/// The public AVL tree handle. It owns the node store; every operation
/// borrows it only for the duration of the call.
pub struct AVLTree {
    arena: AVLTreeArena,
}

impl AVLTree {
    /// The arena this handle owns.
    pub closed spec fn arena_spec(self) -> AVLTreeArena {
        self.arena
    }

    /// Well-formed and AVL-balanced; established by `new` and kept by every
    /// operation of the handle.
    pub open spec fn wf(self) -> bool {
        self.arena_spec().avl_ok()
    }

    /// Creates a new AVL tree whose single node holds `val`.
    pub fn new(val: u64) -> (t: Self)
        ensures
            t.wf(),
            t@ == seq![val],
    {
        let arena = AVLTreeArena::new(val);
        AVLTree { arena }
    }

    /// Inserts a value; duplicates are allowed and land after the equal
    /// values already stored. Returns the slot of the new node.
    pub fn insert(&mut self, val: u64) -> (r: usize)
        requires
            old(self).wf(),
            old(self)@.len() < usize::MAX,
        ensures
            final(self).wf(),
            final(self)@.len() == old(self)@.len() + 1,
            final(self)@.to_multiset() == old(self)@.to_multiset().insert(val),
            crate::model::sorted(final(self)@),
            r == old(self)@.len(),
    {
        self.arena.insert(val)
    }

    /// The first `n` values in sorted order, or `None` when `n` exceeds the
    /// size.
    pub fn take(&self, n: usize) -> (r: Option<Vec<u64>>)
        requires
            self.wf(),
        ensures
            (match r {
                Option::Some(v) => n <= self@.len() && v@ == self@.take(n as int),
                Option::None => n > self@.len(),
            }),
    {
        self.arena.take(n)
    }

    /// The k-th smallest stored value (0-indexed); `None` when `k` is out of
    /// range.
    pub fn nth(&self, k: usize) -> (r: Option<u64>)
        requires
            self.wf(),
        ensures
            k < self@.len() ==> r == Some(self@[k as int]),
            k >= self@.len() ==> r is None,
    {
        self.arena.nth(k)
    }

    /// Number of stored values.
    pub fn size(&self) -> (n: usize)
        requires
            self.wf(),
        ensures
            n == self@.len(),
    {
        self.arena.size()
    }
}

impl View for AVLTree {
    type V = Seq<u64>;

    /// The tree viewed as the in-order sequence of its values.
    open spec fn view(&self) -> Seq<u64> {
        self.arena_spec()@
    }
}

} // verus!
