use vstd::prelude::*;

verus! {

/// An ordered binary search tree node over `i64` values.
///
/// Every tree is a node holding one value together with an optional left
/// and an optional right subtree, each exclusively owned.  The intended
/// ordering invariant is [`BinaryTree::is_bst`]: everything in the left
/// subtree is strictly below the node's value and everything in the right
/// subtree strictly above it.  The constructors that take subtrees do not
/// validate that the supplied subtrees are ordered correctly relative to
/// the new root; that is the caller's responsibility.
#[derive(Debug, PartialEq, Eq)]
pub struct BinaryTree {
    pub data: i64,
    pub left: Option<Box<BinaryTree>>,
    pub right: Option<Box<BinaryTree>>,
}

impl BinaryTree {
    /// `v` is held by some node of the tree.  This is the tree's
    /// mathematical model: a tree stands for the set of values it holds.
    pub open spec fn contains_val(self, v: i64) -> bool
        decreases self,
    {
        ||| self.data == v
        ||| (match self.left {
            Some(l) => l.contains_val(v),
            None => false,
        })
        ||| (match self.right {
            Some(r) => r.contains_val(v),
            None => false,
        })
    }

    /// The ordering invariant: in every node, all values of the left
    /// subtree are strictly less than the node's value and all values of
    /// the right subtree strictly greater.
    pub open spec fn is_bst(self) -> bool
        decreases self,
    {
        &&& (match self.left {
            Some(l) => l.is_bst() && forall|v: i64| #[trigger] l.contains_val(v) ==> v < self.data,
            None => true,
        })
        &&& (match self.right {
            Some(r) => r.is_bst() && forall|v: i64| #[trigger] r.contains_val(v) ==> v > self.data,
            None => true,
        })
    }

    /// The number of nodes the tree holds.  Always at least one: there is
    /// no empty tree in this design.
    pub open spec fn size(self) -> nat
        decreases self,
    {
        1 + (match self.left {
            Some(l) => l.size(),
            None => 0,
        }) + (match self.right {
            Some(r) => r.size(),
            None => 0,
        })
    }

    /// What the comparison-guided descent of [`BinaryTree::contains`]
    /// finds: equal stops, greater goes right, less goes left.  On a tree
    /// satisfying [`BinaryTree::is_bst`] this agrees with
    /// [`BinaryTree::contains_val`] (see
    /// [`BinaryTree::lemma_search_matches_contains`]).
    pub open spec fn spec_search(self, v: i64) -> bool
        decreases self,
    {
        if v == self.data {
            true
        } else if v > self.data {
            match self.right {
                Some(r) => r.spec_search(v),
                None => false,
            }
        } else {
            match self.left {
                Some(l) => l.spec_search(v),
                None => false,
            }
        }
    }

    /// The tree that [`BinaryTree::insert`] leaves behind: descend by
    /// comparison and attach a new leaf where the chain runs out; an equal
    /// value leaves the tree unchanged.
    pub open spec fn spec_insert(self, v: i64) -> BinaryTree
        decreases self,
    {
        if v == self.data {
            self
        } else if v > self.data {
            match self.right {
                Some(r) => BinaryTree {
                    data: self.data,
                    left: self.left,
                    right: Some(Box::new(r.spec_insert(v))),
                },
                None => BinaryTree {
                    data: self.data,
                    left: self.left,
                    right: Some(
                        Box::new(BinaryTree { data: v, left: None, right: None }),
                    ),
                },
            }
        } else {
            match self.left {
                Some(l) => BinaryTree {
                    data: self.data,
                    left: Some(Box::new(l.spec_insert(v))),
                    right: self.right,
                },
                None => BinaryTree {
                    data: self.data,
                    left: Some(
                        Box::new(BinaryTree { data: v, left: None, right: None }),
                    ),
                    right: self.right,
                },
            }
        }
    }

    /// On a tree with the ordering invariant, the comparison-guided
    /// descent finds exactly the values the tree holds: a value can never
    /// hide on the side the comparison rules out.
    pub proof fn lemma_search_matches_contains(self, v: i64)
        requires
            self.is_bst(),
        ensures
            self.spec_search(v) == self.contains_val(v),
        decreases self,
    {
        if v == self.data {
        } else if v > self.data {
            if let Some(l) = self.left {
                assert(l.contains_val(v) ==> v < self.data);
            }
            if let Some(r) = self.right {
                r.lemma_search_matches_contains(v);
            }
        } else {
            if let Some(r) = self.right {
                assert(r.contains_val(v) ==> v > self.data);
            }
            if let Some(l) = self.left {
                l.lemma_search_matches_contains(v);
            }
        }
    }

    /// Inserting `x` grows the set of held values by exactly `x`, whatever
    /// the shape of the tree.
    pub proof fn lemma_insert_membership(self, x: i64)
        ensures
            forall|v: i64| #[trigger] self.spec_insert(x).contains_val(v)
                <==> (self.contains_val(v) || v == x),
        decreases self,
    {
        let t2 = self.spec_insert(x);
        if x == self.data {
            assert forall|v: i64| #[trigger] t2.contains_val(v)
                <==> (self.contains_val(v) || v == x) by {
                if v == x {
                    assert(self.contains_val(v));
                }
            }
        } else if x > self.data {
            if let Some(r) = self.right {
                r.lemma_insert_membership(x);
            }
            assert forall|v: i64| #[trigger] t2.contains_val(v)
                <==> (self.contains_val(v) || v == x) by {
                match self.right {
                    Some(r) => {
                        assert(r.spec_insert(x).contains_val(v)
                            <==> (r.contains_val(v) || v == x));
                        assert(t2.right == Some(Box::new(r.spec_insert(x))));
                        assert(t2.contains_val(v) <==> (t2.data == v
                            || (match t2.left {
                                Some(l) => l.contains_val(v),
                                None => false,
                            }) || r.spec_insert(x).contains_val(v)));
                    },
                    None => {
                        assert((BinaryTree { data: x, left: None, right: None }).contains_val(v)
                            <==> v == x);
                    },
                }
            }
        } else {
            if let Some(l) = self.left {
                l.lemma_insert_membership(x);
            }
            assert forall|v: i64| #[trigger] t2.contains_val(v)
                <==> (self.contains_val(v) || v == x) by {
                match self.left {
                    Some(l) => {
                        assert(l.spec_insert(x).contains_val(v)
                            <==> (l.contains_val(v) || v == x));
                        assert(t2.left == Some(Box::new(l.spec_insert(x))));
                        assert(t2.contains_val(v) <==> (t2.data == v
                            || l.spec_insert(x).contains_val(v)
                            || (match t2.right {
                                Some(r) => r.contains_val(v),
                                None => false,
                            })));
                    },
                    None => {
                        assert((BinaryTree { data: x, left: None, right: None }).contains_val(v)
                            <==> v == x);
                    },
                }
            }
        }
    }

    /// Inserting preserves the ordering invariant.
    pub proof fn lemma_insert_preserves_bst(self, x: i64)
        requires
            self.is_bst(),
        ensures
            self.spec_insert(x).is_bst(),
        decreases self,
    {
        let t2 = self.spec_insert(x);
        if x == self.data {
        } else if x > self.data {
            match self.right {
                Some(r) => {
                    r.lemma_insert_membership(x);
                    r.lemma_insert_preserves_bst(x);
                    assert forall|v: i64| #[trigger] r.spec_insert(x).contains_val(v)
                        implies v > self.data by {
                        assert(r.contains_val(v) || v == x);
                    }
                    assert(t2.is_bst());
                },
                None => {
                    let lf = BinaryTree { data: x, left: None, right: None };
                    assert(lf.is_bst());
                    assert forall|v: i64| #[trigger] lf.contains_val(v)
                        implies v > self.data by {}
                    assert(t2.is_bst());
                },
            }
        } else {
            match self.left {
                Some(l) => {
                    l.lemma_insert_membership(x);
                    l.lemma_insert_preserves_bst(x);
                    assert forall|v: i64| #[trigger] l.spec_insert(x).contains_val(v)
                        implies v < self.data by {
                        assert(l.contains_val(v) || v == x);
                    }
                    assert(t2.is_bst());
                },
                None => {
                    let lf = BinaryTree { data: x, left: None, right: None };
                    assert(lf.is_bst());
                    assert forall|v: i64| #[trigger] lf.contains_val(v)
                        implies v < self.data by {}
                    assert(t2.is_bst());
                },
            }
        }
    }

    /// On a tree with the ordering invariant, inserting a value the tree
    /// already holds changes nothing: the descent is bound to meet the
    /// equal value and stop.
    pub proof fn lemma_insert_duplicate_is_noop(self, x: i64)
        requires
            self.is_bst(),
            self.contains_val(x),
        ensures
            self.spec_insert(x) == self,
        decreases self,
    {
        if x == self.data {
        } else if x > self.data {
            if let Some(l) = self.left {
                assert(l.contains_val(x) ==> x < self.data);
            }
            let r = self.right.unwrap();
            r.lemma_insert_duplicate_is_noop(x);
            assert(self.spec_insert(x) == self);
        } else {
            if let Some(r) = self.right {
                assert(r.contains_val(x) ==> x > self.data);
            }
            let l = self.left.unwrap();
            l.lemma_insert_duplicate_is_noop(x);
            assert(self.spec_insert(x) == self);
        }
    }

    /// Insertion is idempotent: on a tree with the ordering invariant,
    /// inserting the same value twice yields the very tree that inserting
    /// it once yields.
    pub proof fn lemma_insert_idempotent(self, x: i64)
        requires
            self.is_bst(),
        ensures
            self.spec_insert(x).spec_insert(x) == self.spec_insert(x),
    {
        self.lemma_insert_membership(x);
        self.lemma_insert_preserves_bst(x);
        self.spec_insert(x).lemma_insert_duplicate_is_noop(x);
    }

    /// Insertion allocates exactly one new node when the value is new,
    /// and none at all when a tree with the ordering invariant already
    /// holds it; the tree never shrinks.
    pub proof fn lemma_insert_size(self, x: i64)
        ensures
            !self.contains_val(x) ==> self.spec_insert(x).size() == self.size() + 1,
            self.is_bst() && self.contains_val(x) ==> self.spec_insert(x).size() == self.size(),
        decreases self,
    {
        if self.is_bst() && self.contains_val(x) {
            self.lemma_insert_duplicate_is_noop(x);
        }
        if !self.contains_val(x) {
            let t2 = self.spec_insert(x);
            assert(x != self.data);
            if x > self.data {
                match self.right {
                    Some(r) => {
                        assert(!r.contains_val(x));
                        r.lemma_insert_size(x);
                        assert(t2.right == Some(Box::new(r.spec_insert(x))));
                        assert(t2.size() == 1 + (match t2.left {
                            Some(l) => l.size(),
                            None => 0nat,
                        }) + r.spec_insert(x).size());
                    },
                    None => {
                        assert((BinaryTree { data: x, left: None, right: None }).size() == 1);
                        assert(t2.size() == self.size() + 1);
                    },
                }
            } else {
                match self.left {
                    Some(l) => {
                        assert(!l.contains_val(x));
                        l.lemma_insert_size(x);
                        assert(t2.left == Some(Box::new(l.spec_insert(x))));
                        assert(t2.size() == 1 + l.spec_insert(x).size() + (match t2.right {
                            Some(r) => r.size(),
                            None => 0nat,
                        }));
                    },
                    None => {
                        assert((BinaryTree { data: x, left: None, right: None }).size() == 1);
                        assert(t2.size() == self.size() + 1);
                    },
                }
            }
        }
    }

    /// A tree of a single node holding `data`, with no children.
    pub fn leaf(data: i64) -> (t: BinaryTree)
        ensures
            t == (BinaryTree { data, left: None, right: None }),
            t.is_bst(),
            forall|v: i64| #[trigger] t.contains_val(v) <==> v == data,
    {
        BinaryTree { data, left: None, right: None }
    }

    /// A node holding `data` that owns only the given left subtree.
    pub fn left(data: i64, left: BinaryTree) -> (t: BinaryTree)
        ensures
            t == (BinaryTree { data, left: Some(Box::new(left)), right: None }),
            forall|v: i64| #[trigger] t.contains_val(v) <==> (v == data || left.contains_val(v)),
            (left.is_bst() && (forall|v: i64| #[trigger] left.contains_val(v) ==> v < data))
                ==> t.is_bst(),
    {
        BinaryTree { data, left: Some(Box::new(left)), right: None }
    }

    /// A node holding `data` that owns only the given right subtree.
    pub fn right(data: i64, right: BinaryTree) -> (t: BinaryTree)
        ensures
            t == (BinaryTree { data, left: None, right: Some(Box::new(right)) }),
            forall|v: i64| #[trigger] t.contains_val(v) <==> (v == data || right.contains_val(v)),
            (right.is_bst() && (forall|v: i64| #[trigger] right.contains_val(v) ==> v > data))
                ==> t.is_bst(),
    {
        BinaryTree { data, left: None, right: Some(Box::new(right)) }
    }

    /// Membership test by comparison-guided descent: equal stops with
    /// success, greater descends right, less descends left; a missing
    /// child ends the descent with failure.  On a tree with the ordering
    /// invariant this decides exactly whether the tree holds `value`.
    pub fn contains(&self, value: i64) -> (found: bool)
        ensures
            found == self.spec_search(value),
            self.is_bst() ==> found == self.contains_val(value),
        decreases *self,
    {
        proof {
            if self.is_bst() {
                self.lemma_search_matches_contains(value);
            }
        }
        if value == self.data {
            true
        } else if value > self.data {
            match &self.right {
                Some(r) => r.contains(value),
                None => false,
            }
        } else {
            match &self.left {
                Some(l) => l.contains(value),
                None => false,
            }
        }
    }

    /// Insert `value` in place: descend by comparison and attach a new
    /// leaf where the comparison chain runs out.  A value already present
    /// is silently ignored rather than stored again — this tree keeps set,
    /// not multiset, semantics, so a duplicate insert is deliberately a
    /// no-op and not an error.
    pub fn insert(&mut self, value: i64)
        ensures
            *final(self) == old(self).spec_insert(value),
            forall|v: i64| #[trigger] final(self).contains_val(v)
                <==> (old(self).contains_val(v) || v == value),
            old(self).is_bst() ==> final(self).is_bst(),
            old(self).is_bst() && old(self).contains_val(value) ==> *final(self) == *old(self),
            !old(self).contains_val(value) ==> final(self).size() == old(self).size() + 1,
        decreases *old(self),
    {
        proof {
            old(self).lemma_insert_size(value);
            old(self).lemma_insert_membership(value);
            if old(self).is_bst() {
                old(self).lemma_insert_preserves_bst(value);
                if old(self).contains_val(value) {
                    old(self).lemma_insert_duplicate_is_noop(value);
                }
            }
        }
        if value == self.data {
        } else if value > self.data {
            match self.right.take() {
                Some(mut r) => {
                    (&mut *r).insert(value);
                    self.right = Some(r);
                },
                None => {
                    self.right = Some(Box::new(BinaryTree::leaf(value)));
                },
            }
        } else {
            match self.left.take() {
                Some(mut l) => {
                    (&mut *l).insert(value);
                    self.left = Some(l);
                },
                None => {
                    self.left = Some(Box::new(BinaryTree::leaf(value)));
                },
            }
        }
    }

    /// A node holding `data` that owns both given subtrees.
    pub fn branch(data: i64, left: BinaryTree, right: BinaryTree) -> (t: BinaryTree)
        ensures
            t == (BinaryTree {
                data,
                left: Some(Box::new(left)),
                right: Some(Box::new(right)),
            }),
            forall|v: i64| #[trigger] t.contains_val(v)
                <==> (v == data || left.contains_val(v) || right.contains_val(v)),
            (left.is_bst() && right.is_bst()
                && (forall|v: i64| #[trigger] left.contains_val(v) ==> v < data)
                && (forall|v: i64| #[trigger] right.contains_val(v) ==> v > data))
                ==> t.is_bst(),
    {
        BinaryTree { data, left: Some(Box::new(left)), right: Some(Box::new(right)) }
    }
}

} // verus!
