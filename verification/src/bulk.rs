use vstd::prelude::*;

use crate::tree::BinaryTree;

verus! {

/// The one error the library can report: bulk construction was asked to
/// build a tree out of no elements.
#[derive(Clone, Copy, Debug, PartialEq, Eq)]
pub enum BuildError {
    EmptyInput,
}

/// `s` is in ascending order (adjacent duplicates allowed).
pub open spec fn sorted_asc(s: Seq<i64>) -> bool {
    forall|i: int, j: int| 0 <= i < j < s.len() ==> s[i] <= s[j]
}

/// `s` is in strictly ascending order: sorted and free of duplicates.
pub open spec fn sorted_strict(s: Seq<i64>) -> bool {
    forall|i: int, j: int| 0 <= i < j < s.len() ==> s[i] < s[j]
}

/// The tree that bulk construction builds from a non-empty sequence: the
/// element at index `len / 2` becomes the root (integer division, so an
/// even length puts the pivot just right of the middle), and the elements
/// on either side of the pivot become the left and right subtrees by the
/// same rule.
pub open spec fn spec_from_sorted(s: Seq<i64>) -> BinaryTree
    recommends
        s.len() > 0,
    decreases s.len(),
{
    let mid = s.len() / 2;
    BinaryTree {
        data: s[mid as int],
        left: if mid > 0 {
            Some(Box::new(spec_from_sorted(s.subrange(0, mid as int))))
        } else {
            None
        },
        right: if mid + 1 < s.len() {
            Some(Box::new(spec_from_sorted(s.subrange(mid as int + 1, s.len() as int))))
        } else {
            None
        },
    }
}

impl BinaryTree {
    /// Balanced bulk construction from an already ascending slice.
    ///
    /// The caller is expected to hand over an ascending slice; nothing is
    /// validated, and a slice holding adjacent duplicates is taken as it
    /// is, every element becoming its own node.  That knowingly departs
    /// from [`BinaryTree::insert`], which suppresses duplicates: the two
    /// policies are documented here as an inconsistency of the design,
    /// not reconciled.
    ///
    /// The one failure: an empty slice yields no tree, reported as
    /// [`BuildError::EmptyInput`].
    pub fn from_sorted(data: &[i64]) -> (result: Result<BinaryTree, BuildError>)
        ensures
            result is Ok <==> data@.len() > 0,
            data@.len() > 0 ==> result == Ok::<BinaryTree, BuildError>(spec_from_sorted(data@)),
            data@.len() == 0 ==> result == Err::<BinaryTree, BuildError>(BuildError::EmptyInput),
    {
        if data.len() == 0 {
            Err(BuildError::EmptyInput)
        } else {
            Ok(Self::from_sorted_nonempty(data))
        }
    }

    /// Balanced bulk construction from an arbitrary sequence of elements:
    /// sort ascending in place (the total order on `i64` defines the
    /// sort), then build from the sorted result as
    /// [`BinaryTree::from_sorted`] does.
    ///
    /// The one failure: an empty sequence yields no tree, reported as
    /// [`BuildError::EmptyInput`].
    pub fn from(data: &mut Vec<i64>) -> (result: Result<BinaryTree, BuildError>)
        ensures
            sorted_asc(final(data)@),
            final(data)@.to_multiset() == old(data)@.to_multiset(),
            final(data)@.len() == old(data)@.len(),
            result is Ok <==> old(data)@.len() > 0,
            old(data)@.len() > 0 ==> result == Ok::<BinaryTree, BuildError>(
                spec_from_sorted(final(data)@),
            ),
            old(data)@.len() == 0 ==> result == Err::<BinaryTree, BuildError>(
                BuildError::EmptyInput,
            ),
    {
        sort_ascending(data);
        BinaryTree::from_sorted(data.as_slice())
    }

    /// The recursive median-pivot build on a non-empty slice.
    fn from_sorted_nonempty(data: &[i64]) -> (t: BinaryTree)
        requires
            data@.len() > 0,
        ensures
            t == spec_from_sorted(data@),
        decreases data@.len(),
    {
        let len: usize = data.len();
        // integer division by 2
        let pivot: usize = len / 2;
        let mut tree = BinaryTree::leaf(data[pivot]);
        if pivot > 0 {
            tree.left = Some(Box::new(Self::from_sorted_nonempty(&data[0..pivot])));
        }
        if pivot + 1 < len {
            tree.right = Some(Box::new(Self::from_sorted_nonempty(&data[(pivot + 1)..len])));
        }
        tree
    }
}

/// Bulk construction places every element of the input, and nothing else:
/// the built tree holds exactly the values the sequence holds, whatever
/// order the sequence is in.
pub proof fn lemma_from_sorted_values(s: Seq<i64>, v: i64)
    requires
        s.len() > 0,
    ensures
        spec_from_sorted(s).contains_val(v) <==> s.contains(v),
    decreases s.len(),
{
    let t = spec_from_sorted(s);
    let mid = s.len() as int / 2;
    let sub_l = s.subrange(0, mid);
    let sub_r = s.subrange(mid + 1, s.len() as int);
    if mid > 0 {
        lemma_from_sorted_values(sub_l, v);
    }
    if mid + 1 < s.len() {
        lemma_from_sorted_values(sub_r, v);
    }
    assert(t.contains_val(v) <==> (s[mid] == v
        || (mid > 0 && spec_from_sorted(sub_l).contains_val(v))
        || (mid + 1 < s.len() && spec_from_sorted(sub_r).contains_val(v))));
    assert(s.contains(v) <==> (sub_l.contains(v) || s[mid] == v || sub_r.contains(v))) by {
        if s.contains(v) {
            let i = choose|i: int| 0 <= i < s.len() && s[i] == v;
            if i < mid {
                assert(sub_l[i] == v);
            } else if i > mid {
                assert(sub_r[i - mid - 1] == v);
            }
        }
        if sub_l.contains(v) {
            let i = choose|i: int| 0 <= i < sub_l.len() && sub_l[i] == v;
            assert(s[i] == v);
        }
        if sub_r.contains(v) {
            let i = choose|i: int| 0 <= i < sub_r.len() && sub_r[i] == v;
            assert(s[i + mid + 1] == v);
        }
    }
}

/// Building from a strictly ascending sequence establishes the ordering
/// invariant: the pivot splits the sequence, so everything routed left is
/// below the pivot and everything routed right above it, recursively.
pub proof fn lemma_from_sorted_bst(s: Seq<i64>)
    requires
        s.len() > 0,
        sorted_strict(s),
    ensures
        spec_from_sorted(s).is_bst(),
    decreases s.len(),
{
    let t = spec_from_sorted(s);
    let mid = s.len() as int / 2;
    let sub_l = s.subrange(0, mid);
    let sub_r = s.subrange(mid + 1, s.len() as int);
    if mid > 0 {
        lemma_from_sorted_bst(sub_l);
        assert forall|v: i64| #[trigger] spec_from_sorted(sub_l).contains_val(v)
            implies v < s[mid] by {
            lemma_from_sorted_values(sub_l, v);
            let i = choose|i: int| 0 <= i < sub_l.len() && sub_l[i] == v;
            assert(s[i] == v);
        }
    }
    if mid + 1 < s.len() {
        lemma_from_sorted_bst(sub_r);
        assert forall|v: i64| #[trigger] spec_from_sorted(sub_r).contains_val(v)
            implies v > s[mid] by {
            lemma_from_sorted_values(sub_r, v);
            let i = choose|i: int| 0 <= i < sub_r.len() && sub_r[i] == v;
            assert(s[i + mid + 1] == v);
        }
    }
    assert(t.is_bst());
}

/// The round trip: a tree built from a strictly ascending sequence
/// answers the membership search positively for exactly the values of the
/// sequence — true for every element of it, false for everything else.
pub proof fn lemma_from_sorted_round_trip(s: Seq<i64>, x: i64)
    requires
        s.len() > 0,
        sorted_strict(s),
    ensures
        spec_from_sorted(s).spec_search(x) <==> s.contains(x),
{
    lemma_from_sorted_bst(s);
    lemma_from_sorted_values(s, x);
    spec_from_sorted(s).lemma_search_matches_contains(x);
}

/// Bulk construction is order-independent: any two inputs holding the
/// same values, each sorted ascending, are one and the same sequence —
/// the ascending arrangement of a multiset is unique — and so they build
/// identical trees.  Hence sorting a shuffled input gives the same tree
/// as sorting the original.
pub proof fn lemma_build_order_independent(s1: Seq<i64>, s2: Seq<i64>)
    requires
        sorted_asc(s1),
        sorted_asc(s2),
        s1.to_multiset() == s2.to_multiset(),
    ensures
        s1 == s2,
        spec_from_sorted(s1) == spec_from_sorted(s2),
{
    let leq = |x: i64, y: i64| x <= y;
    assert(vstd::relations::sorted_by(s1, leq));
    assert(vstd::relations::sorted_by(s2, leq));
    assert(vstd::relations::total_ordering(leq));
    vstd::seq_lib::lemma_sorted_unique(s1, s2, leq);
}

/// Moving one element into a sequence at any position adds exactly that
/// element to the sequence's multiset.
proof fn lemma_insert_to_multiset(s: Seq<i64>, i: int, x: i64)
    requires
        0 <= i <= s.len(),
    ensures
        s.insert(i, x).to_multiset() == s.to_multiset().insert(x),
{
    broadcast use vstd::seq_lib::group_to_multiset_ensures;
    broadcast use vstd::multiset::group_multiset_axioms;

    let pre = s.subrange(0, i);
    let post = s.subrange(i, s.len() as int);
    assert(s =~= pre + post);
    vstd::seq_lib::lemma_multiset_commutative(pre, post);
    vstd::seq_lib::lemma_multiset_commutative(pre.push(x), post);
    assert(s.insert(i, x) == pre.push(x) + post);
    assert(s.insert(i, x).to_multiset() =~= s.to_multiset().insert(x));
}

/// Sort `data` ascending in place, by insertion into a fresh vector.
fn sort_ascending(data: &mut Vec<i64>)
    ensures
        sorted_asc(final(data)@),
        final(data)@.to_multiset() == old(data)@.to_multiset(),
        final(data)@.len() == old(data)@.len(),
{
    broadcast use vstd::seq_lib::group_to_multiset_ensures;

    let mut out: Vec<i64> = Vec::new();
    let mut i: usize = 0;
    while i < data.len()
        invariant
            i <= data@.len(),
            out@.len() == i,
            sorted_asc(out@),
            out@.to_multiset() == data@.subrange(0, i as int).to_multiset(),
        decreases data@.len() - i,
    {
        let x = data[i];
        let mut j: usize = 0;
        while j < out.len() && out[j] < x
            invariant
                j <= out@.len(),
                forall|k: int| 0 <= k < j ==> out@[k] < x,
            decreases out@.len() - j,
        {
            j += 1;
        }
        proof {
            out@.insert_ensures(j as int, x);
            lemma_insert_to_multiset(out@, j as int, x);
            data@.subrange(0, i as int).to_multiset_ensures();
            assert(data@.subrange(0, i as int).push(x).to_multiset()
                =~= data@.subrange(0, i as int).to_multiset().insert(x));
            assert(data@.subrange(0, i as int).push(x) =~= data@.subrange(0, i as int + 1));
            assert(sorted_asc(out@.insert(j as int, x)));
        }
        out.insert(j, x);
        i += 1;
    }
    proof {
        assert(data@.subrange(0, data@.len() as int) =~= data@);
    }
    *data = out;
}

} // verus!
