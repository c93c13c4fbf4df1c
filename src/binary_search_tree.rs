use vstd::multiset::Multiset;
use vstd::prelude::*;

use crate::traversal::{
    forest_multiset, forest_size, lemma_level_pending_multiset, level_pending, InorderTraversal,
    LevelOrderTraversal, PostorderTraversal, PreorderTraversal, ReverseOrderTraversal,
};
use crate::tree::{is_predecessor, is_successor, lemma_sorted_unique, sorted, Tree};

verus! {

/// The shape after inserting `values` into `t` one by one, in order, with
/// duplicates allowed.
pub open spec fn inserted_all(t: Tree, values: Seq<i64>) -> Tree
    decreases values.len(),
{
    if values.len() == 0 {
        t
    } else {
        inserted_all(t, values.drop_last()).inserted(values.last(), true)
    }
}

/// An unbalanced binary search tree of `i64` elements that keeps count of its
/// nodes. Its abstract value (`@`) is the sequence of its elements in order.
pub struct BinarySearchTree {
    root: Tree,
    size: usize,
}

impl View for BinarySearchTree {
    type V = Seq<i64>;

    closed spec fn view(&self) -> Seq<i64> {
        self.root.elems()
    }
}

impl BinarySearchTree {
    /// The tree obeys the ordering invariant and `size` counts its nodes.
    pub closed spec fn wf(&self) -> bool {
        &&& self.root.wf()
        &&& self.size == self.root.elems().len()
    }

    /// The tree's nodes as they stand: which element sits where.
    pub closed spec fn shape(&self) -> Tree {
        self.root
    }

    /// The sorted sequence is the in-order reading of the shape, and a
    /// well-formed tree's shape obeys the ordering invariant.
    pub proof fn lemma_shape(&self)
        ensures
            self@ == self.shape().elems(),
            self.wf() ==> self.shape().wf() && self.count() == self@.len(),
    {
    }

    /// The elements of any tree come out in non-decreasing order.
    pub proof fn lemma_sorted(&self)
        requires
            self.wf(),
        ensures
            sorted(self@),
    {
        self.root.lemma_wf_sorted();
    }

    /// The node count that the tree keeps.
    pub closed spec fn count(&self) -> nat {
        self.size as nat
    }

    /// The count that the tree keeps is the length of its sorted sequence.
    pub proof fn lemma_count(&self)
        requires
            self.wf(),
        ensures
            self.count() == self@.len(),
    {
    }

    /// Every walk visits each element exactly once: in-order gives the sorted
    /// sequence, reverse order gives it backwards, and pre-order, post-order
    /// and breadth-first order give a permutation of it. Pre-order and
    /// breadth-first order both start at the top element.
    pub proof fn lemma_traversal_equivalence(&self)
        ensures
            self.shape().pre_elems().to_multiset() == self@.to_multiset(),
            self.shape().post_elems().to_multiset() == self@.to_multiset(),
            level_pending(seq![&self.shape()], self@.len()).to_multiset() == self@.to_multiset(),
            self@.reverse().to_multiset() == self@.to_multiset(),
            self.shape().0 matches Some(n) ==> self.shape().pre_elems()[0] == n.value
                && level_pending(seq![&self.shape()], self@.len())[0] == n.value,
    {
        self.root.lemma_orders_same_multiset();
        reveal_with_fuel(forest_size, 2);
        reveal_with_fuel(forest_multiset, 2);
        assert(seq![&self.root].drop_first() =~= Seq::<&Tree>::empty());
        lemma_level_pending_multiset(seq![&self.root], self.root.elems().len());
        assert(forest_multiset(seq![&self.root]) =~= self@.to_multiset());
        self@.lemma_reverse_to_multiset();
    }

    pub fn new() -> (r: Self)
        ensures
            r.shape() == Tree(None),
            r.wf(),
            r@ == Seq::<i64>::empty(),
    {
        BinarySearchTree { root: Tree(None), size: 0 }
    }

    pub fn is_empty(&self) -> (r: bool)
        requires
            self.wf(),
        ensures
            r == (self@.len() == 0),
    {
        self.size == 0
    }

    /// The number of elements, duplicates included; kept in step with the
    /// tree by every operation rather than counted.
    pub fn len(&self) -> (r: usize)
        requires
            self.wf(),
        ensures
            r == self@.len(),
            r == self.count(),
    {
        self.size
    }

    /// Drops every element.
    pub fn clear(&mut self)
        ensures
            final(self).shape() == Tree(None),
            final(self).wf(),
            final(self)@ == Seq::<i64>::empty(),
    {
        *self = BinarySearchTree::new();
    }

    /// The element at the top of the tree.
    pub fn root(&self) -> (r: Option<i64>)
        ensures
            r == match self.shape().0 {
                Some(n) => Some(n.value),
                None => None,
            },
            r.is_none() == (self@.len() == 0),
            r matches Some(x) ==> self@.contains(x),
    {
        match &self.root.0 {
            Some(node) => {
                proof {
                    self.root.lemma_contains_split(node.value);
                }
                Some(node.value)
            },
            None => None,
        }
    }

    /// Adds `value` even when an equal element is present (it then goes to the
    /// right of it). Returns whether an equal element was present.
    pub fn insert(&mut self, value: i64) -> (r: bool)
        requires
            old(self).wf(),
            old(self)@.len() < usize::MAX,
        ensures
            final(self).shape() == old(self).shape().inserted(value, true),
            final(self)@.len() == old(self)@.len() + 1,
            sorted(final(self)@),
            final(self).wf(),
            r == old(self)@.contains(value),
            exists|i: int| 0 <= i <= old(self)@.len() && final(self)@ == old(self)@.insert(i, value),
    {
        let r = self.root.insert(value, true);
        let ghost j = choose|i: int|
            0 <= i <= old(self)@.len() && self.root.elems() == old(self)@.insert(i, value);
        assert(self.root.elems().len() == self.size + 1);
        self.size = self.size + 1;
        proof {
            self.root.lemma_wf_sorted();
        }
        r
    }

    /// Adds `value` only when no equal element is present. Returns whether one
    /// was, in which case nothing changes.
    pub fn insert_without_dup(&mut self, value: i64) -> (r: bool)
        requires
            old(self).wf(),
            !old(self)@.contains(value) ==> old(self)@.len() < usize::MAX,
        ensures
            final(self).shape() == old(self).shape().inserted(value, false),
            final(self)@.len() == old(self)@.len() + if r { 0int } else { 1int },
            sorted(final(self)@),
            final(self).wf(),
            r == old(self)@.contains(value),
            r ==> final(self)@ == old(self)@,
            !r ==> exists|i: int|
                0 <= i <= old(self)@.len() && final(self)@ == old(self)@.insert(i, value),
    {
        let r = self.root.insert(value, false);
        if !r {
            let ghost j = choose|i: int|
                0 <= i <= old(self)@.len() && self.root.elems() == old(self)@.insert(i, value);
            assert(self.root.elems().len() == self.size + 1);
            self.size = self.size + 1;
        }
        proof {
            self.root.lemma_wf_sorted();
        }
        r
    }

    pub fn contains(&self, target: &i64) -> (r: bool)
        requires
            self.wf(),
        ensures
            r == self@.contains(*target),
    {
        self.root.contains(target)
    }

    /// The least element.
    pub fn min(&self) -> (r: Option<i64>)
        ensures
            r == if self@.len() == 0 {
                None
            } else {
                Some(self@[0])
            },
    {
        self.root.min()
    }

    /// The greatest element.
    pub fn max(&self) -> (r: Option<i64>)
        ensures
            r == if self@.len() == 0 {
                None
            } else {
                Some(self@.last())
            },
    {
        self.root.max()
    }

    /// The least element greater than `value`, which need not be present.
    pub fn successor(&self, value: &i64) -> (r: Option<i64>)
        requires
            self.wf(),
        ensures
            is_successor(self@, *value, r),
    {
        self.root.successor(value)
    }

    /// The greatest element less than `value`, which need not be present.
    pub fn predecessor(&self, value: &i64) -> (r: Option<i64>)
        requires
            self.wf(),
        ensures
            is_predecessor(self@, *value, r),
    {
        self.root.predecessor(value)
    }

    /// Removes and returns the least element; `None`, and no change, when empty.
    pub fn extract_min(&mut self) -> (r: Option<i64>)
        requires
            old(self).wf(),
        ensures
            final(self).shape() == old(self).shape().without_min(),
            final(self).wf(),
            old(self)@.len() == 0 ==> r.is_none() && final(self)@ == old(self)@,
            old(self)@.len() > 0 ==> r == Some(old(self)@[0]) && final(self)@ == old(
                self,
            )@.drop_first(),
    {
        let r = self.root.extract_min();
        if r.is_some() {
            self.size = self.size - 1;
        }
        r
    }

    /// Removes and returns the greatest element; `None`, and no change, when empty.
    pub fn extract_max(&mut self) -> (r: Option<i64>)
        requires
            old(self).wf(),
        ensures
            final(self).shape() == old(self).shape().without_max(),
            final(self).wf(),
            old(self)@.len() == 0 ==> r.is_none() && final(self)@ == old(self)@,
            old(self)@.len() > 0 ==> r == Some(old(self)@.last()) && final(self)@ == old(
                self,
            )@.drop_last(),
    {
        let r = self.root.extract_max();
        if r.is_some() {
            self.size = self.size - 1;
        }
        r
    }

    /// Removes one element equal to `target`; returns whether there was one.
    pub fn remove(&mut self, target: &i64) -> (r: bool)
        requires
            old(self).wf(),
        ensures
            final(self).shape() == old(self).shape().removed(*target),
            final(self).wf(),
            r == old(self)@.contains(*target),
            !r ==> final(self)@ == old(self)@,
            r ==> exists|i: int|
                0 <= i < old(self)@.len() && old(self)@[i] == *target && final(self)@ == old(
                    self,
                )@.remove(i),
    {
        let r = self.root.remove(target);
        if r {
            let ghost j = choose|i: int|
                0 <= i < old(self)@.len() && old(self)@[i] == *target && self.root.elems()
                    == old(self)@.remove(i);
            self.size = self.size - 1;
            assert(old(self)@[j] == *target && self@ == old(self)@.remove(j));
        }
        r
    }

    /// The elements in order.
    pub fn sorted_vec(&self) -> (r: Vec<i64>)
        requires
            self.wf(),
        ensures
            r@ == self@,
            sorted(r@),
    {
        proof {
            self.root.lemma_wf_sorted();
        }
        self.root.sorted_vec()
    }

    /// The elements in order, consuming the tree.
    pub fn into_sorted_vec(self) -> (r: Vec<i64>)
        requires
            self.wf(),
        ensures
            r@ == self@,
            sorted(r@),
    {
        proof {
            self.root.lemma_wf_sorted();
        }
        let BinarySearchTree { root, size } = self;
        root.into_sorted_vec()
    }

    /// Inserts each of `values` in turn, duplicates included.
    pub fn extend(&mut self, values: Vec<i64>)
        requires
            old(self).wf(),
            old(self)@.len() + values@.len() <= usize::MAX,
        ensures
            final(self).shape() == inserted_all(old(self).shape(), values@),
            final(self).wf(),
            final(self)@.to_multiset() == old(self)@.to_multiset().add(values@.to_multiset()),
    {
        broadcast use vstd::seq_lib::group_seq_properties;

        let ghost start = self@;
        let mut i: usize = 0;
        assert(values@.take(0) =~= Seq::<i64>::empty());
        while i < values.len()
            invariant
                self.wf(),
                0 <= i <= values@.len(),
                start.len() + values@.len() <= usize::MAX,
                self@.len() == start.len() + i,
                self@.to_multiset() == start.to_multiset().add(values@.take(i as int).to_multiset()),
                self.shape() == inserted_all(old(self).shape(), values@.take(i as int)),
            decreases values@.len() - i,
        {
            let ghost before = self@;
            self.insert(values[i]);
            proof {
                let j = choose|j: int| 0 <= j <= before.len() && self@ == before.insert(j, values@[i as int]);
                assert(values@.take(i + 1) =~= values@.take(i as int).push(values@[i as int]));
                assert(values@.take(i + 1).drop_last() =~= values@.take(i as int));
                vstd::seq_lib::to_multiset_insert(before, j, values@[i as int]);
                vstd::seq_lib::to_multiset_build(values@.take(i as int), values@[i as int]);
                assert(self@.to_multiset() =~= start.to_multiset().add(
                    values@.take(i + 1).to_multiset(),
                ));
            }
            i = i + 1;
        }
        assert(values@.take(i as int) =~= values@);
    }

    /// A tree holding `values`, built by inserting them in turn.
    pub fn from_iter(values: Vec<i64>) -> (r: Self)
        ensures
            r.shape() == inserted_all(Tree(None), values@),
            r.wf(),
            r@.to_multiset() == values@.to_multiset(),
    {
        let mut tree = BinarySearchTree::new();
        let n: usize = values.len();
        tree.extend(values);
        assert(Seq::<i64>::empty().to_multiset() =~= Multiset::empty()) by {
            broadcast use vstd::seq_lib::group_seq_properties;
        }
        assert(tree@.to_multiset() =~= values@.to_multiset());
        tree
    }

    /// A lazy walk in ascending order.
    pub fn inorder(&self) -> (r: InorderTraversal<'_>)
        ensures
            r.remaining() == self@,
    {
        InorderTraversal::new(&self.root)
    }

    /// A lazy walk in descending order.
    pub fn reverse_order(&self) -> (r: ReverseOrderTraversal<'_>)
        ensures
            r.remaining() == self@.reverse(),
    {
        proof {
            self.root.lemma_reverse_elems();
        }
        ReverseOrderTraversal::new(&self.root)
    }

    /// A lazy walk in pre-order.
    pub fn preorder(&self) -> (r: PreorderTraversal<'_>)
        ensures
            r.remaining() == self.shape().pre_elems(),
    {
        PreorderTraversal::new(&self.root)
    }

    /// A lazy walk in post-order.
    pub fn postorder(&self) -> (r: PostorderTraversal<'_>)
        ensures
            r.remaining() == self.shape().post_elems(),
    {
        PostorderTraversal::new(&self.root)
    }

    /// A lazy walk in breadth-first order.
    pub fn level_order(&self) -> (r: LevelOrderTraversal<'_>)
        ensures
            r.remaining() == level_pending(seq![&self.shape()], self@.len()),
    {
        LevelOrderTraversal::new(&self.root)
    }
}

/// Two trees are equal when they hold the same elements in order, whatever
/// their shapes.
impl PartialEq for BinarySearchTree {
    fn eq(&self, other: &Self) -> (r: bool) {
        let a = self.root.sorted_vec();
        let b = other.root.sorted_vec();
        if a.len() != b.len() {
            return false;
        }
        let mut i: usize = 0;
        while i < a.len()
            invariant
                a@ == self@,
                b@ == other@,
                a@.len() == b@.len(),
                0 <= i <= a@.len(),
                forall|k: int| 0 <= k < i ==> a@[k] == b@[k],
            decreases a@.len() - i,
        {
            if a[i] != b[i] {
                return false;
            }
            i = i + 1;
        }
        assert(a@ =~= b@);
        true
    }
}

/// A copy rebuilt by inserting the elements in order: it holds the same
/// elements, in a shape of its own.
impl Clone for BinarySearchTree {
    fn clone(&self) -> (r: Self)
        ensures
            r.wf(),
            r@.to_multiset() == self@.to_multiset(),
            self.wf() ==> r@ == self@,
            r.shape() == inserted_all(Tree(None), self@),
    {
        let r = BinarySearchTree::from_iter(self.root.sorted_vec());
        proof {
            if self.wf() {
                self.lemma_sorted();
                r.lemma_sorted();
                lemma_sorted_unique(r@, self@);
            }
        }
        r
    }
}

impl vstd::std_specs::cmp::PartialEqSpecImpl for BinarySearchTree {
    open spec fn obeys_eq_spec() -> bool {
        true
    }

    open spec fn eq_spec(&self, other: &BinarySearchTree) -> bool {
        self@ == other@
    }
}

} // verus!
