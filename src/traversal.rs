use vstd::prelude::*;

use std::collections::VecDeque;

use vstd::multiset::Multiset;
use vstd::seq_lib::lemma_multiset_commutative;

use crate::node::Node;
use crate::tree::Tree;

verus! {

/// What an in-order walk still owes for a stack of ancestors whose left side
/// is done: each one's element, then its right subtree, from the top down.
pub open spec fn inorder_pending(stack: Seq<&Node>) -> Seq<i64>
    decreases stack.len(),
{
    if stack.len() == 0 {
        Seq::empty()
    } else {
        let n = stack.last();
        seq![n.value] + n.right.elems() + inorder_pending(stack.drop_last())
    }
}

/// The mirror of `inorder_pending`: each ancestor's element, then its left
/// subtree in descending order.
pub open spec fn reverse_pending(stack: Seq<&Node>) -> Seq<i64>
    decreases stack.len(),
{
    if stack.len() == 0 {
        Seq::empty()
    } else {
        let n = stack.last();
        seq![n.value] + n.left.reverse_elems() + reverse_pending(stack.drop_last())
    }
}

/// What a pre-order walk still owes for a stack of pending subtrees: each
/// one's pre-order, from the top down.
pub open spec fn preorder_pending(stack: Seq<&Tree>) -> Seq<i64>
    decreases stack.len(),
{
    if stack.len() == 0 {
        Seq::empty()
    } else {
        stack.last().pre_elems() + preorder_pending(stack.drop_last())
    }
}

/// What a post-order walk owes for one stack entry: the whole post-order of a
/// subtree not yet opened, or only the top element of one whose children
/// have both been handed on already.
pub open spec fn postorder_entry(e: (&Tree, bool)) -> Seq<i64> {
    if e.1 {
        match e.0.0 {
            Some(n) => seq![n.value],
            None => Seq::empty(),
        }
    } else {
        e.0.post_elems()
    }
}

pub open spec fn postorder_pending(stack: Seq<(&Tree, bool)>) -> Seq<i64>
    decreases stack.len(),
{
    if stack.len() == 0 {
        Seq::empty()
    } else {
        postorder_entry(stack.last()) + postorder_pending(stack.drop_last())
    }
}

/// A bound on the steps that a post-order walk can take before it hands out
/// what it owes: it falls by at least one on each step.
pub open spec fn postorder_work(stack: Seq<(&Tree, bool)>) -> nat
    decreases stack.len(),
{
    if stack.len() == 0 {
        0
    } else {
        let e = stack.last();
        (if e.1 {
            1
        } else {
            3 * e.0.elems().len() + 1
        }) + postorder_work(stack.drop_last())
    }
}

/// The number of elements in a sequence of subtrees.
pub open spec fn forest_size(q: Seq<&Tree>) -> nat
    decreases q.len(),
{
    if q.len() == 0 {
        0
    } else {
        q[0].elems().len() + forest_size(q.drop_first())
    }
}

/// Breadth-first order over a queue of subtrees: the element at the front,
/// then the rest of the queue with that node's children behind it. `fuel`
/// bounds the number of elements produced; `forest_size` of the queue is enough.
pub open spec fn level_pending(q: Seq<&Tree>, fuel: nat) -> Seq<i64>
    decreases fuel, q.len(),
{
    if q.len() == 0 {
        Seq::empty()
    } else {
        match q[0].0 {
            None => level_pending(q.drop_first(), fuel),
            Some(n) => if fuel == 0 {
                Seq::empty()
            } else {
                seq![n.value] + level_pending(
                    q.drop_first() + seq![&n.left, &n.right],
                    (fuel - 1) as nat,
                )
            },
        }
    }
}

pub proof fn lemma_forest_size_concat(a: Seq<&Tree>, b: Seq<&Tree>)
    ensures
        forest_size(a + b) == forest_size(a) + forest_size(b),
    decreases a.len(),
{
    if a.len() > 0 {
        lemma_forest_size_concat(a.drop_first(), b);
        assert((a + b).drop_first() =~= a.drop_first() + b);
    } else {
        assert(a + b =~= b);
    }
}

/// What a sequence of subtrees holds, counted with multiplicity.
pub open spec fn forest_multiset(q: Seq<&Tree>) -> Multiset<i64>
    decreases q.len(),
{
    if q.len() == 0 {
        Multiset::empty()
    } else {
        q[0].elems().to_multiset().add(forest_multiset(q.drop_first()))
    }
}

pub proof fn lemma_forest_multiset_concat(a: Seq<&Tree>, b: Seq<&Tree>)
    ensures
        forest_multiset(a + b) == forest_multiset(a).add(forest_multiset(b)),
    decreases a.len(),
{
    if a.len() > 0 {
        lemma_forest_multiset_concat(a.drop_first(), b);
        assert((a + b).drop_first() =~= a.drop_first() + b);
        assert(forest_multiset(a + b) =~= forest_multiset(a).add(forest_multiset(b)));
    } else {
        assert(a + b =~= b);
        assert(forest_multiset(a + b) =~= forest_multiset(a).add(forest_multiset(b)));
    }
}

/// With enough fuel, breadth-first order visits every element of the queue's
/// subtrees exactly once.
pub proof fn lemma_level_pending_multiset(q: Seq<&Tree>, fuel: nat)
    requires
        fuel >= forest_size(q),
    ensures
        level_pending(q, fuel).to_multiset() == forest_multiset(q),
    decreases fuel, q.len(),
{
    broadcast use vstd::seq_lib::group_seq_properties;

    if q.len() == 0 {
        assert(level_pending(q, fuel) =~= Seq::<i64>::empty());
        assert(level_pending(q, fuel).to_multiset() =~= Multiset::empty());
    } else {
        match q[0].0 {
            None => {
                lemma_level_pending_multiset(q.drop_first(), fuel);
                assert(q[0].elems() =~= Seq::<i64>::empty());
                assert(q[0].elems().to_multiset() =~= Multiset::empty());
                assert(forest_multiset(q) =~= forest_multiset(q.drop_first()));
            },
            Some(n) => {
                let kids = seq![&n.left, &n.right];
                let next = q.drop_first() + kids;
                reveal_with_fuel(forest_size, 3);
                reveal_with_fuel(forest_multiset, 3);
                assert(kids.drop_first() =~= seq![&n.right]);
                assert(kids.drop_first().drop_first() =~= Seq::<&Tree>::empty());
                lemma_forest_size_concat(q.drop_first(), kids);
                lemma_forest_multiset_concat(q.drop_first(), kids);
                lemma_level_pending_multiset(next, (fuel - 1) as nat);
                let v = seq![n.value];
                lemma_multiset_commutative(n.left.elems() + v, n.right.elems());
                lemma_multiset_commutative(n.left.elems(), v);
                lemma_multiset_commutative(v, level_pending(next, (fuel - 1) as nat));
                assert(level_pending(q, fuel).to_multiset() =~= forest_multiset(q));
            },
        }
    }
}

/// A resumable left-node-right walk over a borrowed tree.
pub struct InorderTraversal<'a> {
    stack: Vec<&'a Node>,
    current: &'a Tree,
}

impl<'a> InorderTraversal<'a> {
    /// The elements that the walk has yet to hand out, in the order it will.
    pub closed spec fn remaining(&self) -> Seq<i64> {
        self.current.elems() + inorder_pending(self.stack@)
    }

    /// A walk over the whole of `tree`.
    pub fn new(tree: &'a Tree) -> (r: Self)
        ensures
            r.remaining() == tree.elems(),
    {
        let r = InorderTraversal { stack: Vec::new(), current: tree };
        assert(r.remaining() =~= tree.elems());
        r
    }

    /// Hands out the next element, or `None` once all have been.
    pub fn next(&mut self) -> (r: Option<i64>)
        ensures
            old(self).remaining().len() == 0 ==> r.is_none() && final(self).remaining()
                == old(self).remaining(),
            old(self).remaining().len() > 0 ==> r == Some(old(self).remaining()[0])
                && final(self).remaining() == old(self).remaining().drop_first(),
    {
        let ghost start = self.remaining();
        loop
            invariant
                self.remaining() == start,
                start == old(self).remaining(),
            decreases self.current.height(),
        {
            let current: &'a Tree = self.current;
            match &current.0 {
                Some(node) => {
                    let node: &'a Node = node;
                    let ghost before = self.stack@;
                    self.stack.push(node);
                    self.current = &node.left;
                    assert(self.stack@.drop_last() == before);
                    assert(self.remaining() =~= start);
                },
                None => {
                    let ghost before = self.stack@;
                    match self.stack.pop() {
                        Some(node) => {
                            self.current = &node.right;
                            assert(before.drop_last() == self.stack@);
                            assert(self.remaining() =~= start.drop_first());
                            assert(start[0] == node.value);
                            return Some(node.value);
                        },
                        None => {
                            assert(start =~= Seq::<i64>::empty());
                            return None;
                        },
                    }
                },
            }
        }
    }
}

/// A resumable right-node-left walk over a borrowed tree: descending order.
pub struct ReverseOrderTraversal<'a> {
    stack: Vec<&'a Node>,
    current: &'a Tree,
}

impl<'a> ReverseOrderTraversal<'a> {
    /// The elements that the walk has yet to hand out, in the order it will.
    pub closed spec fn remaining(&self) -> Seq<i64> {
        self.current.reverse_elems() + reverse_pending(self.stack@)
    }

    /// A walk over the whole of `tree`.
    pub fn new(tree: &'a Tree) -> (r: Self)
        ensures
            r.remaining() == tree.reverse_elems(),
    {
        let r = ReverseOrderTraversal { stack: Vec::new(), current: tree };
        assert(r.remaining() =~= tree.reverse_elems());
        r
    }

    /// Hands out the next element, or `None` once all have been.
    pub fn next(&mut self) -> (r: Option<i64>)
        ensures
            old(self).remaining().len() == 0 ==> r.is_none() && final(self).remaining()
                == old(self).remaining(),
            old(self).remaining().len() > 0 ==> r == Some(old(self).remaining()[0])
                && final(self).remaining() == old(self).remaining().drop_first(),
    {
        let ghost start = self.remaining();
        loop
            invariant
                self.remaining() == start,
                start == old(self).remaining(),
            decreases self.current.height(),
        {
            let current: &'a Tree = self.current;
            match &current.0 {
                Some(node) => {
                    let node: &'a Node = node;
                    let ghost before = self.stack@;
                    self.stack.push(node);
                    self.current = &node.right;
                    assert(self.stack@.drop_last() == before);
                    assert(self.remaining() =~= start);
                },
                None => {
                    let ghost before = self.stack@;
                    match self.stack.pop() {
                        Some(node) => {
                            self.current = &node.left;
                            assert(before.drop_last() == self.stack@);
                            assert(self.remaining() =~= start.drop_first());
                            assert(start[0] == node.value);
                            return Some(node.value);
                        },
                        None => {
                            assert(start =~= Seq::<i64>::empty());
                            return None;
                        },
                    }
                },
            }
        }
    }
}

/// A resumable node-left-right walk over a borrowed tree.
pub struct PreorderTraversal<'a> {
    stack: Vec<&'a Tree>,
}

impl<'a> PreorderTraversal<'a> {
    /// The elements that the walk has yet to hand out, in the order it will.
    pub closed spec fn remaining(&self) -> Seq<i64> {
        preorder_pending(self.stack@)
    }

    /// A walk over the whole of `tree`, its stack seeded with the root.
    pub fn new(tree: &'a Tree) -> (r: Self)
        ensures
            r.remaining() == tree.pre_elems(),
    {
        let r = PreorderTraversal { stack: vec![tree] };
        assert(r.stack@ =~= seq![tree]);
        assert(r.stack@.drop_last() =~= Seq::<&Tree>::empty());
        reveal_with_fuel(preorder_pending, 2);
        assert(r.remaining() =~= tree.pre_elems());
        r
    }

    /// Hands out the next element, or `None` once all have been.
    pub fn next(&mut self) -> (r: Option<i64>)
        ensures
            old(self).remaining().len() == 0 ==> r.is_none() && final(self).remaining()
                == old(self).remaining(),
            old(self).remaining().len() > 0 ==> r == Some(old(self).remaining()[0])
                && final(self).remaining() == old(self).remaining().drop_first(),
    {
        let ghost start = self.remaining();
        loop
            invariant
                self.remaining() == start,
                start == old(self).remaining(),
            decreases self.stack.len(),
        {
            let ghost before = self.stack@;
            match self.stack.pop() {
                None => {
                    assert(start =~= Seq::<i64>::empty());
                    return None;
                },
                Some(top) => {
                    assert(before.drop_last() == self.stack@);
                    match &top.0 {
                        None => {
                            assert(self.remaining() =~= start);
                        },
                        Some(node) => {
                            let ghost rest = self.stack@;
                            self.stack.push(&node.right);
                            self.stack.push(&node.left);
                            assert(self.stack@.drop_last() == rest.push(&node.right));
                            assert(rest.push(&node.right).drop_last() == rest);
                            assert(preorder_pending(rest.push(&node.right)) == node.right.pre_elems()
                                + preorder_pending(rest));
                            assert(self.remaining() == node.left.pre_elems() + node.right.pre_elems()
                                + preorder_pending(rest));
                            assert(start == top.pre_elems() + preorder_pending(rest));
                            assert(self.remaining() =~= start.drop_first());
                            assert(start[0] == node.value);
                            return Some(node.value);
                        },
                    }
                },
            }
        }
    }
}

/// A resumable left-right-node walk over a borrowed tree. Each stack entry
/// records whether its node's children have been pushed already, so a node is
/// told apart from an equal element by where it stands, not by its value.
pub struct PostorderTraversal<'a> {
    stack: Vec<(&'a Tree, bool)>,
}

impl<'a> PostorderTraversal<'a> {
    /// The elements that the walk has yet to hand out, in the order it will.
    pub closed spec fn remaining(&self) -> Seq<i64> {
        postorder_pending(self.stack@)
    }

    /// A walk over the whole of `tree`.
    pub fn new(tree: &'a Tree) -> (r: Self)
        ensures
            r.remaining() == tree.post_elems(),
    {
        let r = PostorderTraversal { stack: vec![(tree, false)] };
        assert(r.stack@ =~= seq![(tree, false)]);
        assert(r.stack@.drop_last() =~= Seq::<(&Tree, bool)>::empty());
        reveal_with_fuel(postorder_pending, 2);
        assert(r.remaining() =~= tree.post_elems());
        r
    }

    /// Hands out the next element, or `None` once all have been.
    pub fn next(&mut self) -> (r: Option<i64>)
        ensures
            old(self).remaining().len() == 0 ==> r.is_none() && final(self).remaining()
                == old(self).remaining(),
            old(self).remaining().len() > 0 ==> r == Some(old(self).remaining()[0])
                && final(self).remaining() == old(self).remaining().drop_first(),
    {
        let ghost start = self.remaining();
        loop
            invariant
                self.remaining() == start,
                start == old(self).remaining(),
            decreases postorder_work(self.stack@),
        {
            let ghost before = self.stack@;
            match self.stack.pop() {
                None => {
                    assert(start =~= Seq::<i64>::empty());
                    return None;
                },
                Some(entry) => {
                    assert(before.drop_last() == self.stack@);
                    let (top, opened) = entry;
                    match &top.0 {
                        None => {
                            assert(postorder_entry(entry) =~= Seq::<i64>::empty());
                            assert(self.remaining() =~= start);
                        },
                        Some(node) => {
                            if opened {
                                assert(self.remaining() =~= start.drop_first());
                                assert(start[0] == node.value);
                                return Some(node.value);
                            }
                            let ghost rest = self.stack@;
                            self.stack.push((top, true));
                            self.stack.push((&node.right, false));
                            self.stack.push((&node.left, false));
                            let ghost s1 = rest.push((top, true));
                            let ghost s2 = s1.push((&node.right, false));
                            assert(self.stack@.drop_last() == s2);
                            assert(s2.drop_last() == s1);
                            assert(s1.drop_last() == rest);
                            assert(postorder_entry((top, true)) =~= seq![node.value]);
                            assert(s1.last() == (top, true));
                            assert(s2.last() == (&node.right, false));
                            assert(self.stack@.last() == (&node.left, false));
                            assert(postorder_pending(s1) == seq![node.value] + postorder_pending(rest));
                            assert(postorder_pending(s2) == node.right.post_elems() + postorder_pending(s1));
                            assert(postorder_work(s1) == 1 + postorder_work(rest));
                            assert(postorder_work(s2) == 3 * node.right.elems().len() + 1 + postorder_work(s1));
                            assert(self.remaining() == node.left.post_elems() + (node.right.post_elems()
                                + (seq![node.value] + postorder_pending(rest))));
                            assert(start == top.post_elems() + postorder_pending(rest));
                            assert(self.remaining() =~= start);
                            assert(postorder_work(self.stack@) == postorder_work(rest) + 3
                                * node.left.elems().len() + 3 * node.right.elems().len() + 3);
                            assert(postorder_work(before) == postorder_work(rest) + 3
                                * top.elems().len() + 1);
                        },
                    }
                },
            }
        }
    }
}

/// A resumable breadth-first walk over a borrowed tree.
pub struct LevelOrderTraversal<'a> {
    deque: VecDeque<&'a Tree>,
}

impl<'a> LevelOrderTraversal<'a> {
    /// The elements that the walk has yet to hand out, in the order it will.
    pub closed spec fn remaining(&self) -> Seq<i64> {
        level_pending(self.deque@, forest_size(self.deque@))
    }

    /// A walk over the whole of `tree`, its queue seeded with the root.
    pub fn new(tree: &'a Tree) -> (r: Self)
        ensures
            r.remaining() == level_pending(seq![tree], tree.elems().len()),
    {
        let mut deque = VecDeque::new();
        deque.push_back(tree);
        let r = LevelOrderTraversal { deque };
        assert(r.deque@ =~= seq![tree]);
        assert(r.deque@.drop_first() =~= Seq::<&Tree>::empty());
        reveal_with_fuel(forest_size, 2);
        r
    }

    /// Hands out the next element, or `None` once all have been.
    pub fn next(&mut self) -> (r: Option<i64>)
        ensures
            old(self).remaining().len() == 0 ==> r.is_none() && final(self).remaining()
                == old(self).remaining(),
            old(self).remaining().len() > 0 ==> r == Some(old(self).remaining()[0])
                && final(self).remaining() == old(self).remaining().drop_first(),
    {
        let ghost start = self.remaining();
        loop
            invariant
                self.remaining() == start,
                start == old(self).remaining(),
            decreases self.deque@.len(),
        {
            let ghost before = self.deque@;
            match self.deque.pop_front() {
                None => {
                    assert(start =~= Seq::<i64>::empty());
                    return None;
                },
                Some(front) => {
                    assert(before.drop_first() == self.deque@);
                    match &front.0 {
                        None => {
                            assert(self.remaining() =~= start);
                        },
                        Some(node) => {
                            let ghost rest = self.deque@;
                            self.deque.push_back(&node.left);
                            self.deque.push_back(&node.right);
                            proof {
                                assert(self.deque@ =~= rest + seq![&node.left, &node.right]);
                                lemma_forest_size_concat(rest, seq![&node.left, &node.right]);
                                assert(seq![&node.left, &node.right].drop_first().drop_first()
                                    =~= Seq::<&Tree>::empty());
                                reveal_with_fuel(forest_size, 3);
                                assert(seq![&node.left, &node.right].drop_first() =~= seq![&node.right]);
                                assert(forest_size(seq![&node.left, &node.right])
                                    == node.left.elems().len() + node.right.elems().len());
                                assert(front.elems().len() == node.left.elems().len() + 1 + node.right.elems().len());
                            }
                            assert(self.remaining() =~= start.drop_first());
                            assert(start[0] == node.value);
                            return Some(node.value);
                        },
                    }
                },
            }
        }
    }
}

} // verus!
