use vstd::prelude::*;

use vstd::seq_lib::lemma_multiset_commutative;

use crate::node::Node;

verus! {

/// A sequence in non-decreasing order.
pub open spec fn sorted(s: Seq<i64>) -> bool {
    forall|i: int, j: int| 0 <= i <= j < s.len() ==> s[i] <= s[j]
}

/// A sorted sequence is fixed by what it holds.
pub proof fn lemma_sorted_unique(a: Seq<i64>, b: Seq<i64>)
    requires
        sorted(a),
        sorted(b),
        a.to_multiset() == b.to_multiset(),
    ensures
        a == b,
    decreases a.len(),
{
    broadcast use vstd::seq_lib::group_seq_properties;

    a.to_multiset_ensures();
    b.to_multiset_ensures();
    if a.len() > 0 {
        assert(a.contains(a[0]));
        assert(a.to_multiset().count(a[0]) > 0);
        assert(b.to_multiset().count(a[0]) > 0);
        assert(b.contains(a[0]));
        let j = choose|j: int| 0 <= j < b.len() && b[j] == a[0];
        assert(b.len() > 0);
        assert(b.contains(b[0]));
        assert(b.to_multiset().count(b[0]) > 0);
        assert(a.to_multiset().count(b[0]) > 0);
        assert(a.contains(b[0]));
        let k = choose|k: int| 0 <= k < a.len() && a[k] == b[0];
        assert(a[0] == b[0]);
        assert(a.remove(0) =~= a.drop_first());
        assert(b.remove(0) =~= b.drop_first());
        assert(a.remove(0).to_multiset() == a.to_multiset().remove(a[0]));
        assert(b.remove(0).to_multiset() == b.to_multiset().remove(b[0]));
        lemma_sorted_unique(a.drop_first(), b.drop_first());
        assert forall|i: int| 0 <= i < a.len() implies a[i] == b[i] by {
            if i > 0 {
                assert(a[i] == a.drop_first()[i - 1]);
                assert(b[i] == b.drop_first()[i - 1]);
            }
        }
        assert(a =~= b);
    } else {
        assert(b.len() == 0);
        assert(a =~= b);
    }
}

/// `r` is the least element of `s` greater than `v`, or `None` when there is none.
pub open spec fn is_successor(s: Seq<i64>, v: i64, r: Option<i64>) -> bool {
    match r {
        None => forall|x: i64| s.contains(x) ==> x <= v,
        Some(c) => s.contains(c) && c > v && forall|x: i64| s.contains(x) && x > v ==> c <= x,
    }
}

/// `r` is the greatest element of `s` less than `v`, or `None` when there is none.
pub open spec fn is_predecessor(s: Seq<i64>, v: i64, r: Option<i64>) -> bool {
    match r {
        None => forall|x: i64| s.contains(x) ==> x >= v,
        Some(c) => s.contains(c) && c < v && forall|x: i64| s.contains(x) && x < v ==> c >= x,
    }
}

/// A possibly empty subtree: the handle that owns its top node.
pub struct Tree(pub Option<Box<Node>>);

impl Tree {
    /// The elements in in-order (left, node, right).
    pub open spec fn elems(self) -> Seq<i64>
        decreases self,
    {
        match self.0 {
            None => Seq::empty(),
            Some(n) => n.left.elems() + seq![n.value] + n.right.elems(),
        }
    }

    /// The elements in reverse order (right, node, left).
    pub open spec fn reverse_elems(self) -> Seq<i64>
        decreases self,
    {
        match self.0 {
            None => Seq::empty(),
            Some(n) => n.right.reverse_elems() + seq![n.value] + n.left.reverse_elems(),
        }
    }

    /// The elements in pre-order (node, left, right).
    pub open spec fn pre_elems(self) -> Seq<i64>
        decreases self,
    {
        match self.0 {
            None => Seq::empty(),
            Some(n) => seq![n.value] + n.left.pre_elems() + n.right.pre_elems(),
        }
    }

    /// The elements in post-order (left, right, node).
    pub open spec fn post_elems(self) -> Seq<i64>
        decreases self,
    {
        match self.0 {
            None => Seq::empty(),
            Some(n) => n.left.post_elems() + n.right.post_elems() + seq![n.value],
        }
    }

    /// A tree with one node holding `value` above `left` and `right`.
    pub open spec fn joined(left: Tree, value: i64, right: Tree) -> Tree {
        Tree(Some(Box::new(Node { value, left, right })))
    }

    /// The tree after `insert`: `v` descends (left when smaller, right when
    /// larger, right when equal and duplicates are allowed) and becomes a new
    /// leaf at the empty handle it reaches; when equal and duplicates are
    /// refused, the tree is unchanged.
    pub open spec fn inserted(self, v: i64, allow_duplicate: bool) -> Tree
        decreases self,
    {
        match self.0 {
            None => Tree::joined(Tree(None), v, Tree(None)),
            Some(n) => if n.value > v {
                Tree::joined(n.left.inserted(v, allow_duplicate), n.value, n.right)
            } else if n.value < v || allow_duplicate {
                Tree::joined(n.left, n.value, n.right.inserted(v, allow_duplicate))
            } else {
                self
            },
        }
    }

    /// The tree after `extract_min`: the leftmost node is replaced by its right
    /// subtree.
    pub open spec fn without_min(self) -> Tree
        decreases self,
    {
        match self.0 {
            None => self,
            Some(n) => if n.left.0.is_some() {
                Tree::joined(n.left.without_min(), n.value, n.right)
            } else {
                n.right
            },
        }
    }

    /// The tree after `extract_max`: the rightmost node is replaced by its left
    /// subtree.
    pub open spec fn without_max(self) -> Tree
        decreases self,
    {
        match self.0 {
            None => self,
            Some(n) => if n.right.0.is_some() {
                Tree::joined(n.left, n.value, n.right.without_max())
            } else {
                n.left
            },
        }
    }

    /// The tree after `remove(t)`: the first node met on the descent that holds
    /// `t` is replaced by its only child, or by nothing; with two children it
    /// stays, keeps its left subtree, and takes the least element of its right
    /// subtree, which loses that element.
    pub open spec fn removed(self, t: i64) -> Tree
        decreases self,
    {
        match self.0 {
            None => self,
            Some(n) => if n.value > t {
                Tree::joined(n.left.removed(t), n.value, n.right)
            } else if n.value < t {
                Tree::joined(n.left, n.value, n.right.removed(t))
            } else if n.left.0.is_none() {
                n.right
            } else if n.right.0.is_none() {
                n.left
            } else {
                Tree::joined(n.left, n.right.elems()[0], n.right.without_min())
            },
        }
    }

    pub open spec fn height(self) -> nat
        decreases self,
    {
        match self.0 {
            None => 0,
            Some(n) => 1 + if n.left.height() >= n.right.height() {
                n.left.height()
            } else {
                n.right.height()
            },
        }
    }

    /// The ordering invariant: at every node, the left subtree holds only smaller
    /// elements and the right subtree only elements at least as large.
    pub open spec fn wf(self) -> bool
        decreases self,
    {
        match self.0 {
            None => true,
            Some(n) => {
                &&& n.left.wf()
                &&& n.right.wf()
                &&& forall|i: int| 0 <= i < n.left.elems().len() ==> n.left.elems()[i] < n.value
                &&& forall|i: int| 0 <= i < n.right.elems().len() ==> n.right.elems()[i] >= n.value
            }
        }
    }

    pub proof fn lemma_wf_sorted(self)
        requires
            self.wf(),
        ensures
            sorted(self.elems()),
        decreases self,
    {
        if let Some(n) = self.0 {
            n.left.lemma_wf_sorted();
            n.right.lemma_wf_sorted();
            let l = n.left.elems();
            let r = n.right.elems();
            let s = self.elems();
            assert forall|i: int, j: int| 0 <= i <= j < s.len() implies s[i] <= s[j] by {
                if j < l.len() {
                    assert(s[i] == l[i] && s[j] == l[j]);
                } else if i > l.len() {
                    assert(s[i] == r[i - l.len() - 1] && s[j] == r[j - l.len() - 1]);
                } else if i == l.len() {
                    if j > i {
                        assert(s[j] == r[j - l.len() - 1]);
                    }
                } else {
                    assert(s[i] == l[i]);
                    if j > l.len() {
                        assert(s[j] == r[j - l.len() - 1]);
                    }
                }
            }
        }
    }

    /// Reverse order is in-order backwards.
    pub proof fn lemma_reverse_elems(self)
        ensures
            self.reverse_elems() == self.elems().reverse(),
        decreases self,
    {
        if let Some(n) = self.0 {
            n.left.lemma_reverse_elems();
            n.right.lemma_reverse_elems();
            assert(self.reverse_elems() =~= self.elems().reverse());
        } else {
            assert(self.reverse_elems() =~= self.elems().reverse());
        }
    }

    /// Pre-order and post-order visit the same elements as in-order, each as
    /// often.
    pub proof fn lemma_orders_same_multiset(self)
        ensures
            self.pre_elems().to_multiset() == self.elems().to_multiset(),
            self.post_elems().to_multiset() == self.elems().to_multiset(),
        decreases self,
    {
        if let Some(n) = self.0 {
            n.left.lemma_orders_same_multiset();
            n.right.lemma_orders_same_multiset();
            let v = seq![n.value];
            lemma_multiset_commutative(n.left.elems() + v, n.right.elems());
            lemma_multiset_commutative(n.left.elems(), v);
            lemma_multiset_commutative(v + n.left.pre_elems(), n.right.pre_elems());
            lemma_multiset_commutative(v, n.left.pre_elems());
            lemma_multiset_commutative(n.left.post_elems() + n.right.post_elems(), v);
            lemma_multiset_commutative(n.left.post_elems(), n.right.post_elems());
            assert(self.pre_elems().to_multiset() =~= self.elems().to_multiset());
            assert(self.post_elems().to_multiset() =~= self.elems().to_multiset());
        } else {
            assert(self.pre_elems() =~= self.elems());
            assert(self.post_elems() =~= self.elems());
        }
    }

    /// Membership in a non-empty tree, split by where the element sits.
    pub proof fn lemma_contains_split(self, x: i64)
        requires
            self.0.is_some(),
        ensures
            self.elems().contains(x) <==> (self.0.unwrap().left.elems().contains(x) || x
                == self.0.unwrap().value || self.0.unwrap().right.elems().contains(x)),
    {
        let n = self.0.unwrap();
        lemma_concat_contains(n.left.elems(), seq![n.value], x);
        lemma_concat_contains(n.left.elems() + seq![n.value], n.right.elems(), x);
        assert(seq![n.value][0] == n.value);
    }

    /// Adds `value` below the handle. With `allow_duplicate`, an equal element
    /// sends the descent right and the value is added all the same; without it,
    /// an equal element stops the descent and nothing changes. Returns whether
    /// an equal element was met, which is whether `value` was already present.
    pub fn insert(&mut self, value: i64, allow_duplicate: bool) -> (r: bool)
        requires
            old(self).wf(),
        ensures
            final(self).wf(),
            *final(self) == old(self).inserted(value, allow_duplicate),
            r == old(self).elems().contains(value),
            r && !allow_duplicate ==> *final(self) == *old(self),
            !(r && !allow_duplicate) ==> exists|i: int|
                0 <= i <= old(self).elems().len() && final(self).elems() == old(self).elems().insert(
                    i,
                    value,
                ),
        decreases old(self).height(),
    {
        proof {
            if self.0.is_some() {
                self.lemma_contains_split(value);
                let n = self.0.unwrap();
                lemma_bounds_exclude(n.left.elems(), n.right.elems(), n.value, value);
            }
        }
        let ghost before = *self;
        match self.0.take() {
            None => {
                self.0 = Some(Box::new(Node::new(value)));
                assert(self.elems() =~= before.elems().insert(0, value));
                false
            },
            Some(mut node) => {
                let ghost l = node.left.elems();
                let ghost rr = node.right.elems();
                let r;
                if node.value > value {
                    r = node.left.insert(value, allow_duplicate);
                    proof {
                        if !(r && !allow_duplicate) {
                            let j = choose|j: int|
                                0 <= j <= l.len() && node.left.elems() == l.insert(j, value);
                            assert(node.left.elems() + seq![node.value] + rr =~= before.elems().insert(
                                j,
                                value,
                            ));
                        }
                    }
                } else if node.value < value || allow_duplicate {
                    let d = node.right.insert(value, allow_duplicate);
                    r = d || node.value == value;
                    proof {
                        if !(d && !allow_duplicate) {
                            let j = choose|j: int|
                                0 <= j <= rr.len() && node.right.elems() == rr.insert(j, value);
                            assert(l + seq![node.value] + node.right.elems() =~= before.elems().insert(
                                j + l.len() + 1,
                                value,
                            ));
                        }
                    }
                } else {
                    r = true;
                }
                self.0 = Some(node);
                r
            },
        }
    }

    /// Detaches the leftmost node, splicing its right subtree into its place,
    /// and returns its element: the first in order. An empty tree stays empty.
    pub fn extract_min(&mut self) -> (r: Option<i64>)
        requires
            old(self).wf(),
        ensures
            final(self).wf(),
            *final(self) == old(self).without_min(),
            old(self).elems().len() == 0 ==> r.is_none() && *final(self) == *old(self),
            old(self).elems().len() > 0 ==> r == Some(old(self).elems()[0])
                && final(self).elems() == old(self).elems().drop_first(),
        decreases old(self).height(),
    {
        let ghost before = *self;
        match self.0.take() {
            None => None,
            Some(mut node) => {
                if node.left.0.is_some() {
                    let r = node.left.extract_min();
                    assert(node.left.elems() + seq![node.value] + node.right.elems()
                        =~= before.elems().drop_first());
                    self.0 = Some(node);
                    r
                } else {
                    let Node { value, left, right } = *node;
                    assert(left.elems() =~= Seq::<i64>::empty());
                    assert(right.elems() =~= before.elems().drop_first());
                    *self = right;
                    Some(value)
                }
            },
        }
    }

    /// Detaches the rightmost node, splicing its left subtree into its place,
    /// and returns its element: the last in order. An empty tree stays empty.
    pub fn extract_max(&mut self) -> (r: Option<i64>)
        requires
            old(self).wf(),
        ensures
            final(self).wf(),
            *final(self) == old(self).without_max(),
            old(self).elems().len() == 0 ==> r.is_none() && *final(self) == *old(self),
            old(self).elems().len() > 0 ==> r == Some(old(self).elems().last())
                && final(self).elems() == old(self).elems().drop_last(),
        decreases old(self).height(),
    {
        let ghost before = *self;
        match self.0.take() {
            None => None,
            Some(mut node) => {
                if node.right.0.is_some() {
                    let r = node.right.extract_max();
                    assert(node.left.elems() + seq![node.value] + node.right.elems()
                        =~= before.elems().drop_last());
                    self.0 = Some(node);
                    r
                } else {
                    let Node { value, left, right } = *node;
                    assert(right.elems() =~= Seq::<i64>::empty());
                    assert(left.elems() =~= before.elems().drop_last());
                    *self = left;
                    Some(value)
                }
            },
        }
    }

    /// Removes one element equal to `target`, if there is one, and returns
    /// whether it did. A node with one child or none is replaced by that child;
    /// a node with two keeps its place and takes the least element of its right
    /// subtree, which is extracted from there.
    pub fn remove(&mut self, target: &i64) -> (r: bool)
        requires
            old(self).wf(),
        ensures
            final(self).wf(),
            *final(self) == old(self).removed(*target),
            r == old(self).elems().contains(*target),
            !r ==> *final(self) == *old(self),
            r ==> exists|i: int|
                0 <= i < old(self).elems().len() && old(self).elems()[i] == *target
                    && final(self).elems() == old(self).elems().remove(i),
        decreases old(self).height(),
    {
        proof {
            if self.0.is_some() {
                self.lemma_contains_split(*target);
                let n = self.0.unwrap();
                lemma_bounds_exclude(n.left.elems(), n.right.elems(), n.value, *target);
            }
        }
        let ghost before = *self;
        match self.0.take() {
            None => false,
            Some(mut node) => {
                let ghost l = node.left.elems();
                let ghost rr = node.right.elems();
                if node.value > *target {
                    let r = node.left.remove(target);
                    proof {
                        if r {
                            let j = choose|j: int|
                                0 <= j < l.len() && l[j] == *target && node.left.elems()
                                    == l.remove(j);
                            assert(node.left.elems() + seq![node.value] + rr =~= before.elems().remove(j));
                        }
                    }
                    self.0 = Some(node);
                    r
                } else if node.value < *target {
                    let r = node.right.remove(target);
                    proof {
                        if r {
                            let j = choose|j: int|
                                0 <= j < rr.len() && rr[j] == *target && node.right.elems()
                                    == rr.remove(j);
                            assert(l + seq![node.value] + node.right.elems() =~= before.elems().remove(
                                j + l.len() + 1,
                            ));
                        }
                    }
                    self.0 = Some(node);
                    r
                } else if node.left.0.is_none() {
                    let Node { value, left, right } = *node;
                    assert(right.elems() =~= before.elems().remove(0));
                    *self = right;
                    true
                } else if node.right.0.is_none() {
                    let Node { value, left, right } = *node;
                    assert(left.elems() =~= before.elems().remove(l.len() as int));
                    *self = left;
                    true
                } else {
                    proof {
                        node.right.lemma_wf_sorted();
                    }
                    match node.right.extract_min() {
                        Some(least) => {
                            assert(least == rr[0]);
                            assert(forall|i: int|
                                0 <= i < node.right.elems().len() ==> node.right.elems()[i]
                                    == rr[i + 1]);
                            node.value = least;
                            assert(l + seq![least] + node.right.elems() =~= before.elems().remove(
                                l.len() as int,
                            ));
                        },
                        None => {},
                    }
                    self.0 = Some(node);
                    true
                }
            },
        }
    }

    /// The first element in order, found by descending left.
    pub fn min(&self) -> (r: Option<i64>)
        ensures
            r == if self.elems().len() == 0 {
                None
            } else {
                Some(self.elems()[0])
            },
    {
        let mut current = self;
        loop
            invariant
                current.0.is_none() ==> self.elems().len() == 0,
                current.0.is_some() ==> self.elems().len() > 0 && current.elems().len() > 0
                    && current.elems()[0] == self.elems()[0],
            decreases current.height(),
        {
            let node = match &current.0 {
                None => return None,
                Some(node) => node,
            };
            if node.left.0.is_some() {
                assert(node.left.elems().len() > 0);
                current = &node.left;
            } else {
                assert(current.elems()[0] == node.value);
                return Some(node.value);
            }
        }
    }

    /// The last element in order, found by descending right.
    pub fn max(&self) -> (r: Option<i64>)
        ensures
            r == if self.elems().len() == 0 {
                None
            } else {
                Some(self.elems().last())
            },
    {
        let mut current = self;
        loop
            invariant
                current.0.is_none() ==> self.elems().len() == 0,
                current.0.is_some() ==> self.elems().len() > 0 && current.elems().len() > 0
                    && current.elems().last()
                    == self.elems().last(),
            decreases current.height(),
        {
            let node = match &current.0 {
                None => return None,
                Some(node) => node,
            };
            if node.right.0.is_some() {
                assert(node.right.elems().len() > 0);
                current = &node.right;
            } else {
                assert(current.elems().last() == node.value);
                return Some(node.value);
            }
        }
    }

    /// The least element greater than `value`; `value` itself need not be present.
    pub fn successor(&self, value: &i64) -> (r: Option<i64>)
        requires
            self.wf(),
        ensures
            is_successor(self.elems(), *value, r),
    {
        let v = *value;
        let ghost s = self.elems();
        let mut current = self;
        let mut successor: Option<i64> = None;
        loop
            invariant
                s == self.elems(),
                v == *value,
                current.wf(),
                forall|x: i64| current.elems().contains(x) ==> s.contains(x),
                successor.is_none() ==> forall|x: i64|
                    s.contains(x) && x > v ==> current.elems().contains(x),
                successor.is_some() ==> {
                    let c = successor.unwrap();
                    &&& s.contains(c)
                    &&& c > v
                    &&& forall|x: i64| s.contains(x) && x > v ==> (c <= x || current.elems().contains(x))
                    &&& forall|x: i64| current.elems().contains(x) ==> x < c
                },
            decreases current.height(),
        {
            let node = match &current.0 {
                None => {
                    assert(current.elems() =~= Seq::<i64>::empty());
                    assert(forall|x: i64| !current.elems().contains(x));
                    return successor;
                },
                Some(node) => node,
            };
            proof {
                current.lemma_split_all();
                assert(current.elems().contains(node.value));
            }
            if node.value > v {
                successor = Some(node.value);
                current = &node.left;
            } else {
                current = &node.right;
            }
        }
    }

    /// The greatest element less than `value`; `value` itself need not be present.
    pub fn predecessor(&self, value: &i64) -> (r: Option<i64>)
        requires
            self.wf(),
        ensures
            is_predecessor(self.elems(), *value, r),
    {
        let v = *value;
        let ghost s = self.elems();
        let mut current = self;
        let mut predecessor: Option<i64> = None;
        loop
            invariant
                s == self.elems(),
                v == *value,
                current.wf(),
                forall|x: i64| current.elems().contains(x) ==> s.contains(x),
                predecessor.is_none() ==> forall|x: i64|
                    s.contains(x) && x < v ==> current.elems().contains(x),
                predecessor.is_some() ==> {
                    let c = predecessor.unwrap();
                    &&& s.contains(c)
                    &&& c < v
                    &&& forall|x: i64| s.contains(x) && x < v ==> (c >= x || current.elems().contains(x))
                    &&& forall|x: i64| current.elems().contains(x) ==> x >= c
                },
            decreases current.height(),
        {
            let node = match &current.0 {
                None => {
                    assert(current.elems() =~= Seq::<i64>::empty());
                    assert(forall|x: i64| !current.elems().contains(x));
                    return predecessor;
                },
                Some(node) => node,
            };
            proof {
                current.lemma_split_all();
                assert(current.elems().contains(node.value));
            }
            if node.value < v {
                predecessor = Some(node.value);
                current = &node.right;
            } else {
                current = &node.left;
            }
        }
    }

    /// All elements in order, copied out.
    pub fn sorted_vec(&self) -> (r: Vec<i64>)
        ensures
            r@ == self.elems(),
        decreases self.height(),
    {
        let mut elements = Vec::new();
        if let Some(node) = &self.0 {
            let mut left = node.left.sorted_vec();
            let mut right = node.right.sorted_vec();
            elements.append(&mut left);
            elements.push(node.value);
            elements.append(&mut right);
        }
        elements
    }

    /// All elements in order, taking the tree apart.
    pub fn into_sorted_vec(self) -> (r: Vec<i64>)
        ensures
            r@ == self.elems(),
        decreases self.height(),
    {
        let mut elements = Vec::new();
        if let Some(node) = self.0 {
            let Node { value, left, right } = *node;
            let mut left = left.into_sorted_vec();
            let mut right = right.into_sorted_vec();
            elements.append(&mut left);
            elements.push(value);
            elements.append(&mut right);
        }
        elements
    }

    /// Membership in a non-empty tree for every value at once, with the bounds
    /// that the ordering invariant puts on each side.
    pub proof fn lemma_split_all(self)
        requires
            self.0.is_some(),
            self.wf(),
        ensures
            forall|x: i64| #[trigger]
                self.elems().contains(x) <==> (self.0.unwrap().left.elems().contains(x) || x
                    == self.0.unwrap().value || self.0.unwrap().right.elems().contains(x)),
            forall|x: i64| #[trigger]
                self.0.unwrap().left.elems().contains(x) ==> x < self.0.unwrap().value
                    && self.elems().contains(x),
            forall|x: i64| #[trigger]
                self.0.unwrap().right.elems().contains(x) ==> x >= self.0.unwrap().value
                    && self.elems().contains(x),
            self.elems().contains(self.0.unwrap().value),
    {
        let n = self.0.unwrap();
        assert forall|x: i64| #[trigger]
            self.elems().contains(x) <==> (n.left.elems().contains(x) || x == n.value
                || n.right.elems().contains(x)) by {
            self.lemma_contains_split(x);
        }
        assert forall|x: i64| #[trigger] n.left.elems().contains(x) implies x < n.value
            && self.elems().contains(x) by {
            lemma_bounds_exclude(n.left.elems(), n.right.elems(), n.value, x);
            self.lemma_contains_split(x);
        }
        assert forall|x: i64| #[trigger] n.right.elems().contains(x) implies x >= n.value
            && self.elems().contains(x) by {
            lemma_bounds_exclude(n.left.elems(), n.right.elems(), n.value, x);
            self.lemma_contains_split(x);
        }
        self.lemma_contains_split(n.value);
    }

    /// Whether `target` is among the elements.
    pub fn contains(&self, target: &i64) -> (r: bool)
        requires
            self.wf(),
        ensures
            r == self.elems().contains(*target),
    {
        let mut current = self;
        loop
            invariant
                current.wf(),
                self.elems().contains(*target) == current.elems().contains(*target),
            decreases current.height(),
        {
            let node = match &current.0 {
                None => return false,
                Some(node) => node,
            };
            proof {
                current.lemma_contains_split(*target);
                lemma_bounds_exclude(node.left.elems(), node.right.elems(), node.value, *target);
            }
            if node.value > *target {
                current = &node.left;
            } else if node.value < *target {
                current = &node.right;
            } else {
                return true;
            }
        }
    }
}

/// Membership in a concatenation.
pub proof fn lemma_concat_contains(a: Seq<i64>, b: Seq<i64>, x: i64)
    ensures
        (a + b).contains(x) <==> (a.contains(x) || b.contains(x)),
{
    if (a + b).contains(x) {
        let i = choose|i: int| 0 <= i < (a + b).len() && (a + b)[i] == x;
        if i >= a.len() {
            assert(b[i - a.len()] == x);
        }
    }
    if a.contains(x) {
        let i = choose|i: int| 0 <= i < a.len() && a[i] == x;
        assert((a + b)[i] == x);
    }
    if b.contains(x) {
        let i = choose|i: int| 0 <= i < b.len() && b[i] == x;
        assert((a + b)[i + a.len()] == x);
    }
}

/// Below a node holding `v`, a value less than `v` is absent on the right and
/// a value at least `v` is absent on the left.
pub proof fn lemma_bounds_exclude(l: Seq<i64>, r: Seq<i64>, v: i64, x: i64)
    requires
        forall|i: int| 0 <= i < l.len() ==> l[i] < v,
        forall|i: int| 0 <= i < r.len() ==> r[i] >= v,
    ensures
        x < v ==> !r.contains(x),
        x >= v ==> !l.contains(x),
{
    if x < v && r.contains(x) {
        let i = choose|i: int| 0 <= i < r.len() && r[i] == x;
    }
    if x >= v && l.contains(x) {
        let i = choose|i: int| 0 <= i < l.len() && l[i] == x;
    }
}

} // verus!
