use vstd::prelude::*;

verus! {

struct Node<T> {
    next: Option<Box<Node<T>>>,
    value: T,
}

/// The values held by a chain of nodes, first to last.
spec fn chain<T>(link: Option<Box<Node<T>>>) -> Seq<T>
    decreases link,
{
    match link {
        None => Seq::empty(),
        Some(node) => seq![node.value] + chain(node.next),
    }
}

/// A list that owns its nodes one after the other. Its abstract value (`@`)
/// is the sequence of its values, head first.
pub struct SinglyLinkedList<T> {
    head: Option<Box<Node<T>>>,
}

impl<T> View for SinglyLinkedList<T> {
    type V = Seq<T>;

    closed spec fn view(&self) -> Seq<T> {
        chain(self.head)
    }
}

/// Appends `value` after the last node of the chain.
fn push_at_end<T>(link: &mut Option<Box<Node<T>>>, value: T)
    ensures
        chain(*final(link)) == chain(*old(link)).push(value),
    decreases chain(*old(link)).len(),
{
    match link.take() {
        None => {
            *link = Some(Box::new(Node { value, next: None }));
            assert(chain(*link) =~= Seq::<T>::empty().push(value));
        },
        Some(mut node) => {
            push_at_end(&mut node.next, value);
            *link = Some(node);
            assert(chain(*link) =~= chain(*old(link)).push(value));
        },
    }
}

impl<T: Copy> SinglyLinkedList<T> {
    pub fn new() -> (r: Self)
        ensures
            r@ == Seq::<T>::empty(),
    {
        SinglyLinkedList { head: None }
    }

    /// The first value.
    pub fn head(&self) -> (r: Option<T>)
        ensures
            r == if self@.len() == 0 {
                None
            } else {
                Some(self@[0])
            },
    {
        if let Some(node) = &self.head {
            return Some(node.value);
        }
        None
    }

    /// The number of values, counted by walking the chain.
    pub fn len(&self) -> (r: u32)
        requires
            self@.len() <= u32::MAX,
        ensures
            r == self@.len(),
    {
        let mut len: u32 = 0;
        let mut current = &self.head;
        loop
            invariant
                self@.len() <= u32::MAX,
                len + chain(*current).len() == self@.len(),
            decreases chain(*current).len(),
        {
            match current {
                None => return len,
                Some(node) => {
                    len = len + 1;
                    current = &node.next;
                },
            }
        }
    }

    /// Removes and returns the first value.
    pub fn pop(&mut self) -> (r: Option<T>)
        ensures
            old(self)@.len() == 0 ==> r.is_none() && final(self)@ == old(self)@,
            old(self)@.len() > 0 ==> r == Some(old(self)@[0]) && final(self)@ == old(
                self,
            )@.drop_first(),
    {
        if let Some(head) = self.head.take() {
            self.head = head.next;
            assert(self@ =~= old(self)@.drop_first());
            return Some(head.value);
        }
        None
    }

    /// Appends `value` after the last value.
    pub fn push(&mut self, value: T)
        ensures
            final(self)@ == old(self)@.push(value),
    {
        push_at_end(&mut self.head, value);
    }

    /// The last value.
    pub fn tail(&self) -> (r: Option<T>)
        ensures
            r == if self@.len() == 0 {
                None
            } else {
                Some(self@.last())
            },
    {
        let mut current = &self.head;
        loop
            invariant
                current.is_none() ==> self@.len() == 0,
                current.is_some() ==> self@.len() > 0 && chain(*current).len() > 0
                    && chain(*current).last() == self@.last(),
            decreases chain(*current).len(),
        {
            match current {
                None => return None,
                Some(node) => {
                    if node.next.is_none() {
                        assert(chain(*current) =~= seq![node.value]);
                        return Some(node.value);
                    }
                    assert(chain(node.next).len() > 0);
                    current = &node.next;
                },
            }
        }
    }

    /// The values, head first.
    pub fn to_vector(&self) -> (r: Vec<T>)
        ensures
            r@ == self@,
    {
        let mut v = Vec::new();
        let mut current = &self.head;
        loop
            invariant
                v@ + chain(*current) == self@,
            decreases chain(*current).len(),
        {
            match current {
                None => {
                    assert(v@ =~= self@);
                    return v;
                },
                Some(node) => {
                    let ghost before = v@;
                    v.push(node.value);
                    assert(before + chain(*current) =~= v@ + chain(node.next));
                    current = &node.next;
                },
            }
        }
    }
}

} // verus!
