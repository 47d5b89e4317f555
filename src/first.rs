//! A LIFO stack of `i32` values. Each node is owned by exactly one link: the
//! stack's head or the node before it.
use crate::model::{front, popped, pushed};
use vstd::prelude::*;

verus! {

/// A stack of `i32` values; its view lists them from the top down.
pub struct List {
    head: Link,
}

/// An owning link: nothing, or the next node.
enum Link {
    Empty,
    More(Box<Node>),
}

struct Node {
    elem: i32,
    next: Link,
}

impl Link {
    /// The values along the chain that starts at this link, in link order.
    spec fn values(&self) -> Seq<i32>
        decreases self,
    {
        match self {
            Link::Empty => Seq::empty(),
            Link::More(node) => seq![node.elem] + node.next.values(),
        }
    }
}

impl View for List {
    type V = Seq<i32>;

    /// The stacked values, the top one first.
    closed spec fn view(&self) -> Seq<i32> {
        self.head.values()
    }
}

impl List {
    /// An empty stack.
    pub fn new() -> (r: Self)
        ensures
            r@ == Seq::<i32>::empty(),
    {
        List { head: Link::Empty }
    }

    /// Puts `elem` on top of the stack.
    pub fn push(&mut self, elem: i32)
        ensures
            final(self)@ == pushed(old(self)@, elem),
    {
        let mut rest = Link::Empty;
        std::mem::swap(&mut self.head, &mut rest);
        let new_node = Box::new(Node { elem: elem, next: rest });
        self.head = Link::More(new_node);
    }

    /// Takes the top value off the stack; `None` when the stack is empty,
    /// which is then left as it was.
    pub fn pop(&mut self) -> (r: Option<i32>)
        ensures
            (r, final(self)@) == popped(old(self)@),
    {
        let mut cur = Link::Empty;
        std::mem::swap(&mut self.head, &mut cur);
        match cur {
            Link::Empty => None,
            Link::More(node) => {
                let Node { elem, next } = *node;
                self.head = next;
                Some(elem)
            },
        }
    }

    /// The top value, left in place; `None` when the stack is empty.
    pub fn peek(&self) -> (r: Option<&i32>)
        ensures
            match r {
                Some(v) => front(self@) == Some(*v),
                None => front(self@) is None,
            },
    {
        match &self.head {
            Link::Empty => None,
            Link::More(node) => Some(&node.elem),
        }
    }
}

impl Drop for List {
    /// Frees the nodes one at a time: each node's link is cut before the
    /// node goes, so no destruction reaches further down the chain and the
    /// call depth stays fixed whatever the length.
    fn drop(&mut self)
        ensures
            final(self)@ == Seq::<i32>::empty(),
        opens_invariants none
        no_unwind
    {
        let mut cur = Link::Empty;
        std::mem::swap(&mut self.head, &mut cur);
        let ghost total: nat = cur.values().len();
        let ghost freed: nat = 0;
        loop
            invariant
                freed + cur.values().len() == total,
            ensures
                // every node of the chain was freed, each once
                freed == total,
            decreases cur.values().len(),
        {
            match cur {
                Link::Empty => break,
                Link::More(mut node) => {
                    let mut rest = Link::Empty;
                    std::mem::swap(&mut node.next, &mut rest);
                    proof {
                        freed = freed + 1;
                    }
                    cur = rest;
                },
            }
        }
    }
}

} // verus!
