//! A double-ended list whose nodes live in an arena of slots and refer to
//! their neighbours by slot number. A node is destroyed by emptying its slot,
//! which is then kept for reuse.
use crate::model::{front, popped, pushed};
use vstd::prelude::*;

verus! {

/// One element of the list, with the slots of its neighbours.
pub struct Node<T> {
    elem: T,
    next: Option<usize>,
    prev: Option<usize>,
}

impl<T> Node<T> {
    fn new(elem: T) -> (r: Self)
        ensures
            r.elem == elem,
            r.next is None,
            r.prev is None,
    {
        Node { elem: elem, next: None, prev: None }
    }
}

/// A list of `T`; its view lists the elements from the front.
pub struct List<T> {
    /// Each slot holds a live node or nothing.
    slots: Vec<Option<Node<T>>>,
    /// The empty slots, each once.
    free: Vec<usize>,
    head: Option<usize>,
    tail: Option<usize>,
    /// The slots of the live nodes, front to back.
    order: Ghost<Seq<usize>>,
}

impl<T> List<T> {
    /// The node in slot `i`, which must hold one.
    spec fn node(&self, i: usize) -> Node<T> {
        self.slots@[i as int]->Some_0
    }

    /// The links are well formed: following `next` from `head` and `prev`
    /// from `tail` visits the live nodes in `order` and in reverse, and every
    /// slot holds a node that is in `order` or is listed as free, never both.
    pub closed spec fn wf(&self) -> bool {
        let ord = self.order@;
        let n = ord.len();
        &&& ord.no_duplicates()
        &&& self.free@.no_duplicates()
        &&& forall|k: int| 0 <= k < n ==> (#[trigger] ord[k]) < self.slots@.len()
        &&& forall|k: int| 0 <= k < n ==> (#[trigger] self.slots@[ord[k] as int]) is Some
        &&& forall|k: int|
            0 <= k < n ==> (#[trigger] self.node(ord[k])).prev == (if k == 0 {
                None
            } else {
                Some(ord[k - 1])
            })
        &&& forall|k: int|
            0 <= k < n ==> (#[trigger] self.node(ord[k])).next == (if k == n - 1 {
                None
            } else {
                Some(ord[k + 1])
            })
        &&& forall|k: int|
            0 <= k < self.free@.len() ==> (#[trigger] self.free@[k]) < self.slots@.len()
                && self.slots@[self.free@[k] as int] is None
        &&& forall|i: usize|
            i < self.slots@.len() && (#[trigger] self.slots@[i as int]) is None
                ==> self.free@.contains(i)
        &&& forall|i: usize|
            i < self.slots@.len() && (#[trigger] self.slots@[i as int]) is Some
                ==> ord.contains(i)
        &&& self.head == (if n == 0 {
            None
        } else {
            Some(ord[0])
        })
        &&& self.tail == (if n == 0 {
            None
        } else {
            Some(ord[n - 1])
        })
    }
}

impl<T> View for List<T> {
    type V = Seq<T>;

    /// The elements, the front one first.
    closed spec fn view(&self) -> Seq<T> {
        self.order@.map_values(|i: usize| self.node(i).elem)
    }
}

impl<T> List<T> {
    /// An empty list.
    pub fn new() -> (r: Self)
        ensures
            r.wf(),
            r@ == Seq::<T>::empty(),
    {
        let r = List {
            slots: Vec::new(),
            free: Vec::new(),
            head: None,
            tail: None,
            order: Ghost(Seq::empty()),
        };
        proof {
            assert(r@ =~= Seq::<T>::empty());
        }
        r
    }

    /// Puts `elem` at the front. The new node takes an empty slot where one
    /// is free, else a new slot at the end of the arena.
    pub fn push_front(&mut self, elem: T)
        requires
            old(self).wf(),
        ensures
            final(self).wf(),
            final(self)@ == pushed(old(self)@, elem),
    {
        let ghost ord = self.order@;
        let ghost old_slots = self.slots@;
        let mut new_head = Node::new(elem);
        new_head.next = self.head;
        let idx: usize;
        match self.free.pop() {
            Some(i) => {
                idx = i;
                self.slots[idx] = Some(new_head);
            },
            None => {
                idx = self.slots.len();
                self.slots.push(Some(new_head));
            },
        }
        proof {
            // the chosen slot held no live node
            assert forall|k: int| 0 <= k < ord.len() implies ord[k] != idx by {
                if idx < old_slots.len() {
                    assert(old_slots[ord[k] as int] is Some);
                }
            }
        }
        let ghost placed = self.slots@;
        proof {
            // the free list lost the chosen slot, or was empty
            assert(old(self).free@.len() > 0 && old(self).free@.last() == idx && self.free@
                =~= old(self).free@.drop_last() || old(self).free@.len() == 0 && self.free@
                == old(self).free@);
        }
        match self.head {
            Some(h) => {
                if let Some(old_head) = &mut self.slots[h] {
                    old_head.prev = Some(idx);
                }
            },
            None => {
                self.tail = Some(idx);
            },
        }
        self.head = Some(idx);
        self.order = Ghost(seq![idx] + ord);
        proof {
            let new_ord = self.order@;
            let n = ord.len();
            assert(placed[idx as int] is Some);
            assert(placed.len() >= old_slots.len());
            assert forall|i: int|
                0 <= i < placed.len() && i != idx implies placed[i] == old_slots[i] by {}
            if n > 0 {
                let h = ord[0];
                assert(h != idx);
                assert(self.slots@ =~= placed.update(
                    h as int,
                    Some(Node { prev: Some(idx), ..placed[h as int]->Some_0 }),
                ));
            } else {
                assert(self.slots@ =~= placed);
            }
            assert(new_ord.no_duplicates()) by {
                assert forall|a: int, b: int|
                    0 <= a < b < new_ord.len() implies new_ord[a] != new_ord[b] by {
                    if a > 0 {
                        assert(new_ord[a] == ord[a - 1]);
                    }
                    assert(new_ord[b] == ord[b - 1]);
                }
            }
            assert forall|k: int| 0 <= k < new_ord.len() implies {
                &&& (#[trigger] new_ord[k]) < self.slots@.len()
                &&& self.slots@[new_ord[k] as int] is Some
                &&& self.node(new_ord[k]).prev == (if k == 0 {
                    None
                } else {
                    Some(new_ord[k - 1])
                })
                &&& self.node(new_ord[k]).next == (if k == new_ord.len() - 1 {
                    None
                } else {
                    Some(new_ord[k + 1])
                })
            } by {
                if k > 0 {
                    assert(new_ord[k] == ord[k - 1]);
                    assert(old_slots[ord[k - 1] as int] is Some);
                    assert(old(self).node(ord[k - 1]).next == (if k - 1 == n - 1 {
                        None
                    } else {
                        Some(ord[k])
                    }));
                }
            }
            assert forall|k: int| 0 <= k < self.free@.len() implies {
                &&& (#[trigger] self.free@[k]) < self.slots@.len()
                &&& self.slots@[self.free@[k] as int] is None
            } by {
                assert(self.free@[k] == old(self).free@[k]);
                assert(old(self).free@[k] != idx);
                if n > 0 {
                    assert(old_slots[ord[0] as int] is Some);
                }
            }
            assert forall|i: usize|
                i < self.slots@.len() && (#[trigger] self.slots@[i as int]) is None implies self.free@.contains(
                i,
            ) by {
                assert(i != idx);
                assert(old_slots[i as int] is None);
                let j = choose|j: int| 0 <= j < old(self).free@.len() && old(self).free@[j] == i;
                assert(j < self.free@.len());
                assert(self.free@[j] == i);
            }
            assert forall|i: usize|
                i < self.slots@.len() && (#[trigger] self.slots@[i as int]) is Some implies new_ord.contains(
                i,
            ) by {
                if i == idx {
                    assert(new_ord[0] == i);
                } else {
                    assert(old_slots[i as int] is Some);
                    let j = choose|j: int| 0 <= j < ord.len() && ord[j] == i;
                    assert(new_ord[j + 1] == i);
                }
            }
            assert(self@ =~= pushed(old(self)@, elem)) by {
                assert forall|k: int| 0 <= k < self@.len() implies self@[k] == (seq![elem] + old(self)@)[k] by {
                    if k > 0 {
                        assert(new_ord[k] == ord[k - 1]);
                        assert(old_slots[ord[k - 1] as int] is Some);
                    }
                }
            }
        }
    }

    /// Takes the front element off the list; `None` when the list is empty,
    /// which is then left as it was. The emptied slot becomes free.
    pub fn pop_front(&mut self) -> (r: Option<T>)
        requires
            old(self).wf(),
        ensures
            final(self).wf(),
            (r, final(self)@) == popped(old(self)@),
    {
        let ghost ord = self.order@;
        let ghost old_slots = self.slots@;
        match self.head {
            None => None,
            Some(h) => {
                proof {
                    assert(ord[0] == h);
                    assert(old_slots[h as int] is Some);
                    assert(old(self).node(ord[0]).next == (if ord.len() == 1 {
                        None
                    } else {
                        Some(ord[1])
                    }));
                }
                let old_head = self.slots[h].take().unwrap();
                let ghost emptied = self.slots@;
                match old_head.next {
                    Some(new_head) => {
                        proof {
                            assert(ord[1] == new_head);
                            assert(ord[1] != ord[0]);
                            assert(emptied[new_head as int] is Some);
                        }
                        if let Some(node) = &mut self.slots[new_head] {
                            node.prev = None;
                        }
                        self.head = Some(new_head);
                    },
                    None => {
                        self.head = None;
                        self.tail = None;
                    },
                }
                self.free.push(h);
                self.order = Ghost(ord.drop_first());
                proof {
                    let new_ord = self.order@;
                    let n = ord.len();
                    assert(emptied =~= old_slots.update(h as int, None));
                    if n > 1 {
                        let nh = ord[1];
                        assert(self.slots@ =~= emptied.update(
                            nh as int,
                            Some(Node { prev: None, ..emptied[nh as int]->Some_0 }),
                        ));
                    } else {
                        assert(self.slots@ =~= emptied);
                    }
                    assert forall|k: int| 0 <= k < new_ord.len() implies {
                        &&& (#[trigger] new_ord[k]) < self.slots@.len()
                        &&& self.slots@[new_ord[k] as int] is Some
                        &&& self.node(new_ord[k]).prev == (if k == 0 {
                            None
                        } else {
                            Some(new_ord[k - 1])
                        })
                        &&& self.node(new_ord[k]).next == (if k == new_ord.len() - 1 {
                            None
                        } else {
                            Some(new_ord[k + 1])
                        })
                    } by {
                        assert(new_ord[k] == ord[k + 1]);
                        assert(ord[k + 1] != ord[0]);
                        assert(old_slots[ord[k + 1] as int] is Some);
                        assert(old(self).node(ord[k + 1]).prev == Some(ord[k]));
                        if k > 0 {
                            assert(ord[k + 1] != ord[1]);
                        }
                    }
                    assert(!old(self).free@.contains(h)) by {
                        if old(self).free@.contains(h) {
                            let j = choose|j: int|
                                0 <= j < old(self).free@.len() && old(self).free@[j] == h;
                            assert(old_slots[old(self).free@[j] as int] is None);
                        }
                    }
                    assert(self.free@ =~= old(self).free@.push(h));
                    assert forall|k: int| 0 <= k < self.free@.len() implies {
                        &&& (#[trigger] self.free@[k]) < self.slots@.len()
                        &&& self.slots@[self.free@[k] as int] is None
                    } by {
                        if k < old(self).free@.len() {
                            assert(self.free@[k] == old(self).free@[k]);
                            if n > 1 {
                                assert(old_slots[ord[1] as int] is Some);
                            }
                        }
                    }
                    assert forall|i: usize|
                        i < self.slots@.len() && (#[trigger] self.slots@[i as int]) is None implies self.free@.contains(
                        i,
                    ) by {
                        if i != h {
                            assert(old_slots[i as int] is None);
                            let j = choose|j: int|
                                0 <= j < old(self).free@.len() && old(self).free@[j] == i;
                            assert(self.free@[j] == i);
                        } else {
                            assert(self.free@[self.free@.len() - 1] == h);
                        }
                    }
                    assert forall|i: usize|
                        i < self.slots@.len() && (#[trigger] self.slots@[i as int]) is Some implies new_ord.contains(
                        i,
                    ) by {
                        assert(i != h);
                        assert(old_slots[i as int] is Some);
                        let j = choose|j: int| 0 <= j < ord.len() && ord[j] == i;
                        assert(j != 0);
                        assert(new_ord[j - 1] == i);
                    }
                    assert(self@ =~= old(self)@.drop_first()) by {
                        assert forall|k: int| 0 <= k < self@.len() implies self@[k]
                            == old(self)@.drop_first()[k] by {
                            assert(new_ord[k] == ord[k + 1]);
                            assert(ord[k + 1] != ord[0]);
                        }
                    }
                    assert(old(self)@[0] == old_head.elem);
                }
                Some(old_head.elem)
            },
        }
    }

    /// The front element, left in place; `None` when the list is empty.
    pub fn peek_front(&self) -> (r: Option<&T>)
        requires
            self.wf(),
        ensures
            match r {
                Some(v) => front(self@) == Some(*v),
                None => front(self@) is None,
            },
    {
        match self.head {
            None => None,
            Some(h) => {
                proof {
                    assert(self.order@[0] == h);
                    assert(self.slots@[h as int] is Some);
                }
                match &self.slots[h] {
                    Some(node) => Some(&node.elem),
                    None => None,
                }
            },
        }
    }
}

} // verus!
