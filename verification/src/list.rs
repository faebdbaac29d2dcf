//! The slot store and the doubly linked list built on it.

use vstd::prelude::*;
use vstd::pervasive::VecAdditionalExecFns;

verus! {

/// One storage cell of the arena: either a live node or a link of the free
/// chain threaded through the unoccupied cells.
enum Slot<T> {
    /// An unoccupied cell, holding the index of the next free cell, if any.
    Free(Option<usize>),
    /// An occupied cell, holding a live node.
    Used(T),
}

impl<T> Slot<T> {
    /// Reads the next-free link of a slot known to be free. A used slot here
    /// would be an internal invariant violation, which aborts.
    fn as_free(&self) -> (r: &Option<usize>)
        requires
            self is Free,
        ensures
            *r == self->Free_0,
    {
        match self {
            Slot::Free(pos) => pos,
            _ => vstd::pervasive::unreached(),
        }
    }

    /// Borrows the node of a slot known to be used. A free slot here would be
    /// an internal invariant violation, which aborts.
    fn as_used(&self) -> (r: &T)
        requires
            self is Used,
        ensures
            *r == self->Used_0,
    {
        match self {
            Slot::Used(val) => val,
            _ => vstd::pervasive::unreached(),
        }
    }

    /// Mutably borrows the node of a slot known to be used. A free slot here
    /// would be an internal invariant violation, which aborts.
    fn as_used_mut(&mut self) -> (r: &mut T)
        requires
            *old(self) is Used,
        ensures
            *r == (*old(self))->Used_0,
            *final(self) == Slot::Used(*final(r)),
    {
        match self {
            Slot::Used(val) => val,
            _ => vstd::pervasive::unreached(),
        }
    }

    /// Moves the node out of a slot known to be used. A free slot here would
    /// be an internal invariant violation, which aborts.
    fn into_used(self) -> (r: T)
        requires
            self is Used,
        ensures
            r == self->Used_0,
    {
        match self {
            Slot::Used(val) => val,
            _ => vstd::pervasive::unreached(),
        }
    }
}

/// A live node: a value and the slot indices of its neighbours, absent at the
/// ends of the list.
struct LinkedListNode<T> {
    prev: Option<usize>,
    next: Option<usize>,
    val: T,
}

/// A doubly linked list over a growable slot store.
///
/// The abstract value of a list is the sequence of its elements from head to
/// tail, written `self@`.
pub struct LinkedList<T> {
    size: usize,
    head: Option<usize>,
    tail: Option<usize>,
    free: Option<usize>,
    slots: Vec<Slot<LinkedListNode<T>>>,
    /// The slot indices of the live nodes, from head to tail.
    order: Ghost<Seq<usize>>,
    /// The slot indices of the free slots, in chain order from `free`.
    free_chain: Ghost<Seq<usize>>,
}

impl<T> View for LinkedList<T> {
    type V = Seq<T>;

    closed spec fn view(&self) -> Seq<T> {
        Seq::new(self.order@.len(), |i: int| self.node_at(i).val)
    }
}

impl<T> LinkedList<T> {
    /// The node stored at position `i` of the list (not slot index `i`).
    spec fn node_at(self, i: int) -> LinkedListNode<T> {
        self.slots@[self.order@[i] as int]->Used_0
    }

    /// The slot index of the neighbour towards the head, as the node at
    /// position `i` must record it.
    spec fn prev_of(self, i: int) -> Option<usize> {
        if i == 0 {
            None
        } else {
            Some(self.order@[i - 1])
        }
    }

    /// The slot index of the neighbour towards the tail, as the node at
    /// position `i` must record it.
    spec fn next_of(self, i: int) -> Option<usize> {
        if i + 1 == self.order@.len() {
            None
        } else {
            Some(self.order@[i + 1])
        }
    }

    /// The node at position `i` sits in a used slot and records exactly its
    /// neighbours in the chain.
    spec fn wf_node(self, i: int) -> bool {
        &&& self.order@[i] < self.slots@.len()
        &&& self.slots@[self.order@[i] as int] is Used
        &&& self.node_at(i).prev == self.prev_of(i)
        &&& self.node_at(i).next == self.next_of(i)
    }

    /// The free slot at chain position `i` is free and records the next chain
    /// entry, or nothing at the chain's end.
    spec fn wf_free_slot(self, i: int) -> bool {
        &&& self.free_chain@[i] < self.slots@.len()
        &&& self.slots@[self.free_chain@[i] as int] is Free
        &&& self.slots@[self.free_chain@[i] as int]->Free_0 == (if i + 1
            == self.free_chain@.len() {
            None::<usize>
        } else {
            Some(self.free_chain@[i + 1])
        })
    }

    /// Well-formedness: the used slots form one consistent doubly linked
    /// chain from `head` to `tail`, the free slots form one chain from
    /// `free`, the two visit distinct slots exactly once, and `size` counts
    /// the live nodes.
    pub closed spec fn wf(self) -> bool {
        &&& forall|i: int| 0 <= i < self.order@.len() ==> #[trigger] self.wf_node(i)
        &&& forall|i: int| 0 <= i < self.free_chain@.len() ==> #[trigger] self.wf_free_slot(i)
        &&& self.order@.no_duplicates()
        &&& self.free_chain@.no_duplicates()
        &&& self.head == (if self.order@.len() == 0 {
            None::<usize>
        } else {
            Some(self.order@[0])
        })
        &&& self.tail == (if self.order@.len() == 0 {
            None::<usize>
        } else {
            Some(self.order@[self.order@.len() - 1])
        })
        &&& self.free == (if self.free_chain@.len() == 0 {
            None::<usize>
        } else {
            Some(self.free_chain@[0])
        })
        &&& self.size == self.order@.len()
        &&& self.order@.len() + self.free_chain@.len() == self.slots@.len()
    }

    /// The stored element count, which `size` returns.
    pub closed spec fn spec_size(self) -> nat {
        self.size as nat
    }

    /// Whether the head link is absent, which `is_empty` returns.
    pub closed spec fn spec_is_empty(self) -> bool {
        self.head is None
    }

    /// How many slots the store has allocated, used and free together.
    pub closed spec fn store_size(self) -> nat {
        self.slots@.len()
    }

    /// How many of the allocated slots are free.
    pub closed spec fn free_slots(self) -> nat {
        self.free_chain@.len()
    }

    /// Builds the empty list. No slots are allocated.
    pub fn new() -> (r: LinkedList<T>)
        ensures
            r.wf(),
            r@ == Seq::<T>::empty(),
            r.store_size() == 0,
            r.free_slots() == 0,
    {
        let r = LinkedList {
            size: 0,
            head: None,
            tail: None,
            free: None,
            slots: Vec::new(),
            order: Ghost(Seq::empty()),
            free_chain: Ghost(Seq::empty()),
        };
        proof {
            assert(r@ =~= Seq::<T>::empty());
        }
        r
    }

    /// The number of elements in the list: the length of `self@`.
    pub fn size(&self) -> (r: usize)
        requires
            self.wf(),
        ensures
            r == self.spec_size(),
            r == self@.len(),
    {
        self.size
    }

    /// Whether the list holds no element: true exactly when `self@` is empty.
    pub fn is_empty(&self) -> (r: bool)
        requires
            self.wf(),
        ensures
            r == self.spec_is_empty(),
            r == (self@.len() == 0),
    {
        self.head.is_none()
    }

    /// Puts `node` into a slot and returns that slot's index: the head of the
    /// free chain if one exists, else a newly appended slot.
    fn insert(&mut self, node: LinkedListNode<T>) -> (pos: usize)
        requires
            old(self).wf(),
        ensures
            pos < final(self).slots@.len(),
            forall|i: int| 0 <= i < old(self).order@.len() ==> #[trigger] old(self).order@[i] != pos,
            final(self).slots@.len() == old(self).slots@.len() + (if old(
                self,
            ).free_chain@.len() == 0 {
                1int
            } else {
                0int
            }),
            final(self).slots@[pos as int] == Slot::Used(node),
            forall|j: int|
                0 <= j < final(self).slots@.len() && j != pos ==> final(self).slots@[j] == old(
                    self,
                ).slots@[j],
            final(self).free_chain@ == (if old(self).free_chain@.len() == 0 {
                old(self).free_chain@
            } else {
                old(self).free_chain@.drop_first()
            }),
            forall|i: int|
                0 <= i < final(self).free_chain@.len() ==> #[trigger] final(self).wf_free_slot(i),
            final(self).free == (if final(self).free_chain@.len() == 0 {
                None::<usize>
            } else {
                Some(final(self).free_chain@[0])
            }),
            final(self).order@ == old(self).order@,
            final(self).head == old(self).head,
            final(self).tail == old(self).tail,
            final(self).size == old(self).size + 1,
    {
        let slot = Slot::Used(node);

        match self.free {
            None => {
                self.slots.push(slot);
                let pos = self.slots.len() - 1;
                self.size = self.size + 1;
                proof {
                    assert forall|i: int|
                        0 <= i < self.free_chain@.len() implies #[trigger] self.wf_free_slot(
                        i,
                    ) by {
                        assert(old(self).wf_free_slot(i));
                    }
                    assert forall|i: int|
                        0 <= i < old(self).order@.len() implies #[trigger] old(self).order@[i]
                        != pos by {
                        assert(old(self).wf_node(i));
                    }
                }
                pos
            },
            Some(curr) => {
                proof {
                    assert(self.wf_free_slot(0));
                }
                let next_free = *self.slots[curr].as_free();
                self.free = next_free;
                self.slots.set(curr, slot);
                self.size = self.size + 1;
                proof {
                    self.free_chain@ = old(self).free_chain@.drop_first();
                    assert forall|i: int|
                        0 <= i < old(self).order@.len() implies #[trigger] old(self).order@[i]
                        != curr by {
                        assert(old(self).wf_node(i));
                        assert(old(self).wf_free_slot(0));
                    }
                    assert forall|i: int|
                        0 <= i < self.free_chain@.len() implies #[trigger] self.wf_free_slot(
                        i,
                    ) by {
                        assert(old(self).wf_free_slot(i + 1));
                        assert(old(self).free_chain@[i + 1] != curr);
                    }
                    if self.free_chain@.len() > 0 {
                        assert(old(self).wf_free_slot(0));
                    }
                }
                curr
            },
        }
    }

    /// Inserts `val` before the current first element. The new node becomes
    /// the head; an empty list gains its single element.
    pub fn add_first(&mut self, val: T)
        requires
            old(self).wf(),
        ensures
            final(self).wf(),
            final(self)@ == seq![val] + old(self)@,
            final(self)@ == crate::ops::apply_op(old(self)@, crate::ops::ListOp::AddFirst(val)),
            final(self).store_size() == (if old(self).free_slots() == 0 {
                old(self).store_size() + 1
            } else {
                old(self).store_size()
            }),
            final(self).free_slots() == (if old(self).free_slots() == 0 {
                0
            } else {
                (old(self).free_slots() - 1) as nat
            }),
    {
        let node = LinkedListNode { prev: None, next: self.head, val };

        let new_head = self.insert(node);
        let ghost mid = *self;

        match self.head {
            None => {
                self.head = Some(new_head);
                self.tail = Some(new_head);
                proof {
                    self.order@ = seq![new_head];
                    assert(old(self).order@.len() == 0);
                    assert(self.wf_node(0));
                    assert forall|i: int|
                        0 <= i < self.free_chain@.len() implies #[trigger] self.wf_free_slot(
                        i,
                    ) by {
                        assert(mid.wf_free_slot(i));
                    }
                    assert(self@ =~= seq![val] + old(self)@);
                }
            },
            Some(old_head) => {
                proof {
                    assert(old(self).wf_node(0));
                }
                self.slots[old_head].as_used_mut().prev = Some(new_head);
                self.head = Some(new_head);
                proof {
                    self.order@ = seq![new_head] + old(self).order@;
                    let ord0 = old(self).order@;
                    assert(old(self).order@[0] != new_head);
                    assert forall|i: int|
                        0 <= i < self.order@.len() implies #[trigger] self.wf_node(i) by {
                        if i > 0 {
                            assert(old(self).wf_node(i - 1));
                            assert(ord0[i - 1] != new_head);
                        }
                    }
                    assert forall|i: int, j: int|
                        0 <= i < self.order@.len() && 0 <= j < self.order@.len() && i
                            != j implies self.order@[i] != self.order@[j] by {
                        if i > 0 && j > 0 {
                            assert(ord0[i - 1] != ord0[j - 1]);
                        } else if i == 0 {
                            assert(ord0[j - 1] != new_head);
                        } else {
                            assert(ord0[i - 1] != new_head);
                        }
                    }
                    assert forall|i: int|
                        0 <= i < self.free_chain@.len() implies #[trigger] self.wf_free_slot(
                        i,
                    ) by {
                        assert(mid.wf_free_slot(i));
                        assert(old(self).wf_node(0));
                        assert(mid.free_chain@[i] != old_head);
                    }
                    assert forall|i: int|
                        0 <= i < self@.len() implies self@[i] == (seq![val] + old(self)@)[i] by {
                        if i > 0 {
                            assert(old(self).wf_node(i - 1));
                            assert(ord0[i - 1] != new_head);
                            if i > 1 {
                                assert(ord0[i - 1] != ord0[0]);
                            }
                        }
                    }
                    assert(self@ =~= seq![val] + old(self)@);
                }
            },
        }
    }

    /// Inserts `val` after the current last element. The new node becomes
    /// the tail; an empty list gains its single element.
    pub fn add_last(&mut self, val: T)
        requires
            old(self).wf(),
        ensures
            final(self).wf(),
            final(self)@ == old(self)@.push(val),
            final(self)@ == crate::ops::apply_op(old(self)@, crate::ops::ListOp::AddLast(val)),
            final(self).store_size() == (if old(self).free_slots() == 0 {
                old(self).store_size() + 1
            } else {
                old(self).store_size()
            }),
            final(self).free_slots() == (if old(self).free_slots() == 0 {
                0
            } else {
                (old(self).free_slots() - 1) as nat
            }),
    {
        let node = LinkedListNode { prev: self.tail, next: None, val };

        let new_tail = self.insert(node);
        let ghost mid = *self;

        match self.tail {
            None => {
                self.head = Some(new_tail);
                self.tail = Some(new_tail);
                proof {
                    self.order@ = seq![new_tail];
                    assert(old(self).order@.len() == 0);
                    assert(self.wf_node(0));
                    assert forall|i: int|
                        0 <= i < self.free_chain@.len() implies #[trigger] self.wf_free_slot(
                        i,
                    ) by {
                        assert(mid.wf_free_slot(i));
                    }
                    assert(self@ =~= old(self)@.push(val));
                }
            },
            Some(old_tail) => {
                proof {
                    assert(old(self).wf_node(old(self).order@.len() - 1));
                }
                self.slots[old_tail].as_used_mut().next = Some(new_tail);
                self.tail = Some(new_tail);
                proof {
                    self.order@ = old(self).order@ + seq![new_tail];
                    let ord0 = old(self).order@;
                    let n = ord0.len() as int;
                    assert(ord0[n - 1] != new_tail);
                    assert forall|i: int|
                        0 <= i < self.order@.len() implies #[trigger] self.wf_node(i) by {
                        if i == n {
                            assert(old(self).wf_node(n - 1));
                        } else {
                            assert(old(self).wf_node(i));
                            assert(ord0[i] != new_tail);
                            if i < n - 1 {
                                assert(ord0[i] != ord0[n - 1]);
                            }
                        }
                    }
                    assert forall|i: int, j: int|
                        0 <= i < self.order@.len() && 0 <= j < self.order@.len() && i
                            != j implies self.order@[i] != self.order@[j] by {
                        if i < n && j < n {
                            assert(ord0[i] != ord0[j]);
                        } else if j == n {
                            assert(ord0[i] != new_tail);
                        } else {
                            assert(ord0[j] != new_tail);
                        }
                    }
                    assert forall|i: int|
                        0 <= i < self.free_chain@.len() implies #[trigger] self.wf_free_slot(
                        i,
                    ) by {
                        assert(mid.wf_free_slot(i));
                        assert(old(self).wf_node(n - 1));
                        assert(mid.free_chain@[i] != old_tail);
                    }
                    assert forall|i: int|
                        0 <= i < self@.len() implies self@[i] == old(self)@.push(val)[i] by {
                        if i < n {
                            assert(old(self).wf_node(i));
                            assert(ord0[i] != new_tail);
                            if i < n - 1 {
                                assert(ord0[i] != ord0[n - 1]);
                            }
                        } else {
                            assert(old(self).wf_node(n - 1));
                        }
                    }
                    assert(self@ =~= old(self)@.push(val));
                }
            },
        }
    }

    /// Removes and returns the first element, or nothing if the list is
    /// empty. The vacated slot becomes the head of the free chain.
    pub fn remove_first(&mut self) -> (r: Option<T>)
        requires
            old(self).wf(),
        ensures
            final(self).wf(),
            r is Some <==> old(self)@.len() > 0,
            old(self)@.len() > 0 ==> r == Some(old(self)@[0]),
            final(self)@ == crate::ops::apply_op(old(self)@, crate::ops::ListOp::RemoveFirst),
            final(self)@ == (if old(self)@.len() == 0 {
                old(self)@
            } else {
                old(self)@.drop_first()
            }),
            final(self).store_size() == old(self).store_size(),
            final(self).free_slots() == (if old(self)@.len() == 0 {
                old(self).free_slots()
            } else {
                old(self).free_slots() + 1
            }),
    {
        match self.head {
            None => {
                proof {
                    assert(final(self)@ =~= old(self)@);
                }
                None
            },
            Some(pos) => {
                proof {
                    assert(old(self).wf_node(0));
                }
                let new_head = self.slots[pos].as_used().next;
                self.head = new_head;

                match new_head {
                    None => {
                        self.tail = None;
                    },
                    Some(nh) => {
                        proof {
                            assert(old(self).order@.len() >= 2);
                            assert(old(self).wf_node(1));
                            assert(old(self).order@[1] != old(self).order@[0]);
                        }
                        self.slots[nh].as_used_mut().prev = None;
                    },
                }

                let mut slot = Slot::Free(self.free);
                self.slots.set_and_swap(pos, &mut slot);
                self.free = Some(pos);
                self.size = self.size - 1;

                proof {
                    let ord0 = old(self).order@;
                    let fc0 = old(self).free_chain@;
                    let n = ord0.len() as int;
                    self.order@ = ord0.drop_first();
                    self.free_chain@ = seq![pos] + fc0;

                    assert forall|i: int|
                        0 <= i < self.order@.len() implies #[trigger] self.wf_node(i) by {
                        assert(old(self).wf_node(i + 1));
                        assert(ord0[i + 1] != ord0[0]);
                        if n >= 2 && i > 0 {
                            assert(ord0[i + 1] != ord0[1]);
                        }
                    }
                    assert forall|i: int, j: int|
                        0 <= i < self.order@.len() && 0 <= j < self.order@.len() && i
                            != j implies self.order@[i] != self.order@[j] by {
                        assert(ord0[i + 1] != ord0[j + 1]);
                    }
                    assert forall|i: int|
                        0 <= i < self.free_chain@.len() implies #[trigger] self.wf_free_slot(
                        i,
                    ) by {
                        if i > 0 {
                            assert(old(self).wf_free_slot(i - 1));
                            assert(fc0[i - 1] != ord0[0]);
                            if n >= 2 {
                                assert(fc0[i - 1] != ord0[1]);
                            }
                        }
                    }
                    assert forall|i: int, j: int|
                        0 <= i < self.free_chain@.len() && 0 <= j < self.free_chain@.len() && i
                            != j implies self.free_chain@[i] != self.free_chain@[j] by {
                        if i > 0 && j > 0 {
                            assert(fc0[i - 1] != fc0[j - 1]);
                        } else if i == 0 {
                            assert(old(self).wf_free_slot(j - 1));
                        } else {
                            assert(old(self).wf_free_slot(i - 1));
                        }
                    }
                    assert forall|i: int|
                        0 <= i < self@.len() implies self@[i] == old(self)@.drop_first()[i] by {
                        assert(old(self).wf_node(i + 1));
                        assert(ord0[i + 1] != ord0[0]);
                        if n >= 2 && i > 0 {
                            assert(ord0[i + 1] != ord0[1]);
                        }
                    }
                    assert(self@ =~= old(self)@.drop_first());
                }
                Some(slot.into_used().val)
            },
        }
    }

    /// Removes and returns the last element, or nothing if the list is
    /// empty. The vacated slot becomes the head of the free chain.
    pub fn remove_last(&mut self) -> (r: Option<T>)
        requires
            old(self).wf(),
        ensures
            final(self).wf(),
            r is Some <==> old(self)@.len() > 0,
            old(self)@.len() > 0 ==> r == Some(old(self)@[old(self)@.len() - 1]),
            final(self)@ == crate::ops::apply_op(old(self)@, crate::ops::ListOp::RemoveLast),
            final(self)@ == (if old(self)@.len() == 0 {
                old(self)@
            } else {
                old(self)@.drop_last()
            }),
            final(self).store_size() == old(self).store_size(),
            final(self).free_slots() == (if old(self)@.len() == 0 {
                old(self).free_slots()
            } else {
                old(self).free_slots() + 1
            }),
    {
        match self.tail {
            None => {
                proof {
                    assert(final(self)@ =~= old(self)@);
                }
                None
            },
            Some(pos) => {
                proof {
                    assert(old(self).wf_node(old(self).order@.len() - 1));
                }
                let new_tail = self.slots[pos].as_used().prev;
                self.tail = new_tail;

                match new_tail {
                    None => {
                        self.head = None;
                    },
                    Some(nt) => {
                        proof {
                            let n = old(self).order@.len() as int;
                            assert(old(self).order@.len() >= 2);
                            assert(old(self).wf_node(n - 2));
                            assert(old(self).order@[n - 2] != old(self).order@[n - 1]);
                        }
                        self.slots[nt].as_used_mut().next = None;
                    },
                }

                let mut slot = Slot::Free(self.free);
                self.slots.set_and_swap(pos, &mut slot);
                self.free = Some(pos);
                self.size = self.size - 1;

                proof {
                    let ord0 = old(self).order@;
                    let fc0 = old(self).free_chain@;
                    let n = ord0.len() as int;
                    self.order@ = ord0.drop_last();
                    self.free_chain@ = seq![pos] + fc0;

                    assert forall|i: int|
                        0 <= i < self.order@.len() implies #[trigger] self.wf_node(i) by {
                        assert(old(self).wf_node(i));
                        assert(ord0[i] != ord0[n - 1]);
                        if n >= 2 && i < n - 2 {
                            assert(ord0[i] != ord0[n - 2]);
                        }
                    }
                    assert forall|i: int, j: int|
                        0 <= i < self.order@.len() && 0 <= j < self.order@.len() && i
                            != j implies self.order@[i] != self.order@[j] by {
                        assert(ord0[i] != ord0[j]);
                    }
                    assert forall|i: int|
                        0 <= i < self.free_chain@.len() implies #[trigger] self.wf_free_slot(
                        i,
                    ) by {
                        if i > 0 {
                            assert(old(self).wf_free_slot(i - 1));
                            assert(fc0[i - 1] != ord0[n - 1]);
                            if n >= 2 {
                                assert(fc0[i - 1] != ord0[n - 2]);
                            }
                        }
                    }
                    assert forall|i: int, j: int|
                        0 <= i < self.free_chain@.len() && 0 <= j < self.free_chain@.len() && i
                            != j implies self.free_chain@[i] != self.free_chain@[j] by {
                        if i > 0 && j > 0 {
                            assert(fc0[i - 1] != fc0[j - 1]);
                        } else if i == 0 {
                            assert(old(self).wf_free_slot(j - 1));
                        } else {
                            assert(old(self).wf_free_slot(i - 1));
                        }
                    }
                    assert forall|i: int|
                        0 <= i < self@.len() implies self@[i] == old(self)@.drop_last()[i] by {
                        assert(old(self).wf_node(i));
                        assert(ord0[i] != ord0[n - 1]);
                        if n >= 2 && i < n - 2 {
                            assert(ord0[i] != ord0[n - 2]);
                        }
                    }
                    assert(self@ =~= old(self)@.drop_last());
                }
                Some(slot.into_used().val)
            },
        }
    }

    /// Borrows the first element, or nothing if the list is empty. Never
    /// removes.
    pub fn get_first(&self) -> (r: Option<&T>)
        requires
            self.wf(),
        ensures
            r is Some <==> self@.len() > 0,
            r matches Some(v) ==> *v == self@[0],
    {
        match self.head {
            None => None,
            Some(pos) => {
                proof {
                    assert(self.wf_node(0));
                }
                Some(&self.slots[pos].as_used().val)
            },
        }
    }

    /// Borrows the last element, or nothing if the list is empty. Never
    /// removes.
    pub fn get_last(&self) -> (r: Option<&T>)
        requires
            self.wf(),
        ensures
            r is Some <==> self@.len() > 0,
            r matches Some(v) ==> *v == self@[self@.len() - 1],
    {
        match self.tail {
            None => None,
            Some(pos) => {
                proof {
                    assert(self.wf_node(self.order@.len() - 1));
                }
                Some(&self.slots[pos].as_used().val)
            },
        }
    }

    /// Starts a fresh forward traversal at the head.
    pub fn iter<'a>(&'a self) -> (r: LinkedListIterator<'a, T>)
        requires
            self.wf(),
        ensures
            r.wf(),
            r.elements() == self@,
            r.position() == 0,
    {
        LinkedListIterator::new(self)
    }
}

/// A forward traversal of a list, head to tail. It borrows the list for
/// reading, so the list cannot change while the traversal lives.
pub struct LinkedListIterator<'a, T> {
    list: &'a LinkedList<T>,
    curr: Option<usize>,
    /// How many elements the traversal has already yielded.
    pos: Ghost<nat>,
}

impl<'a, T> LinkedListIterator<'a, T> {
    /// The sequence the traversal yields, element by element.
    pub closed spec fn elements(self) -> Seq<T> {
        self.list@
    }

    /// How many elements have been yielded so far.
    pub closed spec fn position(self) -> nat {
        self.pos@
    }

    /// The traversal reads a well-formed list and stands on the slot of its
    /// next element, or past the end.
    pub closed spec fn wf(self) -> bool {
        &&& self.list.wf()
        &&& self.pos@ <= self.list@.len()
        &&& self.curr == (if self.pos@ < self.list@.len() {
            Some(self.list.order@[self.pos@ as int])
        } else {
            None::<usize>
        })
    }

    /// Starts a traversal of `list` at its head.
    pub fn new(list: &'a LinkedList<T>) -> (r: LinkedListIterator<'a, T>)
        requires
            list.wf(),
        ensures
            r.wf(),
            r.elements() == list@,
            r.position() == 0,
    {
        LinkedListIterator { list, curr: list.head, pos: Ghost(0) }
    }

    /// Yields a reference to the next element and advances, or nothing once
    /// the traversal has passed the tail.
    pub fn next(&mut self) -> (r: Option<&'a T>)
        requires
            old(self).wf(),
        ensures
            final(self).wf(),
            final(self).elements() == old(self).elements(),
            r is Some <==> old(self).position() < old(self).elements().len(),
            r matches Some(v) ==> *v == old(self).elements()[old(self).position() as int],
            final(self).position() == (if old(self).position() < old(self).elements().len() {
                old(self).position() + 1
            } else {
                old(self).position()
            }),
    {
        match self.curr {
            None => None,
            Some(p) => {
                proof {
                    assert(self.list.wf_node(self.pos@ as int));
                }
                let l = self.list;
                let node = l.slots[p].as_used();
                self.curr = node.next;
                proof {
                    self.pos@ = self.pos@ + 1;
                }
                Some(&node.val)
            },
        }
    }
}

/// After any sequence of operations, the stored count that `size` returns
/// equals the number of elements a full forward traversal yields: the length
/// of the abstract sequence.
pub proof fn lemma_size_counts_elements<T>(l: LinkedList<T>)
    requires
        l.wf(),
    ensures
        l.spec_size() == l@.len(),
{
}

/// Emptiness is one condition seen three ways: the head link that `is_empty`
/// tests is absent exactly when the size is zero, exactly when the abstract
/// sequence holds no element for `get_first` and `get_last` to return.
pub proof fn lemma_empty_equivalence<T>(l: LinkedList<T>)
    requires
        l.wf(),
    ensures
        l.spec_is_empty() <==> l.spec_size() == 0,
        l.spec_is_empty() <==> l@.len() == 0,
{
}

/// Every allocated slot is accounted for: the store holds one slot per live
/// element plus one per entry of the free chain, and nothing else.
pub proof fn lemma_store_accounting<T>(l: LinkedList<T>)
    requires
        l.wf(),
    ensures
        l.store_size() == l.spec_size() + l.free_slots(),
{
}

} // verus!
