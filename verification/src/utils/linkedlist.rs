//! A doubly linked list with two permanent sentinel nodes.
//!
//! The nodes live in an arena (`nodes`): links are stable arena indices
//! rather than addresses, and a free list recycles the slots of popped
//! nodes, so every push and pop touches four link fields in O(1) without a
//! branch for the empty list. Slot 0 is the head sentinel and slot 1 the
//! tail sentinel; they close the chain at both ends and never carry an
//! element.

use crate::utils::decimal::dec_text;
use crate::utils::decimal::i64_text;
use vstd::pervasive::cloned;
use vstd::std_specs::cmp::PartialEqSpec;
use vstd::pervasive::unreached;
use vstd::prelude::*;

verus! {

/// Arena slot index of the head sentinel.
pub const HEAD: usize = 0;

/// Arena slot index of the tail sentinel.
pub const TAIL: usize = 1;

/// One arena slot: an element plus the slot indices of its neighbours.
/// Sentinel slots carry no element (`value` is `None`).
pub struct ListNode<T> {
    prev: Option<usize>,
    next: Option<usize>,
    value: Option<T>,
}

impl<T> ListNode<T> {
    /// A detached node holding `value`, not yet linked to any neighbour.
    pub fn new(value: T) -> (node: Self)
        ensures
            node.prev() is None,
            node.next() is None,
            node.value() == Some(value),
    {
        ListNode { prev: None, next: None, value: Some(value) }
    }

    /// The arena index of the predecessor, if linked.
    pub closed spec fn prev(&self) -> Option<usize> {
        self.prev
    }

    /// The arena index of the successor, if linked.
    pub closed spec fn next(&self) -> Option<usize> {
        self.next
    }

    /// The element carried by this node; `None` on a sentinel.
    pub closed spec fn value(&self) -> Option<T> {
        self.value
    }
}

/// An ordered container over a node arena, bounded by two sentinel slots.
/// Its mathematical value (the view) is the sequence of elements from the
/// head sentinel to the tail sentinel.
pub struct LinkedList<T> {
    nodes: Vec<ListNode<T>>,
    free: Vec<usize>,
    order: Ghost<Seq<usize>>,
    len: usize,
}

impl<T> View for LinkedList<T> {
    type V = Seq<T>;

    closed spec fn view(&self) -> Seq<T> {
        self.order@.map(|_k: int, idx: usize| self.nodes@[idx as int].value->0)
    }
}

impl<T> LinkedList<T> {
    /// The arena index of the node standing after position `k` of the
    /// element chain: the next element, or the tail sentinel after the last.
    closed spec fn succ(&self, k: int) -> usize {
        if k == self.order@.len() - 1 {
            TAIL
        } else {
            self.order@[k + 1]
        }
    }

    /// The arena index of the node standing before position `k` of the
    /// element chain: the previous element, or the head sentinel before the
    /// first.
    closed spec fn pred(&self, k: int) -> usize {
        if k == 0 {
            HEAD
        } else {
            self.order@[k - 1]
        }
    }

    /// The arena index the head sentinel must point at: the first element,
    /// or the tail sentinel when the list is empty.
    closed spec fn first_idx(&self) -> usize {
        if self.order@.len() == 0 {
            TAIL
        } else {
            self.order@[0]
        }
    }

    /// The arena index the tail sentinel must point at: the last element,
    /// or the head sentinel when the list is empty.
    closed spec fn last_idx(&self) -> usize {
        if self.order@.len() == 0 {
            HEAD
        } else {
            self.order@.last()
        }
    }

    /// The facts wellformedness asks of the live node at chain position `k`:
    /// a non-sentinel arena slot, linked to its chain neighbours, carrying an
    /// element.
    closed spec fn wf_node(&self, k: int) -> bool {
        let idx = self.order@[k] as int;
        &&& 2 <= self.order@[k] < self.nodes@.len()
        &&& self.nodes@[idx].next == Some(self.succ(k))
        &&& self.nodes@[idx].prev == Some(self.pred(k))
        &&& self.nodes@[idx].value is Some
    }

    /// Well-formedness: the length counter matches the chain, every live or
    /// free slot is a distinct non-sentinel arena index, the chain is doubly
    /// linked through the sentinels, and exactly the live nodes carry an
    /// element.
    pub closed spec fn wf(&self) -> bool {
        let ord = self.order@;
        let n = self.nodes@.len() as int;
        &&& self.nodes@.len() >= 2
        &&& self.len == ord.len()
        &&& ord.len() + self.free@.len() + 2 == n
        &&& forall|k: int| 0 <= k < ord.len() ==> #[trigger] self.wf_node(k)
        &&& forall|i: int, j: int|
            0 <= i < j < ord.len() ==> #[trigger] ord[i] != #[trigger] ord[j]
        &&& forall|i: int| 0 <= i < self.free@.len() ==> 2 <= #[trigger] self.free@[i] < n
        &&& forall|i: int, j: int|
            0 <= i < j < self.free@.len()
                ==> #[trigger] self.free@[i] != #[trigger] self.free@[j]
        &&& forall|i: int, j: int|
            0 <= i < ord.len() && 0 <= j < self.free@.len()
                ==> #[trigger] ord[i] != #[trigger] self.free@[j]
        &&& self.nodes@[HEAD as int].next == Some(self.first_idx())
        &&& self.nodes@[TAIL as int].prev == Some(self.last_idx())
        &&& self.nodes@[HEAD as int].value is None
        &&& self.nodes@[TAIL as int].value is None
    }

    /// Redirects the successor link of slot `i` without touching anything
    /// else.
    fn set_next(nodes: &mut Vec<ListNode<T>>, i: usize, link: Option<usize>)
        requires
            i < old(nodes).len(),
        ensures
            final(nodes)@ == old(nodes)@.update(
                i as int,
                (ListNode { next: link, ..old(nodes)@[i as int] }),
            ),
    {
        let node = &mut nodes[i];
        node.next = link;
    }

    /// Redirects the predecessor link of slot `i` without touching anything
    /// else.
    fn set_prev(nodes: &mut Vec<ListNode<T>>, i: usize, link: Option<usize>)
        requires
            i < old(nodes).len(),
        ensures
            final(nodes)@ == old(nodes)@.update(
                i as int,
                (ListNode { prev: link, ..old(nodes)@[i as int] }),
            ),
    {
        let node = &mut nodes[i];
        node.prev = link;
    }

    /// Moves the element out of slot `i`, leaving the slot empty.
    fn take_value(nodes: &mut Vec<ListNode<T>>, i: usize) -> (taken: Option<T>)
        requires
            i < old(nodes).len(),
        ensures
            taken == old(nodes)@[i as int].value(),
            final(nodes)@ == old(nodes)@.update(
                i as int,
                (ListNode { value: None, ..old(nodes)@[i as int] }),
            ),
    {
        let node = &mut nodes[i];
        node.value.take()
    }

    /// Places `node` in a fresh arena slot: the most recently freed one if
    /// any, otherwise a slot appended to the arena.
    fn take_slot(nodes: &mut Vec<ListNode<T>>, free: &mut Vec<usize>, node: ListNode<T>) -> (idx: usize)
        requires
            old(free)@.len() > 0 ==> old(free)@.last() < old(nodes)@.len(),
        ensures
            old(free)@.len() > 0 ==> {
                &&& idx == old(free)@.last()
                &&& final(free)@ == old(free)@.drop_last()
                &&& final(nodes)@ == old(nodes)@.update(idx as int, node)
            },
            old(free)@.len() == 0 ==> {
                &&& idx == old(nodes)@.len()
                &&& final(free)@ == old(free)@
                &&& final(nodes)@ == old(nodes)@.push(node)
            },
    {
        match free.pop() {
            Some(idx) => {
                nodes[idx] = node;
                idx
            }
            None => {
                let idx = nodes.len();
                nodes.push(node);
                idx
            }
        }
    }

    /// An empty list: the two sentinels linked to each other and a length of
    /// zero.
    pub fn new() -> (list: Self)
        ensures
            list.wf(),
            list@ == Seq::<T>::empty(),
    {
        let head: ListNode<T> = ListNode { prev: None, next: Some(TAIL), value: None };
        let tail: ListNode<T> = ListNode { prev: Some(HEAD), next: None, value: None };
        let mut nodes: Vec<ListNode<T>> = Vec::new();
        nodes.push(head);
        nodes.push(tail);
        let list = LinkedList { nodes, free: Vec::new(), order: Ghost(Seq::empty()), len: 0 };
        proof {
            assert(list@ =~= Seq::<T>::empty());
        }
        list
    }

    /// Appends `value` at the back, just before the tail sentinel.
    pub fn push_back(&mut self, value: T)
        requires
            old(self).wf(),
        ensures
            final(self).wf(),
            final(self)@ == old(self)@.push(value),
    {
        let tp = match self.nodes[TAIL].prev {
            Some(i) => i,
            None => unreached(),
        };
        proof {
            assert(tp == old(self).last_idx());
            if old(self).order@.len() > 0 {
                assert(old(self).wf_node(old(self).order@.len() - 1));
            }
        }
        let idx = Self::take_slot(
            &mut self.nodes,
            &mut self.free,
            ListNode { prev: Some(tp), next: Some(TAIL), value: Some(value) },
        );
        Self::set_next(&mut self.nodes, tp, Some(idx));
        Self::set_prev(&mut self.nodes, TAIL, Some(idx));
        let room = self.nodes.len();
        proof {
            assert(self.len + 2 < room);
        }
        self.len = self.len + 1;
        self.order = Ghost(self.order@.push(idx));
        proof {
            let ord = old(self).order@;
            let len = ord.len() as int;
            assert(idx != tp && idx != HEAD && idx != TAIL);
            assert forall|i: int| 0 <= i < len implies #[trigger] ord[i] != idx by {
                assert(old(self).wf_node(i));
                if old(self).free@.len() > 0 {
                    assert(ord[i] != old(self).free@[old(self).free@.len() - 1]);
                }
            }
            assert forall|k: int| 0 <= k < self.order@.len() implies #[trigger] self.wf_node(k) by {
                if k < len {
                    assert(old(self).wf_node(k));
                    if k == len - 1 {
                        assert(ord[k] == tp);
                    } else {
                        assert(ord[len - 1] == tp || old(self).last_idx() == HEAD);
                    }
                }
            }
            assert forall|i: int| 0 <= i < self@.len() implies self@[i] == old(self)@.push(value)[i]
            by {
                if i < len {
                    assert(old(self).wf_node(i));
                }
            }
            assert(self@ =~= old(self)@.push(value));
        }
    }

    /// Inserts `value` at the front, just after the head sentinel.
    pub fn push_front(&mut self, value: T)
        requires
            old(self).wf(),
        ensures
            final(self).wf(),
            final(self)@ == seq![value] + old(self)@,
    {
        let fr = match self.nodes[HEAD].next {
            Some(i) => i,
            None => unreached(),
        };
        proof {
            assert(fr == old(self).first_idx());
            if old(self).order@.len() > 0 {
                assert(old(self).wf_node(0));
            }
        }
        let idx = Self::take_slot(
            &mut self.nodes,
            &mut self.free,
            ListNode { prev: Some(HEAD), next: Some(fr), value: Some(value) },
        );
        Self::set_next(&mut self.nodes, HEAD, Some(idx));
        Self::set_prev(&mut self.nodes, fr, Some(idx));
        let room = self.nodes.len();
        proof {
            assert(self.len + 2 < room);
        }
        self.len = self.len + 1;
        self.order = Ghost(seq![idx] + self.order@);
        proof {
            let ord = old(self).order@;
            let len = ord.len() as int;
            assert(idx != fr && idx != HEAD && idx != TAIL);
            assert forall|i: int| 0 <= i < len implies #[trigger] ord[i] != idx by {
                assert(old(self).wf_node(i));
                if old(self).free@.len() > 0 {
                    assert(ord[i] != old(self).free@[old(self).free@.len() - 1]);
                }
            }
            assert(forall|i: int| 0 <= i < len ==> ord[i] == #[trigger] self.order@[i + 1]);
            assert forall|k: int| 0 <= k < self.order@.len() implies #[trigger] self.wf_node(k) by {
                if k >= 1 {
                    assert(old(self).wf_node(k - 1));
                    if k == 1 {
                        assert(ord[0] == fr);
                    } else {
                        assert(ord[0] == fr || old(self).first_idx() == TAIL);
                    }
                }
            }
            assert forall|i: int| 0 <= i < self@.len() implies self@[i] == (seq![value] + old(
                self,
            )@)[i] by {
                if i >= 1 {
                    assert(old(self).wf_node(i - 1));
                }
            }
            assert(self@ =~= seq![value] + old(self)@);
        }
    }

    /// Removes and returns the first element; `None` on an empty list.
    pub fn pop_front(&mut self) -> (popped: Option<T>)
        requires
            old(self).wf(),
        ensures
            final(self).wf(),
            old(self)@.len() == 0 ==> popped is None && final(self)@ == old(self)@,
            old(self)@.len() > 0 ==> popped == Some(old(self)@[0]) && final(self)@ == old(
                self,
            )@.drop_first(),
    {
        if self.len == 0 {
            return None;
        }
        proof {
            assert(old(self).wf_node(0));
            if old(self).order@.len() > 1 {
                assert(old(self).wf_node(1));
            }
        }
        let f = match self.nodes[HEAD].next {
            Some(i) => i,
            None => unreached(),
        };
        let nf = match self.nodes[f].next {
            Some(i) => i,
            None => unreached(),
        };
        Self::set_next(&mut self.nodes, HEAD, Some(nf));
        Self::set_prev(&mut self.nodes, nf, Some(HEAD));
        let taken = Self::take_value(&mut self.nodes, f);
        self.free.push(f);
        self.len = self.len - 1;
        self.order = Ghost(self.order@.drop_first());
        proof {
            let ord = old(self).order@;
            let len = ord.len() as int;
            assert(f == ord[0]);
            assert forall|k: int| 0 <= k < self.order@.len() implies #[trigger] self.wf_node(k) by {
                assert(old(self).wf_node(k + 1));
                assert(ord[k + 1] != f);
                if k > 0 && len > 1 {
                    assert(ord[k + 1] != ord[1]);
                }
            }
            assert forall|i: int, j: int|
                0 <= i < self.order@.len() && 0 <= j < self.free@.len() implies #[trigger] self.order@[i]
                != #[trigger] self.free@[j] by {
                assert(self.order@[i] == ord[i + 1]);
                if j < old(self).free@.len() {
                    assert(ord[i + 1] != old(self).free@[j]);
                } else {
                    assert(ord[i + 1] != ord[0]);
                }
            }
            assert forall|i: int, j: int|
                0 <= i < j < self.free@.len() implies #[trigger] self.free@[i] != #[trigger] self.free@[j]
            by {
                if j < old(self).free@.len() {
                    assert(old(self).free@[i] != old(self).free@[j]);
                } else {
                    assert(ord[0] != old(self).free@[i]);
                }
            }
            assert forall|i: int| 0 <= i < self@.len() implies self@[i] == old(self)@.drop_first()[i]
            by {
                assert(old(self).wf_node(i + 1));
                assert(self.order@[i] == ord[i + 1]);
                assert(ord[i + 1] != f);
            }
            assert(self@ =~= old(self)@.drop_first());
        }
        match taken {
            Some(v) => Some(v),
            None => unreached(),
        }
    }

    /// Removes and returns the last element; `None` on an empty list.
    pub fn pop_back(&mut self) -> (popped: Option<T>)
        requires
            old(self).wf(),
        ensures
            final(self).wf(),
            old(self)@.len() == 0 ==> popped is None && final(self)@ == old(self)@,
            old(self)@.len() > 0 ==> popped == Some(old(self)@.last()) && final(self)@ == old(
                self,
            )@.drop_last(),
    {
        if self.len == 0 {
            return None;
        }
        proof {
            assert(old(self).wf_node(old(self).order@.len() - 1));
            if old(self).order@.len() > 1 {
                assert(old(self).wf_node(old(self).order@.len() - 2));
            }
        }
        let b = match self.nodes[TAIL].prev {
            Some(i) => i,
            None => unreached(),
        };
        let nb = match self.nodes[b].prev {
            Some(i) => i,
            None => unreached(),
        };
        Self::set_prev(&mut self.nodes, TAIL, Some(nb));
        Self::set_next(&mut self.nodes, nb, Some(TAIL));
        let taken = Self::take_value(&mut self.nodes, b);
        self.free.push(b);
        self.len = self.len - 1;
        self.order = Ghost(self.order@.drop_last());
        proof {
            let ord = old(self).order@;
            let len = ord.len() as int;
            assert(b == ord[len - 1]);
            assert forall|k: int| 0 <= k < self.order@.len() implies #[trigger] self.wf_node(k) by {
                assert(old(self).wf_node(k));
                assert(ord[k] != b);
                if k < len - 2 {
                    assert(ord[k] != ord[len - 2]);
                }
            }
            assert forall|i: int, j: int|
                0 <= i < self.order@.len() && 0 <= j < self.free@.len() implies #[trigger] self.order@[i]
                != #[trigger] self.free@[j] by {
                assert(self.order@[i] == ord[i]);
                if j < old(self).free@.len() {
                    assert(ord[i] != old(self).free@[j]);
                } else {
                    assert(ord[i] != ord[len - 1]);
                }
            }
            assert forall|i: int, j: int|
                0 <= i < j < self.free@.len() implies #[trigger] self.free@[i] != #[trigger] self.free@[j]
            by {
                if j < old(self).free@.len() {
                    assert(old(self).free@[i] != old(self).free@[j]);
                } else {
                    assert(ord[len - 1] != old(self).free@[i]);
                }
            }
            assert forall|i: int| 0 <= i < self@.len() implies self@[i] == old(self)@.drop_last()[i]
            by {
                assert(old(self).wf_node(i));
                assert(ord[i] != b);
            }
            assert(self@ =~= old(self)@.drop_last());
        }
        match taken {
            Some(v) => Some(v),
            None => unreached(),
        }
    }

    /// A reference to the first element without removal; `None` on an empty
    /// list.
    pub fn first(&self) -> (elem: Option<&T>)
        requires
            self.wf(),
        ensures
            self@.len() == 0 ==> elem is None,
            self@.len() > 0 ==> elem is Some && elem.unwrap() == self@[0],
    {
        if self.len == 0 {
            return None;
        }
        proof {
            assert(self.wf_node(0));
        }
        let f = match self.nodes[HEAD].next {
            Some(i) => i,
            None => unreached(),
        };
        match &self.nodes[f].value {
            Some(v) => Some(v),
            None => unreached(),
        }
    }

    /// A reference to the last element without removal; `None` on an empty
    /// list.
    pub fn last(&self) -> (elem: Option<&T>)
        requires
            self.wf(),
        ensures
            self@.len() == 0 ==> elem is None,
            self@.len() > 0 ==> elem is Some && elem.unwrap() == self@.last(),
    {
        if self.len == 0 {
            return None;
        }
        proof {
            assert(self.wf_node(self.order@.len() - 1));
        }
        let b = match self.nodes[TAIL].prev {
            Some(i) => i,
            None => unreached(),
        };
        match &self.nodes[b].value {
            Some(v) => Some(v),
            None => unreached(),
        }
    }

    /// Overwrites the first element in place with `value` and returns the
    /// element it replaced; `None` (and no change) on an empty list.
    pub fn first_mut(&mut self, value: T) -> (replaced: Option<T>)
        requires
            old(self).wf(),
        ensures
            final(self).wf(),
            old(self)@.len() == 0 ==> replaced is None && final(self)@ == old(self)@,
            old(self)@.len() > 0 ==> replaced == Some(old(self)@[0]) && final(self)@ == old(
                self,
            )@.update(0, value),
    {
        if self.len == 0 {
            return None;
        }
        proof {
            assert(old(self).wf_node(0));
        }
        let f = match self.nodes[HEAD].next {
            Some(i) => i,
            None => unreached(),
        };
        let node = &mut self.nodes[f];
        let replaced = node.value.take();
        node.value = Some(value);
        proof {
            let ord = old(self).order@;
            assert forall|k: int| 0 <= k < self.order@.len() implies #[trigger] self.wf_node(k) by {
                assert(old(self).wf_node(k));
                if k > 0 {
                    assert(ord[k] != ord[0]);
                }
            }
            assert forall|i: int|
                0 <= i < self@.len() implies self@[i] == old(self)@.update(0, value)[i] by {
                assert(old(self).wf_node(i));
                if i > 0 {
                    assert(ord[i] != ord[0]);
                }
            }
            assert(self@ =~= old(self)@.update(0, value));
        }
        match replaced {
            Some(v) => Some(v),
            None => unreached(),
        }
    }

    /// Overwrites the last element in place with `value` and returns the
    /// element it replaced; `None` (and no change) on an empty list.
    pub fn last_mut(&mut self, value: T) -> (replaced: Option<T>)
        requires
            old(self).wf(),
        ensures
            final(self).wf(),
            old(self)@.len() == 0 ==> replaced is None && final(self)@ == old(self)@,
            old(self)@.len() > 0 ==> replaced == Some(old(self)@.last()) && final(self)@ == old(
                self,
            )@.update(old(self)@.len() - 1, value),
    {
        if self.len == 0 {
            return None;
        }
        proof {
            assert(old(self).wf_node(old(self).order@.len() - 1));
        }
        let b = match self.nodes[TAIL].prev {
            Some(i) => i,
            None => unreached(),
        };
        let node = &mut self.nodes[b];
        let replaced = node.value.take();
        node.value = Some(value);
        proof {
            let ord = old(self).order@;
            let len = ord.len() as int;
            assert forall|k: int| 0 <= k < self.order@.len() implies #[trigger] self.wf_node(k) by {
                assert(old(self).wf_node(k));
                if k < len - 1 {
                    assert(ord[k] != ord[len - 1]);
                }
            }
            assert forall|i: int|
                0 <= i < self@.len() implies self@[i] == old(self)@.update(len - 1, value)[i] by {
                assert(old(self).wf_node(i));
                if i < len - 1 {
                    assert(ord[i] != ord[len - 1]);
                }
            }
            assert(self@ =~= old(self)@.update(len - 1, value));
        }
        match replaced {
            Some(v) => Some(v),
            None => unreached(),
        }
    }

    /// How many elements the list holds.
    pub fn len(&self) -> (n: usize)
        requires
            self.wf(),
        ensures
            n == self@.len(),
    {
        self.len
    }

    /// True exactly when the list holds no element.
    pub fn is_empty(&self) -> (empty: bool)
        requires
            self.wf(),
        ensures
            empty == (self@.len() == 0),
    {
        self.len == 0
    }

    /// Walks the chain from the head sentinel to the arena slot of the
    /// element at position `index`.
    fn locate(&self, index: usize) -> (slot: usize)
        requires
            self.wf(),
            index < self@.len(),
        ensures
            slot == self.order@[index as int],
    {
        proof {
            assert(self.wf_node(0));
        }
        let mut cur = match self.nodes[HEAD].next {
            Some(i) => i,
            None => unreached(),
        };
        let mut i: usize = 0;
        while i < index
            invariant
                self.wf(),
                index < self@.len(),
                i <= index,
                cur == self.order@[i as int],
            decreases index - i,
        {
            proof {
                assert(self.wf_node(i as int));
            }
            cur = match self.nodes[cur].next {
                Some(j) => j,
                None => unreached(),
            };
            i = i + 1;
        }
        cur
    }

    /// A reference to the element at position `index`, counting forward from
    /// the front; `None` past the end.
    pub fn get(&self, index: usize) -> (elem: Option<&T>)
        requires
            self.wf(),
        ensures
            index < self@.len() ==> elem is Some && elem.unwrap() == self@[index as int],
            index >= self@.len() ==> elem is None,
    {
        if index >= self.len {
            return None;
        }
        let slot = self.locate(index);
        proof {
            assert(self.wf_node(index as int));
        }
        match &self.nodes[slot].value {
            Some(v) => Some(v),
            None => unreached(),
        }
    }

    /// Overwrites the element at position `index` in place and returns the
    /// element it replaced; `None` (and no change) past the end.
    pub fn set(&mut self, index: usize, value: T) -> (replaced: Option<T>)
        requires
            old(self).wf(),
        ensures
            final(self).wf(),
            index >= old(self)@.len() ==> replaced is None && final(self)@ == old(self)@,
            index < old(self)@.len() ==> replaced == Some(old(self)@[index as int])
                && final(self)@ == old(self)@.update(index as int, value),
    {
        if index >= self.len {
            return None;
        }
        let slot = self.locate(index);
        proof {
            assert(old(self).wf_node(index as int));
        }
        let node = &mut self.nodes[slot];
        let replaced = node.value.take();
        node.value = Some(value);
        proof {
            let ord = old(self).order@;
            let pos = index as int;
            assert forall|k: int| 0 <= k < self.order@.len() implies #[trigger] self.wf_node(k) by {
                assert(old(self).wf_node(k));
                if k != pos {
                    assert(ord[k] != ord[pos]);
                }
            }
            assert forall|i: int|
                0 <= i < self@.len() implies self@[i] == old(self)@.update(pos, value)[i] by {
                assert(old(self).wf_node(i));
                if i != pos {
                    assert(ord[i] != ord[pos]);
                }
            }
            assert(self@ =~= old(self)@.update(pos, value));
        }
        match replaced {
            Some(v) => Some(v),
            None => unreached(),
        }
    }

    /// Builds a list from a vector, front to back.
    pub fn from_vec(elems: Vec<T>) -> (list: Self)
        ensures
            list.wf(),
            list@ == elems@,
    {
        let ghost orig = elems@;
        let mut rest = elems;
        let mut list = Self::new();
        while rest.len() > 0
            invariant
                list.wf(),
                list@ + rest@ == orig,
            decreases rest@.len(),
        {
            let v = rest.remove(0);
            list.push_back(v);
            proof {
                assert(list@ + rest@ =~= orig);
            }
        }
        proof {
            assert(list@ =~= orig);
        }
        list
    }
}

impl<T: Copy> LinkedList<T> {
    /// The elements in forward order as a vector.
    pub fn to_vec(&self) -> (elems: Vec<T>)
        requires
            self.wf(),
        ensures
            elems@ == self@,
    {
        let n = self.len;
        let mut elems: Vec<T> = Vec::new();
        let mut k: usize = 0;
        while k < n
            invariant
                self.wf(),
                n == self@.len(),
                k <= n,
                elems@ == self@.take(k as int),
            decreases n - k,
        {
            let v = match self.get(k) {
                Some(v) => *v,
                None => unreached(),
            };
            elems.push(v);
            k = k + 1;
            proof {
                assert(elems@ =~= self@.take(k as int));
            }
        }
        proof {
            assert(elems@ =~= self@);
        }
        elems
    }
}

impl<T> Default for LinkedList<T> {
    /// The empty list.
    fn default() -> (list: Self)
        ensures
            list.wf(),
            list@ == Seq::<T>::empty(),
    {
        Self::new()
    }
}

impl<T: PartialEq> LinkedList<T> {
    /// The equality the list implements: elementwise comparison over the
    /// shorter of the two element sequences, zipped from the front. The
    /// length is deliberately not compared separately, so a strict prefix of
    /// a longer list compares equal to it.
    pub open spec fn eq_spec(&self, other: &Self) -> bool {
        forall|k: int|
            0 <= k < vstd::math::min(self@.len() as int, other@.len() as int)
                ==> (#[trigger] self@[k]).eq_spec(&other@[k])
    }

    /// Zipped-prefix equality over the shorter list, as `eq_spec` states it.
    pub fn eq(&self, other: &Self) -> (r: bool)
        requires
            self.wf(),
            other.wf(),
        ensures
            T::obeys_eq_spec() ==> r == self.eq_spec(other),
    {
        let n = if self.len < other.len {
            self.len
        } else {
            other.len
        };
        let mut k: usize = 0;
        while k < n
            invariant
                self.wf(),
                other.wf(),
                k <= n,
                n == vstd::math::min(self@.len() as int, other@.len() as int),
                T::obeys_eq_spec() ==> forall|j: int|
                    0 <= j < k ==> (#[trigger] self@[j]).eq_spec(&other@[j]),
            decreases n - k,
        {
            let a = match self.get(k) {
                Some(v) => v,
                None => unreached(),
            };
            let b = match other.get(k) {
                Some(v) => v,
                None => unreached(),
            };
            if !(a == b) {
                return false;
            }
            k = k + 1;
        }
        true
    }
}

impl<T: Clone> LinkedList<T> {
    /// A deep, element-wise copy, independent of the source afterwards. Each
    /// element is copied with `T::clone`, so the views agree exactly whenever
    /// `T::clone` guarantees equality (as every `Copy` element type does).
    pub fn clone(&self) -> (res: Self)
        requires
            self.wf(),
        ensures
            res.wf(),
            res@.len() == self@.len(),
            forall|i: int| 0 <= i < self@.len() ==> cloned::<T>(self@[i], #[trigger] res@[i]),
    {
        let n = self.len;
        let mut res = Self::new();
        let mut k: usize = 0;
        while k < n
            invariant
                self.wf(),
                res.wf(),
                n == self@.len(),
                k <= n,
                res@.len() == k,
                forall|i: int| 0 <= i < k ==> cloned::<T>(self@[i], #[trigger] res@[i]),
            decreases n - k,
        {
            let v = match self.get(k) {
                Some(v) => v,
                None => unreached(),
            };
            res.push_back(v.clone());
            k = k + 1;
        }
        res
    }
}

/// One list operation, as the length-accounting law speaks of it. Each
/// variant's meaning on the view is exactly what the ensures of the
/// like-named method states.
pub enum ListOp<T> {
    PushFront(T),
    PushBack(T),
    PopFront,
    PopBack,
}

/// The view after one operation: a push adds its element at the named end,
/// a pop on a non-empty view removes the element at the named end, and a
/// pop on an empty view changes nothing.
pub open spec fn apply_op<T>(s: Seq<T>, op: ListOp<T>) -> Seq<T> {
    match op {
        ListOp::PushFront(v) => seq![v] + s,
        ListOp::PushBack(v) => s.push(v),
        ListOp::PopFront => if s.len() == 0 {
            s
        } else {
            s.drop_first()
        },
        ListOp::PopBack => if s.len() == 0 {
            s
        } else {
            s.drop_last()
        },
    }
}

/// The view after a whole run of operations, applied in order.
pub open spec fn apply_ops<T>(s: Seq<T>, ops: Seq<ListOp<T>>) -> Seq<T>
    decreases ops.len(),
{
    if ops.len() == 0 {
        s
    } else {
        apply_op(apply_ops(s, ops.drop_last()), ops.last())
    }
}

/// How many operations of the run are pushes.
pub open spec fn push_count<T>(ops: Seq<ListOp<T>>) -> int
    decreases ops.len(),
{
    if ops.len() == 0 {
        0
    } else {
        push_count(ops.drop_last()) + (if ops.last() matches ListOp::PushFront(_)
            || ops.last() matches ListOp::PushBack(_) {
            1int
        } else {
            0int
        })
    }
}

/// How many pops of the run found an element to return, given the starting
/// view: a pop counts exactly when the view it meets is non-empty.
pub open spec fn served_pop_count<T>(s: Seq<T>, ops: Seq<ListOp<T>>) -> int
    decreases ops.len(),
{
    if ops.len() == 0 {
        0
    } else {
        served_pop_count(s, ops.drop_last()) + (if (ops.last() matches ListOp::PopFront
            || ops.last() matches ListOp::PopBack) && apply_ops(s, ops.drop_last()).len() > 0 {
            1int
        } else {
            0int
        })
    }
}

/// Length accounting: after any run of operations, the length is the
/// starting length plus one per push, minus one per pop that returned an
/// element. In particular, k pushes and j served pops on an empty list
/// leave exactly k - j elements. Each method's ensures pins its view change
/// to the matching `apply_op` case, so the law carries over to any caller's
/// run of calls.
pub proof fn lemma_length_accounting<T>(s: Seq<T>, ops: Seq<ListOp<T>>)
    ensures
        apply_ops(s, ops).len() == s.len() + push_count(ops) - served_pop_count(s, ops),
    decreases ops.len(),
{
    if ops.len() > 0 {
        lemma_length_accounting(s, ops.drop_last());
    }
}

/// The zipped-prefix equality law: a list whose elements are a self-equal
/// prefix of another list's elements compares equal to it, because the
/// comparison zips over the shorter list and never checks the lengths.
pub proof fn lemma_prefix_compares_equal<T: PartialEq>(a: &LinkedList<T>, b: &LinkedList<T>)
    requires
        a@.len() <= b@.len(),
        forall|k: int| 0 <= k < a@.len() ==> (#[trigger] a@[k]).eq_spec(&b@[k]),
    ensures
        a.eq_spec(b),
{
}

/// The bracketed, comma-separated forward rendering of an integer list, one
/// element after another between `[` and `]`.
pub open spec fn list_text(s: Seq<i64>) -> Seq<u8> {
    seq![91u8] + list_items_text(s) + seq![93u8]
}

/// The elements of `s` in decimal, joined by `", "`.
pub open spec fn list_items_text(s: Seq<i64>) -> Seq<u8>
    decreases s.len(),
{
    if s.len() == 0 {
        Seq::empty()
    } else if s.len() == 1 {
        dec_text(s[0] as int)
    } else {
        list_items_text(s.drop_last()) + seq![44u8, 32u8] + dec_text(s.last() as int)
    }
}

impl LinkedList<i64> {
    /// The display form of the list: its elements in decimal, in forward
    /// order, comma-separated between brackets.
    pub fn to_text(&self) -> (text: Vec<u8>)
        requires
            self.wf(),
        ensures
            text@ == list_text(self@),
    {
        let n = self.len;
        let mut text: Vec<u8> = Vec::new();
        text.push(91);
        let mut k: usize = 0;
        while k < n
            invariant
                self.wf(),
                n == self@.len(),
                k <= n,
                text@ == seq![91u8] + list_items_text(self@.take(k as int)),
            decreases n - k,
        {
            if k > 0 {
                text.push(44);
                text.push(32);
            }
            let v = match self.get(k) {
                Some(v) => *v,
                None => unreached(),
            };
            let mut digits = i64_text(v);
            text.append(&mut digits);
            k = k + 1;
            proof {
                assert(self@.take(k as int).drop_last() =~= self@.take(k as int - 1));
                assert(text@ =~= seq![91u8] + list_items_text(self@.take(k as int)));
            }
        }
        text.push(93);
        proof {
            assert(self@.take(n as int) =~= self@);
            assert(text@ =~= list_text(self@));
        }
        text
    }
}

} // verus!
