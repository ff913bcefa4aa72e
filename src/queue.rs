use vstd::prelude::*;

use crate::linked_list::SingleLinkedList;
use crate::ranked::Ranked;
use crate::tree::BinaryTree;

verus! {

/// A first-in first-out collection.
pub trait Queue<T>: Sized {
    /// The queued values, the next one out first.
    spec fn queue_items(&self) -> Seq<T>;

    /// The representation is consistent.
    spec fn queue_wf(&self) -> bool;

    /// One more value can be queued.
    spec fn has_room(&self) -> bool;

    /// Puts `x` at the back.
    fn enqueue(&mut self, x: T)
        requires
            old(self).queue_wf(),
            old(self).has_room(),
        ensures
            final(self).queue_wf(),
            final(self).queue_items() == old(self).queue_items().push(x),
    ;

    /// Takes the front value off, if there is one.
    fn dequeue(&mut self) -> (r: Option<T>)
        requires
            old(self).queue_wf(),
        ensures
            final(self).queue_wf(),
            old(self).queue_items().len() == 0 ==> r is None && final(self).queue_items() == old(
                self,
            ).queue_items(),
            old(self).queue_items().len() > 0 ==> r == Some(old(self).queue_items()[0])
                && final(self).queue_items() == old(self).queue_items().drop_first(),
    ;

    /// The number of queued values.
    fn size(&self) -> (r: usize)
        requires
            self.queue_wf(),
        ensures
            r == self.queue_items().len(),
    ;

    /// An empty queue.
    fn new() -> (r: Self)
        ensures
            r.queue_wf(),
            r.queue_items() == Seq::<T>::empty(),
    ;
}

impl<T> Queue<T> for Vec<T> {
    open spec fn queue_items(&self) -> Seq<T> {
        self@
    }

    open spec fn queue_wf(&self) -> bool {
        true
    }

    open spec fn has_room(&self) -> bool {
        true
    }

    fn enqueue(&mut self, x: T) {
        self.push(x)
    }

    fn dequeue(&mut self) -> (r: Option<T>) {
        if !self.is_empty() {
            let r = self.remove(0);
            proof {
                assert(self@ =~= old(self)@.drop_first());
            }
            Some(r)
        } else {
            None
        }
    }

    fn size(&self) -> (r: usize) {
        self.len()
    }

    fn new() -> (r: Self) {
        Vec::new()
    }
}

impl<T> Queue<T> for SingleLinkedList<T> {
    open spec fn queue_items(&self) -> Seq<T> {
        self@
    }

    open spec fn queue_wf(&self) -> bool {
        self@.len() <= usize::MAX
    }

    open spec fn has_room(&self) -> bool {
        self@.len() < usize::MAX
    }

    fn enqueue(&mut self, x: T) {
        self.push_tail(x)
    }

    fn dequeue(&mut self) -> (r: Option<T>) {
        self.pop_head()
    }

    fn size(&self) -> (r: usize) {
        self.len()
    }

    fn new() -> (r: Self) {
        SingleLinkedList::new()
    }
}

/// A queued value behind its sequence number, which alone orders it.
pub struct Ticket<T>(pub usize, pub T);

impl<T> Ranked for Ticket<T> {
    open spec fn rank(&self) -> int {
        self.0 as int
    }

    fn precedes(&self, other: &Self) -> (r: bool) {
        self.0 < other.0
    }

    fn ties(&self, other: &Self) -> (r: bool) {
        self.0 == other.0
    }
}

impl<T> BinaryTree<Ticket<T>> {
    /// The payloads of the tickets in the tree, lowest number first.
    pub open spec fn payloads(self) -> Seq<T> {
        self.order().map_values(|h: usize| self.value_of(h).1)
    }

    /// The tickets carry consecutive numbers.
    pub open spec fn numbered(self) -> bool {
        forall|k: int| 0 <= k < self.ranks().len() ==> #[trigger] self.ranks()[k] == self.ranks()[0] + k
    }
}

/// A tree of tickets is a queue: each value is queued under the number after
/// the highest one in the tree, and the lowest number leaves first.
impl<T> Queue<T> for BinaryTree<Ticket<T>> {
    open spec fn queue_items(&self) -> Seq<T> {
        self.payloads()
    }

    open spec fn queue_wf(&self) -> bool {
        self.wf() && self.numbered() && self.order().len() <= usize::MAX
    }

    open spec fn has_room(&self) -> bool {
        &&& self.order().len() < usize::MAX
        &&& self.order().len() > 0 ==> self.ranks().last() < usize::MAX
    }

    fn enqueue(&mut self, x: T) {
        let index = match self.max() {
            Some(h) => self.value(h).0 + 1,
            None => 0,
        };
        let ghost before = *self;
        let ghost gx = x;
        let h = self.insert(Ticket(index, x));
        proof {
            let n = before.order().len();
            let k = self.index_of(h);
            before.lemma_ranks_sorted();
            if k < n {
                assert(index < before.ranks()[k]);
                assert(before.ranks()[k] <= before.ranks()[n - 1]);
            }
            assert(k == n);
            assert forall|j: int| 0 <= j < n implies #[trigger] before.order().contains(
                before.order()[j],
            ) by {}
            assert(self.payloads() =~= before.payloads().push(gx));
            assert(self.ranks() =~= before.ranks().push(index as int));
        }
    }

    fn dequeue(&mut self) -> (r: Option<T>) {
        match self.min() {
            None => None,
            Some(h) => {
                let ghost before = *self;
                let t = self.remove(h);
                proof {
                    before.lemma_index_of(0);
                    Self::lemma_removed_one(before, *self, h);
                    assert forall|j: int| 0 <= j < self.order().len() implies #[trigger] self.order().contains(
                        self.order()[j],
                    ) by {}
                    assert(self.payloads() =~= before.payloads().drop_first());
                    assert(self.ranks() =~= before.ranks().drop_first());
                }
                Some(t.1)
            },
        }
    }

    fn size(&self) -> (r: usize) {
        if self.is_empty() {
            return 0;
        }
        let hi = self.max().unwrap();
        let lo = self.min().unwrap();
        let top = self.value(hi).0;
        let bottom = self.value(lo).0;
        proof {
            let n = self.order().len();
            assert(self.ranks()[n - 1] == top as int);
            assert(self.ranks()[0] == bottom as int);
            assert(self.ranks()[n - 1] == self.ranks()[0] + (n - 1));
        }
        top - bottom + 1
    }

    fn new() -> (r: Self) {
        BinaryTree::new()
    }
}

} // verus!
