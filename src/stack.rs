use vstd::prelude::*;

use crate::linked_list::SingleLinkedList;

verus! {

/// A last-in first-out collection.
pub trait Stack<T>: Sized {
    /// The stacked values, bottom first.
    spec fn stack_items(&self) -> Seq<T>;

    /// The representation is consistent.
    spec fn stack_wf(&self) -> bool;

    /// Puts `x` on top.
    fn push(&mut self, x: T)
        requires
            old(self).stack_wf(),
            old(self).stack_items().len() < usize::MAX,
        ensures
            final(self).stack_wf(),
            final(self).stack_items() == old(self).stack_items().push(x),
    ;

    /// Takes the top value off, if there is one.
    fn pop(&mut self) -> (r: Option<T>)
        requires
            old(self).stack_wf(),
        ensures
            final(self).stack_wf(),
            old(self).stack_items().len() == 0 ==> r is None && final(self).stack_items() == old(
                self,
            ).stack_items(),
            old(self).stack_items().len() > 0 ==> r == Some(old(self).stack_items().last())
                && final(self).stack_items() == old(self).stack_items().drop_last(),
    ;

    /// The number of stacked values.
    fn size(&self) -> (r: usize)
        requires
            self.stack_wf(),
        ensures
            r == self.stack_items().len(),
    ;

    /// An empty stack.
    fn new() -> (r: Self)
        ensures
            r.stack_wf(),
            r.stack_items() == Seq::<T>::empty(),
    ;
}

impl<T> Stack<T> for Vec<T> {
    open spec fn stack_items(&self) -> Seq<T> {
        self@
    }

    open spec fn stack_wf(&self) -> bool {
        true
    }

    fn push(&mut self, x: T) {
        self.push(x)
    }

    fn pop(&mut self) -> (r: Option<T>) {
        self.pop()
    }

    fn size(&self) -> (r: usize) {
        self.len()
    }

    fn new() -> (r: Self) {
        Vec::new()
    }
}

/// The list holds the stack top first.
impl<T> Stack<T> for SingleLinkedList<T> {
    open spec fn stack_items(&self) -> Seq<T> {
        self@.reverse()
    }

    open spec fn stack_wf(&self) -> bool {
        self@.len() <= usize::MAX
    }

    fn push(&mut self, x: T) {
        self.push_head(x);
        proof {
            assert(self@.reverse() =~= old(self)@.reverse().push(x));
        }
    }

    fn pop(&mut self) -> (r: Option<T>) {
        let r = self.pop_head();
        proof {
            if old(self)@.len() > 0 {
                assert(self@.reverse() =~= old(self)@.reverse().drop_last());
            }
        }
        r
    }

    fn size(&self) -> (r: usize) {
        self.len()
    }

    fn new() -> (r: Self) {
        SingleLinkedList::new()
    }
}

} // verus!
