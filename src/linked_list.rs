use vstd::prelude::*;

use crate::ranked::Ranked;

verus! {

/// A node of a [`SingleLinkedList`]: a value and the rest of the list.
#[derive(Debug)]
pub struct SingleLinkedNode<T> {
    pub value: T,
    pub next: SingleLinkedList<T>,
}

/// A singly linked list that owns its nodes.
#[derive(Debug)]
pub struct SingleLinkedList<T> {
    pub head: Option<Box<SingleLinkedNode<T>>>,
}

/// The values of `l`, front first.
pub open spec fn list_seq<T>(l: SingleLinkedList<T>) -> Seq<T>
    decreases l,
{
    match l.head {
        None => Seq::empty(),
        Some(node) => seq![node.value] + list_seq(node.next),
    }
}

/// The index of the first value of `s` whose rank is that of `x`, or
/// `s.len()` where there is none.
pub open spec fn first_tie<T: Ranked>(s: Seq<T>, x: T) -> int
    decreases s.len(),
{
    if s.len() == 0 {
        0
    } else if s[0].rank() == x.rank() {
        0
    } else {
        1 + first_tie(s.drop_first(), x)
    }
}

proof fn lemma_first_tie_bound<T: Ranked>(s: Seq<T>, x: T)
    ensures
        0 <= first_tie(s, x) <= s.len(),
        first_tie(s, x) < s.len() ==> s[first_tie(s, x)].rank() == x.rank(),
    decreases s.len(),
{
    if s.len() > 0 && s[0].rank() != x.rank() {
        lemma_first_tie_bound(s.drop_first(), x);
    }
}

impl<T> View for SingleLinkedList<T> {
    type V = Seq<T>;

    open spec fn view(&self) -> Seq<T> {
        list_seq(*self)
    }
}

impl<T> Default for SingleLinkedList<T> {
    /// An empty list.
    fn default() -> (r: Self)
        ensures
            r@ == Seq::<T>::empty(),
    {
        SingleLinkedList::new()
    }
}

impl<T> SingleLinkedNode<T> {
    /// A node of value `x` with nothing after it.
    pub fn new(x: T) -> (r: Self)
        ensures
            r.value == x,
            r.next@ == Seq::<T>::empty(),
    {
        SingleLinkedNode { value: x, next: SingleLinkedList::new() }
    }
}

impl<T> SingleLinkedList<T> {
    /// An empty list.
    pub fn new() -> (r: Self)
        ensures
            r@ == Seq::<T>::empty(),
    {
        SingleLinkedList { head: None }
    }

    /// Whether the list holds no value.
    pub fn is_empty(&self) -> (r: bool)
        ensures
            r == (self@.len() == 0),
    {
        self.head.is_none()
    }

    /// The number of values in the list.
    pub fn len(&self) -> (r: usize)
        requires
            self@.len() <= usize::MAX,
        ensures
            r == self@.len(),
    {
        let mut count: usize = 0;
        let mut cur = self;
        while cur.head.is_some()
            invariant
                count + cur@.len() == self@.len(),
                self@.len() <= usize::MAX,
            decreases cur@.len(),
        {
            match &cur.head {
                Some(node) => {
                    count = count + 1;
                    cur = &node.next;
                },
                None => {},
            }
        }
        count
    }

    /// A cursor at the front of the list; see [`Iter::next`].
    pub fn iter(&self) -> (r: Iter<'_, T>)
        ensures
            r.rest@ == self@,
    {
        Iter { rest: self }
    }

    /// Cuts the list after `node`: returns what followed it, which it no
    /// longer has.
    pub fn split(node: &mut SingleLinkedNode<T>) -> (r: SingleLinkedList<T>)
        ensures
            r@ == old(node).next@,
            final(node).value == old(node).value,
            final(node).next@ == Seq::<T>::empty(),
    {
        let mut rest = SingleLinkedList::new();
        std::mem::swap(&mut node.next, &mut rest);
        rest
    }

    /// Joins `list` after `node`, which must end the list it is in.
    pub fn concat(node: &mut SingleLinkedNode<T>, list: SingleLinkedList<T>)
        requires
            old(node).next@.len() == 0,
        ensures
            final(node).value == old(node).value,
            final(node).next@ == list@,
    {
        node.next = list;
    }

    /// Puts `x` at the front.
    pub fn push_head(&mut self, x: T)
        ensures
            final(self)@ == seq![x] + old(self)@,
    {
        let mut node = SingleLinkedNode::new(x);
        let mut rest = SingleLinkedList::new();
        std::mem::swap(self, &mut rest);
        Self::concat(&mut node, rest);
        self.head = Some(Box::new(node));
    }

    /// Takes the front value off, if there is one.
    pub fn pop_head(&mut self) -> (r: Option<T>)
        ensures
            old(self)@.len() == 0 ==> r is None && final(self)@ == old(self)@,
            old(self)@.len() > 0 ==> r == Some(old(self)@[0]) && final(self)@ == old(self)@.drop_first(),
    {
        match self.head.take() {
            None => None,
            Some(node) => {
                let node = *node;
                proof {
                    assert(old(self)@ == seq![node.value] + node.next@);
                    assert(old(self)@.drop_first() =~= node.next@);
                }
                *self = node.next;
                Some(node.value)
            },
        }
    }

    /// Puts `x` at the back.
    pub fn push_tail(&mut self, x: T)
        ensures
            final(self)@ == old(self)@.push(x),
        decreases old(self)@.len(),
    {
        if self.head.is_none() {
            self.head = Some(Box::new(SingleLinkedNode::new(x)));
            proof {
                assert(self@ =~= old(self)@.push(x));
            }
        } else {
            match &mut self.head {
                Some(node) => {
                    node.next.push_tail(x);
                },
                None => {},
            }
            proof {
                assert(self@ =~= old(self)@.push(x));
            }
        }
    }

    /// Puts `x` right after `node`.
    pub fn insert_after(node: &mut SingleLinkedNode<T>, x: T)
        ensures
            final(node).value == old(node).value,
            final(node).next@ == seq![x] + old(node).next@,
    {
        let mut list = Self::split(node);
        list.push_head(x);
        Self::concat(node, list);
    }

    /// Takes off the value right after `node`, if there is one.
    pub fn pop_after(node: &mut SingleLinkedNode<T>) -> (r: Option<T>)
        ensures
            final(node).value == old(node).value,
            old(node).next@.len() == 0 ==> r is None && final(node).next@ == old(node).next@,
            old(node).next@.len() > 0 ==> r == Some(old(node).next@[0]) && final(node).next@
                == old(node).next@.drop_first(),
    {
        let mut list = Self::split(node);
        let value = list.pop_head();
        Self::concat(node, list);
        value
    }
}

impl<T: Ranked> SingleLinkedList<T> {
    /// The first node whose value has the rank of `x`, if any.
    pub fn find(&self, x: &T) -> (r: Option<&SingleLinkedNode<T>>)
        ensures
            first_tie(self@, *x) == self@.len() ==> r is None,
            first_tie(self@, *x) < self@.len() ==> r is Some && r->Some_0.value == self@[first_tie(
                self@,
                *x,
            )] && r->Some_0.next@ == self@.skip(first_tie(self@, *x) + 1),
        decreases self@.len(),
    {
        match &self.head {
            None => None,
            Some(node) => {
                proof {
                    assert(self@.drop_first() =~= node.next@);
                }
                if node.value.ties(x) {
                    proof {
                        assert(self@.skip(1) =~= node.next@);
                    }
                    Some(node)
                } else {
                    let r = node.next.find(x);
                    proof {
                        assert(self@ == seq![node.value] + node.next@);
                        assert(first_tie(self@, *x) == 1 + first_tie(node.next@, *x));
                        let k = first_tie(node.next@, *x);
                        lemma_first_tie_bound(node.next@, *x);
                        if k < node.next@.len() {
                            assert(self@.skip(k + 2) =~= node.next@.skip(k + 1));
                        }
                    }
                    r
                }
            },
        }
    }

    /// The first node whose value has the rank of `x`, if any, for change in
    /// place: what the node holds when the borrow ends is what the list holds
    /// from that place on.
    pub fn find_mut(&mut self, x: &T) -> (r: Option<&mut SingleLinkedNode<T>>)
        ensures
            match r {
                None => first_tie(old(self)@, *x) == old(self)@.len() && final(self)@ == old(self)@,
                Some(n) => {
                    let k = first_tie(old(self)@, *x);
                    &&& k < old(self)@.len()
                    &&& n.value == old(self)@[k]
                    &&& n.next@ == old(self)@.skip(k + 1)
                    &&& final(self)@ == old(self)@.take(k) + seq![final(n).value] + final(n).next@
                },
            },
        decreases old(self)@.len(),
    {
        match &mut self.head {
            None => None,
            Some(node) => {
                if node.value.ties(x) {
                    Some(node)
                } else {
                    proof {
                        assert(old(self)@.drop_first() =~= node.next@);
                        lemma_first_tie_bound(node.next@, *x);
                    }
                    node.next.find_mut(x)
                }
            },
        }
    }
}

impl<T: Ranked> SingleLinkedList<T> {
    /// Takes out the first value whose rank is that of `x`, if any.
    pub fn pop_match(&mut self, x: &T) -> (r: Option<T>)
        ensures
            first_tie(old(self)@, *x) == old(self)@.len() ==> r is None && final(self)@ == old(
                self,
            )@,
            first_tie(old(self)@, *x) < old(self)@.len() ==> r == Some(
                old(self)@[first_tie(old(self)@, *x)],
            ) && final(self)@ == old(self)@.remove(first_tie(old(self)@, *x)),
        decreases old(self)@.len(),
    {
        let hit = match &self.head {
            None => {
                return None;
            },
            Some(node) => node.value.ties(x),
        };
        if hit {
            let r = self.pop_head();
            proof {
                assert(old(self)@.remove(0) =~= old(self)@.drop_first());
            }
            r
        } else {
            let ghost s0 = old(self)@;
            let r = match &mut self.head {
                Some(node) => {
                    proof {
                        assert(s0.drop_first() =~= node.next@);
                        lemma_first_tie_bound(node.next@, *x);
                    }
                    node.next.pop_match(x)
                },
                None => None,
            };
            proof {
                lemma_first_tie_bound(s0.drop_first(), *x);
                let k = first_tie(s0.drop_first(), *x);
                if k < s0.len() - 1 {
                    assert(self@ =~= s0.remove(k + 1));
                } else {
                    assert(self@ =~= s0);
                }
            }
            r
        }
    }
}

/// A cursor over a list's nodes, front first.
pub struct Iter<'a, T> {
    pub rest: &'a SingleLinkedList<T>,
}

impl<'a, T> Iter<'a, T> {
    /// Hands out the node at the cursor and moves past it.
    pub fn next(&mut self) -> (r: Option<&'a SingleLinkedNode<T>>)
        ensures
            old(self).rest@.len() == 0 ==> r is None && final(self).rest@ == old(self).rest@,
            old(self).rest@.len() > 0 ==> r is Some && r->Some_0.value == old(self).rest@[0]
                && final(self).rest@ == old(self).rest@.drop_first()
                && r->Some_0.next@ == final(self).rest@,
    {
        match &self.rest.head {
            None => None,
            Some(node) => {
                proof {
                    assert(self.rest@.drop_first() =~= node.next@);
                }
                self.rest = &node.next;
                Some(node)
            },
        }
    }
}

} // verus!
