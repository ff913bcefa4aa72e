use vstd::prelude::*;

use crate::ranked::Ranked;

verus! {

/// One node of a [`BinaryTree`]: a value and the handles of its neighbours.
///
/// Handles are indices into the tree's arena. The parent link is an
/// observation only: a node is owned by the arena slot that holds it, never by
/// the node that points at it.
pub struct TreeNode<T> {
    pub value: T,
    pub parent: Option<usize>,
    pub left: Option<usize>,
    pub right: Option<usize>,
}

/// An unbalanced binary search tree whose values are their own keys.
///
/// Values of equal rank are kept: a value equal to a node's goes to its right.
/// Nodes live in an arena of slots; a handle is the index of a node's slot and
/// stays valid until that node is removed. Emptied slots are reused.
pub struct BinaryTree<T> {
    nodes: Vec<Option<TreeNode<T>>>,
    root: Option<usize>,
    free: Vec<usize>,
    /// The handles of the live nodes, in in-order (ascending) order.
    order: Ghost<Seq<usize>>,
    /// Where each live handle stands in `order`.
    pos: Ghost<Map<usize, int>>,
    /// Each live node's subtree occupies `order[lo[h]..hi[h]]`.
    lo: Ghost<Map<usize, int>>,
    hi: Ghost<Map<usize, int>>,
}

impl<T> TreeNode<T> {
    /// A node with no neighbours.
    pub fn new(x: T) -> (r: Self)
        ensures
            r.value == x,
            r.parent is None,
            r.left is None,
            r.right is None,
    {
        TreeNode { value: x, parent: None, left: None, right: None }
    }

    /// A childless node below `parent`.
    pub fn new_leaf(x: T, parent: usize) -> (r: Self)
        ensures
            r.value == x,
            r.parent == Some(parent),
            r.left is None,
            r.right is None,
    {
        TreeNode { value: x, parent: Some(parent), left: None, right: None }
    }
}

impl<T: Ranked> TreeNode<T> {
    /// The one-node tree that holds this node's value.
    pub fn to_root(self) -> (r: BinaryTree<T>)
        ensures
            r.wf(),
            r.order() == seq![0usize],
            r.index_of(0) == 0,
            r.value_of(0) == self.value,
    {
        let mut nodes: Vec<Option<TreeNode<T>>> = Vec::new();
        nodes.push(Some(TreeNode::new(self.value)));
        let ghost one = seq![0usize];
        let r = BinaryTree {
            nodes,
            root: Some(0),
            free: Vec::new(),
            order: Ghost(one),
            pos: Ghost(Map::new(|i: usize| true, |i: usize| 0int)),
            lo: Ghost(Map::new(|i: usize| true, |i: usize| 0int)),
            hi: Ghost(Map::new(|i: usize| true, |i: usize| 1int)),
        };
        proof {
            reveal(BinaryTree::order_ok);
            reveal(BinaryTree::sorted);
            reveal(BinaryTree::links_ok);
            reveal(BinaryTree::free_ok);
            assert(r.live(0));
            assert(r.wf());
        }
        r
    }
}

impl<T: Ranked> BinaryTree<T> {
    spec fn live(self, i: usize) -> bool {
        i < self.nodes@.len() && self.nodes@[i as int] is Some
    }

    spec fn node(self, i: usize) -> TreeNode<T> {
        self.nodes@[i as int]->Some_0
    }

    spec fn rank_at(self, i: usize) -> int {
        self.node(i).value.rank()
    }

    #[verifier::opaque]
    spec fn order_ok(self) -> bool {
        &&& forall|k: int|
            #![trigger self.order@[k]]
            0 <= k < self.order@.len() ==> self.live(self.order@[k]) && self.pos@[self.order@[k]] == k
        &&& forall|i: usize|
            #![trigger self.live(i)]
            self.live(i) ==> 0 <= self.pos@[i] < self.order@.len() && self.order@[self.pos@[i]] == i
    }

    #[verifier::opaque]
    spec fn sorted(self) -> bool {
        forall|a: int, b: int|
            #![trigger self.order@[a], self.order@[b]]
            0 <= a <= b < self.order@.len() ==> self.rank_at(self.order@[a]) <= self.rank_at(
                self.order@[b],
            )
    }

    spec fn node_ok(self, i: usize) -> bool {
        let n = self.node(i);
        let p = self.pos@[i];
        &&& self.lo@[i] <= p < self.hi@[i]
        &&& match n.left {
            None => self.lo@[i] == p,
            Some(c) => {
                &&& self.live(c)
                &&& self.node(c).parent == Some(i)
                &&& self.lo@[c] == self.lo@[i]
                &&& self.hi@[c] == p
                &&& self.rank_at(self.order@[p - 1]) < self.rank_at(i)
            },
        }
        &&& match n.right {
            None => self.hi@[i] == p + 1,
            Some(c) => {
                &&& self.live(c)
                &&& self.node(c).parent == Some(i)
                &&& self.lo@[c] == p + 1
                &&& self.hi@[c] == self.hi@[i]
            },
        }
        &&& match n.parent {
            None => self.root == Some(i),
            Some(q) => self.live(q) && (self.node(q).left == Some(i) || self.node(q).right == Some(
                i,
            )),
        }
    }

    #[verifier::opaque]
    spec fn links_ok(self) -> bool {
        &&& forall|i: usize| #![trigger self.live(i)] self.live(i) ==> self.node_ok(i)
        &&& match self.root {
            None => self.order@.len() == 0,
            Some(r) => {
                &&& self.live(r)
                &&& self.node(r).parent is None
                &&& self.lo@[r] == 0
                &&& self.hi@[r] == self.order@.len()
            },
        }
    }

    #[verifier::opaque]
    spec fn free_ok(self) -> bool {
        &&& forall|j: int|
            #![trigger self.free@[j]]
            0 <= j < self.free@.len() ==> self.free@[j] < self.nodes@.len() && self.nodes@[self.free@[j] as int] is None
        &&& forall|a: int, b: int|
            #![trigger self.free@[a], self.free@[b]]
            0 <= a < b < self.free@.len() ==> self.free@[a] != self.free@[b]
        &&& self.nodes@.len() == self.order@.len() + self.free@.len()
    }

    /// The tree is well formed: the links form one binary search tree whose
    /// in-order sequence is [`order`](Self::order).
    pub closed spec fn wf(self) -> bool {
        &&& self.order_ok()
        &&& self.sorted()
        &&& self.links_ok()
        &&& self.free_ok()
    }

    /// The handles of the tree's nodes in ascending order of value; nodes of
    /// equal rank in the order in which they were inserted.
    pub closed spec fn order(self) -> Seq<usize> {
        self.order@
    }

    /// The value held by the node of handle `h`.
    pub closed spec fn value_of(self, h: usize) -> T {
        self.node(h).value
    }

    /// Where the node of handle `h` stands in [`order`](Self::order).
    pub closed spec fn index_of(self, h: usize) -> int {
        self.pos@[h]
    }

    /// The ranks of the tree's values, in ascending order.
    pub open spec fn ranks(self) -> Seq<int> {
        self.order().map_values(|h: usize| self.value_of(h).rank())
    }

    proof fn lemma_live(self, i: usize)
        requires
            self.wf(),
            self.live(i),
        ensures
            self.node_ok(i),
            0 <= self.pos@[i] < self.order@.len(),
            self.order@[self.pos@[i]] == i,
    {
        reveal(BinaryTree::order_ok);
        reveal(BinaryTree::links_ok);
    }

    proof fn lemma_at(self, k: int)
        requires
            self.wf(),
            0 <= k < self.order@.len(),
        ensures
            self.live(self.order@[k]),
            self.pos@[self.order@[k]] == k,
    {
        reveal(BinaryTree::order_ok);
    }

    proof fn lemma_contains(self, h: usize)
        requires
            self.wf(),
            self.order@.contains(h),
        ensures
            self.live(h),
            0 <= self.pos@[h] < self.order@.len(),
            self.order@[self.pos@[h]] == h,
    {
        reveal(BinaryTree::order_ok);
        let k = choose|k: int| 0 <= k < self.order@.len() && self.order@[k] == h;
        self.lemma_at(k);
    }

    proof fn lemma_le(self, a: int, b: int)
        requires
            self.wf(),
            0 <= a <= b < self.order@.len(),
        ensures
            self.rank_at(self.order@[a]) <= self.rank_at(self.order@[b]),
    {
        reveal(BinaryTree::sorted);
    }

    proof fn lemma_root(self)
        requires
            self.wf(),
        ensures
            match self.root {
                None => self.order@.len() == 0,
                Some(r) => {
                    &&& self.live(r)
                    &&& self.node(r).parent is None
                    &&& self.lo@[r] == 0
                    &&& self.hi@[r] == self.order@.len()
                    &&& self.order@.len() > 0
                },
            },
    {
        reveal(BinaryTree::links_ok);
        if let Some(r) = self.root {
            self.lemma_live(r);
        }
    }

    proof fn lemma_order_intro(self)
        requires
            forall|k: int|
                #![trigger self.order@[k]]
                0 <= k < self.order@.len() ==> self.live(self.order@[k]) && self.pos@[self.order@[k]]
                    == k,
            forall|i: usize|
                #![trigger self.live(i)]
                self.live(i) ==> 0 <= self.pos@[i] < self.order@.len() && self.order@[self.pos@[i]]
                    == i,
        ensures
            self.order_ok(),
    {
        reveal(BinaryTree::order_ok);
    }

    proof fn lemma_sorted_intro(self)
        requires
            forall|a: int, b: int|
                #![trigger self.order@[a], self.order@[b]]
                0 <= a <= b < self.order@.len() ==> self.rank_at(self.order@[a]) <= self.rank_at(
                    self.order@[b],
                ),
        ensures
            self.sorted(),
    {
        reveal(BinaryTree::sorted);
    }

    proof fn lemma_links_intro(self)
        requires
            forall|i: usize| #![trigger self.live(i)] self.live(i) ==> self.node_ok(i),
            match self.root {
                None => self.order@.len() == 0,
                Some(r) => {
                    &&& self.live(r)
                    &&& self.node(r).parent is None
                    &&& self.lo@[r] == 0
                    &&& self.hi@[r] == self.order@.len()
                },
            },
        ensures
            self.links_ok(),
    {
        reveal(BinaryTree::links_ok);
    }

    /// An empty tree.
    pub fn new() -> (r: Self)
        ensures
            r.wf(),
            r.order() == Seq::<usize>::empty(),
    {
        let r = BinaryTree {
            nodes: Vec::new(),
            root: None,
            free: Vec::new(),
            order: Ghost(Seq::empty()),
            pos: Ghost(Map::new(|i: usize| true, |i: usize| 0int)),
            lo: Ghost(Map::new(|i: usize| true, |i: usize| 0int)),
            hi: Ghost(Map::new(|i: usize| true, |i: usize| 0int)),
        };
        proof {
            reveal(BinaryTree::order_ok);
            reveal(BinaryTree::sorted);
            reveal(BinaryTree::links_ok);
            reveal(BinaryTree::free_ok);
            assert(r.wf());
        }
        r
    }

    /// Whether the tree holds no node.
    pub fn is_empty(&self) -> (r: bool)
        requires
            self.wf(),
        ensures
            r == (self.order().len() == 0),
    {
        proof {
            self.lemma_root();
        }
        self.root.is_none()
    }

    /// Drops every node.
    pub fn clean(&mut self)
        ensures
            final(self).wf(),
            final(self).order() == Seq::<usize>::empty(),
    {
        *self = BinaryTree::new();
    }

    fn node_ref(&self, i: usize) -> (r: &TreeNode<T>)
        requires
            self.live(i),
        ensures
            *r == self.node(i),
    {
        self.nodes[i].as_ref().unwrap()
    }

    /// The value held by the node of handle `h`.
    pub fn value(&self, h: usize) -> (r: &T)
        requires
            self.wf(),
            self.order().contains(h),
        ensures
            *r == self.value_of(h),
    {
        proof {
            self.lemma_contains(h);
        }
        &self.node_ref(h).value
    }

    /// The node of handle `h`, with its value and links.
    pub fn node_at(&self, h: usize) -> (r: &TreeNode<T>)
        requires
            self.wf(),
            self.order().contains(h),
        ensures
            r.value == self.value_of(h),
            r.parent == self.parent_of(h),
            r.left == self.left_of(h),
            r.right == self.right_of(h),
    {
        proof {
            self.lemma_contains(h);
        }
        self.node_ref(h)
    }

    /// The handle of the root: the one node without a parent.
    pub fn root_handle(&self) -> (r: Option<usize>)
        requires
            self.wf(),
        ensures
            r is None <==> self.order().len() == 0,
            match r {
                Some(h) => self.order().contains(h) && self.parent_of(h) is None,
                None => true,
            },
    {
        proof {
            self.lemma_root();
            if let Some(h) = self.root {
                self.lemma_live(h);
                assert(self.order@[self.pos@[h]] == h);
            }
        }
        self.root
    }

    /// The first node in ascending order, found by following left links from
    /// the root.
    pub fn min(&self) -> (r: Option<usize>)
        requires
            self.wf(),
        ensures
            self.order().len() == 0 ==> r is None,
            self.order().len() > 0 ==> r == Some(self.order()[0]),
    {
        proof {
            self.lemma_root();
        }
        match self.root {
            None => None,
            Some(root) => {
                let mut cur = root;
                loop
                    invariant
                        self.wf(),
                        self.live(cur),
                        self.lo@[cur] == 0,
                    decreases self.pos@[cur],
                {
                    proof {
                        self.lemma_live(cur);
                    }
                    match self.node_ref(cur).left {
                        None => {
                            return Some(cur);
                        },
                        Some(c) => {
                            proof {
                                self.lemma_live(c);
                            }
                            cur = c;
                        },
                    }
                }
            },
        }
    }

    /// The last node in ascending order, found by following right links from
    /// the root.
    pub fn max(&self) -> (r: Option<usize>)
        requires
            self.wf(),
        ensures
            self.order().len() == 0 ==> r is None,
            self.order().len() > 0 ==> r == Some(self.order().last()),
    {
        proof {
            self.lemma_root();
        }
        match self.root {
            None => None,
            Some(root) => {
                let mut cur = root;
                loop
                    invariant
                        self.wf(),
                        self.live(cur),
                        self.hi@[cur] == self.order@.len(),
                    decreases self.order@.len() - self.pos@[cur],
                {
                    proof {
                        self.lemma_live(cur);
                    }
                    match self.node_ref(cur).right {
                        None => {
                            return Some(cur);
                        },
                        Some(c) => {
                            proof {
                                self.lemma_live(c);
                            }
                            cur = c;
                        },
                    }
                }
            },
        }
    }

    /// A node whose value has the rank of `x`, if the tree holds one.
    pub fn find(&self, x: &T) -> (r: Option<usize>)
        requires
            self.wf(),
        ensures
            match r {
                Some(h) => self.order().contains(h) && self.value_of(h).rank() == x.rank(),
                None => !self.ranks().contains(x.rank()),
            },
    {
        proof {
            self.lemma_root();
        }
        let mut cur = self.root;
        let ghost mut glo: int = 0;
        let ghost mut ghi: int = self.order@.len() as int;
        loop
            invariant
                self.wf(),
                0 <= glo <= ghi <= self.order@.len(),
                match cur {
                    Some(c) => self.live(c) && self.lo@[c] == glo && self.hi@[c] == ghi,
                    None => glo == ghi,
                },
                forall|k: int|
                    #![trigger self.order@[k]]
                    0 <= k < self.order@.len() && !(glo <= k < ghi) ==> self.rank_at(self.order@[k])
                        != x.rank(),
            decreases ghi - glo,
        {
            match cur {
                None => {
                    assert forall|k: int| 0 <= k < self.ranks().len() implies self.ranks()[k]
                        != x.rank() by {
                        assert(self.order@[k] == self.order@[k]);
                    }
                    return None;
                },
                Some(c) => {
                    proof {
                        self.lemma_live(c);
                    }
                    let node = self.node_ref(c);
                    let ghost p = self.pos@[c];
                    if node.value.ties(x) {
                        return Some(c);
                    } else if node.value.precedes(x) {
                        proof {
                            assert forall|k: int|
                                #![trigger self.order@[k]]
                                0 <= k < self.order@.len() && !(p + 1 <= k < ghi) implies self.rank_at(
                                self.order@[k],
                            ) != x.rank() by {
                                if glo <= k <= p {
                                    self.lemma_le(k, p);
                                }
                            }
                            glo = p + 1;
                        }
                        cur = node.right;
                        proof {
                            if let Some(d) = cur {
                                self.lemma_live(d);
                            }
                        }
                    } else {
                        proof {
                            assert forall|k: int|
                                #![trigger self.order@[k]]
                                0 <= k < self.order@.len() && !(glo <= k < p) implies self.rank_at(
                                self.order@[k],
                            ) != x.rank() by {
                                if p <= k < ghi {
                                    self.lemma_le(p, k);
                                }
                            }
                            ghi = p;
                        }
                        cur = node.left;
                        proof {
                            if let Some(d) = cur {
                                self.lemma_live(d);
                            }
                        }
                    }
                },
            }
        }
    }
}


/// `v` moved one place up when a value is put in at position `q` or below.
pub open spec fn shift_up(v: int, q: int) -> int {
    if v < q {
        v
    } else {
        v + 1
    }
}

/// `v` moved one place down when the value at position `p` is taken out.
pub open spec fn shrink(v: int, p: int) -> int {
    if v <= p {
        v
    } else {
        v - 1
    }
}

impl<T: Ranked> BinaryTree<T> {
    /// The node that equals `n` but for its left link.
    spec fn with_left(n: TreeNode<T>, c: Option<usize>) -> TreeNode<T> {
        TreeNode { value: n.value, parent: n.parent, left: c, right: n.right }
    }

    /// The node that equals `n` but for its right link.
    spec fn with_right(n: TreeNode<T>, c: Option<usize>) -> TreeNode<T> {
        TreeNode { value: n.value, parent: n.parent, left: n.left, right: c }
    }

    /// The node that equals `n` but for its parent link.
    spec fn with_parent(n: TreeNode<T>, p: Option<usize>) -> TreeNode<T> {
        TreeNode { value: n.value, parent: p, left: n.left, right: n.right }
    }

    /// Where a new leaf below `c` stands in the in-order sequence.
    spec fn attach_at(self, c: usize, left: bool) -> int {
        if left {
            self.pos@[c]
        } else {
            self.pos@[c] + 1
        }
    }

    /// `t1` is `t0` with a new leaf `slot` holding `x` below `c`, on the side
    /// that `left` tells, where `x` falls between the ranks around `c`'s subtree.
    spec fn attach_step(t0: Self, t1: Self, c: usize, slot: usize, x: T, left: bool) -> bool {
        &&& t0.wf()
        &&& t0.live(c)
        &&& !t0.live(slot)
        &&& left ==> t0.node(c).left is None && x.rank() < t0.rank_at(c)
        &&& !left ==> t0.node(c).right is None && t0.rank_at(c) <= x.rank()
        &&& forall|k: int|
            #![trigger t0.order@[k]]
            0 <= k < t0.lo@[c] ==> t0.rank_at(t0.order@[k]) <= x.rank()
        &&& forall|k: int|
            #![trigger t0.order@[k]]
            t0.hi@[c] <= k < t0.order@.len() ==> x.rank() < t0.rank_at(t0.order@[k])
        &&& t0.nodes@.len() <= t1.nodes@.len()
        &&& slot < t1.nodes@.len()
        &&& forall|i: usize|
            #![trigger t1.nodes@[i as int]]
            i < t1.nodes@.len() && i != c && i != slot ==> i < t0.nodes@.len()
                && t1.nodes@[i as int] == t0.nodes@[i as int]
        &&& t1.nodes@[slot as int] == Some(
            TreeNode { value: x, parent: Some(c), left: None, right: None },
        )
        &&& t1.nodes@[c as int] == Some(
            if left {
                Self::with_left(t0.node(c), Some(slot))
            } else {
                Self::with_right(t0.node(c), Some(slot))
            },
        )
        &&& t1.root == t0.root
        &&& t1.order@ == t0.order@.insert(t0.attach_at(c, left), slot)
        &&& forall|i: usize|
            #![trigger t1.pos@[i]]
            t1.pos@[i] == if i == slot {
                t0.attach_at(c, left)
            } else {
                shift_up(t0.pos@[i], t0.attach_at(c, left))
            }
        &&& forall|i: usize|
            #![trigger t1.lo@[i]]
            t1.lo@[i] == if i == slot {
                t0.attach_at(c, left)
            } else {
                shift_up(t0.lo@[i], t0.pos@[c] + 1)
            }
        &&& forall|i: usize|
            #![trigger t1.hi@[i]]
            t1.hi@[i] == if i == slot {
                t0.attach_at(c, left) + 1
            } else {
                shift_up(t0.hi@[i], t0.pos@[c] + 1)
            }
        &&& t1.free_ok()
    }

    /// Facts of an attach step: the old nodes keep their values and parents,
    /// and `x` falls after the ranks before `attach_at` and before the rest.
    proof fn lemma_attach_facts(t0: Self, t1: Self, c: usize, slot: usize, x: T, left: bool)
        requires
            Self::attach_step(t0, t1, c, slot, x, left),
        ensures
            t0.order@[t0.pos@[c]] == c,
            0 <= t0.pos@[c] < t0.order@.len(),
            t0.node_ok(c),
            forall|i: usize|
                #![trigger t0.live(i)]
                t0.live(i) ==> t1.live(i) && t1.node(i).value == t0.node(i).value && t1.node(
                    i,
                ).parent == t0.node(i).parent,
            forall|k: int|
                #![trigger t0.order@[k]]
                0 <= k < t0.order@.len() ==> (k < t0.attach_at(c, left) ==> t0.rank_at(
                    t0.order@[k],
                ) <= x.rank()) && (t0.attach_at(c, left) <= k ==> x.rank() < t0.rank_at(
                    t0.order@[k],
                )),
    {
        let q = t0.attach_at(c, left);
        let n0 = t0.order@.len();
        t0.lemma_live(c);
        assert forall|i: usize| t0.live(i) implies t1.live(i) && t1.node(i).value == t0.node(
            i,
        ).value && t1.node(i).parent == t0.node(i).parent by {
            assert(t1.nodes@[i as int] == t1.nodes@[i as int]);
        }
        assert forall|k: int|
            #![trigger t0.order@[k]]
            0 <= k < n0 implies (k < q ==> t0.rank_at(t0.order@[k]) <= x.rank()) && (q <= k
                ==> x.rank() < t0.rank_at(t0.order@[k])) by {
            let pc = t0.pos@[c];
            if t0.lo@[c] <= k && k <= pc {
                t0.lemma_le(k, pc);
            }
            if pc <= k && k < t0.hi@[c] {
                t0.lemma_le(pc, k);
            }
        }
    }

    /// An attach step keeps the in-order sequence consistent and sorted.
    proof fn lemma_attach_order(t0: Self, t1: Self, c: usize, slot: usize, x: T, left: bool)
        requires
            Self::attach_step(t0, t1, c, slot, x, left),
        ensures
            t1.order_ok(),
            t1.sorted(),
    {
        Self::lemma_attach_facts(t0, t1, c, slot, x, left);
        let q = t0.attach_at(c, left);
        assert forall|k: int|
            #![trigger t1.order@[k]]
            0 <= k < t1.order@.len() implies t1.live(t1.order@[k]) && t1.pos@[t1.order@[k]]
                == k by {
            if k < q {
                assert(t1.order@[k] == t0.order@[k]);
                t0.lemma_at(k);
            } else if k > q {
                assert(t1.order@[k] == t0.order@[k - 1]);
                t0.lemma_at(k - 1);
            }
        }
        assert forall|i: usize| #![trigger t1.live(i)] t1.live(i) implies 0 <= t1.pos@[i]
            < t1.order@.len() && t1.order@[t1.pos@[i]] == i by {
            if i != slot {
                assert(t1.nodes@[i as int] == t1.nodes@[i as int]);
                assert(t0.live(i));
                t0.lemma_live(i);
            }
        }
        t1.lemma_order_intro();
        assert forall|a: int, b: int|
            #![trigger t1.order@[a], t1.order@[b]]
            0 <= a <= b < t1.order@.len() implies t1.rank_at(t1.order@[a]) <= t1.rank_at(
                t1.order@[b],
            ) by {
            let oa = if a < q {
                a
            } else {
                a - 1
            };
            let ob = if b < q {
                b
            } else {
                b - 1
            };
            if a != q {
                assert(t1.order@[a] == t0.order@[oa]);
                t0.lemma_at(oa);
            }
            if b != q {
                assert(t1.order@[b] == t0.order@[ob]);
                t0.lemma_at(ob);
            }
            if a != q && b != q {
                t0.lemma_le(oa, ob);
            }
        }
        t1.lemma_sorted_intro();
    }

    /// After an attach step, the node of handle `i` is well linked.
    proof fn lemma_attach_node(
        t0: Self,
        t1: Self,
        c: usize,
        slot: usize,
        x: T,
        left: bool,
        i: usize,
    )
        requires
            Self::attach_step(t0, t1, c, slot, x, left),
            t1.live(i),
        ensures
            t1.node_ok(i),
    {
        Self::lemma_attach_facts(t0, t1, c, slot, x, left);
        let q = t0.attach_at(c, left);
        if i != slot {
            assert(t1.nodes@[i as int] == t1.nodes@[i as int]);
            assert(t0.live(i));
            t0.lemma_live(i);
            let p = t0.pos@[i];
            if let Some(d) = t1.node(i).left {
                if d != slot {
                    assert(t0.live(d));
                    t0.lemma_live(d);
                    if i != c {
                        if p < q {
                            assert(t1.order@[p - 1] == t0.order@[p - 1]);
                        } else if p > q {
                            assert(t1.order@[p] == t0.order@[p - 1]);
                        } else {
                            assert(t1.order@[p] == slot);
                        }
                    } else {
                        assert(t1.order@[p - 1] == t0.order@[p - 1]);
                    }
                    t0.lemma_at(p - 1);
                } else {
                    assert(t1.order@[q] == slot);
                }
            }
            if let Some(d) = t1.node(i).right {
                if d != slot {
                    assert(t0.live(d));
                }
            }
            if let Some(g) = t1.node(i).parent {
                assert(t0.live(g));
            }
        }
    }

    /// A new leaf `slot` holding `x` below `c` keeps the tree well formed.
    proof fn lemma_attach(t0: Self, t1: Self, c: usize, slot: usize, x: T, left: bool)
        requires
            Self::attach_step(t0, t1, c, slot, x, left),
        ensures
            t1.wf(),
    {
        Self::lemma_attach_facts(t0, t1, c, slot, x, left);
        Self::lemma_attach_order(t0, t1, c, slot, x, left);
        t0.lemma_root();
        if let Some(r) = t1.root {
            assert(t1.lo@[r] == 0);
            assert(t1.hi@[r] == t1.order@.len());
        }
        assert forall|i: usize| #![trigger t1.live(i)] t1.live(i) implies t1.node_ok(i) by {
            Self::lemma_attach_node(t0, t1, c, slot, x, left, i);
        }
        t1.lemma_links_intro();
    }

    /// Node `h` cut out of the in-order sequence: the other nodes keep their
    /// values and move one place down past `h`'s position.
    spec fn cut_step(t0: Self, t1: Self, h: usize) -> bool {
        &&& t0.wf()
        &&& t0.live(h)
        &&& t1.nodes@.len() == t0.nodes@.len()
        &&& forall|i: usize| #![trigger t1.live(i)] t1.live(i) == (t0.live(i) && i != h)
        &&& forall|i: usize|
            #![trigger t1.node(i)]
            t1.live(i) ==> t1.node(i).value == t0.node(i).value
        &&& t1.order@ == t0.order@.remove(t0.pos@[h])
        &&& forall|i: usize| #![trigger t1.pos@[i]] t1.pos@[i] == shrink(t0.pos@[i], t0.pos@[h])
    }

    /// A cut step keeps the in-order sequence consistent and sorted.
    proof fn lemma_cut_order(t0: Self, t1: Self, h: usize)
        requires
            Self::cut_step(t0, t1, h),
        ensures
            t1.order_ok(),
            t1.sorted(),
    {
        let p = t0.pos@[h];
        t0.lemma_live(h);
        assert forall|k: int|
            #![trigger t1.order@[k]]
            0 <= k < t1.order@.len() implies t1.live(t1.order@[k]) && t1.pos@[t1.order@[k]]
                == k by {
            let ok = if k < p {
                k
            } else {
                k + 1
            };
            assert(t1.order@[k] == t0.order@[ok]);
            t0.lemma_at(ok);
        }
        assert forall|i: usize| #![trigger t1.live(i)] t1.live(i) implies 0 <= t1.pos@[i]
            < t1.order@.len() && t1.order@[t1.pos@[i]] == i by {
            t0.lemma_live(i);
        }
        t1.lemma_order_intro();
        assert forall|a: int, b: int|
            #![trigger t1.order@[a], t1.order@[b]]
            0 <= a <= b < t1.order@.len() implies t1.rank_at(t1.order@[a]) <= t1.rank_at(
                t1.order@[b],
            ) by {
            let oa = if a < p {
                a
            } else {
                a + 1
            };
            let ob = if b < p {
                b
            } else {
                b + 1
            };
            assert(t1.order@[a] == t0.order@[oa]);
            assert(t1.order@[b] == t0.order@[ob]);
            t0.lemma_at(oa);
            t0.lemma_at(ob);
            t0.lemma_le(oa, ob);
        }
        t1.lemma_sorted_intro();
    }

    /// Node `i` of `t0` after `h`, of at most one child `k`, gives its place
    /// to `k`.
    spec fn spliced(t0: Self, h: usize, k: Option<usize>, i: usize) -> TreeNode<T> {
        let n = t0.node(i);
        TreeNode {
            value: n.value,
            parent: if k == Some(i) {
                t0.node(h).parent
            } else {
                n.parent
            },
            left: if n.left == Some(h) {
                k
            } else {
                n.left
            },
            right: if n.right == Some(h) {
                k
            } else {
                n.right
            },
        }
    }

    /// The only child of `h`, if it has one.
    spec fn only_child(t0: Self, h: usize) -> Option<usize> {
        if t0.node(h).left is Some {
            t0.node(h).left
        } else {
            t0.node(h).right
        }
    }

    /// `t1` is `t0` with `h`, of at most one child, spliced out.
    spec fn splice_step(t0: Self, t1: Self, h: usize) -> bool {
        &&& Self::cut_step(t0, t1, h)
        &&& t0.node(h).left is None || t0.node(h).right is None
        &&& forall|i: usize|
            #![trigger t1.node(i)]
            t1.live(i) ==> t1.node(i) == Self::spliced(t0, h, Self::only_child(t0, h), i)
        &&& t1.root == if t0.root == Some(h) {
            Self::only_child(t0, h)
        } else {
            t0.root
        }
        &&& forall|i: usize| #![trigger t1.lo@[i]] t1.lo@[i] == shrink(t0.lo@[i], t0.pos@[h])
        &&& forall|i: usize| #![trigger t1.hi@[i]] t1.hi@[i] == shrink(t0.hi@[i], t0.pos@[h])
    }

    /// After a splice step, the node of handle `i` is well linked.
    proof fn lemma_splice_node(t0: Self, t1: Self, h: usize, i: usize)
        requires
            Self::splice_step(t0, t1, h),
            t1.live(i),
        ensures
            t1.node_ok(i),
    {
        let p = t0.pos@[h];
        let k = Self::only_child(t0, h);
        t0.lemma_live(h);
        t0.lemma_live(i);
        let n = t0.node(i);
        let m = t1.node(i);
        assert(t1.node(i) == Self::spliced(t0, h, k, i));
        if let Some(c) = k {
            t0.lemma_live(c);
        }
        if i != h && t0.pos@[i] == p {
            assert(t0.order@[p] == i);
        }
        if let Some(c) = n.left {
            t0.lemma_live(c);
        }
        if let Some(c) = n.right {
            t0.lemma_live(c);
        }
        if let Some(g) = n.parent {
            t0.lemma_live(g);
        }
        if let Some(c) = m.left {
            assert(t1.live(c));
            assert(t1.node(c) == Self::spliced(t0, h, k, c));
            let pi = t0.pos@[i];
            let j = t1.pos@[i] - 1;
            let oj = if j < p {
                j
            } else {
                j + 1
            };
            assert(t1.order@[j] == t0.order@[oj]);
            t0.lemma_at(oj);
            let w = t0.order@[oj];
            assert(t1.live(w));
            assert(t1.node(w).value == t0.node(w).value);
            assert(t1.node(i).value == t0.node(i).value);
            if pi - 1 == p {
                t0.lemma_le(p - 1, p);
            }
        }
        if let Some(c) = m.right {
            assert(t1.live(c));
            assert(t1.node(c) == Self::spliced(t0, h, k, c));
        }
        if let Some(g) = m.parent {
            assert(t1.live(g));
            assert(t1.node(g) == Self::spliced(t0, h, k, g));
        }
    }

    /// Splicing out a node of at most one child keeps the tree well formed.
    proof fn lemma_splice(t0: Self, t1: Self, h: usize)
        requires
            Self::splice_step(t0, t1, h),
            t1.free_ok(),
        ensures
            t1.wf(),
    {
        Self::lemma_cut_order(t0, t1, h);
        t0.lemma_root();
        t0.lemma_live(h);
        let k = Self::only_child(t0, h);
        if let Some(c) = k {
            t0.lemma_live(c);
        }
        if let Some(r) = t0.root {
            t0.lemma_live(r);
        }
        if let Some(r) = t1.root {
            assert(t1.live(r));
            assert(t1.node(r) == Self::spliced(t0, h, k, r));
        }
        assert forall|i: usize| #![trigger t1.live(i)] t1.live(i) implies t1.node_ok(i) by {
            Self::lemma_splice_node(t0, t1, h, i);
        }
        t1.lemma_links_intro();
    }

    /// Node `i` of `t0` after `h`, of two children, gives its place to `s`,
    /// the first node of its right subtree, whose right child takes `s`'s
    /// old place.
    spec fn promoted(t0: Self, h: usize, s: usize, i: usize) -> TreeNode<T> {
        let n = t0.node(i);
        let a = t0.node(h).left;
        let b = t0.node(h).right;
        let q = t0.node(s).parent;
        let r = t0.node(s).right;
        if i == s {
            TreeNode {
                value: n.value,
                parent: t0.node(h).parent,
                left: a,
                right: if b == Some(s) {
                    r
                } else {
                    b
                },
            }
        } else {
            TreeNode {
                value: n.value,
                parent: if a == Some(i) || b == Some(i) {
                    Some(s)
                } else if r == Some(i) && b != Some(s) {
                    q
                } else {
                    n.parent
                },
                left: if q == Some(i) && b != Some(s) {
                    r
                } else if n.left == Some(h) {
                    Some(s)
                } else {
                    n.left
                },
                right: if n.right == Some(h) {
                    Some(s)
                } else {
                    n.right
                },
            }
        }
    }

    /// `s` is the first node of the right subtree of `h`, which has two
    /// children, found down the left links from `h`'s right child.
    spec fn first_of_right(t0: Self, h: usize, s: usize) -> bool {
        let p = t0.pos@[h];
        let b = t0.node(h).right->Some_0;
        let q = t0.node(s).parent->Some_0;
        &&& t0.node(h).left is Some
        &&& t0.node(h).right is Some
        &&& t0.live(s)
        &&& t0.node(s).left is None
        &&& t0.lo@[s] == p + 1
        &&& s != b ==> {
            &&& t0.node(s).parent is Some
            &&& t0.node(q).left == Some(s)
            &&& t0.hi@[s] <= t0.pos@[b]
            &&& (q == b || t0.hi@[q] <= t0.pos@[b])
        }
    }

    /// `t1` is `t0` with `h`, of two children, replaced by `s`.
    spec fn promote_step(t0: Self, t1: Self, h: usize, s: usize) -> bool {
        let p = t0.pos@[h];
        &&& Self::cut_step(t0, t1, h)
        &&& Self::first_of_right(t0, h, s)
        &&& forall|i: usize|
            #![trigger t1.node(i)]
            t1.live(i) ==> t1.node(i) == Self::promoted(t0, h, s, i)
        &&& t1.root == if t0.root == Some(h) {
            Some(s)
        } else {
            t0.root
        }
        &&& forall|i: usize|
            #![trigger t1.lo@[i]]
            t1.lo@[i] == if i == s {
                t0.lo@[h]
            } else if t0.lo@[i] == p + 1 {
                p + 1
            } else {
                shrink(t0.lo@[i], p)
            }
        &&& forall|i: usize|
            #![trigger t1.hi@[i]]
            t1.hi@[i] == if i == s {
                t0.hi@[h] - 1
            } else {
                shrink(t0.hi@[i], p)
            }
    }

    /// The handles that a promote step relinks are distinct where they must be.
    proof fn lemma_promote_facts(t0: Self, h: usize, s: usize)
        requires
            t0.wf(),
            t0.live(h),
            Self::first_of_right(t0, h, s),
        ensures
            ({
                let p = t0.pos@[h];
                let a = t0.node(h).left->Some_0;
                let b = t0.node(h).right->Some_0;
                let q = t0.node(s).parent->Some_0;
                &&& t0.live(a) && t0.live(b) && t0.live(q)
                &&& t0.pos@[s] == p + 1
                &&& 1 <= p
                &&& t0.lo@[a] == t0.lo@[h] && t0.hi@[a] == p
                &&& t0.lo@[b] == p + 1 && t0.hi@[b] == t0.hi@[h]
                &&& p + 2 <= t0.hi@[h]
                &&& a != s && b != h && a != h && s != h && a != b
                &&& (b == s <==> q == h)
                &&& b != s ==> q != h && q != a && q != s && t0.lo@[q] == p + 1 && t0.pos@[q]
                    == t0.hi@[s] && t0.pos@[q] < t0.hi@[h] && t0.pos@[s] < t0.pos@[q]
                &&& b == s ==> t0.node(b).parent == Some(h)
                &&& forall|c: usize|
                    t0.node(s).right == Some(c) ==> t0.live(c) && t0.lo@[c] == p + 2 && t0.hi@[c]
                        == t0.hi@[s] && c != b && c != a && c != h && c != s && c != q
                &&& t0.node(s).right is None ==> t0.hi@[s] == p + 2
                &&& forall|g: usize|
                    t0.node(h).parent == Some(g) ==> t0.live(g) && g != q && g != s && g != a && g
                        != b && g != h && (t0.pos@[g] < p || t0.pos@[g] >= t0.hi@[h]) && (t0.node(
                        g,
                    ).left == Some(h) || t0.node(g).right == Some(h))
            }),
    {
        let p = t0.pos@[h];
        let a = t0.node(h).left->Some_0;
        let b = t0.node(h).right->Some_0;
        let q = t0.node(s).parent->Some_0;
        t0.lemma_live(h);
        t0.lemma_live(a);
        t0.lemma_live(b);
        t0.lemma_live(s);
        t0.lemma_live(q);
        if let Some(c) = t0.node(s).right {
            t0.lemma_live(c);
            if c == q {
                assert(t0.order@[t0.pos@[c]] == c);
            }
        }
        if let Some(g) = t0.node(h).parent {
            t0.lemma_live(g);
        }
        if q == h {
            assert(t0.node(s).parent == Some(h));
            if t0.node(h).left == Some(s) {
                assert(false);
            }
        }
    }

    /// After a promote step, the node of handle `i` is well linked.
    #[verifier::rlimit(40)]
    proof fn lemma_promote_node(t0: Self, t1: Self, h: usize, s: usize, i: usize)
        requires
            Self::promote_step(t0, t1, h, s),
            t1.live(i),
        ensures
            t1.node_ok(i),
    {
        let p = t0.pos@[h];
        Self::lemma_promote_facts(t0, h, s);
        t0.lemma_live(h);
        t0.lemma_live(i);
        t0.lemma_live(s);
        let n = t0.node(i);
        let m = t1.node(i);
        assert(t1.node(i) == Self::promoted(t0, h, s, i));
        if i != h && t0.pos@[i] == p {
            assert(t0.order@[p] == i);
        }
        if i != s && t0.pos@[i] == p + 1 {
            assert(t0.order@[p + 1] == i);
        }
        if let Some(c) = n.left {
            t0.lemma_live(c);
        }
        if let Some(c) = n.right {
            t0.lemma_live(c);
        }
        if let Some(g) = n.parent {
            t0.lemma_live(g);
        }
        if let Some(c) = m.left {
            assert(t1.live(c));
            assert(t1.node(c) == Self::promoted(t0, h, s, c));
            t0.lemma_live(c);
            let pi = t0.pos@[i];
            let j = t1.pos@[i] - 1;
            let oj = if j < p {
                j
            } else {
                j + 1
            };
            assert(t1.order@[j] == t0.order@[oj]);
            t0.lemma_at(oj);
            let w = t0.order@[oj];
            assert(t1.live(w));
            assert(t1.node(w).value == t0.node(w).value);
            assert(t1.node(i).value == t0.node(i).value);
            if i == s {
                t0.lemma_le(p, p + 1);
                t0.lemma_at(p - 1);
                t0.lemma_at(p);
            }
        }
        if let Some(c) = m.right {
            assert(t1.live(c));
            assert(t1.node(c) == Self::promoted(t0, h, s, c));
            t0.lemma_live(c);
        }
        if let Some(g) = m.parent {
            assert(t1.live(g));
            assert(t1.node(g) == Self::promoted(t0, h, s, g));
            t0.lemma_live(g);
        }
    }

    /// Replacing a node of two children by the first node of its right
    /// subtree keeps the tree well formed.
    proof fn lemma_promote(t0: Self, t1: Self, h: usize, s: usize)
        requires
            Self::promote_step(t0, t1, h, s),
            t1.free_ok(),
        ensures
            t1.wf(),
    {
        Self::lemma_cut_order(t0, t1, h);
        Self::lemma_promote_facts(t0, h, s);
        t0.lemma_root();
        t0.lemma_live(h);
        t0.lemma_live(s);
        if let Some(r) = t0.root {
            t0.lemma_live(r);
        }
        if let Some(r) = t1.root {
            assert(t1.live(r));
            assert(t1.node(r) == Self::promoted(t0, h, s, r));
        }
        assert forall|i: usize| #![trigger t1.live(i)] t1.live(i) implies t1.node_ok(i) by {
            Self::lemma_promote_node(t0, t1, h, s, i);
        }
        t1.lemma_links_intro();
    }

    /// `a` and `b` differ at most in their node slots.
    spec fn same_but_nodes(a: Self, b: Self) -> bool {
        &&& a.root == b.root
        &&& a.free@ == b.free@
        &&& a.order@ == b.order@
        &&& a.pos@ == b.pos@
        &&& a.lo@ == b.lo@
        &&& a.hi@ == b.hi@
    }

    fn set_left(&mut self, i: usize, c: Option<usize>)
        requires
            old(self).live(i),
        ensures
            final(self).nodes@ == old(self).nodes@.update(
                i as int,
                Some(Self::with_left(old(self).node(i), c)),
            ),
            Self::same_but_nodes(*final(self), *old(self)),
    {
        match &mut self.nodes[i] {
            Some(n) => {
                n.left = c;
            },
            None => {},
        }
    }

    fn set_right(&mut self, i: usize, c: Option<usize>)
        requires
            old(self).live(i),
        ensures
            final(self).nodes@ == old(self).nodes@.update(
                i as int,
                Some(Self::with_right(old(self).node(i), c)),
            ),
            Self::same_but_nodes(*final(self), *old(self)),
    {
        match &mut self.nodes[i] {
            Some(n) => {
                n.right = c;
            },
            None => {},
        }
    }

    fn set_parent(&mut self, i: usize, p: Option<usize>)
        requires
            old(self).live(i),
        ensures
            final(self).nodes@ == old(self).nodes@.update(
                i as int,
                Some(Self::with_parent(old(self).node(i), p)),
            ),
            Self::same_but_nodes(*final(self), *old(self)),
    {
        match &mut self.nodes[i] {
            Some(n) => {
                n.parent = p;
            },
            None => {},
        }
    }

    /// Adds `x` as a new leaf: from the root, go left where `x` ranks below a
    /// node and right otherwise, so that `x` lands after every value of equal
    /// rank. Returns the new node's handle; no other node moves.
    pub fn insert(&mut self, x: T) -> (h: usize)
        requires
            old(self).wf(),
            old(self).order().len() < usize::MAX,
        ensures
            final(self).wf(),
            !old(self).order().contains(h),
            0 <= final(self).index_of(h) <= old(self).order().len(),
            final(self).order() == old(self).order().insert(final(self).index_of(h), h),
            final(self).value_of(h) == x,
            forall|g: usize|
                old(self).order().contains(g) ==> final(self).value_of(g) == old(self).value_of(
                    g,
                ),
            forall|k: int|
                0 <= k < final(self).index_of(h) ==> old(self).ranks()[k] <= x.rank(),
            forall|k: int|
                final(self).index_of(h) <= k < old(self).order().len() ==> x.rank() < old(
                    self,
                ).ranks()[k],
            Self::inserted(*old(self), *final(self), x),
    {
        proof {
            self.lemma_root();
        }
        if self.root.is_none() {
            *self = TreeNode::new(x).to_root();
            proof {
                assert(self.order() =~= old(self).order().insert(0, 0));
                assert(!old(self).order().contains(0usize));
                assert(Self::inserted(*old(self), *self, x));
            }
            return 0;
        }
        let (c, left) = self.leaf_slot(&x);
        let ghost t0 = *self;
        let ghost gx = x;
        let ghost q = t0.attach_at(c, left);
        proof {
            t0.lemma_live(c);
            reveal(BinaryTree::free_ok);
        }
        let slot = match self.free.pop() {
            Some(i) => {
                self.nodes[i] = Some(TreeNode::new_leaf(x, c));
                i
            },
            None => {
                self.nodes.push(Some(TreeNode::new_leaf(x, c)));
                self.nodes.len() - 1
            },
        };
        if left {
            self.set_left(c, Some(slot));
        } else {
            self.set_right(c, Some(slot));
        }
        self.order = Ghost(t0.order@.insert(q, slot));
        self.pos = Ghost(
            Map::new(
                |i: usize| true,
                |i: usize|
                    if i == slot {
                        q
                    } else {
                        shift_up(t0.pos@[i], q)
                    },
            ),
        );
        self.lo = Ghost(
            Map::new(
                |i: usize| true,
                |i: usize|
                    if i == slot {
                        q
                    } else {
                        shift_up(t0.lo@[i], t0.pos@[c] + 1)
                    },
            ),
        );
        self.hi = Ghost(
            Map::new(
                |i: usize| true,
                |i: usize|
                    if i == slot {
                        q + 1
                    } else {
                        shift_up(t0.hi@[i], t0.pos@[c] + 1)
                    },
            ),
        );
        proof {
            reveal(BinaryTree::free_ok);
            assert(self.free_ok());
            Self::lemma_attach(t0, *self, c, slot, gx, left);
            Self::lemma_attach_facts(t0, *self, c, slot, gx, left);
            if t0.order@.contains(slot) {
                t0.lemma_contains(slot);
            }
            assert forall|g: usize| t0.order@.contains(g) implies self.value_of(g)
                == t0.value_of(g) by {
                t0.lemma_contains(g);
            }
            assert forall|k: int| 0 <= k < q implies t0.ranks()[k] <= gx.rank() by {
                assert(t0.order@[k] == t0.order@[k]);
            }
            assert forall|k: int| q <= k < t0.order@.len() implies gx.rank() < t0.ranks()[k] by {
                assert(t0.order@[k] == t0.order@[k]);
            }
            assert(!t0.order().contains(slot));
            assert(self.order() == t0.order().insert(self.index_of(slot), slot));
            assert(self.nodes@[slot as int] == Some(TreeNode { value: gx, parent: Some(c), left: None, right: None }));
            assert(self.value_of(slot) == gx);
            assert(0 <= self.index_of(slot) <= t0.order().len());
            assert(Self::inserted(t0, *self, gx));
        }
        slot
    }

    /// Node `i` after `new` takes the place of `h` below `h`'s parent.
    spec fn relinked(t: Self, h: usize, new: Option<usize>, i: usize) -> TreeNode<T> {
        let n = t.node(i);
        let g = t.node(h).parent;
        TreeNode {
            value: n.value,
            parent: if new == Some(i) {
                g
            } else {
                n.parent
            },
            left: if g == Some(i) && n.left == Some(h) {
                new
            } else {
                n.left
            },
            right: if g == Some(i) && n.left != Some(h) {
                new
            } else {
                n.right
            },
        }
    }

    /// Puts `new` in the place of `h`: below `h`'s parent, on `h`'s side, or
    /// at the root where `h` has no parent. `h` itself is left as it is.
    fn detach(&mut self, h: usize, new: Option<usize>)
        requires
            old(self).live(h),
            match old(self).node(h).parent {
                None => true,
                Some(g) => old(self).live(g) && g != h,
            },
            match new {
                None => true,
                Some(c) => old(self).live(c) && c != h && Some(c) != old(self).node(h).parent,
            },
        ensures
            final(self).nodes@.len() == old(self).nodes@.len(),
            forall|i: usize| #![trigger final(self).live(i)] final(self).live(i) == old(self).live(i),
            forall|i: usize|
                #![trigger final(self).node(i)]
                old(self).live(i) ==> final(self).node(i) == Self::relinked(*old(self), h, new, i),
            final(self).root == if old(self).node(h).parent is None {
                new
            } else {
                old(self).root
            },
            final(self).free@ == old(self).free@,
            final(self).order@ == old(self).order@,
            final(self).pos@ == old(self).pos@,
            final(self).lo@ == old(self).lo@,
            final(self).hi@ == old(self).hi@,
    {
        let parent = self.node_ref(h).parent;
        match parent {
            Some(g) => {
                if let Some(c) = new {
                    self.set_parent(c, Some(g));
                }
                let on_left = match self.node_ref(g).left {
                    Some(l) => l == h,
                    None => false,
                };
                if on_left {
                    self.set_left(g, new);
                } else {
                    self.set_right(g, new);
                }
            },
            None => {
                if let Some(c) = new {
                    self.set_parent(c, None);
                }
                self.root = new;
            },
        }
    }

    /// Node `i` once `s`, the first node of `h`'s right subtree, has left its
    /// place and taken `h`'s children, before it takes `h`'s place.
    spec fn lifted(t0: Self, h: usize, s: usize, i: usize) -> TreeNode<T> {
        let n = t0.node(i);
        let a = t0.node(h).left;
        let b = t0.node(h).right;
        let q = t0.node(s).parent;
        let r = t0.node(s).right;
        if i == s {
            TreeNode {
                value: n.value,
                parent: n.parent,
                left: a,
                right: if b == Some(s) {
                    r
                } else {
                    b
                },
            }
        } else {
            TreeNode {
                value: n.value,
                parent: if a == Some(i) || b == Some(i) {
                    Some(s)
                } else if r == Some(i) && b != Some(s) {
                    q
                } else {
                    n.parent
                },
                left: if q == Some(i) && b != Some(s) {
                    r
                } else {
                    n.left
                },
                right: n.right,
            }
        }
    }

    proof fn lemma_relinked_spliced(t0: Self, h: usize, i: usize)
        requires
            t0.wf(),
            t0.live(h),
            t0.live(i),
            i != h,
        ensures
            Self::relinked(t0, h, Self::only_child(t0, h), i) == Self::spliced(
                t0,
                h,
                Self::only_child(t0, h),
                i,
            ),
    {
        t0.lemma_live(h);
        t0.lemma_live(i);
        if let Some(c) = t0.node(i).left {
            t0.lemma_live(c);
        }
        if let Some(c) = t0.node(i).right {
            t0.lemma_live(c);
        }
    }

    proof fn lemma_relinked_promoted(t0: Self, tm: Self, h: usize, s: usize, i: usize)
        requires
            t0.wf(),
            t0.live(h),
            Self::first_of_right(t0, h, s),
            t0.live(i),
            i != h,
            tm.node(h) == t0.node(h),
            tm.node(i) == Self::lifted(t0, h, s, i),
        ensures
            Self::relinked(tm, h, Some(s), i) == Self::promoted(t0, h, s, i),
    {
        t0.lemma_live(h);
        t0.lemma_live(i);
        t0.lemma_live(s);
        if let Some(c) = t0.node(i).left {
            t0.lemma_live(c);
        }
        if let Some(c) = t0.node(i).right {
            t0.lemma_live(c);
        }
        if let Some(g) = t0.node(h).parent {
            t0.lemma_live(g);
            if Some(g) == t0.node(s).parent {
                t0.lemma_live(g);
                let q = t0.node(s).parent->Some_0;
                assert(t0.order@[t0.pos@[q]] == q);
            }
        }
    }

    /// Finds `s`, the first node of the right subtree of `h` (which has two
    /// children), hands `s`'s right child to `s`'s parent, and puts `s` in
    /// `h`'s place with `h`'s children. `h` itself is left as it is.
    fn lift_successor(&mut self, h: usize, a: usize, b: usize) -> (s: usize)
        requires
            old(self).wf(),
            old(self).live(h),
            old(self).node(h).left == Some(a),
            old(self).node(h).right == Some(b),
        ensures
            Self::first_of_right(*old(self), h, s),
            final(self).nodes@.len() == old(self).nodes@.len(),
            forall|i: usize| #![trigger final(self).live(i)] final(self).live(i) == old(self).live(i),
            final(self).node(h) == old(self).node(h),
            forall|i: usize|
                #![trigger final(self).node(i)]
                old(self).live(i) && i != h ==> final(self).node(i) == Self::promoted(
                    *old(self),
                    h,
                    s,
                    i,
                ),
            final(self).root == if old(self).root == Some(h) {
                Some(s)
            } else {
                old(self).root
            },
            final(self).free@ == old(self).free@,
            final(self).order@ == old(self).order@,
            final(self).pos@ == old(self).pos@,
            final(self).lo@ == old(self).lo@,
            final(self).hi@ == old(self).hi@,
    {
        let ghost t0 = *self;
        let ghost p = t0.pos@[h];
        proof {
            t0.lemma_live(h);
            t0.lemma_live(a);
            t0.lemma_live(b);
        }
        let mut s = b;
        let mut q = h;
        loop
            invariant
                *self == t0,
                t0.wf(),
                t0.live(h),
                p == t0.pos@[h],
                t0.node(h).left == Some(a),
                t0.node(h).right == Some(b),
                t0.live(s),
                t0.lo@[s] == p + 1,
                t0.node(s).parent == Some(q),
                s == b ==> q == h,
                s != b ==> t0.node(q).left == Some(s) && t0.hi@[s] <= t0.pos@[b] && (q == b || t0.hi@[q]
                    <= t0.pos@[b]),
            ensures
                *self == t0,
                Self::first_of_right(t0, h, s),
                t0.node(s).parent == Some(q),
                s == b ==> q == h,
            decreases t0.pos@[s],
        {
            proof {
                t0.lemma_live(s);
            }
            match self.node_ref(s).left {
                None => {
                    break ;
                },
                Some(c) => {
                    proof {
                        t0.lemma_live(c);
                    }
                    q = s;
                    s = c;
                },
            }
        }
        proof {
            t0.lemma_live(s);
            Self::lemma_promote_facts(t0, h, s);
        }
        let r = self.node_ref(s).right;
        if s != b {
            self.set_left(q, r);
            if let Some(c) = r {
                self.set_parent(c, Some(q));
            }
            self.set_right(s, Some(b));
            self.set_parent(b, Some(s));
        }
        self.set_left(s, Some(a));
        self.set_parent(a, Some(s));
        let ghost tb = *self;
        proof {
            assert forall|i: usize| t0.live(i) implies tb.live(i) && tb.node(i) == Self::lifted(
                t0,
                h,
                s,
                i,
            ) by {
                assert(tb.nodes@[i as int] == tb.nodes@[i as int]);
            }
            assert forall|i: usize| #![trigger tb.live(i)] tb.live(i) == t0.live(i) by {
                assert(tb.nodes@[i as int] == tb.nodes@[i as int]);
            }
            assert(tb.nodes@.len() == t0.nodes@.len());
            if let Some(g) = t0.node(h).parent {
                t0.lemma_live(g);
            }
            t0.lemma_root();
        }
        self.detach(h, Some(s));
        proof {
            assert forall|i: usize| t0.live(i) && i != h implies self.node(i) == Self::promoted(
                t0,
                h,
                s,
                i,
            ) by {
                Self::lemma_relinked_promoted(t0, tb, h, s, i);
            }
        }
        s
    }

    /// Takes the node of handle `h` out of the tree and returns its value.
    ///
    /// A node of at most one child is replaced by that child. A node of two
    /// children is replaced by the first node of its right subtree, which
    /// first hands its own right child to its parent. Every other node keeps
    /// its handle and its value.
    pub fn remove(&mut self, h: usize) -> (r: T)
        requires
            old(self).wf(),
            old(self).order().contains(h),
        ensures
            final(self).wf(),
            final(self).order() == old(self).order().remove(old(self).index_of(h)),
            r == old(self).value_of(h),
            forall|g: usize|
                final(self).order().contains(g) ==> final(self).value_of(g) == old(self).value_of(
                    g,
                ),
            Self::removed(*old(self), *final(self), h),
    {
        proof {
            self.lemma_contains(h);
            self.lemma_live(h);
        }
        let ghost t0 = *self;
        let ghost p = t0.pos@[h];
        let node = self.node_ref(h);
        let left = node.left;
        let right = node.right;
        let ghost mut succ: Option<usize> = None;
        match (left, right) {
            (Some(a), Some(b)) => {
                let s = self.lift_successor(h, a, b);
                proof {
                    succ = Some(s);
                }
            },
            _ => {
                let only = if left.is_some() {
                    left
                } else {
                    right
                };
                proof {
                    t0.lemma_root();
                    if let Some(c) = only {
                        t0.lemma_live(c);
                    }
                    if let Some(g) = t0.node(h).parent {
                        t0.lemma_live(g);
                    }
                }
                self.detach(h, only);
                proof {
                    assert forall|i: usize| t0.live(i) && i != h implies self.node(i)
                        == Self::spliced(t0, h, Self::only_child(t0, h), i) by {
                        Self::lemma_relinked_spliced(t0, h, i);
                    }
                }
            },
        }
        let ghost tm = *self;
        assert(tm.live(h));
        let taken = self.nodes[h].take();
        assert(self.nodes@ == tm.nodes@.update(h as int, None));
        self.free.push(h);
        self.order = Ghost(t0.order@.remove(p));
        self.pos = Ghost(Map::new(|i: usize| true, |i: usize| shrink(t0.pos@[i], p)));
        let ghost nlo = match succ {
            None => Map::new(|i: usize| true, |i: usize| shrink(t0.lo@[i], p)),
            Some(s) => Map::new(
                |i: usize| true,
                |i: usize|
                    if i == s {
                        t0.lo@[h]
                    } else if t0.lo@[i] == p + 1 {
                        p + 1
                    } else {
                        shrink(t0.lo@[i], p)
                    },
            ),
        };
        let ghost nhi = match succ {
            None => Map::new(|i: usize| true, |i: usize| shrink(t0.hi@[i], p)),
            Some(s) => Map::new(
                |i: usize| true,
                |i: usize|
                    if i == s {
                        t0.hi@[h] - 1
                    } else {
                        shrink(t0.hi@[i], p)
                    },
            ),
        };
        self.lo = Ghost(nlo);
        self.hi = Ghost(nhi);
        proof {
            assert forall|i: usize| #![trigger self.live(i)] self.live(i) == (t0.live(i) && i != h) by {
                assert(tm.live(i) == t0.live(i));
            }
            assert forall|i: usize| #![trigger self.node(i)] self.live(i) implies self.node(i)
                == tm.node(i) by {
                assert(self.nodes@[i as int] == tm.nodes@[i as int]);
            }
            reveal(BinaryTree::free_ok);
            assert forall|j: int| 0 <= j < self.free@.len() implies self.free@[j] < self.nodes@.len()
                && self.nodes@[self.free@[j] as int] is None by {
                if j < t0.free@.len() {
                    assert(self.free@[j] == t0.free@[j]);
                    assert(!t0.live(t0.free@[j]));
                    assert(!self.live(t0.free@[j]));
                }
            }
            assert forall|a: int, b: int| 0 <= a < b < self.free@.len() implies self.free@[a]
                != self.free@[b] by {
                if b == t0.free@.len() {
                    assert(!t0.live(t0.free@[a]));
                }
            }
            assert(self.free_ok());
            match succ {
                None => {
                    assert(Self::cut_step(t0, *self, h));
                    assert(forall|i: usize|
                        #![trigger self.node(i)]
                        self.live(i) ==> self.node(i) == Self::spliced(t0, h, Self::only_child(t0, h), i));
                    assert(self.root == if t0.root == Some(h) {
                        Self::only_child(t0, h)
                    } else {
                        t0.root
                    });
                    Self::lemma_splice(t0, *self, h);
                },
                Some(s) => {
                    Self::lemma_promote(t0, *self, h, s);
                },
            }
            assert forall|g: usize| self.order@.contains(g) implies self.value_of(g)
                == t0.value_of(g) by {
                self.lemma_contains(g);
            }
            assert(t0.order@.contains(h)) by {
                assert(t0.order@[p] == h);
            }
        }
        taken.unwrap().value
    }

    /// The first node of the subtree of `c`.
    fn subtree_min(&self, c: usize) -> (r: usize)
        requires
            self.wf(),
            self.live(c),
        ensures
            self.live(r),
            self.pos@[r] == self.lo@[c],
    {
        let mut cur = c;
        loop
            invariant
                self.wf(),
                self.live(cur),
                self.lo@[cur] == self.lo@[c],
            decreases self.pos@[cur],
        {
            proof {
                self.lemma_live(cur);
            }
            match self.node_ref(cur).left {
                None => {
                    return cur;
                },
                Some(d) => {
                    proof {
                        self.lemma_live(d);
                    }
                    cur = d;
                },
            }
        }
    }

    /// The last node of the subtree of `c`.
    fn subtree_max(&self, c: usize) -> (r: usize)
        requires
            self.wf(),
            self.live(c),
        ensures
            self.live(r),
            self.pos@[r] + 1 == self.hi@[c],
    {
        let mut cur = c;
        loop
            invariant
                self.wf(),
                self.live(cur),
                self.hi@[cur] == self.hi@[c],
            decreases self.order@.len() - self.pos@[cur],
        {
            proof {
                self.lemma_live(cur);
            }
            match self.node_ref(cur).right {
                None => {
                    return cur;
                },
                Some(d) => {
                    proof {
                        self.lemma_live(d);
                    }
                    cur = d;
                },
            }
        }
    }

    /// The node just before `h` in ascending order, if any.
    pub open spec fn prev_of(self, h: usize) -> Option<usize> {
        let k = self.index_of(h);
        if k > 0 {
            Some(self.order()[k - 1])
        } else {
            None
        }
    }

    /// The node just after `h` in ascending order, if any.
    pub open spec fn next_of(self, h: usize) -> Option<usize> {
        let k = self.index_of(h);
        if k + 1 < self.order().len() {
            Some(self.order()[k + 1])
        } else {
            None
        }
    }

    /// The node before `h`: the last node of its left subtree, or else the
    /// first ancestor reached from its right side.
    fn before(&self, h: usize) -> (r: Option<usize>)
        requires
            self.wf(),
            self.order().contains(h),
        ensures
            r == self.prev_of(h),
    {
        proof {
            self.lemma_contains(h);
            self.lemma_live(h);
        }
        let ghost p = self.pos@[h];
        if let Some(c) = self.node_ref(h).left {
            proof {
                self.lemma_live(c);
            }
            let m = self.subtree_max(c);
            proof {
                self.lemma_live(m);
            }
            return Some(m);
        }
        let mut cur = h;
        loop
            invariant
                self.wf(),
                self.live(cur),
                self.lo@[cur] == p,
                0 <= p < self.order@.len(),
                self.order@[p] == h,
                p == self.pos@[h],
            decreases self.order@.len() - self.pos@[cur],
        {
            proof {
                self.lemma_live(cur);
                self.lemma_root();
            }
            match self.node_ref(cur).parent {
                None => {
                    return None;
                },
                Some(g) => {
                    proof {
                        self.lemma_live(g);
                    }
                    let from_right = match self.node_ref(g).right {
                        Some(d) => d == cur,
                        None => false,
                    };
                    if from_right {
                        return Some(g);
                    }
                    cur = g;
                },
            }
        }
    }

    /// The node after `h`: the first node of its right subtree, or else the
    /// first ancestor reached from its left side.
    fn after(&self, h: usize) -> (r: Option<usize>)
        requires
            self.wf(),
            self.order().contains(h),
        ensures
            r == self.next_of(h),
    {
        proof {
            self.lemma_contains(h);
            self.lemma_live(h);
        }
        let ghost p = self.pos@[h];
        if let Some(c) = self.node_ref(h).right {
            proof {
                self.lemma_live(c);
            }
            let m = self.subtree_min(c);
            proof {
                self.lemma_live(m);
            }
            return Some(m);
        }
        let mut cur = h;
        loop
            invariant
                self.wf(),
                self.live(cur),
                self.hi@[cur] == p + 1,
                0 <= p < self.order@.len(),
                self.order@[p] == h,
                p == self.pos@[h],
            decreases self.pos@[cur],
        {
            proof {
                self.lemma_live(cur);
                self.lemma_root();
            }
            match self.node_ref(cur).parent {
                None => {
                    return None;
                },
                Some(g) => {
                    proof {
                        self.lemma_live(g);
                    }
                    let from_left = match self.node_ref(g).left {
                        Some(d) => d == cur,
                        None => false,
                    };
                    if from_left {
                        return Some(g);
                    }
                    cur = g;
                },
            }
        }
    }

    /// A cursor at the first node; see [`Iter::next`].
    pub fn iter(&self) -> (r: Iter)
        requires
            self.wf(),
        ensures
            r.current() == (if self.order().len() > 0 {
                Some(self.order()[0])
            } else {
                None
            }),
    {
        Iter { cursor: self.min() }
    }

    /// Where a value `x` would be attached: a node with a free child slot on
    /// the side that `x` goes to, with the ranks outside its subtree on the
    /// right sides of `x`.
    fn leaf_slot(&self, x: &T) -> (r: (usize, bool))
        requires
            self.wf(),
            self.root is Some,
        ensures
            self.live(r.0),
            r.1 ==> self.node(r.0).left is None && x.rank() < self.rank_at(r.0),
            !r.1 ==> self.node(r.0).right is None && self.rank_at(r.0) <= x.rank(),
            forall|k: int|
                #![trigger self.order@[k]]
                0 <= k < self.lo@[r.0] ==> self.rank_at(self.order@[k]) <= x.rank(),
            forall|k: int|
                #![trigger self.order@[k]]
                self.hi@[r.0] <= k < self.order@.len() ==> x.rank() < self.rank_at(
                    self.order@[k],
                ),
    {
        proof {
            self.lemma_root();
        }
        let mut cur = self.root.unwrap();
        loop
            invariant
                self.wf(),
                self.live(cur),
                forall|k: int|
                    #![trigger self.order@[k]]
                    0 <= k < self.lo@[cur] ==> self.rank_at(self.order@[k]) <= x.rank(),
                forall|k: int|
                    #![trigger self.order@[k]]
                    self.hi@[cur] <= k < self.order@.len() ==> x.rank() < self.rank_at(
                        self.order@[k],
                    ),
            decreases self.hi@[cur] - self.lo@[cur],
        {
            proof {
                self.lemma_live(cur);
            }
            let node = self.node_ref(cur);
            let p = Ghost(self.pos@[cur]);
            if x.precedes(&node.value) {
                match node.left {
                    None => {
                        return (cur, true);
                    },
                    Some(c) => {
                        proof {
                            self.lemma_live(c);
                        }
                        assert forall|k: int|
                            #![trigger self.order@[k]]
                            self.hi@[c] <= k < self.order@.len() implies x.rank() < self.rank_at(
                                self.order@[k],
                            ) by {
                            if k < self.hi@[cur] {
                                self.lemma_le(p@, k);
                            }
                        }
                        cur = c;
                    },
                }
            } else {
                match node.right {
                    None => {
                        return (cur, false);
                    },
                    Some(c) => {
                        proof {
                            self.lemma_live(c);
                        }
                        assert forall|k: int|
                            #![trigger self.order@[k]]
                            0 <= k < self.lo@[c] implies self.rank_at(self.order@[k])
                                <= x.rank() by {
                            if k >= self.lo@[cur] {
                                self.lemma_le(k, p@);
                            }
                        }
                        cur = c;
                    },
                }
            }
        }
    }
}


impl<T: Ranked> BinaryTree<T> {
    /// The parent of the node of handle `h`; `None` for the root.
    pub closed spec fn parent_of(self, h: usize) -> Option<usize> {
        self.node(h).parent
    }

    /// The left child of the node of handle `h`.
    pub closed spec fn left_of(self, h: usize) -> Option<usize> {
        self.node(h).left
    }

    /// The right child of the node of handle `h`.
    pub closed spec fn right_of(self, h: usize) -> Option<usize> {
        self.node(h).right
    }

    /// `y` is reached from `x` by at most `steps` child links.
    pub open spec fn reaches(self, x: usize, y: usize, steps: nat) -> bool
        decreases steps,
    {
        x == y || (steps > 0 && (match self.left_of(x) {
            Some(c) => self.reaches(c, y, (steps - 1) as nat),
            None => false,
        } || match self.right_of(x) {
            Some(c) => self.reaches(c, y, (steps - 1) as nat),
            None => false,
        }))
    }

    /// `after` is `before` with one more node, of value `x`, put in after
    /// every node of rank at most `x.rank()`; the other nodes keep their values.
    pub open spec fn inserted(before: Self, after: Self, x: T) -> bool {
        exists|h: usize|
            {
                &&& !before.order().contains(h)
                &&& 0 <= after.index_of(h) <= before.order().len()
                &&& after.order() == before.order().insert(after.index_of(h), h)
                &&& after.value_of(h) == x
                &&& forall|g: usize|
                    before.order().contains(g) ==> after.value_of(g) == before.value_of(g)
            }
    }

    /// `after` is `before` without the node of handle `h`; the other nodes keep
    /// their values.
    pub open spec fn removed(before: Self, after: Self, h: usize) -> bool {
        &&& before.order().contains(h)
        &&& after.order() == before.order().remove(before.index_of(h))
        &&& forall|g: usize| after.order().contains(g) ==> after.value_of(g) == before.value_of(g)
    }

    proof fn lemma_reaches_within(self, x: usize, y: usize, steps: nat)
        requires
            self.wf(),
            self.live(x),
            self.reaches(x, y, steps),
        ensures
            self.live(y),
            self.lo@[x] <= self.pos@[y] < self.hi@[x],
        decreases steps,
    {
        self.lemma_live(x);
        if x != y {
            if let Some(c) = self.left_of(x) {
                if self.reaches(c, y, (steps - 1) as nat) {
                    self.lemma_reaches_within(c, y, (steps - 1) as nat);
                    self.lemma_live(c);
                    return ;
                }
            }
            if let Some(c) = self.right_of(x) {
                self.lemma_reaches_within(c, y, (steps - 1) as nat);
                self.lemma_live(c);
            }
        }
    }

    /// Search order: every value below a node's left child ranks strictly
    /// below the node's value, and every value below its right child ranks at
    /// least as high.
    pub proof fn lemma_search_order(self, n: usize, y: usize, steps: nat)
        requires
            self.wf(),
            self.order().contains(n),
        ensures
            match self.left_of(n) {
                Some(c) => self.reaches(c, y, steps) ==> self.order().contains(y)
                    && self.value_of(y).rank() < self.value_of(n).rank(),
                None => true,
            },
            match self.right_of(n) {
                Some(c) => self.reaches(c, y, steps) ==> self.order().contains(y)
                    && self.value_of(n).rank() <= self.value_of(y).rank(),
                None => true,
            },
    {
        self.lemma_contains(n);
        self.lemma_live(n);
        let pn = self.pos@[n];
        if let Some(c) = self.left_of(n) {
            if self.reaches(c, y, steps) {
                self.lemma_live(c);
                self.lemma_reaches_within(c, y, steps);
                self.lemma_live(y);
                self.lemma_le(self.pos@[y], pn - 1);
            }
        }
        if let Some(c) = self.right_of(n) {
            if self.reaches(c, y, steps) {
                self.lemma_live(c);
                self.lemma_reaches_within(c, y, steps);
                self.lemma_live(y);
                self.lemma_le(pn, self.pos@[y]);
            }
        }
    }

    /// Parent links: a node's parent holds it in the child slot that the
    /// ranks choose (left where the node ranks below its parent, else right),
    /// and a node without a parent is the root, of which there is one.
    pub proof fn lemma_parent_links(self, n: usize)
        requires
            self.wf(),
            self.order().contains(n),
        ensures
            match self.parent_of(n) {
                Some(g) => {
                    &&& self.order().contains(g)
                    &&& self.value_of(n).rank() < self.value_of(g).rank() ==> self.left_of(g)
                        == Some(n)
                    &&& self.value_of(g).rank() <= self.value_of(n).rank() ==> self.right_of(g)
                        == Some(n)
                },
                None => forall|m: usize|
                    self.order().contains(m) && self.parent_of(m) is None ==> m == n,
            },
    {
        self.lemma_contains(n);
        self.lemma_live(n);
        match self.parent_of(n) {
            Some(g) => {
                self.lemma_live(g);
                let pg = self.pos@[g];
                if self.left_of(g) == Some(n) {
                    self.lemma_le(self.pos@[n], pg - 1);
                } else {
                    self.lemma_le(pg, self.pos@[n]);
                }
            },
            None => {
                assert forall|m: usize|
                    self.order().contains(m) && self.parent_of(m) is None implies m == n by {
                    self.lemma_contains(m);
                    self.lemma_live(m);
                }
            },
        }
    }

    /// A tree that holds a node has a root: a node without a parent.
    pub proof fn lemma_has_root(self)
        requires
            self.wf(),
            self.order().len() > 0,
        ensures
            exists|r: usize| self.order().contains(r) && self.parent_of(r) is None,
    {
        self.lemma_root();
        let r = self.root->Some_0;
        self.lemma_live(r);
        assert(self.order()[self.pos@[r]] == r);
        assert(self.order().contains(r));
    }

    /// The handle at each place of the in-order sequence is in the tree and
    /// stands at that place.
    pub proof fn lemma_index_of(self, k: int)
        requires
            self.wf(),
            0 <= k < self.order().len(),
        ensures
            self.order().contains(self.order()[k]),
            self.index_of(self.order()[k]) == k,
    {
        self.lemma_at(k);
    }

    /// The ranks of a tree's values ascend.
    pub proof fn lemma_ranks_sorted(self)
        requires
            self.wf(),
        ensures
            forall|a: int, b: int|
                0 <= a <= b < self.ranks().len() ==> self.ranks()[a] <= self.ranks()[b],
    {
        assert forall|a: int, b: int| 0 <= a <= b < self.ranks().len() implies self.ranks()[a]
            <= self.ranks()[b] by {
            self.lemma_at(a);
            self.lemma_at(b);
            self.lemma_le(a, b);
        }
    }

    /// One insertion adds the rank of the value to the tree's ranks.
    pub proof fn lemma_inserted_ranks(before: Self, after: Self, x: T)
        requires
            Self::inserted(before, after, x),
        ensures
            after.order().len() == before.order().len() + 1,
            after.ranks().to_multiset() == before.ranks().to_multiset().insert(x.rank()),
    {
        let h = choose|h: usize|
            {
                &&& !before.order().contains(h)
                &&& 0 <= after.index_of(h) <= before.order().len()
                &&& after.order() == before.order().insert(after.index_of(h), h)
                &&& after.value_of(h) == x
                &&& forall|g: usize|
                    before.order().contains(g) ==> after.value_of(g) == before.value_of(g)
            };
        let k = after.index_of(h);
        assert(after.ranks() =~= before.ranks().insert(k, x.rank())) by {
            assert forall|j: int| 0 <= j < after.ranks().len() implies after.ranks()[j]
                == before.ranks().insert(k, x.rank())[j] by {
                if j < k {
                    assert(before.order().contains(before.order()[j]));
                } else if j > k {
                    assert(before.order().contains(before.order()[j - 1]));
                }
            }
        }
        vstd::seq_lib::to_multiset_insert(before.ranks(), k, x.rank());
    }

    /// Size and content: inserting the values `xs` one by one into an empty
    /// tree gives a tree of `xs.len()` nodes whose ranks, in order, are the
    /// ranks of `xs` sorted ascending.
    pub proof fn lemma_insert_all(trees: Seq<Self>, xs: Seq<T>)
        requires
            trees.len() == xs.len() + 1,
            trees[0].order().len() == 0,
            forall|i: int| 0 <= i < trees.len() ==> #[trigger] trees[i].wf(),
            forall|i: int|
                0 <= i < xs.len() ==> #[trigger] Self::inserted(trees[i], trees[i + 1], xs[i]),
        ensures
            trees.last().order().len() == xs.len(),
            trees.last().ranks().to_multiset() == xs.map_values(|x: T| x.rank()).to_multiset(),
            forall|a: int, b: int|
                0 <= a <= b < xs.len() ==> trees.last().ranks()[a] <= trees.last().ranks()[b],
        decreases xs.len(),
    {
        let last = trees.last();
        assert(trees.last().wf());
        last.lemma_ranks_sorted();
        if xs.len() == 0 {
            assert(last.ranks() =~= Seq::<int>::empty());
            assert(xs.map_values(|x: T| x.rank()) =~= Seq::<int>::empty());
        } else {
            let n = xs.len() - 1;
            let front = trees.drop_last();
            let xf = xs.drop_last();
            assert forall|i: int| 0 <= i < front.len() implies #[trigger] front[i].wf() by {
                assert(front[i] == trees[i]);
            }
            assert forall|i: int| 0 <= i < xf.len() implies #[trigger] Self::inserted(
                front[i],
                front[i + 1],
                xf[i],
            ) by {
                assert(front[i] == trees[i]);
                assert(front[i + 1] == trees[i + 1]);
                assert(xf[i] == xs[i]);
            }
            Self::lemma_insert_all(front, xf);
            assert(Self::inserted(trees[n], trees[n + 1], xs[n]));
            Self::lemma_inserted_ranks(trees[n], trees[n + 1], xs[n]);
            assert(front.last() == trees[n]);
            assert(xs.map_values(|x: T| x.rank()) =~= xf.map_values(|x: T| x.rank()).push(
                xs[n].rank(),
            ));
            vstd::seq_lib::to_multiset_build(xf.map_values(|x: T| x.rank()), xs[n].rank());
        }
    }

    /// One removal takes exactly one node, and one occurrence of its rank, out
    /// of the tree; the node is no longer in it.
    pub proof fn lemma_removed_one(before: Self, after: Self, h: usize)
        requires
            before.wf(),
            Self::removed(before, after, h),
        ensures
            after.order().len() == before.order().len() - 1,
            !after.order().contains(h),
            after.ranks().to_multiset() == before.ranks().to_multiset().remove(
                before.value_of(h).rank(),
            ),
    {
        before.lemma_contains(h);
        let k = before.index_of(h);
        if after.order().contains(h) {
            let j = choose|j: int| 0 <= j < after.order().len() && after.order()[j] == h;
            let oj = if j < k {
                j
            } else {
                j + 1
            };
            before.lemma_at(oj);
        }
        assert(after.ranks() =~= before.ranks().remove(k)) by {
            assert forall|j: int| 0 <= j < after.ranks().len() implies after.ranks()[j]
                == before.ranks().remove(k)[j] by {
                assert(after.order().contains(after.order()[j]));
            }
        }
        vstd::seq_lib::to_multiset_remove(before.ranks(), k);
    }

    /// Neighbours: in a tree whose ranks are a strictly ascending `s`, the
    /// node of rank `s[i]` has the node of rank `s[i - 1]` before it and the
    /// node of rank `s[i + 1]` after it, and none past either end.
    pub proof fn lemma_neighbours(self, s: Seq<int>, h: usize, i: int)
        requires
            self.wf(),
            self.ranks() == s,
            forall|a: int, b: int| 0 <= a < b < s.len() ==> s[a] < s[b],
            0 <= i < s.len(),
            self.order().contains(h),
            self.value_of(h).rank() == s[i],
        ensures
            self.index_of(h) == i,
            self.prev_of(h) is Some <==> i > 0,
            self.next_of(h) is Some <==> i + 1 < s.len(),
            i > 0 ==> self.order().contains(self.prev_of(h)->Some_0) && self.value_of(
                self.prev_of(h)->Some_0,
            ).rank() == s[i - 1],
            i + 1 < s.len() ==> self.order().contains(self.next_of(h)->Some_0) && self.value_of(
                self.next_of(h)->Some_0,
            ).rank() == s[i + 1],
    {
        self.lemma_contains(h);
        let k = self.index_of(h);
        assert(s[k] == self.value_of(h).rank());
        if i > 0 {
            assert(self.order().contains(self.order()[i - 1]));
        }
        if i + 1 < s.len() {
            assert(self.order().contains(self.order()[i + 1]));
        }
    }
}

impl<T: Ranked> Default for BinaryTree<T> {
    /// An empty tree.
    fn default() -> (r: Self)
        ensures
            r.wf(),
            r.order() == Seq::<usize>::empty(),
    {
        BinaryTree::new()
    }
}

impl<T: Ranked> TreeNode<T> {
    /// The node of `tree` just before `node` in ascending order, if any.
    pub fn predecessor(tree: &BinaryTree<T>, node: usize) -> (r: Option<usize>)
        requires
            tree.wf(),
            tree.order().contains(node),
        ensures
            r == tree.prev_of(node),
    {
        tree.before(node)
    }

    /// The node of `tree` just after `node` in ascending order, if any.
    pub fn successor(tree: &BinaryTree<T>, node: usize) -> (r: Option<usize>)
        requires
            tree.wf(),
            tree.order().contains(node),
        ensures
            r == tree.next_of(node),
    {
        tree.after(node)
    }
}

/// A cursor over a tree's nodes in ascending order. Each call of
/// [`next`](Iter::next) hands out the node under the cursor and moves it to
/// that node's successor.
pub struct Iter {
    cursor: Option<usize>,
}

impl Iter {
    /// The node that the next call hands out.
    pub closed spec fn current(self) -> Option<usize> {
        self.cursor
    }

    /// Hands out the node under the cursor and moves on to its successor.
    pub fn next<T: Ranked>(&mut self, tree: &BinaryTree<T>) -> (r: Option<usize>)
        requires
            tree.wf(),
            match old(self).current() {
                Some(h) => tree.order().contains(h),
                None => true,
            },
        ensures
            r == old(self).current(),
            final(self).current() == match r {
                Some(h) => tree.next_of(h),
                None => None,
            },
            match final(self).current() {
                Some(h) => tree.order().contains(h),
                None => true,
            },
    {
        match self.cursor {
            None => None,
            Some(h) => {
                let following = TreeNode::successor(tree, h);
                self.cursor = following;
                proof {
                    tree.lemma_contains(h);
                    if let Some(g) = following {
                        tree.lemma_at(tree.pos@[h] + 1);
                    }
                }
                Some(h)
            },
        }
    }
}

} // verus!
