//! The tree itself: the order, an optional root, and the root-level steps
//! (growing by a level on a full root, shrinking by a level on an empty one).
use crate::key::KeyOrder;
use crate::node::{key_cap, max_keys, Node};
use vstd::prelude::*;

verus! {

/// Ways in which an operation on a tree is refused.
#[derive(Debug, PartialEq, Eq, Structural)]
pub enum BTreeError {
    /// A tree was asked for with an order below 3.
    InvalidOrder,
    /// A value was to be deleted from a tree that holds nothing.
    EmptyTree,
    /// A value was to be deleted that the tree does not hold.
    NotFound,
}

/// A B-tree of (Knuth) order `m`, at least 3: insertion splits each node it is about
/// to descend into that holds `m - 1` keys or more (at order 3, three or more).
pub struct BTree<T> {
    root: Option<Box<Node<T>>>,
    order: usize,
    height: Ghost<nat>,
}

impl<T: KeyOrder> View for BTree<T> {
    type V = Set<T::V>;

    /// The views of the keys that the tree holds.
    closed spec fn view(&self) -> Set<T::V> {
        match self.root {
            Some(r) => r.contents(),
            None => Set::empty(),
        }
    }
}

impl<T: KeyOrder> BTree<T> {
    /// The order the tree was made with.
    pub closed spec fn spec_order(&self) -> nat {
        self.order as nat
    }

    /// Whether the tree has a root node (it has none before the first insertion).
    pub closed spec fn has_root(&self) -> bool {
        self.root is Some
    }

    /// The number of levels below the root: 0 for a root that is a leaf (or no root).
    pub closed spec fn spec_height(&self) -> nat {
        match self.root {
            Some(r) => self.height@,
            None => 0,
        }
    }

    /// The views of the root's keys, in order (none without a root).
    pub closed spec fn root_keys(&self) -> Seq<T::V> {
        match self.root {
            Some(r) => r.keys@.map_values(|k: T| k@),
            None => Seq::empty(),
        }
    }

    /// Whether the root is a leaf (true without a root).
    pub closed spec fn root_is_leaf(&self) -> bool {
        match self.root {
            Some(r) => r.leaf,
            None => true,
        }
    }

    /// No node of the tree holds more than `k` keys.
    pub closed spec fn nodes_within(&self, k: nat) -> bool {
        match self.root {
            Some(r) => r.nodes_within(k),
            None => true,
        }
    }

    /// The tree's invariant: an order of at least 3; a root, if any, whose subtree is
    /// ordered with all leaves at one depth and every other node holding a permitted
    /// number of keys (see `count_ok`); a root holding at least one key where it is not
    /// a leaf, and at most `key_cap`.
    pub closed spec fn wf(&self) -> bool {
        &&& self.order >= 3
        &&& match self.root {
            Some(r) => {
                &&& r.shaped(self.order as nat, self.height@)
                &&& r.keys@.len() <= key_cap(self.order as nat)
                &&& !r.leaf ==> r.keys@.len() >= 1
            },
            None => true,
        }
    }

    /// An empty tree of order `m`.
    pub fn new(m: usize) -> (r: Self)
        requires
            m >= 3,
        ensures
            r.wf(),
            r.spec_order() == m,
            r@ == Set::<T::V>::empty(),
    {
        BTree { root: None, order: m, height: Ghost(0) }
    }

    /// An empty tree of order `m`, or `InvalidOrder` where `m` is below 3.
    pub fn try_new(m: usize) -> (r: Result<Self, BTreeError>)
        ensures
            m < 3 <==> r == Err::<Self, BTreeError>(BTreeError::InvalidOrder),
            r is Ok ==> r->Ok_0.wf() && r->Ok_0.spec_order() == m && r->Ok_0@ == Set::<T::V>::empty(),
    {
        if m < 3 {
            Err(BTreeError::InvalidOrder)
        } else {
            Ok(BTree::new(m))
        }
    }

    /// Whether the tree holds `value`: a walk down from the root, descending at each
    /// node into the child whose gap holds the value.
    fn find(&self, value: &T) -> (r: bool)
        requires
            self.wf(),
        ensures
            r == self@.contains(value@),
    {
        let mut node: &Node<T> = match &self.root {
            Some(r) => r,
            None => {
                return false;
            },
        };
        let ghost m = self.order as nat;
        let ghost mut h = self.height@;
        loop
            invariant
                node.shaped(m, h),
                self@.contains(value@) == node.has(value@),
            decreases h,
        {
            let (found, idx) = node.search(value);
            if found {
                assert(node.key(idx as int) == value@);
                return true;
            }
            if node.leaf {
                assert(!node.has(value@)) by {
                    assert forall|i: int| 0 <= i < node.keys@.len() implies #[trigger] node.key(i) != value@ by {
                        T::lemma_irreflexive(value@);
                    }
                }
                return false;
            }
            proof {
                node.lemma_descend(m, h, -1, value@, idx as int);
            }
            node = &node.children[idx];
            proof {
                h = (h - 1) as nat;
            }
        }
    }

    /// Whether the tree holds `value`.
    pub fn search(&self, value: T) -> (r: bool)
        requires
            self.wf(),
        ensures
            r == self@.contains(value@),
    {
        self.find(&value)
    }

    /// A new root with the old one as its only child: it holds what the old root held.
    proof fn lemma_lone_child(n: Node<T>, c: Node<T>, m: nat, h: nat)
        requires
            c.shaped(m, h),
            n.keys@.len() == 0,
            n.children@.len() == 1,
            n.children[0] == c,
            !n.leaf,
            n.order as nat == m,
        ensures
            n.shaped_except(m, h + 1, 0),
            n.contents() == c.contents(),
    {
        assert forall|x: T::V| n.has(x) <==> c.has(x) by {
            if c.has(x) {
                assert(n.children[0].has(x));
            }
        }
        assert(n.contents() =~= c.contents());
    }

    /// Adds `value` to the tree; a value already held leaves it as it was. A full root
    /// is split first (at order 3, once it overflows to three keys), which is the one
    /// step that makes the tree deeper.
    pub fn insert(&mut self, value: T)
        requires
            old(self).wf(),
        ensures
            final(self).wf(),
            final(self).spec_order() == old(self).spec_order(),
            final(self)@ == old(self)@.insert(value@),
            final(self).has_root(),
            final(self).spec_height() == old(self).spec_height() || (final(self).spec_height()
                == old(self).spec_height() + 1 && old(self).root_keys().len() >= max_keys(
                old(self).spec_order(),
            ) && final(self).root_keys().len() == 1 && !final(self).root_is_leaf()),
            old(self)@ == Set::<T::V>::empty() ==> final(self).root_is_leaf() && final(self).root_keys()
                == seq![value@],
            old(self).nodes_within(max_keys(old(self).spec_order())) ==> final(self).nodes_within(
                max_keys(old(self).spec_order()),
            ),
    {
        let m: usize = self.order;
        let ghost k = max_keys(m as nat);
        let ghost h = self.height@;
        let ghost vv = value@;
        match self.root.take() {
            None => {
                let mut keys: Vec<T> = Vec::new();
                keys.push(value);
                let node: Node<T> = Node { keys, children: Vec::new(), leaf: true, order: m };
                proof {
                    assert(node.has(vv)) by {
                        assert(node.key(0) == vv);
                    }
                    assert forall|x: T::V| node.has(x) <==> x == vv by {}
                    assert(node.contents() =~= Set::<T::V>::empty().insert(vv));
                }
                self.root = Some(Box::new(node));
                self.height = Ghost(0);
                assert(self.root_keys() =~= seq![vv]);
            },
            Some(mut root) => {
                let ghost old_root = *root;
                let max_before_split: usize = if m == 3 {
                    3
                } else {
                    m - 1
                };
                if root.keys.len() < max_before_split {
                    root.insert_non_full(value, Ghost(h));
                    proof {
                        if old(self)@ == Set::<T::V>::empty() {
                            if old_root.keys@.len() > 0 {
                                assert(old_root.has(old_root.key(0)));
                                assert(old(self)@.contains(old_root.key(0)));
                            }
                            assert(root.contents().contains(vv));
                            let i = choose|i: int| 0 <= i < root.keys@.len() && #[trigger] root.key(i) == vv;
                            assert(root.keys@.len() == 1);
                            assert(root.keys@.map_values(|x: T| x@) =~= seq![vv]);
                        }
                    }
                    if m == 3 && root.keys.len() == 3 {
                        let ghost full = *root;
                        let mut children: Vec<Box<Node<T>>> = Vec::new();
                        children.push(root);
                        let mut new_root: Node<T> = Node {
                            keys: Vec::new(),
                            children,
                            leaf: false,
                            order: m,
                        };
                        proof {
                            BTree::lemma_lone_child(new_root, full, m as nat, h);
                        }
                        let ghost before = new_root;
                        new_root.split_child(0, Ghost(h + 1));
                        proof {
                            if old_root.nodes_within(k) {
                                Node::lemma_split_within(before, new_root, 0, k);
                            }
                        }
                        self.root = Some(Box::new(new_root));
                        self.height = Ghost(h + 1);
                    } else {
                        self.root = Some(root);
                        assert(self.root_keys() =~= root.keys@.map_values(|x: T| x@));
                    }
                } else {
                    proof {
                        assert(old_root.has(old_root.key(0)));
                        assert(old(self)@.contains(old_root.key(0)));
                    }
                    let mut children: Vec<Box<Node<T>>> = Vec::new();
                    children.push(root);
                    let mut new_root: Node<T> = Node {
                        keys: Vec::new(),
                        children,
                        leaf: false,
                        order: m,
                    };
                    proof {
                        BTree::lemma_lone_child(new_root, old_root, m as nat, h);
                    }
                    let ghost before = new_root;
                    new_root.split_child(0, Ghost(h + 1));
                    proof {
                        if old_root.nodes_within(k) {
                            Node::lemma_split_within(before, new_root, 0, k);
                        }
                    }
                    new_root.insert_non_full(value, Ghost(h + 1));
                    self.root = Some(Box::new(new_root));
                    self.height = Ghost(h + 1);
                }
            },
        }
        assert(self@ =~= old(self)@.insert(vv));
    }

    /// Removes `value` from the tree. Fails with `EmptyTree` where the tree holds
    /// nothing and with `NotFound` where it does not hold `value`, leaving it as it was.
    /// A root left with no keys but one child is replaced by that child, which is the
    /// one step that makes the tree shallower.
    pub fn delete(&mut self, value: T) -> (r: Result<(), BTreeError>)
        requires
            old(self).wf(),
        ensures
            final(self).wf(),
            final(self).spec_order() == old(self).spec_order(),
            r == Err::<(), BTreeError>(BTreeError::EmptyTree) <==> old(self)@ == Set::<T::V>::empty(),
            r == Err::<(), BTreeError>(BTreeError::NotFound) <==> old(self)@ != Set::<T::V>::empty()
                && !old(self)@.contains(value@),
            r is Ok <==> old(self)@.contains(value@),
            r is Ok ==> final(self)@ == old(self)@.remove(value@),
            r is Err ==> *final(self) == *old(self),
            final(self).spec_height() == old(self).spec_height() || final(self).spec_height() + 1
                == old(self).spec_height(),
            final(self).has_root() ==> final(self).root_is_leaf() || final(self).root_keys().len() >= 1,
    {
        let ghost m = self.order as nat;
        let ghost h = self.height@;
        let ghost vv = value@;
        let empty: bool = match &self.root {
            None => true,
            Some(root) => root.keys.len() == 0,
        };
        if empty {
            proof {
                if self.root is Some {
                    let root = self.root->Some_0;
                    assert forall|x: T::V| !root.has(x) by {}
                }
                assert(self@ =~= Set::<T::V>::empty());
            }
            return Err(BTreeError::EmptyTree);
        }
        proof {
            let root = self.root->Some_0;
            assert(root.key(0) == root.keys@[0]@);
            assert(root.has(root.key(0)));
            assert(self@.contains(root.key(0)));
        }
        if !self.find(&value) {
            return Err(BTreeError::NotFound);
        }
        let mut root = self.root.take().unwrap();
        root.delete(&value, Ghost(h));
        if root.keys.len() == 0 && root.children.len() > 0 {
            let ghost old_root = *root;
            let child = root.children.remove(0);
            proof {
                assert(old_root.children[0] == child);
                assert(old_root.children[0].count_ok(m));
                assert forall|x: T::V| old_root.has(x) <==> child.has(x) by {
                    if child.has(x) {
                        assert(old_root.children[0].has(x));
                    }
                }
                assert(old_root.contents() =~= child.contents());
            }
            self.root = Some(child);
            self.height = Ghost((h - 1) as nat);
        } else {
            self.root = Some(root);
        }
        assert(self@ =~= old(self)@.remove(vv));
        Ok(())
    }

    /// The tree's keys in ascending order, each once.
    pub fn traverse(&self) -> (r: Vec<T>)
        requires
            self.wf(),
        ensures
            forall|i: int, j: int| 0 <= i < j < r@.len() ==> T::precedes(#[trigger] r@[i]@, #[trigger] r@[j]@),
            forall|i: int| 0 <= i < r@.len() ==> self@.contains(#[trigger] r@[i]@),
            forall|x: T::V| #[trigger] self@.contains(x) ==> exists|i: int| 0 <= i < r@.len() && #[trigger] r@[i]@ == x,
    {
        let mut out: Vec<T> = Vec::new();
        match &self.root {
            Some(root) => {
                root.traverse(&mut out, Ghost(self.order as nat), Ghost(self.height@));
            },
            None => {},
        }
        out
    }
}

impl<T: KeyOrder> BTree<T> {
    /// The invariant gives balance and bounds.
    proof fn lemma_balanced(&self)
        requires
            self.wf(),
        ensures
            self.balanced(),
            self.within_bounds(),
    {
        if self.root is Some {
            let r = self.root->Some_0;
            r.lemma_shaped_is_balanced(self.order as nat, self.height@);
            assert(r.leaves_at_depth(self.height@));
        }
    }

    /// All leaves lie at one depth below the root.
    pub closed spec fn balanced(&self) -> bool {
        match self.root {
            Some(r) => exists|d: nat| r.leaves_at_depth(d),
            None => true,
        }
    }

    /// Every internal node has one child more than it has keys; every node but the root
    /// holds at least `min_keys` keys; an internal root holds at least one key; and no
    /// node holds more than `key_cap` keys.
    pub closed spec fn within_bounds(&self) -> bool {
        match self.root {
            Some(r) => {
                &&& r.counts_within_bounds(self.order as nat)
                &&& !r.leaf ==> r.keys@.len() >= 1
                &&& r.keys@.len() <= key_cap(self.order as nat)
            },
            None => true,
        }
    }
}

/// A tree that satisfies its invariant (as every operation leaves it) has all its leaves
/// at one depth and every node within the bounds on its number of keys and children.
pub proof fn law_balanced<T: KeyOrder>(t: &BTree<T>)
    requires
        t.wf(),
    ensures
        t.balanced(),
        t.within_bounds(),
{
    t.lemma_balanced();
}

/// Inserting values one after another into an empty tree gives a tree that holds exactly
/// those values: `search` answers true for each of them and false for any other value.
pub proof fn law_search_after_inserts<T: KeyOrder>(trees: Seq<BTree<T>>, vals: Seq<T>)
    requires
        trees.len() == vals.len() + 1,
        trees[0]@ == Set::<T::V>::empty(),
        forall|i: int| 0 <= i < vals.len() ==> trees[i + 1]@ == #[trigger] trees[i]@.insert(vals[i]@),
    ensures
        forall|w: T::V|
            trees.last()@.contains(w) <==> exists|i: int| 0 <= i < vals.len() && #[trigger] vals[i]@ == w,
{
    lemma_inserted_prefix(trees, vals, vals.len() as int);
}

proof fn lemma_inserted_prefix<T: KeyOrder>(trees: Seq<BTree<T>>, vals: Seq<T>, n: int)
    requires
        trees.len() == vals.len() + 1,
        0 <= n <= vals.len(),
        trees[0]@ == Set::<T::V>::empty(),
        forall|i: int| 0 <= i < vals.len() ==> trees[i + 1]@ == #[trigger] trees[i]@.insert(vals[i]@),
    ensures
        forall|w: T::V| trees[n]@.contains(w) <==> exists|i: int| 0 <= i < n && #[trigger] vals[i]@ == w,
    decreases n,
{
    if n > 0 {
        lemma_inserted_prefix(trees, vals, n - 1);
        assert(trees[n]@ == trees[n - 1]@.insert(vals[n - 1]@));
        assert forall|w: T::V| trees[n]@.contains(w) <==> exists|i: int| 0 <= i < n && #[trigger] vals[i]@ == w by {
            if trees[n]@.contains(w) && w != vals[n - 1]@ {
                let i = choose|i: int| 0 <= i < n - 1 && #[trigger] vals[i]@ == w;
            }
            if exists|i: int| 0 <= i < n && #[trigger] vals[i]@ == w {
                let i = choose|i: int| 0 <= i < n && #[trigger] vals[i]@ == w;
                if i < n - 1 {
                    assert(trees[n - 1]@.contains(w));
                }
            }
        }
    }
}

/// Inserting a value that a tree does not hold and then deleting it (which succeeds,
/// the value being present) leaves the tree holding exactly what it held before, so
/// every search answers as it did.
pub proof fn law_insert_then_delete<T: KeyOrder>(t0: BTree<T>, t1: BTree<T>, t2: BTree<T>, v: T)
    requires
        !t0@.contains(v@),
        t1@ == t0@.insert(v@),
        t2@ == t1@.remove(v@),
    ensures
        t1@.contains(v@),
        t2@ == t0@,
{
    assert(t2@ =~= t0@);
}

/// Deleting values one after another, in any order (a delete of a value not held leaves
/// the tree as it was), leaves none of them in the tree; deleting every value the tree
/// held leaves it empty; and where the values are distinct and all held at the start,
/// each is still held when its turn comes, so every delete succeeds.
pub proof fn law_delete_all<T: KeyOrder>(trees: Seq<BTree<T>>, vals: Seq<T>)
    requires
        trees.len() == vals.len() + 1,
        forall|i: int| 0 <= i < vals.len() ==> trees[i + 1]@ == #[trigger] trees[i]@.remove(vals[i]@),
    ensures
        forall|i: int| 0 <= i < vals.len() ==> !trees.last()@.contains(#[trigger] vals[i]@),
        (forall|w: T::V| trees[0]@.contains(w) ==> exists|i: int| 0 <= i < vals.len() && #[trigger] vals[i]@ == w)
            ==> trees.last()@ == Set::<T::V>::empty(),
        (forall|i: int, j: int| 0 <= i < j < vals.len() ==> vals[i]@ != vals[j]@) && (forall|i: int|
            0 <= i < vals.len() ==> trees[0]@.contains(#[trigger] vals[i]@)) ==> forall|i: int|
            0 <= i < vals.len() ==> trees[i]@.contains(#[trigger] vals[i]@),
{
    lemma_deleted_prefix(trees, vals, vals.len() as int);
    if (forall|i: int, j: int| 0 <= i < j < vals.len() ==> vals[i]@ != vals[j]@) && (forall|i: int|
        0 <= i < vals.len() ==> trees[0]@.contains(#[trigger] vals[i]@)) {
        assert forall|i: int| 0 <= i < vals.len() implies trees[i]@.contains(#[trigger] vals[i]@) by {
            lemma_deleted_prefix(trees, vals, i);
            if exists|j: int| 0 <= j < i && #[trigger] vals[j]@ == vals[i]@ {
                let j = choose|j: int| 0 <= j < i && #[trigger] vals[j]@ == vals[i]@;
                assert(vals[j]@ != vals[i]@);
            }
        }
    }
    if forall|w: T::V| trees[0]@.contains(w) ==> exists|i: int| 0 <= i < vals.len() && #[trigger] vals[i]@ == w {
        assert forall|w: T::V| !trees.last()@.contains(w) by {
            if trees.last()@.contains(w) {
                assert(trees[0]@.contains(w));
                let i = choose|i: int| 0 <= i < vals.len() && #[trigger] vals[i]@ == w;
            }
        }
        assert(trees.last()@ =~= Set::<T::V>::empty());
    }
}

proof fn lemma_deleted_prefix<T: KeyOrder>(trees: Seq<BTree<T>>, vals: Seq<T>, n: int)
    requires
        trees.len() == vals.len() + 1,
        0 <= n <= vals.len(),
        forall|i: int| 0 <= i < vals.len() ==> trees[i + 1]@ == #[trigger] trees[i]@.remove(vals[i]@),
    ensures
        forall|w: T::V|
            trees[n]@.contains(w) <==> trees[0]@.contains(w) && !exists|i: int| 0 <= i < n && #[trigger] vals[i]@ == w,
        forall|i: int| 0 <= i < n ==> !trees[n]@.contains(#[trigger] vals[i]@),
    decreases n,
{
    if n > 0 {
        lemma_deleted_prefix(trees, vals, n - 1);
        assert(trees[n]@ == trees[n - 1]@.remove(vals[n - 1]@));
        assert forall|w: T::V|
            trees[n]@.contains(w) <==> trees[0]@.contains(w) && !exists|i: int| 0 <= i < n && #[trigger] vals[i]@ == w by {
            if exists|i: int| 0 <= i < n && #[trigger] vals[i]@ == w {
                let i = choose|i: int| 0 <= i < n && #[trigger] vals[i]@ == w;
                if i < n - 1 {
                    assert(!trees[n - 1]@.contains(w));
                }
            }
        }
        assert forall|i: int| 0 <= i < n implies !trees[n]@.contains(#[trigger] vals[i]@) by {
            if i < n - 1 {
                assert(!trees[n - 1]@.contains(vals[i]@));
            }
        }
    }
}

} // verus!
