//! Nodes of the tree: the ordering and balance invariant, and the node-level
//! algorithms (search, splitting insertion, deletion with rotation and merge).
use crate::key::{lemma_precedes_asymmetric, lemma_precedes_transitive, KeyOrder};
use core::cmp::Ordering;
use vstd::prelude::*;

verus! {

broadcast use {lemma_precedes_transitive, lemma_precedes_asymmetric};

/// A node: sorted keys and, unless it is a leaf, one more child than keys.
pub struct Node<T> {
    pub keys: Vec<T>,
    pub children: Vec<Box<Node<T>>>,
    pub leaf: bool,
    pub order: usize,
}

/// The fewest keys that a node other than the root holds between operations.
pub open spec fn min_keys(m: nat) -> nat {
    if m == 3 {
        1
    } else {
        ((m - 2) as nat) / 2
    }
}

/// The most keys that a node holds between operations: one less than the order.
pub open spec fn max_keys(m: nat) -> nat {
    (m - 1) as nat
}

/// The most keys any node holds between operations: `max_keys`, or at an odd order
/// one more, which a merge during deletion may leave (two children of `max_keys / 2`
/// keys and the key between them). Such a node is split before insertion descends
/// into it.
pub open spec fn key_cap(m: nat) -> nat {
    if m % 2 == 0 {
        max_keys(m)
    } else {
        m
    }
}

/// How many keys a child holds when insertion, about to descend into it, may have to
/// split it (before descending or, at order 3, right after).
pub open spec fn split_threshold(m: nat) -> nat {
    if m == 3 {
        2
    } else {
        max_keys(m)
    }
}

/// The fewest keys a node must hold to give one away: one more than half the maximum.
pub open spec fn surplus_keys(m: nat) -> nat {
    max_keys(m) / 2 + 1
}

impl<T: KeyOrder> Node<T> {
    /// The view of the key at position `i`.
    pub open spec fn key(self, i: int) -> T::V {
        self.keys@[i]@
    }

    /// The keys are strictly ascending.
    pub open spec fn keys_sorted(self) -> bool {
        forall|i: int, j: int|
            0 <= i < j < self.keys@.len() ==> T::precedes(#[trigger] self.key(i), #[trigger] self.key(j))
    }

    /// The subtree rooted here holds a key with view `v`.
    pub open spec fn has(self, v: T::V) -> bool
        decreases self,
    {
        (exists|i: int| 0 <= i < self.keys@.len() && #[trigger] self.key(i) == v) || (exists|i: int|
            0 <= i < self.children@.len() && (#[trigger] self.children[i]).has(v))
    }

    /// The views of all keys in the subtree.
    pub open spec fn contents(self) -> Set<T::V> {
        Set::new(|v: T::V| self.has(v))
    }

    /// Every key below child `i` lies strictly between the keys on either side of it.
    pub open spec fn child_separated(self, i: int) -> bool {
        forall|v: T::V|
            #[trigger] self.children[i].has(v) ==> (i > 0 ==> T::precedes(self.key(i - 1), v)) && (i
                < self.keys@.len() ==> T::precedes(v, self.key(i)))
    }

    /// The node holds as many keys as a node other than the root may: at least
    /// `min_keys` and at most `key_cap`.
    pub open spec fn count_ok(self, m: nat) -> bool {
        min_keys(m) <= self.keys@.len() <= key_cap(m)
    }

    /// The subtree is ordered, every node in it has order `m`, every leaf in it lies
    /// `h` levels down, and every node below this one holds a permitted number of keys,
    /// except perhaps child `skip` of this node.
    pub open spec fn shaped_except(self, m: nat, h: nat, skip: int) -> bool
        decreases self,
    {
        &&& m >= 3
        &&& self.order as nat == m
        &&& self.keys_sorted()
        &&& (self.leaf <==> h == 0)
        &&& if self.leaf {
            self.children@.len() == 0
        } else {
            &&& self.children@.len() == self.keys@.len() + 1
            &&& forall|i: int|
                0 <= i < self.children@.len() ==> {
                    &&& (#[trigger] self.children[i]).shaped_except(m, (h - 1) as nat, -1)
                    &&& self.child_separated(i)
                    &&& i != skip ==> self.children[i].count_ok(m)
                }
        }
    }

    /// `shaped_except` with no exception.
    pub open spec fn shaped(self, m: nat, h: nat) -> bool {
        self.shaped_except(m, h, -1)
    }

    /// Binary search over the keys: whether `value` is a key here, and either its
    /// position or the position of the first key after it.
    pub fn binary_search(&self, value: &T) -> (r: (bool, usize))
        requires
            self.keys_sorted(),
        ensures
            r.1 <= self.keys@.len(),
            r.0 ==> r.1 < self.keys@.len() && self.key(r.1 as int) == value@,
            !r.0 ==> forall|i: int|
                0 <= i < self.keys@.len() ==> (i < r.1 ==> T::precedes(#[trigger] self.key(i), value@))
                    && (i >= r.1 ==> T::precedes(value@, self.key(i))),
    {
        let mut left: usize = 0;
        let mut right: usize = self.keys.len();
        while left < right
            invariant
                self.keys_sorted(),
                left <= right <= self.keys@.len(),
                forall|i: int| 0 <= i < left ==> T::precedes(#[trigger] self.key(i), value@),
                forall|i: int| right <= i < self.keys@.len() ==> T::precedes(value@, #[trigger] self.key(i)),
            decreases right - left,
        {
            let mid: usize = left + (right - left) / 2;
            match self.keys[mid].compare(value) {
                Ordering::Equal => {
                    return (true, mid);
                },
                Ordering::Less => {
                    assert forall|i: int| 0 <= i < mid + 1 implies T::precedes(#[trigger] self.key(i), value@) by {
                        if i < mid {
                            T::lemma_transitive(self.key(i), self.key(mid as int), value@);
                        }
                    }
                    left = mid + 1;
                },
                Ordering::Greater => {
                    assert forall|i: int| mid <= i < self.keys@.len() implies T::precedes(value@, #[trigger] self.key(i)) by {
                        if i > mid {
                            T::lemma_transitive(value@, self.key(mid as int), self.key(i));
                        }
                    }
                    right = mid;
                },
            }
        }
        (false, left)
    }

    /// Where `value` stands among this node's keys (see `binary_search`).
    pub fn search(&self, value: &T) -> (r: (bool, usize))
        requires
            self.keys_sorted(),
        ensures
            r.1 <= self.keys@.len(),
            r.0 ==> r.1 < self.keys@.len() && self.key(r.1 as int) == value@,
            !r.0 ==> forall|i: int|
                0 <= i < self.keys@.len() ==> (i < r.1 ==> T::precedes(#[trigger] self.key(i), value@))
                    && (i >= r.1 ==> T::precedes(value@, self.key(i))),
    {
        let (found, idx) = self.binary_search(value);
        (found, idx)
    }

    /// A value that is not a key of an internal node, and falls before key `idx` and
    /// after the one before it, is in the subtree exactly when it is in child `idx`.
    pub proof fn lemma_descend(self, m: nat, h: nat, skip: int, v: T::V, idx: int)
        requires
            self.shaped_except(m, h, skip),
            !self.leaf,
            0 <= idx <= self.keys@.len(),
            forall|i: int|
                0 <= i < self.keys@.len() ==> (i < idx ==> T::precedes(#[trigger] self.key(i), v)) && (i
                    >= idx ==> T::precedes(v, self.key(i))),
        ensures
            self.has(v) == self.children[idx].has(v),
            !(exists|i: int| 0 <= i < self.keys@.len() && #[trigger] self.key(i) == v),
            forall|j: int| 0 <= j < self.children@.len() && j != idx ==> !(#[trigger] self.children[j]).has(v),
    {
        assert forall|j: int| 0 <= j < self.children@.len() && j != idx implies !(
        #[trigger] self.children[j]).has(v) by {
            assert(self.child_separated(j));
            if self.children[j].has(v) {
                if j < idx {
                    assert(T::precedes(v, self.key(j)));
                    assert(T::precedes(self.key(j), v));
                } else {
                    assert(T::precedes(self.key(j - 1), v));
                    assert(T::precedes(v, self.key(j - 1)));
                }
            }
        }
        assert(self.children[idx] == self.children@[idx]);
        if self.children[idx].has(v) {
            assert(self.has(v));
        }
    }
}


impl<T: KeyOrder> Node<T> {
    /// A node that keeps keys `lo..hi` and children `lo..=hi` of `n` (none for a leaf)
    /// holds exactly what those keys and children hold.
    pub proof fn lemma_has_slice(n: Node<T>, part: Node<T>, lo: int, hi: int, v: T::V)
        requires
            0 <= lo <= hi <= n.keys@.len(),
            part.keys@ == n.keys@.subrange(lo, hi),
            n.leaf ==> part.children@.len() == 0 && n.children@.len() == 0,
            !n.leaf ==> n.children@.len() == n.keys@.len() + 1 && part.children@ == n.children@.subrange(
                lo,
                hi + 1,
            ),
        ensures
            part.has(v) <==> (exists|i: int| lo <= i < hi && #[trigger] n.key(i) == v) || (!n.leaf
                && exists|i: int| lo <= i <= hi && (#[trigger] n.children[i]).has(v)),
    {
        if part.has(v) {
            if exists|i: int| 0 <= i < part.keys@.len() && #[trigger] part.key(i) == v {
                let i = choose|i: int| 0 <= i < part.keys@.len() && #[trigger] part.key(i) == v;
                assert(n.key(lo + i) == v);
            } else {
                let i = choose|i: int| 0 <= i < part.children@.len() && (#[trigger] part.children[i]).has(v);
                assert(n.children[lo + i] == part.children[i]);
            }
        }
        if exists|i: int| lo <= i < hi && #[trigger] n.key(i) == v {
            let i = choose|i: int| lo <= i < hi && #[trigger] n.key(i) == v;
            assert(part.key(i - lo) == v);
        }
        if !n.leaf && exists|i: int| lo <= i <= hi && (#[trigger] n.children[i]).has(v) {
            let i = choose|i: int| lo <= i <= hi && (#[trigger] n.children[i]).has(v);
            assert(part.children[i - lo] == n.children[i]);
        }
    }

    /// Splitting `c` at key `mid` into `l` (keys and children before it) and `r` (keys
    /// and children after it) gives two ordered halves, on either side of the middle key,
    /// that hold with it what `c` held.
    pub proof fn lemma_split_halves(c: Node<T>, l: Node<T>, r: Node<T>, mid: int, m: nat, h: nat)
        requires
            c.shaped(m, h),
            0 <= mid < c.keys@.len(),
            l.keys@ == c.keys@.subrange(0, mid),
            r.keys@ == c.keys@.subrange(mid + 1, c.keys@.len() as int),
            l.leaf == c.leaf && r.leaf == c.leaf,
            l.order == c.order && r.order == c.order,
            c.leaf ==> l.children@.len() == 0 && r.children@.len() == 0,
            !c.leaf ==> l.children@ == c.children@.subrange(0, mid + 1),
            !c.leaf ==> r.children@ == c.children@.subrange(mid + 1, c.children@.len() as int),
        ensures
            l.shaped(m, h),
            r.shaped(m, h),
            c.has(c.key(mid)),
            forall|v: T::V| c.has(v) <==> l.has(v) || r.has(v) || v == c.key(mid),
            forall|v: T::V| #[trigger] l.has(v) ==> T::precedes(v, c.key(mid)),
            forall|v: T::V| #[trigger] r.has(v) ==> T::precedes(c.key(mid), v),
    {
        let mk = c.key(mid);
        assert forall|v: T::V| c.has(v) <==> l.has(v) || r.has(v) || v == mk by {
            Node::lemma_has_slice(c, l, 0, mid, v);
            Node::lemma_has_slice(c, r, mid + 1, c.keys@.len() as int, v);
            if c.has(v) {
                if exists|i: int| 0 <= i < c.keys@.len() && #[trigger] c.key(i) == v {
                    let i = choose|i: int| 0 <= i < c.keys@.len() && #[trigger] c.key(i) == v;
                    if i < mid {
                    } else if i > mid {
                    } else {
                    }
                }
            }
        }
        assert forall|i: int, j: int| 0 <= i < j < l.keys@.len() implies T::precedes(
            #[trigger] l.key(i),
            #[trigger] l.key(j),
        ) by {
            assert(l.key(i) == c.key(i));
            assert(l.key(j) == c.key(j));
        }
        assert forall|i: int, j: int| 0 <= i < j < r.keys@.len() implies T::precedes(
            #[trigger] r.key(i),
            #[trigger] r.key(j),
        ) by {
            assert(r.key(i) == c.key(mid + 1 + i));
            assert(r.key(j) == c.key(mid + 1 + j));
        }
        if !c.leaf {
            assert forall|i: int| 0 <= i < l.children@.len() implies {
                &&& (#[trigger] l.children[i]).shaped_except(m, (h - 1) as nat, -1)
                &&& l.child_separated(i)
                &&& i != -1 ==> l.children[i].count_ok(m)
            } by {
                assert(l.children[i] == c.children[i]);
                assert(c.child_separated(i));
            }
            assert forall|i: int| 0 <= i < r.children@.len() implies {
                &&& (#[trigger] r.children[i]).shaped_except(m, (h - 1) as nat, -1)
                &&& r.child_separated(i)
                &&& i != -1 ==> r.children[i].count_ok(m)
            } by {
                assert(r.children[i] == c.children[mid + 1 + i]);
                assert(c.child_separated(mid + 1 + i));
            }
        }
        assert forall|v: T::V| #[trigger] l.has(v) implies T::precedes(v, mk) by {
            Node::lemma_has_slice(c, l, 0, mid, v);
            if exists|i: int| 0 <= i < mid && #[trigger] c.key(i) == v {
            } else {
                let i = choose|i: int| 0 <= i <= mid && (#[trigger] c.children[i]).has(v);
                assert(c.child_separated(i));
            }
        }
        assert forall|v: T::V| #[trigger] r.has(v) implies T::precedes(mk, v) by {
            Node::lemma_has_slice(c, r, mid + 1, c.keys@.len() as int, v);
            if exists|i: int| mid + 1 <= i < c.keys@.len() && #[trigger] c.key(i) == v {
            } else {
                let i = choose|i: int| mid + 1 <= i <= c.keys@.len() && (#[trigger] c.children[i]).has(v);
                assert(c.child_separated(i));
            }
        }
    }

    /// Replacing child `ci` of `old` by the halves `l` and `r` of a split, with the middle
    /// key `mk` between them, keeps the node shaped and its contents unchanged.
    pub proof fn lemma_split_parent(
        old: Node<T>,
        s: Node<T>,
        ci: int,
        l: Node<T>,
        r: Node<T>,
        mk: T::V,
        m: nat,
        h: nat,
    )
        requires
            old.shaped_except(m, h, ci),
            !old.leaf,
            0 <= ci < old.children@.len(),
            l.shaped(m, (h - 1) as nat),
            r.shaped(m, (h - 1) as nat),
            l.count_ok(m),
            r.count_ok(m),
            old.children[ci].has(mk),
            forall|v: T::V| old.children[ci].has(v) <==> l.has(v) || r.has(v) || v == mk,
            forall|v: T::V| #[trigger] l.has(v) ==> T::precedes(v, mk),
            forall|v: T::V| #[trigger] r.has(v) ==> T::precedes(mk, v),
            s.leaf == old.leaf,
            s.order == old.order,
            s.keys@ == old.keys@.insert(ci, s.keys@[ci]),
            s.key(ci) == mk,
            s.children@.len() == old.children@.len() + 1,
            forall|i: int| 0 <= i < ci ==> s.children[i] == old.children[i],
            forall|i: int| ci + 1 < i < s.children@.len() ==> s.children[i] == old.children[i - 1],
            s.children[ci] == l,
            s.children[ci + 1] == r,
        ensures
            s.shaped(m, h),
            s.contents() == old.contents(),
    {
        assert(old.child_separated(ci));
        assert forall|i: int| 0 <= i < s.children@.len() implies {
            &&& (#[trigger] s.children[i]).shaped_except(m, (h - 1) as nat, -1)
            &&& s.child_separated(i)
            &&& i != -1 ==> s.children[i].count_ok(m)
        } by {
            if i < ci {
                assert(old.child_separated(i));
            } else if i > ci + 1 {
                assert(old.child_separated(i - 1));
            }
        }
        assert forall|i: int, j: int| 0 <= i < j < s.keys@.len() implies T::precedes(
            #[trigger] s.key(i),
            #[trigger] s.key(j),
        ) by {
            if i == ci {
                assert(s.key(j) == old.key(j - 1));
                assert(T::precedes(mk, old.key(ci)));
                if j - 1 > ci {
                    assert(T::precedes(old.key(ci), old.key(j - 1)));
                }
            } else if j == ci {
                assert(s.key(i) == old.key(i));
                assert(T::precedes(old.key(ci - 1), mk));
                if i < ci - 1 {
                    assert(T::precedes(old.key(i), old.key(ci - 1)));
                }
            } else if j < ci {
                assert(s.key(i) == old.key(i));
                assert(s.key(j) == old.key(j));
            } else if i > ci {
                assert(s.key(i) == old.key(i - 1));
                assert(s.key(j) == old.key(j - 1));
            } else {
                assert(s.key(i) == old.key(i));
                assert(s.key(j) == old.key(j - 1));
            }
        }
        assert forall|v: T::V| s.has(v) <==> old.has(v) by {
            if s.has(v) {
                if exists|i: int| 0 <= i < s.keys@.len() && #[trigger] s.key(i) == v {
                    let i = choose|i: int| 0 <= i < s.keys@.len() && #[trigger] s.key(i) == v;
                    if i < ci {
                        assert(old.key(i) == v);
                    } else if i > ci {
                        assert(old.key(i - 1) == v);
                    } else {
                        assert(old.children[ci].has(v));
                    }
                } else {
                    let i = choose|i: int| 0 <= i < s.children@.len() && (#[trigger] s.children[i]).has(v);
                    if i < ci {
                        assert(old.children[i].has(v));
                    } else if i > ci + 1 {
                        assert(old.children[i - 1].has(v));
                    } else {
                        assert(old.children[ci].has(v));
                    }
                }
            }
            if old.has(v) {
                if exists|i: int| 0 <= i < old.keys@.len() && #[trigger] old.key(i) == v {
                    let i = choose|i: int| 0 <= i < old.keys@.len() && #[trigger] old.key(i) == v;
                    if i < ci {
                        assert(s.key(i) == v);
                    } else {
                        assert(s.key(i + 1) == v);
                    }
                } else {
                    let i = choose|i: int| 0 <= i < old.children@.len() && (#[trigger] old.children[i]).has(v);
                    if i < ci {
                        assert(s.children[i].has(v));
                    } else if i > ci {
                        assert(s.children[i + 1].has(v));
                    } else if l.has(v) {
                        assert(s.children[ci].has(v));
                    } else if r.has(v) {
                        assert(s.children[ci + 1].has(v));
                    } else {
                        assert(s.key(ci) == v);
                    }
                }
            }
        }
        assert(s.contents() =~= old.contents());
    }

    /// Splits child `child_idx`, which holds at least `max_keys` keys (three at order 3):
    /// its middle key moves up to position `child_idx` here, and the keys and children after
    /// it move to a new node at child position `child_idx + 1`.
    pub fn split_child(&mut self, child_idx: usize, Ghost(h): Ghost<nat>)
        requires
            old(self).shaped_except(old(self).order as nat, h, child_idx as int),
            !old(self).leaf,
            child_idx < old(self).children@.len(),
            old(self).order > 3 ==> old(self).children[child_idx as int].keys@.len() >= max_keys(old(self).order as nat),
            old(self).order == 3 ==> old(self).children[child_idx as int].keys@.len() >= 3,
            old(self).children[child_idx as int].keys@.len() <= key_cap(old(self).order as nat),
        ensures
            final(self).shaped(old(self).order as nat, h),
            final(self).order == old(self).order,
            !final(self).leaf,
            final(self).contents() == old(self).contents(),
            final(self).keys@ == old(self).keys@.insert(
                child_idx as int,
                final(self).keys@[child_idx as int],
            ),
            final(self).children[child_idx as int].keys@.len() == old(self).children[child_idx as int].keys@.len() / 2,
            final(self).children[child_idx as int + 1].keys@.len() == old(self).children[child_idx as int].keys@.len() - old(self).children[child_idx as int].keys@.len() / 2 - 1,
            ({
                let c = old(self).children[child_idx as int];
                let mid = (c.keys@.len() / 2) as int;
                let l = final(self).children[child_idx as int];
                let r = final(self).children[child_idx + 1];
                &&& final(self).keys@ == old(self).keys@.insert(child_idx as int, c.keys@[mid as int])
                &&& final(self).children@.len() == old(self).children@.len() + 1
                &&& l.keys@ == c.keys@.subrange(0, mid as int)
                &&& r.keys@ == c.keys@.subrange(mid + 1, c.keys@.len() as int)
                &&& l.leaf == c.leaf && r.leaf == c.leaf && l.order == c.order && r.order == c.order
                &&& c.leaf ==> l.children@.len() == 0 && r.children@.len() == 0
                &&& !c.leaf ==> l.children@ == c.children@.subrange(0, mid + 1)
                &&& !c.leaf ==> r.children@ == c.children@.subrange(mid + 1, c.children@.len() as int)
            }),
            forall|j: int| 0 <= j < child_idx ==> final(self).children[j] == old(self).children[j],
            forall|j: int|
                child_idx + 1 < j < final(self).children@.len() ==> final(self).children[j] == old(self).children[j - 1],
    {
        let ghost m = self.order as nat;
        let ghost old_self = *self;
        assert(self.children.len() == self.children@.len());
        let right_idx: usize = child_idx + 1;
        let mut child = self.children.remove(child_idx);
        let ghost c = *child;
        assert(old_self.children[child_idx as int] == child);
        assert(c.shaped(m, (h - 1) as nat));
        let mid: usize = child.keys.len() / 2;
        let right_keys: Vec<T> = child.keys.split_off(mid + 1);
        let middle_key = child.keys.pop().unwrap();
        let right_children: Vec<Box<Node<T>>> = if child.leaf {
            Vec::new()
        } else {
            child.children.split_off(mid + 1)
        };
        let new_node: Node<T> = Node {
            keys: right_keys,
            children: right_children,
            leaf: child.leaf,
            order: child.order,
        };
        let ghost l = *child;
        let ghost r = new_node;
        proof {
            assert(middle_key@ == c.key(mid as int));
            assert(l.keys@ == c.keys@.subrange(0, mid as int));
            assert(!c.leaf ==> l.children@ == c.children@.subrange(0, mid + 1));
            Node::lemma_split_halves(c, l, r, mid as int, m, (h - 1) as nat);
        }
        self.keys.insert(child_idx, middle_key);
        self.children.insert(child_idx, child);
        self.children.insert(right_idx, Box::new(new_node));
        proof {
            Node::lemma_split_parent(old_self, *self, child_idx as int, l, r, middle_key@, m, h);
            assert(self.keys@ =~= old_self.keys@.insert(child_idx as int, c.keys@[mid as int]));
        }
    }
}

impl<T: KeyOrder> Node<T> {
    /// Whether `v` falls in the gap of child `ci`: after the key before it, before the key after it.
    pub open spec fn in_gap(self, v: T::V, ci: int) -> bool {
        forall|i: int|
            0 <= i < self.keys@.len() ==> (i < ci ==> T::precedes(#[trigger] self.key(i), v)) && (i
                >= ci ==> T::precedes(v, self.key(i)))
    }

    /// A shaped node is shaped with any one child exempt from the key-count bounds.
    pub proof fn lemma_relax(self, m: nat, h: nat, k: int)
        requires
            self.shaped(m, h),
        ensures
            self.shaped_except(m, h, k),
    {
    }

    /// Replacing child `ci` by `c2`, which differs from it at most in whether it holds
    /// `v`, a value in the gap of `ci`, keeps the node shaped (but for the count of
    /// child `ci`), and changes what it holds at most at `v`.
    pub proof fn lemma_replace_child(old: Node<T>, s: Node<T>, ci: int, c2: Node<T>, v: T::V, m: nat, h: nat)
        requires
            old.shaped_except(m, h, ci),
            !old.leaf,
            0 <= ci < old.children@.len(),
            old.in_gap(v, ci),
            c2.shaped(m, (h - 1) as nat),
            forall|x: T::V| x != v ==> (c2.has(x) <==> old.children[ci].has(x)),
            s.keys@ == old.keys@,
            s.leaf == old.leaf,
            s.order == old.order,
            s.children@.len() == old.children@.len(),
            s.children[ci] == c2,
            forall|j: int| 0 <= j < s.children@.len() && j != ci ==> s.children[j] == old.children[j],
        ensures
            s.shaped_except(m, h, ci),
            c2.count_ok(m) ==> s.shaped(m, h),
            forall|x: T::V| x != v ==> (s.has(x) <==> old.has(x)),
            s.has(v) <==> c2.has(v),
    {
        old.lemma_descend(m, h, ci, v, ci);
        assert(old.child_separated(ci));
        assert(s.key(0) == old.key(0));
        assert forall|i: int| 0 <= i < s.children@.len() implies {
            &&& (#[trigger] s.children[i]).shaped_except(m, (h - 1) as nat, -1)
            &&& s.child_separated(i)
            &&& i != ci ==> s.children[i].count_ok(m)
        } by {
            assert(old.child_separated(i));
            assert(s.key(i) == old.key(i));
            if i > 0 {
                assert(s.key(i - 1) == old.key(i - 1));
            }
            if i == ci {
                assert forall|x: T::V| #[trigger] s.children[i].has(x) implies (i > 0 ==> T::precedes(
                    s.key(i - 1),
                    x,
                )) && (i < s.keys@.len() ==> T::precedes(x, s.key(i))) by {
                    if x != v {
                        assert(old.children[ci].has(x));
                    }
                }
            }
        }
        assert(s.keys_sorted()) by {
            assert forall|i: int, j: int| 0 <= i < j < s.keys@.len() implies T::precedes(
                #[trigger] s.key(i),
                #[trigger] s.key(j),
            ) by {
                assert(s.key(i) == old.key(i));
                assert(s.key(j) == old.key(j));
            }
        }
        assert forall|x: T::V| x != v implies (s.has(x) <==> old.has(x)) by {
            if s.has(x) {
                if exists|i: int| 0 <= i < s.keys@.len() && #[trigger] s.key(i) == x {
                    let i = choose|i: int| 0 <= i < s.keys@.len() && #[trigger] s.key(i) == x;
                    assert(old.key(i) == x);
                } else {
                    let i = choose|i: int| 0 <= i < s.children@.len() && (#[trigger] s.children[i]).has(x);
                    assert(old.children[i].has(x));
                }
            }
            if old.has(x) {
                if exists|i: int| 0 <= i < old.keys@.len() && #[trigger] old.key(i) == x {
                    let i = choose|i: int| 0 <= i < old.keys@.len() && #[trigger] old.key(i) == x;
                    assert(s.key(i) == x);
                } else {
                    let i = choose|i: int| 0 <= i < old.children@.len() && (#[trigger] old.children[i]).has(x);
                    assert(s.children[i].has(x));
                }
            }
        }
        if s.has(v) {
            if exists|i: int| 0 <= i < s.keys@.len() && #[trigger] s.key(i) == v {
                let i = choose|i: int| 0 <= i < s.keys@.len() && #[trigger] s.key(i) == v;
                assert(old.key(i) == v);
            } else {
                let i = choose|i: int| 0 <= i < s.children@.len() && (#[trigger] s.children[i]).has(v);
                if i != ci {
                    assert(old.children[i].has(v));
                }
            }
        }
        if c2.has(v) {
            assert(s.children[ci].has(v));
        }
    }

    /// Inserts `value` into the subtree. A child about to be descended into that holds
    /// `max_keys` keys or more is split first; at order 3 a child of two keys is instead
    /// descended into and split right after if it overflowed to three, while a child of
    /// three (left by a merge) is split first. A value already held leaves the contents
    /// as they were.
    #[verifier::rlimit(60)]
    pub fn insert_non_full(&mut self, value: T, Ghost(h): Ghost<nat>)
        requires
            old(self).shaped(old(self).order as nat, h),
            old(self).order > 3 ==> old(self).keys@.len() < max_keys(old(self).order as nat),
            old(self).order == 3 ==> old(self).keys@.len() <= 2,
        ensures
            final(self).shaped(old(self).order as nat, h),
            final(self).order == old(self).order,
            final(self).leaf == old(self).leaf,
            final(self).contents() == old(self).contents().insert(value@),
            old(self).keys@.len() <= final(self).keys@.len() <= old(self).keys@.len() + 1,
            old(self).children_within(max_keys(old(self).order as nat)) ==> final(self).children_within(
                max_keys(old(self).order as nat),
            ),
            !old(self).leaf && (forall|i: int|
                0 <= i < old(self).children@.len() ==> (#[trigger] old(self).children[i]).keys@.len()
                    < split_threshold(old(self).order as nat)) ==> final(self).keys@.len() == old(
                self).keys@.len(),
        decreases h,
    {
        let ghost m = self.order as nat;
        let ghost k = max_keys(m);
        let ghost old_self = *self;
        let (found, idx0) = self.search(&value);
        if found {
            assert(self.has(value@));
            assert(self.contents() =~= old_self.contents().insert(value@));
            return;
        }
        let mut idx: usize = idx0;
        if self.leaf {
            self.keys.insert(idx, value);
            proof {
                let s = *self;
                assert forall|i: int, j: int| 0 <= i < j < s.keys@.len() implies T::precedes(
                    #[trigger] s.key(i),
                    #[trigger] s.key(j),
                ) by {
                    if i < idx && j > idx {
                        assert(s.key(i) == old_self.key(i));
                        assert(s.key(j) == old_self.key(j - 1));
                    } else if i < idx && j < idx {
                        assert(s.key(i) == old_self.key(i));
                        assert(s.key(j) == old_self.key(j));
                    } else if i > idx {
                        assert(s.key(i) == old_self.key(i - 1));
                        assert(s.key(j) == old_self.key(j - 1));
                    } else if i == idx {
                        assert(s.key(j) == old_self.key(j - 1));
                    } else {
                        assert(s.key(i) == old_self.key(i));
                    }
                }
                assert forall|x: T::V| s.has(x) <==> old_self.has(x) || x == value@ by {
                    if s.has(x) {
                        let i = choose|i: int| 0 <= i < s.keys@.len() && #[trigger] s.key(i) == x;
                        if i < idx {
                            assert(old_self.key(i) == x);
                        } else if i > idx {
                            assert(old_self.key(i - 1) == x);
                        }
                    }
                    if old_self.has(x) {
                        let i = choose|i: int| 0 <= i < old_self.keys@.len() && #[trigger] old_self.key(i) == x;
                        if i < idx {
                            assert(s.key(i) == x);
                        } else {
                            assert(s.key(i + 1) == x);
                        }
                    }
                    if x == value@ {
                        assert(s.key(idx as int) == x);
                    }
                }
                assert(s.contents() =~= old_self.contents().insert(value@));
            }
            return;
        }
        assert(self.children[idx as int].shaped(m, (h - 1) as nat));
        assert(self.children[idx as int].count_ok(m));
        if self.children[idx].order == 3 && self.children[idx].keys.len() == 2 {
            let mut child = self.children.remove(idx);
            let ghost c1 = *child;
            let ghost vv = value@;
            child.insert_non_full(value, Ghost((h - 1) as nat));
            let ghost c2 = *child;
            self.children.insert(idx, child);
            proof {
                Node::lemma_contents_differ_at(c1, c2, vv);
                Node::lemma_relax(old_self, m, h, idx as int);
                Node::lemma_replace_child(old_self, *self, idx as int, c2, value@, m, h);
                assert(self.contents() =~= old_self.contents().insert(value@));
            }
            let ghost s1 = *self;
            if self.children[idx].keys.len() == 3 {
                self.split_child(idx, Ghost(h));
                proof {
                    if old_self.children_within(k) {
                        assert(c1.nodes_within(k));
                        assert(s1.children[idx as int] == c2);
                        Node::lemma_split_within(s1, *self, idx as int, k);
                    }
                }
            } else {
                proof {
                    if old_self.children_within(k) {
                        assert(c1.nodes_within(k));
                        Node::lemma_replace_within(old_self, *self, idx as int, c2, k);
                    }
                }
            }
        } else if self.children[idx].keys.len() >= self.children[idx].order - 1 {
            proof {
                Node::lemma_relax(old_self, m, h, idx as int);
            }
            self.split_child(idx, Ghost(h));
            let ghost mid_self = *self;
            proof {
                if old_self.children_within(k) {
                    assert(old_self.children[idx as int].nodes_within(k));
                    Node::lemma_split_within(old_self, mid_self, idx as int, k);
                }
            }
            assert(self.keys.len() == self.keys@.len());
            match value.compare(&self.keys[idx]) {
                Ordering::Equal => {
                    assert(self.key(idx as int) == value@);
                    assert(self.has(value@));
                    assert(self.contents() =~= old_self.contents().insert(value@));
                    return;
                },
                Ordering::Greater => {
                    idx = idx + 1;
                },
                Ordering::Less => {},
            }
            proof {
                assert forall|i: int| 0 <= i < mid_self.keys@.len() implies (i < idx ==> T::precedes(
                    #[trigger] mid_self.key(i),
                    value@,
                )) && (i >= idx ==> T::precedes(value@, mid_self.key(i))) by {
                    if i < idx0 {
                        assert(mid_self.key(i) == old_self.key(i));
                    } else if i > idx0 {
                        assert(mid_self.key(i) == old_self.key(i - 1));
                    }
                }
                assert(mid_self.in_gap(value@, idx as int));
                assert(mid_self.children[idx as int].shaped(m, (h - 1) as nat));
                Node::lemma_relax(mid_self, m, h, idx as int);
            }
            let mut child = self.children.remove(idx);
            let ghost c1 = *child;
            let ghost vv = value@;
            child.insert_non_full(value, Ghost((h - 1) as nat));
            let ghost c2 = *child;
            self.children.insert(idx, child);
            proof {
                Node::lemma_contents_differ_at(c1, c2, vv);
                Node::lemma_replace_child(mid_self, *self, idx as int, c2, value@, m, h);
                assert(self.contents() =~= old_self.contents().insert(value@));
                if old_self.children_within(k) {
                    assert(c1.nodes_within(k));
                    Node::lemma_replace_within(mid_self, *self, idx as int, c2, k);
                }
            }
        } else {
            let mut child = self.children.remove(idx);
            let ghost c1 = *child;
            let ghost vv = value@;
            child.insert_non_full(value, Ghost((h - 1) as nat));
            let ghost c2 = *child;
            self.children.insert(idx, child);
            proof {
                Node::lemma_contents_differ_at(c1, c2, vv);
                Node::lemma_relax(old_self, m, h, idx as int);
                Node::lemma_replace_child(old_self, *self, idx as int, c2, value@, m, h);
                assert(self.contents() =~= old_self.contents().insert(value@));
                if old_self.children_within(k) {
                    assert(c1.nodes_within(k));
                    Node::lemma_replace_within(old_self, *self, idx as int, c2, k);
                }
            }
        }
    }
}

impl<T: KeyOrder> Node<T> {
    /// The largest key in the subtree: the last key of its rightmost leaf.
    pub fn get_rightmost(&self, Ghost(m): Ghost<nat>, Ghost(h): Ghost<nat>) -> (r: &T)
        requires
            self.shaped(m, h),
            self.keys@.len() >= 1,
        ensures
            self.has(r@),
            forall|x: T::V| self.has(x) && x != r@ ==> T::precedes(x, r@),
        decreases h,
    {
        let n: usize = self.keys.len();
        if self.leaf {
            let r = &self.keys[n - 1];
            proof {
                assert(self.key(n - 1) == r@);
                assert forall|x: T::V| self.has(x) && x != r@ implies T::precedes(x, r@) by {
                    let i = choose|i: int| 0 <= i < self.keys@.len() && #[trigger] self.key(i) == x;
                    assert(i < n - 1);
                }
            }
            return r;
        }
        let last = &self.children[n];
        assert(last.shaped(m, (h - 1) as nat) && last.count_ok(m));
        let r = last.get_rightmost(Ghost(m), Ghost((h - 1) as nat));
        proof {
            assert(self.children[n as int].has(r@));
            assert(self.child_separated(n as int));
            assert(T::precedes(self.key(n - 1), r@));
            assert forall|x: T::V| self.has(x) && x != r@ implies T::precedes(x, r@) by {
                if exists|i: int| 0 <= i < self.keys@.len() && #[trigger] self.key(i) == x {
                    let i = choose|i: int| 0 <= i < self.keys@.len() && #[trigger] self.key(i) == x;
                    if i < n - 1 {
                        assert(T::precedes(self.key(i), self.key(n - 1)));
                    }
                } else {
                    let i = choose|i: int| 0 <= i < self.children@.len() && (#[trigger] self.children[i]).has(x);
                    assert(self.child_separated(i));
                    if i < n {
                        if i < n - 1 {
                            assert(T::precedes(self.key(i), self.key(n - 1)));
                        }
                    }
                }
            }
        }
        r
    }

    /// The smallest key in the subtree: the first key of its leftmost leaf.
    pub fn get_leftmost(&self, Ghost(m): Ghost<nat>, Ghost(h): Ghost<nat>) -> (r: &T)
        requires
            self.shaped(m, h),
            self.keys@.len() >= 1,
        ensures
            self.has(r@),
            forall|x: T::V| self.has(x) && x != r@ ==> T::precedes(r@, x),
        decreases h,
    {
        if self.leaf {
            let r = &self.keys[0];
            proof {
                assert(self.key(0) == r@);
                assert forall|x: T::V| self.has(x) && x != r@ implies T::precedes(r@, x) by {
                    let i = choose|i: int| 0 <= i < self.keys@.len() && #[trigger] self.key(i) == x;
                    assert(i > 0);
                }
            }
            return r;
        }
        let first = &self.children[0];
        assert(first.shaped(m, (h - 1) as nat) && first.count_ok(m));
        let r = first.get_leftmost(Ghost(m), Ghost((h - 1) as nat));
        proof {
            assert(self.children[0].has(r@));
            assert(self.child_separated(0));
            assert(T::precedes(r@, self.key(0)));
            assert forall|x: T::V| self.has(x) && x != r@ implies T::precedes(r@, x) by {
                if exists|i: int| 0 <= i < self.keys@.len() && #[trigger] self.key(i) == x {
                    let i = choose|i: int| 0 <= i < self.keys@.len() && #[trigger] self.key(i) == x;
                    if i > 0 {
                        assert(T::precedes(self.key(0), self.key(i)));
                    }
                } else {
                    let i = choose|i: int| 0 <= i < self.children@.len() && (#[trigger] self.children[i]).has(x);
                    assert(self.child_separated(i));
                    if i > 0 {
                        if i > 1 {
                            assert(T::precedes(self.key(0), self.key(i - 1)));
                        }
                    }
                }
            }
        }
        r
    }
}

impl<T: KeyOrder> Node<T> {
    /// The node `j` made of `a`'s keys, `k`, then `b`'s keys (and `a`'s children then
    /// `b`'s) is shaped when `a` holds only values before `k` and `b` only values after.
    pub proof fn lemma_join(a: Node<T>, b: Node<T>, k: T, j: Node<T>, m: nat, h: nat)
        requires
            a.shaped(m, h),
            b.shaped(m, h),
            forall|x: T::V| #[trigger] a.has(x) ==> T::precedes(x, k@),
            forall|x: T::V| #[trigger] b.has(x) ==> T::precedes(k@, x),
            j.keys@ == a.keys@.push(k) + b.keys@,
            j.children@ == a.children@ + b.children@,
            j.leaf == a.leaf,
            j.order == a.order,
        ensures
            j.shaped(m, h),
            forall|x: T::V| j.has(x) <==> a.has(x) || b.has(x) || x == k@,
    {
        let na = a.keys@.len() as int;
        assert forall|i: int| 0 <= i < na implies #[trigger] j.key(i) == a.key(i) && a.has(a.key(i)) by {}
        assert forall|i: int| 0 <= i < b.keys@.len() implies #[trigger] j.key(na + 1 + i) == b.key(i) && b.has(b.key(i)) by {}
        assert(j.key(na) == k@);
        assert forall|i: int, i2: int| 0 <= i < i2 < j.keys@.len() implies T::precedes(
            #[trigger] j.key(i),
            #[trigger] j.key(i2),
        ) by {
            if i2 < na {
                assert(j.key(i2) == a.key(i2));
            } else if i > na {
                assert(j.key(i) == b.key(i - na - 1));
                assert(j.key(i2) == b.key(i2 - na - 1));
            } else if i < na && i2 > na {
                assert(j.key(i2) == b.key(i2 - na - 1));
                assert(b.has(b.key(i2 - na - 1)));
            } else if i == na {
                assert(j.key(i2) == b.key(i2 - na - 1));
                assert(b.has(b.key(i2 - na - 1)));
            }
        }
        if !j.leaf {
            assert forall|i: int| 0 <= i < j.children@.len() implies {
                &&& (#[trigger] j.children[i]).shaped_except(m, (h - 1) as nat, -1)
                &&& j.child_separated(i)
                &&& i != -1 ==> j.children[i].count_ok(m)
            } by {
                if i <= na {
                    assert(j.children[i] == a.children[i]);
                    assert(a.child_separated(i));
                    assert forall|x: T::V| #[trigger] j.children[i].has(x) && i < j.keys@.len()
                        implies T::precedes(x, j.key(i)) by {
                        if i == na {
                            assert(a.has(x));
                        }
                    }
                } else {
                    let i2 = i - na - 1;
                    assert(j.children[i] == b.children[i2]);
                    assert(b.child_separated(i2));
                    assert forall|x: T::V| #[trigger] j.children[i].has(x) && i > 0 implies T::precedes(
                        j.key(i - 1),
                        x,
                    ) by {
                        if i2 == 0 {
                            assert(b.has(x));
                        }
                    }
                }
            }
        }
        assert forall|x: T::V| j.has(x) <==> a.has(x) || b.has(x) || x == k@ by {
            if j.has(x) {
                if exists|i: int| 0 <= i < j.keys@.len() && #[trigger] j.key(i) == x {
                    let i = choose|i: int| 0 <= i < j.keys@.len() && #[trigger] j.key(i) == x;
                    if i > na {
                        assert(j.key(i) == b.key(i - na - 1));
                    }
                } else {
                    let i = choose|i: int| 0 <= i < j.children@.len() && (#[trigger] j.children[i]).has(x);
                    if i <= na {
                        assert(j.children[i] == a.children[i]);
                    } else {
                        assert(j.children[i] == b.children[i - na - 1]);
                    }
                }
            }
            if a.has(x) {
                if exists|i: int| 0 <= i < a.keys@.len() && #[trigger] a.key(i) == x {
                    let i = choose|i: int| 0 <= i < a.keys@.len() && #[trigger] a.key(i) == x;
                    assert(j.key(i) == x);
                } else {
                    let i = choose|i: int| 0 <= i < a.children@.len() && (#[trigger] a.children[i]).has(x);
                    assert(j.children[i] == a.children[i]);
                }
            }
            if b.has(x) {
                if exists|i: int| 0 <= i < b.keys@.len() && #[trigger] b.key(i) == x {
                    let i = choose|i: int| 0 <= i < b.keys@.len() && #[trigger] b.key(i) == x;
                    assert(j.key(na + 1 + i) == x);
                } else {
                    let i = choose|i: int| 0 <= i < b.children@.len() && (#[trigger] b.children[i]).has(x);
                    assert(j.children[na + 1 + i] == b.children[i]);
                }
            }
        }
    }

    /// Replacing children `ci` and `ci + 1` and the key between them by one child `c2`
    /// that holds all three keeps the node shaped and its contents unchanged.
    pub proof fn lemma_merge_parent(old: Node<T>, s: Node<T>, ci: int, c2: Node<T>, m: nat, h: nat)
        requires
            old.shaped(m, h),
            !old.leaf,
            0 <= ci < old.keys@.len(),
            c2.shaped(m, (h - 1) as nat),
            c2.count_ok(m),
            forall|x: T::V|
                c2.has(x) <==> old.children[ci].has(x) || old.children[ci + 1].has(x) || x == old.key(ci),
            s.keys@ == old.keys@.remove(ci),
            s.leaf == old.leaf,
            s.order == old.order,
            s.children@.len() == old.children@.len() - 1,
            s.children[ci] == c2,
            forall|i: int| 0 <= i < ci ==> s.children[i] == old.children[i],
            forall|i: int| ci < i < s.children@.len() ==> s.children[i] == old.children[i + 1],
        ensures
            s.shaped(m, h),
            s.contents() == old.contents(),
            forall|x: T::V|
                old.in_gap(x, ci) || old.in_gap(x, ci + 1) || x == old.key(ci) ==> s.in_gap(x, ci),
    {
        assert(old.child_separated(ci));
        assert(old.child_separated(ci + 1));
        assert forall|i: int| 0 <= i < s.keys@.len() implies #[trigger] s.key(i) == (if i < ci {
            old.key(i)
        } else {
            old.key(i + 1)
        }) by {}
        assert forall|i: int, j: int| 0 <= i < j < s.keys@.len() implies T::precedes(
            #[trigger] s.key(i),
            #[trigger] s.key(j),
        ) by {
            if i < ci {
                assert(s.key(i) == old.key(i));
            } else {
                assert(s.key(i) == old.key(i + 1));
            }
            if j < ci {
                assert(s.key(j) == old.key(j));
            } else {
                assert(s.key(j) == old.key(j + 1));
            }
        }
        assert forall|i: int| 0 <= i < s.children@.len() implies {
            &&& (#[trigger] s.children[i]).shaped_except(m, (h - 1) as nat, -1)
            &&& s.child_separated(i)
            &&& i != -1 ==> s.children[i].count_ok(m)
        } by {
            if i < ci {
                assert(old.child_separated(i));
                assert(s.key(i) == old.key(i));
                if i > 0 {
                    assert(s.key(i - 1) == old.key(i - 1));
                }
            } else if i > ci {
                assert(old.child_separated(i + 1));
                assert(s.key(i - 1) == old.key(i));
                if i < s.keys@.len() {
                    assert(s.key(i) == old.key(i + 1));
                }
            } else {
                if i > 0 {
                    assert(s.key(i - 1) == old.key(i - 1));
                }
                if i < s.keys@.len() {
                    assert(s.key(i) == old.key(i + 1));
                    assert(T::precedes(old.key(ci), old.key(ci + 1)));
                }
                if i > 0 {
                    assert(T::precedes(old.key(ci - 1), old.key(ci)));
                }
                assert forall|x: T::V| #[trigger] s.children[i].has(x) implies (i > 0 ==> T::precedes(
                    s.key(i - 1),
                    x,
                )) && (i < s.keys@.len() ==> T::precedes(x, s.key(i))) by {
                    assert(c2.has(x));
                }
            }
        }
        assert forall|x: T::V| s.has(x) <==> old.has(x) by {
            if s.has(x) {
                if exists|i: int| 0 <= i < s.keys@.len() && #[trigger] s.key(i) == x {
                    let i = choose|i: int| 0 <= i < s.keys@.len() && #[trigger] s.key(i) == x;
                    if i < ci {
                        assert(old.key(i) == x);
                    } else {
                        assert(old.key(i + 1) == x);
                    }
                } else {
                    let i = choose|i: int| 0 <= i < s.children@.len() && (#[trigger] s.children[i]).has(x);
                    if i < ci {
                        assert(old.children[i].has(x));
                    } else if i > ci {
                        assert(old.children[i + 1].has(x));
                    } else if old.children[ci].has(x) {
                    } else if old.children[ci + 1].has(x) {
                    } else {
                        assert(old.key(ci) == x);
                    }
                }
            }
            if old.has(x) {
                if exists|i: int| 0 <= i < old.keys@.len() && #[trigger] old.key(i) == x {
                    let i = choose|i: int| 0 <= i < old.keys@.len() && #[trigger] old.key(i) == x;
                    if i < ci {
                        assert(s.key(i) == x);
                    } else if i > ci {
                        assert(s.key(i - 1) == x);
                    } else {
                        assert(s.children[ci].has(x));
                    }
                } else {
                    let i = choose|i: int| 0 <= i < old.children@.len() && (#[trigger] old.children[i]).has(x);
                    if i < ci {
                        assert(s.children[i].has(x));
                    } else if i > ci + 1 {
                        assert(s.children[i - 1].has(x));
                    } else {
                        assert(s.children[ci].has(x));
                    }
                }
            }
        }
        assert(s.contents() =~= old.contents());
        assert forall|x: T::V|
            old.in_gap(x, ci) || old.in_gap(x, ci + 1) || x == old.key(ci) implies s.in_gap(x, ci) by {
            assert forall|i: int| 0 <= i < s.keys@.len() implies (i < ci ==> T::precedes(
                #[trigger] s.key(i),
                x,
            )) && (i >= ci ==> T::precedes(x, s.key(i))) by {
                if i < ci {
                    assert(s.key(i) == old.key(i));
                    if x == old.key(ci) {
                        assert(T::precedes(old.key(i), old.key(ci)));
                    }
                } else {
                    assert(s.key(i) == old.key(i + 1));
                    if x == old.key(ci) {
                        assert(T::precedes(old.key(ci), old.key(i + 1)));
                    }
                }
            }
        }
    }

    /// Merges child `ci + 1` and the key before it into child `ci`.
    pub fn merge(&mut self, ci: usize, Ghost(h): Ghost<nat>)
        requires
            old(self).shaped(old(self).order as nat, h),
            !old(self).leaf,
            ci + 1 < old(self).children@.len(),
            old(self).children[ci as int].keys@.len() + old(self).children[ci + 1].keys@.len() + 1
                <= key_cap(old(self).order as nat),
        ensures
            final(self).shaped(old(self).order as nat, h),
            final(self).contents() == old(self).contents(),
            final(self).order == old(self).order,
            !final(self).leaf,
            final(self).keys@ == old(self).keys@.remove(ci as int),
            final(self).children[ci as int].keys@.len() == old(self).children[ci as int].keys@.len()
                + old(self).children[ci + 1].keys@.len() + 1,
            forall|x: T::V|
                final(self).children[ci as int].has(x) <==> old(self).children[ci as int].has(x)
                    || old(self).children[ci + 1].has(x) || x == old(self).key(ci as int),
            ({
                let l = old(self).children[ci as int];
                let r = old(self).children[ci + 1];
                let j = final(self).children[ci as int];
                &&& j.keys@ == l.keys@.push(old(self).keys@[ci as int]) + r.keys@
                &&& j.children@ == l.children@ + r.children@
                &&& j.leaf == l.leaf && j.order == l.order
            }),
            final(self).children@.len() == old(self).children@.len() - 1,
            forall|i: int| 0 <= i < ci ==> final(self).children[i] == old(self).children[i],
            forall|i: int|
                ci < i < final(self).children@.len() ==> final(self).children[i] == old(self).children[i + 1],
            forall|x: T::V|
                old(self).in_gap(x, ci as int) || old(self).in_gap(x, ci + 1) || x == old(self).key(
                    ci as int,
                ) ==> final(self).in_gap(x, ci as int),
    {
        let ghost m = self.order as nat;
        let ghost old_self = *self;
        assert(self.children.len() == self.children@.len());
        let middle_key = self.keys.remove(ci);
        let mut right = self.children.remove(ci + 1);
        let mut left = self.children.remove(ci);
        let ghost a = *left;
        let ghost b = *right;
        proof {
            assert(a == old_self.children[ci as int]);
            assert(b == old_self.children[ci + 1]);
            assert(old_self.child_separated(ci as int));
            assert(old_self.child_separated(ci + 1));
            assert(a.shaped(m, (h - 1) as nat));
            assert(b.shaped(m, (h - 1) as nat));
        }
        left.keys.push(middle_key);
        left.keys.append(&mut right.keys);
        if !left.leaf {
            left.children.append(&mut right.children);
        }
        proof {
            Node::lemma_join(a, b, middle_key, *left, m, (h - 1) as nat);
        }
        let ghost c2 = *left;
        self.children.insert(ci, left);
        proof {
            Node::lemma_merge_parent(old_self, *self, ci as int, c2, m, h);
        }
    }
}

impl<T: KeyOrder> Node<T> {
    /// A node that keeps keys `lo..hi` and children `lo..=hi` of a shaped node is shaped,
    /// and holds only what lies between the keys on either side of the slice.
    pub proof fn lemma_slice(n: Node<T>, part: Node<T>, lo: int, hi: int, m: nat, h: nat)
        requires
            n.shaped(m, h),
            0 <= lo <= hi <= n.keys@.len(),
            part.keys@ == n.keys@.subrange(lo, hi),
            part.leaf == n.leaf,
            part.order == n.order,
            n.leaf ==> part.children@.len() == 0,
            !n.leaf ==> part.children@ == n.children@.subrange(lo, hi + 1),
        ensures
            part.shaped(m, h),
            forall|x: T::V| #[trigger] part.has(x) ==> n.has(x),
            forall|x: T::V|
                #[trigger] part.has(x) ==> (lo > 0 ==> T::precedes(n.key(lo - 1), x)) && (hi < n.keys@.len()
                    ==> T::precedes(x, n.key(hi))),
            forall|x: T::V|
                part.has(x) <==> (exists|i: int| lo <= i < hi && #[trigger] n.key(i) == x) || (!n.leaf
                    && exists|i: int| lo <= i <= hi && (#[trigger] n.children[i]).has(x)),
    {
        assert forall|i: int, j: int| 0 <= i < j < part.keys@.len() implies T::precedes(
            #[trigger] part.key(i),
            #[trigger] part.key(j),
        ) by {
            assert(part.key(i) == n.key(lo + i));
            assert(part.key(j) == n.key(lo + j));
        }
        if !n.leaf {
            assert forall|i: int| 0 <= i < part.children@.len() implies {
                &&& (#[trigger] part.children[i]).shaped_except(m, (h - 1) as nat, -1)
                &&& part.child_separated(i)
                &&& i != -1 ==> part.children[i].count_ok(m)
            } by {
                assert(part.children[i] == n.children[lo + i]);
                assert(n.child_separated(lo + i));
            }
        }
        assert forall|x: T::V| part.has(x) <==> (exists|i: int| lo <= i < hi && #[trigger] n.key(i) == x) || (
        !n.leaf && exists|i: int| lo <= i <= hi && (#[trigger] n.children[i]).has(x)) by {
            Node::lemma_has_slice(n, part, lo, hi, x);
        }
        assert forall|x: T::V| #[trigger] part.has(x) implies n.has(x) && (lo > 0 ==> T::precedes(
            n.key(lo - 1),
            x,
        )) && (hi < n.keys@.len() ==> T::precedes(x, n.key(hi))) by {
            Node::lemma_has_slice(n, part, lo, hi, x);
            if exists|i: int| lo <= i < hi && #[trigger] n.key(i) == x {
                let i = choose|i: int| lo <= i < hi && #[trigger] n.key(i) == x;
            } else {
                let i = choose|i: int| lo <= i <= hi && (#[trigger] n.children[i]).has(x);
                assert(n.child_separated(i));
                if lo > 0 && i > lo {
                    assert(T::precedes(n.key(lo - 1), n.key(i - 1)));
                }
                if hi < n.keys@.len() && i < hi {
                    assert(T::precedes(n.key(i), n.key(hi)));
                }
            }
        }
    }

    /// Replacing children `p` and `p + 1` and the key between them by `l2`, `k2` and `r2`,
    /// which hold between them the same values in order, keeps the node shaped and its
    /// contents unchanged.
    pub proof fn lemma_pair_parent(
        old: Node<T>,
        s: Node<T>,
        p: int,
        l2: Node<T>,
        r2: Node<T>,
        k2: T::V,
        m: nat,
        h: nat,
    )
        requires
            old.shaped(m, h),
            !old.leaf,
            0 <= p < old.keys@.len(),
            l2.shaped(m, (h - 1) as nat),
            r2.shaped(m, (h - 1) as nat),
            l2.count_ok(m),
            r2.count_ok(m),
            forall|x: T::V|
                #![all_triggers]
                l2.has(x) || r2.has(x) || x == k2 <==> old.children[p].has(x) || old.children[p + 1].has(x)
                    || x == old.key(p),
            forall|x: T::V| #[trigger] l2.has(x) ==> T::precedes(x, k2),
            forall|x: T::V| #[trigger] r2.has(x) ==> T::precedes(k2, x),
            s.leaf == old.leaf,
            s.order == old.order,
            s.keys@.len() == old.keys@.len(),
            s.key(p) == k2,
            forall|i: int| 0 <= i < s.keys@.len() && i != p ==> s.key(i) == old.key(i),
            s.children@.len() == old.children@.len(),
            s.children[p] == l2,
            s.children[p + 1] == r2,
            forall|i: int| 0 <= i < s.children@.len() && i != p && i != p + 1 ==> s.children[i] == old.children[i],
        ensures
            s.shaped(m, h),
            s.contents() == old.contents(),
            T::precedes(k2, old.key(p)) ==> forall|x: T::V| #[trigger] old.in_gap(x, p + 1) ==> s.in_gap(x, p + 1),
            T::precedes(old.key(p), k2) ==> forall|x: T::V| #[trigger] old.in_gap(x, p) ==> s.in_gap(x, p),
    {
        assert(old.child_separated(p));
        assert(old.child_separated(p + 1));
        let nk = old.keys@.len() as int;
        // everything in the pair lies between the keys around it
        assert forall|x: T::V|
            old.children[p].has(x) || old.children[p + 1].has(x) || x == old.key(p) implies (p > 0
                ==> T::precedes(old.key(p - 1), x)) && (p + 1 < nk ==> T::precedes(x, old.key(p + 1))) by {
            if p > 0 {
                assert(T::precedes(old.key(p - 1), old.key(p)));
            }
            if p + 1 < nk {
                assert(T::precedes(old.key(p), old.key(p + 1)));
            }
        }
        assert(l2.has(k2) || r2.has(k2) || k2 == k2);
        assert(old.children[p].has(k2) || old.children[p + 1].has(k2) || k2 == old.key(p));
        assert(p > 0 ==> T::precedes(old.key(p - 1), k2));
        assert(p + 1 < nk ==> T::precedes(k2, old.key(p + 1)));
        assert forall|i: int, j: int| 0 <= i < j < s.keys@.len() implies T::precedes(
            #[trigger] s.key(i),
            #[trigger] s.key(j),
        ) by {
            if i == p {
                assert(s.key(j) == old.key(j));
                if j > p + 1 {
                    assert(T::precedes(old.key(p + 1), old.key(j)));
                }
            } else if j == p {
                assert(s.key(i) == old.key(i));
                if i < p - 1 {
                    assert(T::precedes(old.key(i), old.key(p - 1)));
                }
            } else {
                assert(s.key(i) == old.key(i));
                assert(s.key(j) == old.key(j));
            }
        }
        assert forall|i: int| 0 <= i < s.children@.len() implies {
            &&& (#[trigger] s.children[i]).shaped_except(m, (h - 1) as nat, -1)
            &&& s.child_separated(i)
            &&& i != -1 ==> s.children[i].count_ok(m)
        } by {
            if i != p && i != p + 1 {
                assert(old.child_separated(i));
                if i > 0 && i - 1 != p {
                    assert(s.key(i - 1) == old.key(i - 1));
                }
                if i > 0 && i - 1 == p {
                    assert(T::precedes(old.key(p), k2) || T::precedes(k2, old.key(p)) || k2 == old.key(
                        p,
                    )) by {
                        T::lemma_total(k2, old.key(p));
                    }
                    assert forall|x: T::V| #[trigger] s.children[i].has(x) implies T::precedes(k2, x) by {
                        assert(T::precedes(old.key(p + 1), x));
                    }
                }
                if i < s.keys@.len() {
                    assert(s.key(i) == old.key(i));
                }
            } else if i == p {
                if i > 0 {
                    assert(s.key(i - 1) == old.key(i - 1));
                }
                assert forall|x: T::V| #[trigger] s.children[i].has(x) implies (i > 0 ==> T::precedes(
                    s.key(i - 1),
                    x,
                )) && (i < s.keys@.len() ==> T::precedes(x, s.key(i))) by {
                    assert(l2.has(x));
                }
            } else {
                if i < s.keys@.len() {
                    assert(s.key(i) == old.key(i));
                }
                assert forall|x: T::V| #[trigger] s.children[i].has(x) implies (i > 0 ==> T::precedes(
                    s.key(i - 1),
                    x,
                )) && (i < s.keys@.len() ==> T::precedes(x, s.key(i))) by {
                    assert(r2.has(x));
                }
            }
        }
        assert forall|x: T::V| s.has(x) <==> old.has(x) by {
            if s.has(x) {
                if exists|i: int| 0 <= i < s.keys@.len() && #[trigger] s.key(i) == x {
                    let i = choose|i: int| 0 <= i < s.keys@.len() && #[trigger] s.key(i) == x;
                    if i != p {
                        assert(old.key(i) == x);
                    } else if old.children[p].has(x) {
                    } else if old.children[p + 1].has(x) {
                    } else {
                        assert(old.key(p) == x);
                    }
                } else {
                    let i = choose|i: int| 0 <= i < s.children@.len() && (#[trigger] s.children[i]).has(x);
                    if i == p {
                        assert(l2.has(x));
                    } else if i == p + 1 {
                        assert(r2.has(x));
                    }
                    if i != p && i != p + 1 {
                        assert(old.children[i].has(x));
                    } else if old.children[p].has(x) {
                    } else if old.children[p + 1].has(x) {
                    } else {
                        assert(old.key(p) == x);
                    }
                }
            }
            if old.has(x) {
                if exists|i: int| 0 <= i < old.keys@.len() && #[trigger] old.key(i) == x {
                    let i = choose|i: int| 0 <= i < old.keys@.len() && #[trigger] old.key(i) == x;
                    if i != p {
                        assert(s.key(i) == x);
                    } else if l2.has(x) {
                        assert(s.children[p].has(x));
                    } else if r2.has(x) {
                        assert(s.children[p + 1].has(x));
                    } else {
                        assert(s.key(p) == x);
                    }
                } else {
                    let i = choose|i: int| 0 <= i < old.children@.len() && (#[trigger] old.children[i]).has(x);
                    if i != p && i != p + 1 {
                        assert(s.children[i].has(x));
                    } else if l2.has(x) {
                        assert(s.children[p].has(x));
                    } else if r2.has(x) {
                        assert(s.children[p + 1].has(x));
                    } else {
                        assert(s.key(p) == x);
                    }
                }
            }
        }
        assert(s.contents() =~= old.contents());
        if T::precedes(k2, old.key(p)) {
            assert forall|x: T::V| #[trigger] old.in_gap(x, p + 1) implies s.in_gap(x, p + 1) by {
                assert forall|i: int| 0 <= i < s.keys@.len() implies (i < p + 1 ==> T::precedes(
                    #[trigger] s.key(i),
                    x,
                )) && (i >= p + 1 ==> T::precedes(x, s.key(i))) by {
                    if i != p {
                        assert(s.key(i) == old.key(i));
                    } else {
                        assert(T::precedes(old.key(p), x));
                    }
                }
            }
        }
        if T::precedes(old.key(p), k2) {
            assert forall|x: T::V| #[trigger] old.in_gap(x, p) implies s.in_gap(x, p) by {
                assert forall|i: int| 0 <= i < s.keys@.len() implies (i < p ==> T::precedes(
                    #[trigger] s.key(i),
                    x,
                )) && (i >= p ==> T::precedes(x, s.key(i))) by {
                    if i != p {
                        assert(s.key(i) == old.key(i));
                    } else {
                        assert(T::precedes(x, old.key(p)));
                    }
                }
            }
        }
    }
}

impl<T: KeyOrder> Node<T> {
    /// Moves the key before child `ci` down to the front of child `ci`, the last key of
    /// child `ci - 1` up in its place, and (for internal children) the last child of
    /// child `ci - 1` to the front of child `ci`.
    pub fn rotate_right(&mut self, ci: usize, Ghost(h): Ghost<nat>)
        requires
            old(self).shaped(old(self).order as nat, h),
            !old(self).leaf,
            1 <= ci < old(self).children@.len(),
            old(self).children[ci - 1].keys@.len() >= surplus_keys(old(self).order as nat),
            old(self).children[ci as int].keys@.len() < surplus_keys(old(self).order as nat),
        ensures
            final(self).shaped(old(self).order as nat, h),
            final(self).contents() == old(self).contents(),
            final(self).order == old(self).order,
            !final(self).leaf,
            final(self).keys@.len() == old(self).keys@.len(),
            final(self).children[ci as int].keys@.len() == old(self).children[ci as int].keys@.len() + 1,
            forall|x: T::V| #[trigger] old(self).in_gap(x, ci as int) ==> final(self).in_gap(x, ci as int),
            ({
                let l = old(self).children[ci - 1];
                let r = old(self).children[ci as int];
                let l2 = final(self).children[ci - 1];
                let r2 = final(self).children[ci as int];
                &&& final(self).keys@ == old(self).keys@.update(ci - 1, l.keys@.last())
                &&& l2.keys@ == l.keys@.drop_last()
                &&& r2.keys@ == seq![old(self).keys@[ci - 1]] + r.keys@
                &&& l2.leaf == l.leaf && r2.leaf == r.leaf
                &&& l.leaf ==> l2.children@ == l.children@ && r2.children@ == r.children@
                &&& !l.leaf ==> l2.children@ == l.children@.drop_last() && r2.children@ == seq![
                    l.children@.last(),
                ] + r.children@
            }),
            final(self).children@.len() == old(self).children@.len(),
            forall|i: int|
                0 <= i < final(self).children@.len() && i != ci - 1 && i != ci ==> final(self).children[i]
                    == old(self).children[i],
    {
        let ghost m = self.order as nat;
        let ghost old_self = *self;
        assert(self.children.len() == self.children@.len());
        let p: usize = ci - 1;
        let mut right = self.children.remove(ci);
        let mut left = self.children.remove(p);
        let ghost lo = *left;
        let ghost ro = *right;
        proof {
            assert(lo == old_self.children[p as int]);
            assert(ro == old_self.children[ci as int]);
            assert(old_self.child_separated(p as int));
            assert(old_self.child_separated(ci as int));
            assert(lo.shaped(m, (h - 1) as nat));
            assert(ro.shaped(m, (h - 1) as nat));
        }
        let ghost nl = lo.keys@.len() as int;
        let middle_key = self.keys.remove(p);
        let last_key = left.keys.pop().unwrap();
        let mut moved: Vec<Box<Node<T>>> = Vec::new();
        if !left.leaf {
            moved.push(left.children.pop().unwrap());
        }
        let a: Node<T> = Node { keys: Vec::new(), children: moved, leaf: left.leaf, order: left.order };
        let ghost ag = a;
        proof {
            assert(left.keys@ == lo.keys@.subrange(0, nl - 1));
            assert(!lo.leaf ==> left.children@ == lo.children@.subrange(0, nl));
            assert(ag.keys@ == lo.keys@.subrange(nl, nl));
            assert(!lo.leaf ==> ag.children@ == lo.children@.subrange(nl, nl + 1));
            Node::lemma_slice(lo, *left, 0, nl - 1, m, (h - 1) as nat);
            Node::lemma_slice(lo, ag, nl, nl, m, (h - 1) as nat);
            assert(last_key@ == lo.key(nl - 1));
        }
        let mut moved_children = a.children;
        let mut new_keys: Vec<T> = Vec::new();
        new_keys.push(middle_key);
        new_keys.append(&mut right.keys);
        moved_children.append(&mut right.children);
        right.keys = new_keys;
        right.children = moved_children;
        proof {
            assert(right.keys@ =~= ag.keys@.push(middle_key) + ro.keys@);
            Node::lemma_join(ag, ro, middle_key, *right, m, (h - 1) as nat);
        }
        let ghost l2 = *left;
        let ghost r2 = *right;
        self.keys.insert(p, last_key);
        self.children.insert(p, left);
        self.children.insert(ci, right);
        proof {
            let k2 = last_key@;
            let mk = middle_key@;
            assert(lo.has(k2));
            assert(T::precedes(k2, mk));
            assert forall|x: T::V| lo.has(x) <==> l2.has(x) || ag.has(x) || x == k2 by {
                if lo.has(x) {
                    if exists|i: int| 0 <= i < lo.keys@.len() && #[trigger] lo.key(i) == x {
                        let i = choose|i: int| 0 <= i < lo.keys@.len() && #[trigger] lo.key(i) == x;
                        if i < nl - 1 {
                            assert(l2.has(x));
                        }
                    } else {
                        let i = choose|i: int| 0 <= i < lo.children@.len() && (#[trigger] lo.children[i]).has(x);
                        if i < nl {
                            assert(l2.has(x));
                        } else {
                            assert(ag.has(x));
                        }
                    }
                }
            }
            assert forall|x: T::V| #[trigger] r2.has(x) implies T::precedes(k2, x) by {
                if ro.has(x) {
                    assert(T::precedes(mk, x));
                }
            }
            assert(old_self.key(p as int) == mk);
            Node::lemma_pair_parent(old_self, *self, p as int, l2, r2, k2, m, h);
            assert(self.keys@ =~= old_self.keys@.update(p as int, lo.keys@.last()));
            assert(r2.keys@ =~= seq![old_self.keys@[p as int]] + ro.keys@);
            assert(l2.keys@ =~= lo.keys@.drop_last());
            if !lo.leaf {
                assert(r2.children@ =~= seq![lo.children@.last()] + ro.children@);
                assert(l2.children@ =~= lo.children@.drop_last());
            }
        }
    }

    /// Moves the key after child `ci` down to the end of child `ci`, the first key of
    /// child `ci + 1` up in its place, and (for internal children) the first child of
    /// child `ci + 1` to the end of child `ci`.
    pub fn rotate_left(&mut self, ci: usize, Ghost(h): Ghost<nat>)
        requires
            old(self).shaped(old(self).order as nat, h),
            !old(self).leaf,
            ci + 1 < old(self).children@.len(),
            old(self).children[ci + 1].keys@.len() >= surplus_keys(old(self).order as nat),
            old(self).children[ci as int].keys@.len() < surplus_keys(old(self).order as nat),
        ensures
            final(self).shaped(old(self).order as nat, h),
            final(self).contents() == old(self).contents(),
            final(self).order == old(self).order,
            !final(self).leaf,
            final(self).keys@.len() == old(self).keys@.len(),
            final(self).children[ci as int].keys@.len() == old(self).children[ci as int].keys@.len() + 1,
            forall|x: T::V| #[trigger] old(self).in_gap(x, ci as int) ==> final(self).in_gap(x, ci as int),
            ({
                let l = old(self).children[ci as int];
                let r = old(self).children[ci + 1];
                let l2 = final(self).children[ci as int];
                let r2 = final(self).children[ci + 1];
                &&& final(self).keys@ == old(self).keys@.update(ci as int, r.keys@[0])
                &&& l2.keys@ == l.keys@.push(old(self).keys@[ci as int])
                &&& r2.keys@ == r.keys@.drop_first()
                &&& l2.leaf == l.leaf && r2.leaf == r.leaf
                &&& r.leaf ==> l2.children@ == l.children@ && r2.children@ == r.children@
                &&& !r.leaf ==> l2.children@ == l.children@.push(r.children@[0]) && r2.children@
                    == r.children@.drop_first()
            }),
            final(self).children@.len() == old(self).children@.len(),
            forall|i: int|
                0 <= i < final(self).children@.len() && i != ci && i != ci + 1 ==> final(self).children[i]
                    == old(self).children[i],
    {
        let ghost m = self.order as nat;
        let ghost old_self = *self;
        assert(self.children.len() == self.children@.len());
        let mut right = self.children.remove(ci + 1);
        let mut left = self.children.remove(ci);
        let ghost lo = *left;
        let ghost ro = *right;
        proof {
            assert(lo == old_self.children[ci as int]);
            assert(ro == old_self.children[ci + 1]);
            assert(old_self.child_separated(ci as int));
            assert(old_self.child_separated(ci + 1));
            assert(lo.shaped(m, (h - 1) as nat));
            assert(ro.shaped(m, (h - 1) as nat));
        }
        let ghost nr = ro.keys@.len() as int;
        let middle_key = self.keys.remove(ci);
        let first_key = right.keys.remove(0);
        let mut moved: Vec<Box<Node<T>>> = Vec::new();
        if !right.leaf {
            moved.push(right.children.remove(0));
        }
        let b: Node<T> = Node { keys: Vec::new(), children: moved, leaf: right.leaf, order: right.order };
        let ghost bg = b;
        proof {
            assert(right.keys@ == ro.keys@.subrange(1, nr));
            assert(!ro.leaf ==> right.children@ == ro.children@.subrange(1, nr + 1));
            assert(bg.keys@ == ro.keys@.subrange(0, 0));
            assert(!ro.leaf ==> bg.children@ == ro.children@.subrange(0, 1));
            Node::lemma_slice(ro, *right, 1, nr, m, (h - 1) as nat);
            Node::lemma_slice(ro, bg, 0, 0, m, (h - 1) as nat);
            assert(first_key@ == ro.key(0));
        }
        left.keys.push(middle_key);
        let mut moved_children = b.children;
        left.children.append(&mut moved_children);
        proof {
            assert(left.keys@ =~= lo.keys@.push(middle_key) + bg.keys@);
            Node::lemma_join(lo, bg, middle_key, *left, m, (h - 1) as nat);
        }
        let ghost l2 = *left;
        let ghost r2 = *right;
        self.keys.insert(ci, first_key);
        self.children.insert(ci, left);
        self.children.insert(ci + 1, right);
        proof {
            let k2 = first_key@;
            let mk = middle_key@;
            assert(ro.has(k2));
            assert(T::precedes(mk, k2));
            assert forall|x: T::V| ro.has(x) <==> r2.has(x) || bg.has(x) || x == k2 by {
                if ro.has(x) {
                    if exists|i: int| 0 <= i < ro.keys@.len() && #[trigger] ro.key(i) == x {
                        let i = choose|i: int| 0 <= i < ro.keys@.len() && #[trigger] ro.key(i) == x;
                        if i > 0 {
                            assert(r2.has(x));
                        }
                    } else {
                        let i = choose|i: int| 0 <= i < ro.children@.len() && (#[trigger] ro.children[i]).has(x);
                        if i > 0 {
                            assert(r2.has(x));
                        } else {
                            assert(bg.has(x));
                        }
                    }
                }
            }
            assert forall|x: T::V| #[trigger] l2.has(x) implies T::precedes(x, k2) by {
                if lo.has(x) {
                    assert(T::precedes(x, mk));
                }
            }
            assert(old_self.key(ci as int) == mk);
            Node::lemma_pair_parent(old_self, *self, ci as int, l2, r2, k2, m, h);
            assert(self.keys@ =~= old_self.keys@.update(ci as int, ro.keys@[0]));
            assert(l2.keys@ =~= lo.keys@.push(old_self.keys@[ci as int]));
            assert(r2.keys@ =~= ro.keys@.drop_first());
            if !ro.leaf {
                assert(l2.children@ =~= lo.children@.push(ro.children@[0]));
                assert(r2.children@ =~= ro.children@.drop_first());
            }
        }
    }
}

impl<T: KeyOrder> Node<T> {
    /// Replacing key `idx` by `k`, which still lies between the children and keys around
    /// it, keeps the node shaped; it then holds `k` in place of the old key.
    pub proof fn lemma_replace_key(s1: Node<T>, s2: Node<T>, idx: int, k: T::V, m: nat, h: nat)
        requires
            s1.shaped(m, h),
            !s1.leaf,
            0 <= idx < s1.keys@.len(),
            forall|x: T::V| #[trigger] s1.children[idx].has(x) ==> T::precedes(x, k),
            forall|x: T::V| #[trigger] s1.children[idx + 1].has(x) ==> T::precedes(k, x),
            idx > 0 ==> T::precedes(s1.key(idx - 1), k),
            idx + 1 < s1.keys@.len() ==> T::precedes(k, s1.key(idx + 1)),
            s2.keys@.len() == s1.keys@.len(),
            s2.key(idx) == k,
            forall|i: int| 0 <= i < s2.keys@.len() && i != idx ==> s2.key(i) == s1.key(i),
            s2.children@ == s1.children@,
            s2.leaf == s1.leaf,
            s2.order == s1.order,
        ensures
            s2.shaped(m, h),
            forall|x: T::V| s2.has(x) <==> (s1.has(x) && x != s1.key(idx)) || x == k,
    {
        let v = s1.key(idx);
        let n = s1.keys@.len() as int;
        assert(s1.child_separated(idx));
        assert(s1.child_separated(idx + 1));
        assert forall|i: int, j: int| 0 <= i < j < s2.keys@.len() implies T::precedes(
            #[trigger] s2.key(i),
            #[trigger] s2.key(j),
        ) by {
            if i == idx {
                if j > idx + 1 {
                    assert(T::precedes(s1.key(idx + 1), s1.key(j)));
                }
            } else if j == idx {
                if i < idx - 1 {
                    assert(T::precedes(s1.key(i), s1.key(idx - 1)));
                }
            } else {
                assert(s2.key(i) == s1.key(i));
                assert(s2.key(j) == s1.key(j));
            }
        }
        assert forall|i: int| 0 <= i < s2.children@.len() implies {
            &&& (#[trigger] s2.children[i]).shaped_except(m, (h - 1) as nat, -1)
            &&& s2.child_separated(i)
            &&& i != -1 ==> s2.children[i].count_ok(m)
        } by {
            assert(s1.child_separated(i));
            assert(s2.children[i] == s1.children[i]);
            if i > 0 && i - 1 != idx {
                assert(s2.key(i - 1) == s1.key(i - 1));
            }
            if i < n && i != idx {
                assert(s2.key(i) == s1.key(i));
            }
        }
        assert forall|x: T::V| s2.has(x) <==> (s1.has(x) && x != v) || x == k by {
            if s2.has(x) {
                if exists|i: int| 0 <= i < s2.keys@.len() && #[trigger] s2.key(i) == x {
                    let i = choose|i: int| 0 <= i < s2.keys@.len() && #[trigger] s2.key(i) == x;
                    if i != idx {
                        assert(s1.key(i) == x);
                    }
                } else {
                    let j = choose|j: int| 0 <= j < s2.children@.len() && (#[trigger] s2.children[j]).has(x);
                    assert(s1.children[j].has(x));
                    assert(s1.child_separated(j));
                    if j < idx {
                        assert(T::precedes(s1.key(j), v));
                    } else if j > idx + 1 {
                        assert(T::precedes(v, s1.key(j - 1)));
                    }
                }
            }
            if s1.has(x) && x != v {
                if exists|i: int| 0 <= i < s1.keys@.len() && #[trigger] s1.key(i) == x {
                    let i = choose|i: int| 0 <= i < s1.keys@.len() && #[trigger] s1.key(i) == x;
                    assert(s2.key(i) == x);
                } else {
                    let j = choose|j: int| 0 <= j < s1.children@.len() && (#[trigger] s1.children[j]).has(x);
                    assert(s2.children[j].has(x));
                }
            }
            if x == k {
                assert(s2.key(idx) == x);
            }
        }
    }

    /// What deleting key `i` of this internal node made of it (`f`): where child `i` has
    /// keys to spare, key `i` is replaced by the largest value below child `i` (its
    /// predecessor); else, where child `i + 1` has keys to spare, by the smallest value
    /// below child `i + 1` (its successor); in both cases the numbers of keys and children
    /// stay. Otherwise the two children are merged around the key, which leaves: the
    /// node loses key `i` and a child, and child `i` holds what the two children held.
    pub open spec fn found_case_done(self, f: Node<T>, i: int) -> bool {
        let t = surplus_keys(self.order as nat);
        if self.children[i].keys@.len() >= t {
            &&& f.keys@.len() == self.keys@.len()
            &&& f.children@.len() == self.children@.len()
            &&& self.children[i].has(f.key(i))
            &&& forall|x: T::V| #[trigger] self.children[i].has(x) && x != f.key(i) ==> T::precedes(x, f.key(i))
        } else if self.children[i + 1].keys@.len() >= t {
            &&& f.keys@.len() == self.keys@.len()
            &&& f.children@.len() == self.children@.len()
            &&& self.children[i + 1].has(f.key(i))
            &&& forall|x: T::V| #[trigger] self.children[i + 1].has(x) && x != f.key(i) ==> T::precedes(f.key(i), x)
        } else {
            &&& f.keys@ == self.keys@.remove(i)
            &&& f.children@.len() == self.children@.len() - 1
            &&& forall|x: T::V| #[trigger] f.children[i].has(x) <==> self.children[i].has(x) || self.children[i + 1].has(x)
        }
    }

    /// Removes `value` from the subtree. On the way down, a child holding only the
    /// fewest keys it may is first given one from a sibling with keys to spare (a
    /// rotation), or else merged with a sibling; a key found in an internal node is
    /// replaced by its predecessor or successor, or its two children are merged.
    #[verifier::rlimit(60)]
    pub fn delete(&mut self, value: &T, Ghost(h): Ghost<nat>)
        requires
            old(self).shaped(old(self).order as nat, h),
            old(self).has(value@),
            !old(self).leaf ==> old(self).keys@.len() >= 1,
        ensures
            final(self).shaped(old(self).order as nat, h),
            final(self).order == old(self).order,
            final(self).leaf == old(self).leaf,
            final(self).contents() == old(self).contents().remove(value@),
            old(self).keys@.len() - 1 <= final(self).keys@.len() <= old(self).keys@.len(),
            forall|i: int|
                0 <= i < old(self).keys@.len() && #[trigger] old(self).key(i) == value@ && !old(self).leaf
                    ==> old(self).found_case_done(*final(self), i),
        decreases h,
    {
        let ghost m = self.order as nat;
        let ghost old_self = *self;
        let ghost v = value@;
        let t: usize = (self.order - 1) / 2 + 1;
        assert(t == surplus_keys(m));
        let (found, idx0) = self.search(value);
        let n_children: usize = self.children.len();
        if found {
            if self.leaf {
                self.keys.remove(idx0);
                proof {
                    let s = *self;
                    let idx = idx0 as int;
                    assert forall|i: int, j: int| 0 <= i < j < s.keys@.len() implies T::precedes(
                        #[trigger] s.key(i),
                        #[trigger] s.key(j),
                    ) by {
                        if i < idx {
                            assert(s.key(i) == old_self.key(i));
                        } else {
                            assert(s.key(i) == old_self.key(i + 1));
                        }
                        if j < idx {
                            assert(s.key(j) == old_self.key(j));
                        } else {
                            assert(s.key(j) == old_self.key(j + 1));
                        }
                    }
                    assert forall|x: T::V| s.has(x) <==> old_self.has(x) && x != v by {
                        if s.has(x) {
                            let i = choose|i: int| 0 <= i < s.keys@.len() && #[trigger] s.key(i) == x;
                            if i < idx {
                                assert(old_self.key(i) == x);
                                assert(T::precedes(old_self.key(i), old_self.key(idx)));
                            } else {
                                assert(old_self.key(i + 1) == x);
                                assert(T::precedes(old_self.key(idx), old_self.key(i + 1)));
                            }
                        }
                        if old_self.has(x) && x != v {
                            let i = choose|i: int| 0 <= i < old_self.keys@.len() && #[trigger] old_self.key(i) == x;
                            if i < idx {
                                assert(s.key(i) == x);
                            } else {
                                assert(s.key(i - 1) == x);
                            }
                        }
                    }
                    assert(s.contents() =~= old_self.contents().remove(v));
                }
                return;
            }
            let idx: usize = idx0;
            proof {
                assert forall|i: int| 0 <= i < old_self.keys@.len() && #[trigger] old_self.key(i) == v implies i == idx by {
                    if i < idx {
                        assert(T::precedes(old_self.key(i), old_self.key(idx as int)));
                    } else if i > idx {
                        assert(T::precedes(old_self.key(idx as int), old_self.key(i)));
                    }
                }
                assert(old_self.child_separated(idx as int));
                assert(old_self.child_separated(idx + 1));
                assert(old_self.children[idx as int].shaped(m, (h - 1) as nat));
                assert(old_self.children[idx + 1].shaped(m, (h - 1) as nat));
                assert(old_self.children[idx as int].count_ok(m));
                assert(old_self.children[idx + 1].count_ok(m));
            }
            if self.children[idx].keys.len() >= t {
                let mut child = self.children.remove(idx);
                let ghost c1 = *child;
                let pred = child.get_rightmost(Ghost(m), Ghost((h - 1) as nat)).duplicate();
                let ghost pv = pred@;
                child.delete(&pred, Ghost((h - 1) as nat));
                let ghost c2 = *child;
                self.children.insert(idx, child);
                let ghost s1 = *self;
                proof {
                    assert(T::precedes(pv, v));
                    assert forall|i: int| 0 <= i < old_self.keys@.len() implies (i < idx ==> T::precedes(
                        #[trigger] old_self.key(i),
                        pv,
                    )) && (i >= idx ==> T::precedes(pv, old_self.key(i))) by {
                        if i < idx {
                            assert(T::precedes(old_self.key(idx - 1), pv));
                        }
                    }
                    Node::lemma_contents_differ_at(c1, c2, pv);
                    Node::lemma_relax(old_self, m, h, idx as int);
                    Node::lemma_replace_child(old_self, s1, idx as int, c2, pv, m, h);
                    assert(s1.key(idx as int) == v);
                }
                self.keys.set(idx, pred);
                proof {
                    assert(s1.child_separated(idx + 1));
                    assert forall|x: T::V| #[trigger] s1.children[idx as int].has(x) implies T::precedes(x, pv) by {
                        assert(c1.has(x));
                    }
                    assert forall|x: T::V| #[trigger] s1.children[idx + 1].has(x) implies T::precedes(pv, x) by {
                        assert(T::precedes(v, x));
                    }
                    if idx + 1 < s1.keys@.len() {
                        assert(T::precedes(v, s1.key(idx + 1)));
                    }
                    Node::lemma_replace_key(s1, *self, idx as int, pv, m, h);
                    assert(self.contents() =~= old_self.contents().remove(v));
                    assert(self.key(idx as int) == pv);
                    assert(old_self.found_case_done(*self, idx as int));
                }
            } else if self.children[idx + 1].keys.len() >= t {
                let mut child = self.children.remove(idx + 1);
                let ghost c1 = *child;
                let succ = child.get_leftmost(Ghost(m), Ghost((h - 1) as nat)).duplicate();
                let ghost sv = succ@;
                child.delete(&succ, Ghost((h - 1) as nat));
                let ghost c2 = *child;
                self.children.insert(idx + 1, child);
                let ghost s1 = *self;
                proof {
                    assert(T::precedes(v, sv));
                    assert forall|i: int| 0 <= i < old_self.keys@.len() implies (i < idx + 1 ==> T::precedes(
                        #[trigger] old_self.key(i),
                        sv,
                    )) && (i >= idx + 1 ==> T::precedes(sv, old_self.key(i))) by {
                        if i >= idx + 1 {
                            assert(T::precedes(sv, old_self.key(idx + 1)));
                        }
                    }
                    Node::lemma_contents_differ_at(c1, c2, sv);
                    Node::lemma_relax(old_self, m, h, idx + 1);
                    Node::lemma_replace_child(old_self, s1, idx + 1, c2, sv, m, h);
                    assert(s1.key(idx as int) == v);
                }
                self.keys.set(idx, succ);
                proof {
                    assert(s1.child_separated(idx as int));
                    assert forall|x: T::V| #[trigger] s1.children[idx as int].has(x) implies T::precedes(x, sv) by {
                        assert(T::precedes(x, v));
                    }
                    assert forall|x: T::V| #[trigger] s1.children[idx + 1].has(x) implies T::precedes(sv, x) by {
                        assert(c1.has(x));
                    }
                    if idx > 0 {
                        assert(T::precedes(s1.key(idx - 1), v));
                    }
                    Node::lemma_replace_key(s1, *self, idx as int, sv, m, h);
                    assert(self.contents() =~= old_self.contents().remove(v));
                    assert(self.key(idx as int) == sv);
                    assert(old_self.found_case_done(*self, idx as int));
                }
            } else {
                self.merge(idx, Ghost(h));
                let ghost mid_self = *self;
                let mut child = self.children.remove(idx);
                let ghost c1 = *child;
                proof {
                    assert(c1 == mid_self.children[idx as int]);
                    assert(c1.has(v));
                    assert(mid_self.in_gap(v, idx as int));
                    assert(c1.shaped(m, (h - 1) as nat));
                }
                child.delete(value, Ghost((h - 1) as nat));
                let ghost c2 = *child;
                self.children.insert(idx, child);
                proof {
                    Node::lemma_contents_differ_at(c1, c2, v);
                    Node::lemma_relax(mid_self, m, h, idx as int);
                    Node::lemma_replace_child(mid_self, *self, idx as int, c2, v, m, h);
                    assert(self.contents() =~= old_self.contents().remove(v));
                    assert forall|x: T::V| #[trigger] self.children[idx as int].has(x) <==> old_self.children[idx as int].has(x)
                        || old_self.children[idx + 1].has(x) by {
                        if old_self.children[idx as int].has(x) {
                            assert(T::precedes(x, v));
                        }
                        if old_self.children[idx + 1].has(x) {
                            assert(T::precedes(v, x));
                        }
                    }
                    assert(old_self.found_case_done(*self, idx as int));
                }
            }
        } else {
            if self.leaf {
                proof {
                    assert forall|i: int| 0 <= i < self.keys@.len() implies #[trigger] self.key(i) != v by {
                        T::lemma_irreflexive(v);
                    }
                }
                return;
            }
            let mut idx: usize = idx0;
            proof {
                assert(self.in_gap(v, idx as int));
                assert(self.children[idx as int].count_ok(m));
                if idx > 0 {
                    assert(self.children[idx - 1].count_ok(m));
                }
                if idx + 1 < n_children {
                    assert(self.children[idx + 1].count_ok(m));
                }
            }
            if self.children[idx].keys.len() < t {
                if idx > 0 && self.children[idx - 1].keys.len() >= t {
                    self.rotate_right(idx, Ghost(h));
                } else if idx < n_children - 1 && self.children[idx + 1].keys.len() >= t {
                    self.rotate_left(idx, Ghost(h));
                } else if idx == n_children - 1 {
                    self.merge(idx - 1, Ghost(h));
                    idx = idx - 1;
                } else {
                    self.merge(idx, Ghost(h));
                }
            }
            let ghost mid_self = *self;
            proof {
                assert(mid_self.contents() == old_self.contents());
                assert(mid_self.in_gap(v, idx as int));
                assert(mid_self.has(v)) by {
                    assert(mid_self.contents().contains(v));
                }
                mid_self.lemma_descend(m, h, -1, v, idx as int);
            }
            let mut child = self.children.remove(idx);
            let ghost c1 = *child;
            proof {
                assert(c1 == mid_self.children[idx as int]);
                assert(c1.shaped(m, (h - 1) as nat));
            }
            child.delete(value, Ghost((h - 1) as nat));
            let ghost c2 = *child;
            self.children.insert(idx, child);
            proof {
                Node::lemma_contents_differ_at(c1, c2, v);
                Node::lemma_relax(mid_self, m, h, idx as int);
                Node::lemma_replace_child(mid_self, *self, idx as int, c2, v, m, h);
                assert(self.contents() =~= old_self.contents().remove(v));
            }
        }
    }
}

impl<T: KeyOrder> Node<T> {
    /// The value `x` is among the first `i` keys, or held by one of the first `i` children.
    pub open spec fn covered(self, i: int, x: T::V) -> bool {
        (exists|j: int| 0 <= j < i && #[trigger] self.key(j) == x) || (!self.leaf && exists|j: int|
            0 <= j < i && (#[trigger] self.children[j]).has(x))
    }

    /// Appends the subtree's keys to `out` in order: each child's keys, then the key
    /// after it.
    pub fn traverse(&self, out: &mut Vec<T>, Ghost(m): Ghost<nat>, Ghost(h): Ghost<nat>)
        requires
            self.shaped(m, h),
        ensures
            final(out)@.len() >= old(out)@.len(),
            forall|k: int| 0 <= k < old(out)@.len() ==> final(out)@[k] == old(out)@[k],
            forall|k: int|
                old(out)@.len() <= k < final(out)@.len() ==> self.has(#[trigger] final(out)@[k]@),
            forall|x: T::V|
                #[trigger] self.has(x) ==> exists|k: int|
                    old(out)@.len() <= k < final(out)@.len() && #[trigger] final(out)@[k]@ == x,
            forall|k1: int, k2: int|
                old(out)@.len() <= k1 < k2 < final(out)@.len() ==> T::precedes(
                    #[trigger] final(out)@[k1]@,
                    #[trigger] final(out)@[k2]@,
                ),
        decreases h,
    {
        let ghost start = out@.len() as int;
        let ghost out0 = out@;
        let n: usize = self.keys.len();
        let mut i: usize = 0;
        while i < n
            invariant
                self.shaped(m, h),
                n == self.keys@.len(),
                0 <= i <= n,
                0 <= start <= out@.len(),
                i == 0 ==> out@.len() == start,
                forall|k: int| 0 <= k < start ==> out@[k] == out0[k],
                forall|k: int|
                    start <= k < out@.len() ==> self.has(#[trigger] out@[k]@) && (i > 0 ==> (out@[k]@
                        == self.key(i - 1) || T::precedes(out@[k]@, self.key(i - 1)))),
                forall|k1: int, k2: int|
                    start <= k1 < k2 < out@.len() ==> T::precedes(#[trigger] out@[k1]@, #[trigger] out@[k2]@),
                forall|x: T::V|
                    #[trigger] self.covered(i as int, x) ==> exists|k: int|
                        start <= k < out@.len() && #[trigger] out@[k]@ == x,
            decreases n - i,
        {
            let ghost out1 = out@;
            if !self.leaf {
                let child = &self.children[i];
                proof {
                    assert(self.child_separated(i as int));
                    assert(child.shaped(m, (h - 1) as nat));
                }
                child.traverse(out, Ghost(m), Ghost((h - 1) as nat));
                proof {
                    assert forall|k: int| start <= k < out@.len() implies self.has(#[trigger] out@[k]@)
                        && T::precedes(out@[k]@, self.key(i as int)) by {
                        if k < out1.len() {
                            assert(out@[k] == out1[k]);
                            if i > 0 {
                                assert(T::precedes(self.key(i - 1), self.key(i as int)));
                            }
                        } else {
                            assert(self.children[i as int].has(out@[k]@));
                        }
                    }
                    assert forall|k1: int, k2: int| start <= k1 < k2 < out@.len() implies T::precedes(
                        #[trigger] out@[k1]@,
                        #[trigger] out@[k2]@,
                    ) by {
                        if k2 < out1.len() {
                            assert(out@[k1] == out1[k1]);
                            assert(out@[k2] == out1[k2]);
                        } else if k1 < out1.len() {
                            assert(out@[k1] == out1[k1]);
                            assert(self.children[i as int].has(out@[k2]@));
                            if out@[k1]@ != self.key(i - 1) {
                                assert(T::precedes(out@[k1]@, self.key(i - 1)));
                            }
                        }
                    }
                }
            } else {
                proof {
                    assert forall|k: int| start <= k < out@.len() implies T::precedes(
                        #[trigger] out@[k]@,
                        self.key(i as int),
                    ) by {
                        if i > 0 {
                            assert(T::precedes(self.key(i - 1), self.key(i as int)));
                        }
                    }
                }
            }
            let ghost out2 = out@;
            let kcopy = self.keys[i].duplicate();
            out.push(kcopy);
            proof {
                let kv = self.key(i as int);
                assert(out@ == out2.push(kcopy));
                assert(out@[out@.len() - 1]@ == kv);
                assert(self.has(kv));
                assert forall|k: int| start <= k < out@.len() implies self.has(#[trigger] out@[k]@) && (
                out@[k]@ == kv || T::precedes(out@[k]@, kv)) by {
                    if k < out2.len() {
                        assert(out@[k] == out2[k]);
                    }
                }
                assert forall|k1: int, k2: int| start <= k1 < k2 < out@.len() implies T::precedes(
                    #[trigger] out@[k1]@,
                    #[trigger] out@[k2]@,
                ) by {
                    assert(out@[k1] == out2[k1]);
                    if k2 < out2.len() {
                        assert(out@[k2] == out2[k2]);
                    }
                }
                assert forall|x: T::V| #[trigger] self.covered(i + 1, x) implies exists|k: int|
                    start <= k < out@.len() && #[trigger] out@[k]@ == x by {
                    if x == kv {
                        assert(out@[out@.len() - 1]@ == x);
                    } else if self.covered(i as int, x) {
                        let k = choose|k: int| start <= k < out1.len() && #[trigger] out1[k]@ == x;
                        assert(out@[k] == out1[k]);
                    } else {
                        if exists|j: int| 0 <= j < i + 1 && #[trigger] self.key(j) == x {
                            let j = choose|j: int| 0 <= j < i + 1 && #[trigger] self.key(j) == x;
                            assert(j == i);
                        } else {
                            let j = choose|j: int| 0 <= j < i + 1 && (#[trigger] self.children[j]).has(x);
                            assert(j == i);
                            assert(!self.leaf);
                            assert(self.children[i as int].has(x));
                            let k = choose|k: int| out1.len() <= k < out2.len() && #[trigger] out2[k]@ == x;
                            assert(out@[k] == out2[k]);
                        }
                    }
                }
            }
            i = i + 1;
        }
        if !self.leaf {
            let ghost out1 = out@;
            let child = &self.children[n];
            proof {
                assert(self.child_separated(n as int));
                assert(child.shaped(m, (h - 1) as nat));
            }
            child.traverse(out, Ghost(m), Ghost((h - 1) as nat));
            proof {
                assert forall|k1: int, k2: int| start <= k1 < k2 < out@.len() implies T::precedes(
                    #[trigger] out@[k1]@,
                    #[trigger] out@[k2]@,
                ) by {
                    if k2 < out1.len() {
                        assert(out@[k1] == out1[k1]);
                        assert(out@[k2] == out1[k2]);
                    } else if k1 < out1.len() {
                        assert(out@[k1] == out1[k1]);
                        assert(self.children[n as int].has(out@[k2]@));
                        if n > 0 && out@[k1]@ != self.key(n - 1) {
                            assert(T::precedes(out@[k1]@, self.key(n - 1)));
                        }
                    }
                }
                assert forall|k: int| start <= k < out@.len() implies self.has(#[trigger] out@[k]@) by {
                    if k < out1.len() {
                        assert(out@[k] == out1[k]);
                    } else {
                        assert(self.children[n as int].has(out@[k]@));
                    }
                }
                assert forall|x: T::V| #[trigger] self.has(x) implies exists|k: int|
                    start <= k < out@.len() && #[trigger] out@[k]@ == x by {
                    if self.covered(n as int, x) {
                        let k = choose|k: int| start <= k < out1.len() && #[trigger] out1[k]@ == x;
                        assert(out@[k] == out1[k]);
                    } else {
                        if exists|j: int| 0 <= j < n && #[trigger] self.key(j) == x {
                        } else {
                            let j = choose|j: int| 0 <= j < self.children@.len() && (#[trigger] self.children[j]).has(x);
                            assert(j == n);
                        }
                    }
                }
            }
        } else {
            proof {
                assert forall|x: T::V| #[trigger] self.has(x) implies exists|k: int|
                    start <= k < out@.len() && #[trigger] out@[k]@ == x by {
                    let j = choose|j: int| 0 <= j < n && #[trigger] self.key(j) == x;
                    assert(self.covered(n as int, x));
                }
            }
        }
    }
}

impl<T: KeyOrder> Node<T> {
    /// Every leaf of the subtree lies `d` levels below this node.
    pub open spec fn leaves_at_depth(self, d: nat) -> bool
        decreases self,
    {
        if self.leaf {
            d == 0 && self.children@.len() == 0
        } else {
            d > 0 && forall|i: int|
                0 <= i < self.children@.len() ==> (#[trigger] self.children[i]).leaves_at_depth(
                    (d - 1) as nat,
                )
        }
    }

    /// Every internal node of the subtree has one child more than it has keys, and every
    /// node below this one holds a permitted number of keys (see `count_ok`).
    pub open spec fn counts_within_bounds(self, m: nat) -> bool
        decreases self,
    {
        if self.leaf {
            self.children@.len() == 0
        } else {
            &&& self.children@.len() == self.keys@.len() + 1
            &&& forall|i: int|
                0 <= i < self.children@.len() ==> (#[trigger] self.children[i]).count_ok(m)
                    && self.children[i].counts_within_bounds(m)
        }
    }

    /// A shaped subtree has its leaves at depth `h` and its nodes within their bounds.
    pub proof fn lemma_shaped_is_balanced(self, m: nat, h: nat)
        requires
            self.shaped(m, h),
        ensures
            self.leaves_at_depth(h),
            self.counts_within_bounds(m),
        decreases self,
    {
        if !self.leaf {
            assert forall|i: int| 0 <= i < self.children@.len() implies (#[trigger] self.children[i]).leaves_at_depth(
                (h - 1) as nat,
            ) && self.children[i].count_ok(m) && self.children[i].counts_within_bounds(m) by {
                self.children[i].lemma_shaped_is_balanced(m, (h - 1) as nat);
            }
        }
    }
}

impl<T: KeyOrder> Node<T> {
    /// A subtree whose contents are another's with `v` added (or taken out) holds the
    /// same values as the other but for `v`, which it holds (or does not).
    pub proof fn lemma_contents_differ_at(c1: Node<T>, c2: Node<T>, v: T::V)
        requires
            c2.contents() == c1.contents().insert(v) || c2.contents() == c1.contents().remove(v),
        ensures
            forall|x: T::V| x != v ==> (c2.has(x) <==> c1.has(x)),
            c2.contents() == c1.contents().insert(v) ==> c2.has(v),
            c2.contents() == c1.contents().remove(v) ==> !c2.has(v),
    {
        assert forall|x: T::V| x != v implies (c2.has(x) <==> c1.has(x)) by {
            assert(c2.contents().contains(x) == c2.has(x));
            assert(c1.contents().contains(x) == c1.has(x));
        }
        assert(c2.contents().contains(v) == c2.has(v));
    }
}

impl<T: KeyOrder> Node<T> {
    /// No node of the subtree holds more than `k` keys.
    pub open spec fn nodes_within(self, k: nat) -> bool
        decreases self,
    {
        &&& self.keys@.len() <= k
        &&& forall|i: int|
            0 <= i < self.children@.len() ==> (#[trigger] self.children[i]).nodes_within(k)
    }

    /// No node below this one holds more than `k` keys.
    pub open spec fn children_within(self, k: nat) -> bool {
        forall|i: int| 0 <= i < self.children@.len() ==> (#[trigger] self.children[i]).nodes_within(k)
    }

    /// Replacing child `ci` by `c2`, with no node of `c2` over `k` keys, keeps every node
    /// below the parent within `k` keys.
    pub proof fn lemma_replace_within(old: Node<T>, s: Node<T>, ci: int, c2: Node<T>, k: nat)
        requires
            old.children_within(k),
            c2.keys@.len() <= k,
            c2.children_within(k),
            s.children@.len() == old.children@.len(),
            0 <= ci < s.children@.len(),
            s.children[ci] == c2,
            forall|j: int| 0 <= j < s.children@.len() && j != ci ==> s.children[j] == old.children[j],
        ensures
            s.children_within(k),
    {
        assert(c2.nodes_within(k));
        assert forall|j: int| 0 <= j < s.children@.len() implies (#[trigger] s.children[j]).nodes_within(k) by {
            if j != ci {
                assert(old.children[j].nodes_within(k));
            }
        }
    }

    /// Splitting child `ci` of `old`, whose own children are within `k` keys and whose
    /// halves hold at most `k` keys, keeps every node below the parent within `k` keys.
    pub proof fn lemma_split_within(old: Node<T>, s: Node<T>, ci: int, k: nat)
        requires
            0 <= ci < old.children@.len(),
            forall|j: int| 0 <= j < old.children@.len() && j != ci ==> (#[trigger] old.children[j]).nodes_within(k),
            old.children[ci].children_within(k),
            !old.children[ci].leaf ==> old.children[ci].children@.len() == old.children[ci].keys@.len() + 1,
            old.children[ci].keys@.len() >= 1,
            ({
                let c = old.children[ci];
                let mid = (c.keys@.len() / 2) as int;
                let l = s.children[ci];
                let r = s.children[ci + 1];
                &&& s.children@.len() == old.children@.len() + 1
                &&& mid <= k && c.keys@.len() - mid - 1 <= k
                &&& l.keys@ == c.keys@.subrange(0, mid)
                &&& r.keys@ == c.keys@.subrange(mid + 1, c.keys@.len() as int)
                &&& c.leaf ==> l.children@.len() == 0 && r.children@.len() == 0
                &&& !c.leaf ==> l.children@ == c.children@.subrange(0, mid + 1)
                &&& !c.leaf ==> r.children@ == c.children@.subrange(mid + 1, c.children@.len() as int)
            }),
            forall|j: int| 0 <= j < ci ==> s.children[j] == old.children[j],
            forall|j: int| ci + 1 < j < s.children@.len() ==> s.children[j] == old.children[j - 1],
        ensures
            s.children_within(k),
    {
        let c = old.children[ci];
        let mid = (c.keys@.len() / 2) as int;
        let l = s.children[ci];
        let r = s.children[ci + 1];
        assert forall|i: int| 0 <= i < l.children@.len() implies (#[trigger] l.children[i]).nodes_within(k) by {
            assert(l.children[i] == c.children[i]);
        }
        assert forall|i: int| 0 <= i < r.children@.len() implies (#[trigger] r.children[i]).nodes_within(k) by {
            assert(r.children[i] == c.children[mid + 1 + i]);
        }
        assert(l.nodes_within(k));
        assert(r.nodes_within(k));
        assert forall|j: int| 0 <= j < s.children@.len() implies (#[trigger] s.children[j]).nodes_within(k) by {
            if j < ci {
                assert(old.children[j].nodes_within(k));
            } else if j > ci + 1 {
                assert(old.children[j - 1].nodes_within(k));
            }
        }
    }
}

impl<T: KeyOrder> Node<T> {
    /// Merging child `i` right after splitting it (`s0` to `s1` by `split_child`, `s1` to
    /// `s2` by `merge`, as their contracts describe) gives back the node's keys, the child's
    /// keys and children, and every other child.
    pub proof fn lemma_merge_undoes_split(s0: Node<T>, s1: Node<T>, s2: Node<T>, i: int)
        requires
            0 <= i < s0.children@.len(),
            s0.children@.len() == s0.keys@.len() + 1,
            s0.children[i].keys@.len() >= 1,
            s0.children[i].leaf ==> s0.children[i].children@.len() == 0,
            !s0.children[i].leaf ==> s0.children[i].children@.len() == s0.children[i].keys@.len() + 1,
            ({
                let c = s0.children[i];
                let mid = (c.keys@.len() / 2) as int;
                let l = s1.children[i];
                let r = s1.children[i + 1];
                &&& s1.keys@ == s0.keys@.insert(i, c.keys@[mid])
                &&& s1.children@.len() == s0.children@.len() + 1
                &&& l.keys@ == c.keys@.subrange(0, mid)
                &&& r.keys@ == c.keys@.subrange(mid + 1, c.keys@.len() as int)
                &&& l.leaf == c.leaf && l.order == c.order
                &&& c.leaf ==> l.children@.len() == 0 && r.children@.len() == 0
                &&& !c.leaf ==> l.children@ == c.children@.subrange(0, mid + 1)
                &&& !c.leaf ==> r.children@ == c.children@.subrange(mid + 1, c.children@.len() as int)
            }),
            forall|j: int| 0 <= j < i ==> s1.children[j] == s0.children[j],
            forall|j: int| i + 1 < j < s1.children@.len() ==> s1.children[j] == s0.children[j - 1],
            ({
                let l = s1.children[i];
                let r = s1.children[i + 1];
                let m = s2.children[i];
                &&& s2.keys@ == s1.keys@.remove(i)
                &&& m.keys@ == l.keys@.push(s1.keys@[i]) + r.keys@
                &&& m.children@ == l.children@ + r.children@
                &&& m.leaf == l.leaf && m.order == l.order
            }),
            s2.children@.len() == s1.children@.len() - 1,
            forall|j: int| 0 <= j < i ==> s2.children[j] == s1.children[j],
            forall|j: int| i < j < s2.children@.len() ==> s2.children[j] == s1.children[j + 1],
        ensures
            s2.keys@ == s0.keys@,
            s2.children@.len() == s0.children@.len(),
            s2.children[i].keys@ == s0.children[i].keys@,
            s2.children[i].children@ == s0.children[i].children@,
            s2.children[i].leaf == s0.children[i].leaf,
            s2.children[i].order == s0.children[i].order,
            forall|j: int| 0 <= j < s2.children@.len() && j != i ==> s2.children[j] == s0.children[j],
    {
        let c = s0.children[i];
        let mid = (c.keys@.len() / 2) as int;
        assert(s1.keys@[i] == c.keys@[mid]);
        assert forall|k: int| 0 <= k < s0.keys@.len() implies #[trigger] s2.keys@[k] == s0.keys@[k] by {
            if k < i {
                assert(s2.keys@[k] == s1.keys@[k]);
            } else {
                assert(s2.keys@[k] == s1.keys@[k + 1]);
            }
        }
        assert(s2.keys@ =~= s0.keys@);
        let l = s1.children[i];
        assert forall|k: int| 0 <= k < c.keys@.len() implies #[trigger] s2.children[i].keys@[k] == c.keys@[k] by {
            if k < mid {
                assert(l.keys@[k] == c.keys@[k]);
            } else if k > mid {
                assert(s1.children[i + 1].keys@[k - mid - 1] == c.keys@[k]);
            }
        }
        assert(s2.children[i].keys@ =~= c.keys@);
        assert(s2.children[i].children@ =~= c.children@);
        assert forall|j: int| 0 <= j < s2.children@.len() && j != i implies s2.children[j] == s0.children[j] by {
            if j > i {
                assert(s2.children[j] == s1.children[j + 1]);
            }
        }
    }
}

impl<T: KeyOrder> Node<T> {
    /// A rotation to the left at `i` (`s0` to `s1`, as `rotate_left` describes) followed
    /// by one to the right at `i + 1` (`s1` to `s2`, as `rotate_right` describes) gives
    /// back the node's keys and the keys and children of the two children involved.
    pub proof fn lemma_rotations_undo(s0: Node<T>, s1: Node<T>, s2: Node<T>, i: int)
        requires
            0 <= i < s0.keys@.len(),
            i + 1 < s0.children@.len(),
            s0.children[i + 1].keys@.len() >= 1,
            s0.children[i].leaf == s0.children[i + 1].leaf,
            !s0.children[i + 1].leaf ==> s0.children[i + 1].children@.len() >= 1,
            ({
                let l = s0.children[i];
                let r = s0.children[i + 1];
                let l2 = s1.children[i];
                let r2 = s1.children[i + 1];
                &&& s1.keys@ == s0.keys@.update(i, r.keys@[0])
                &&& l2.keys@ == l.keys@.push(s0.keys@[i])
                &&& r2.keys@ == r.keys@.drop_first()
                &&& l2.leaf == l.leaf && r2.leaf == r.leaf
                &&& r.leaf ==> l2.children@ == l.children@ && r2.children@ == r.children@
                &&& !r.leaf ==> l2.children@ == l.children@.push(r.children@[0]) && r2.children@
                    == r.children@.drop_first()
            }),
            ({
                let l = s1.children[i];
                let r = s1.children[i + 1];
                let l2 = s2.children[i];
                let r2 = s2.children[i + 1];
                &&& s2.keys@ == s1.keys@.update(i, l.keys@.last())
                &&& l2.keys@ == l.keys@.drop_last()
                &&& r2.keys@ == seq![s1.keys@[i]] + r.keys@
                &&& l2.leaf == l.leaf && r2.leaf == r.leaf
                &&& l.leaf ==> l2.children@ == l.children@ && r2.children@ == r.children@
                &&& !l.leaf ==> l2.children@ == l.children@.drop_last() && r2.children@ == seq![
                    l.children@.last(),
                ] + r.children@
            }),
        ensures
            s2.keys@ == s0.keys@,
            s2.children[i].keys@ == s0.children[i].keys@,
            s2.children[i + 1].keys@ == s0.children[i + 1].keys@,
            s2.children[i].children@ == s0.children[i].children@,
            s2.children[i + 1].children@ == s0.children[i + 1].children@,
            s2.children[i].leaf == s0.children[i].leaf,
            s2.children[i + 1].leaf == s0.children[i + 1].leaf,
    {
        let l = s0.children[i];
        let r = s0.children[i + 1];
        assert(s2.keys@ =~= s0.keys@);
        assert(s2.children[i].keys@ =~= l.keys@);
        assert(s2.children[i + 1].keys@ =~= r.keys@);
        assert(s2.children[i].children@ =~= l.children@);
        assert(s2.children[i + 1].children@ =~= r.children@);
    }
}

} // verus!
