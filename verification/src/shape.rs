//! The mathematical model of a treap: a binary tree of entries, each a key,
//! a value and a priority, together with the operations and invariants that
//! the executable tree is specified against.

use crate::order::lawful;
use crate::order::le;
use crate::order::lt;
use vstd::prelude::*;

verus! {

/// A binary tree of `(key, value, priority)` entries.
pub enum Shape<K, V, P> {
    /// The tree without nodes.
    Empty,
    /// A node with its two subtrees.
    Fork { left: Box<Shape<K, V, P>>, key: K, value: V, priority: P, right: Box<Shape<K, V, P>> },
}

impl<K: Ord, V, P: Ord> Shape<K, V, P> {
    /// The tree of one node.
    pub open spec fn leaf(key: K, value: V, priority: P) -> Self {
        Shape::Fork {
            left: Box::new(Shape::Empty),
            key,
            value,
            priority,
            right: Box::new(Shape::Empty),
        }
    }

    /// Some node carries the key `k`.
    pub open spec fn holds(self, k: K) -> bool
        decreases self,
    {
        match self {
            Shape::Empty => false,
            Shape::Fork { left, key, right, .. } => key == k || left.holds(k) || right.holds(k),
        }
    }

    /// The value stored with `k`; meaningful where `holds(k)`.
    pub open spec fn value_of(self, k: K) -> V
        decreases self,
    {
        match self {
            Shape::Empty => arbitrary(),
            Shape::Fork { left, key, value, right, .. } => if key == k {
                value
            } else if left.holds(k) {
                left.value_of(k)
            } else {
                right.value_of(k)
            },
        }
    }

    /// The tree as a finite map from keys to values.
    pub open spec fn entries(self) -> Map<K, V> {
        Map::new(|k: K| self.holds(k), |k: K| self.value_of(k))
    }

    /// Some node carries the priority `p`.
    pub open spec fn has_priority(self, p: P) -> bool
        decreases self,
    {
        match self {
            Shape::Empty => false,
            Shape::Fork { left, priority, right, .. } => priority == p || left.has_priority(p)
                || right.has_priority(p),
        }
    }

    /// Some node carries the entry `e`: its key, value and priority.
    pub open spec fn has_entry(self, e: (K, V, P)) -> bool
        decreases self,
    {
        match self {
            Shape::Empty => false,
            Shape::Fork { left, key, value, priority, right } => (key, value, priority) == e
                || left.has_entry(e) || right.has_entry(e),
        }
    }

    /// The keys in in-order: left subtree, node, right subtree.
    pub open spec fn keys(self) -> Seq<K>
        decreases self,
    {
        match self {
            Shape::Empty => Seq::empty(),
            Shape::Fork { left, key, right, .. } => left.keys().push(key) + right.keys(),
        }
    }

    /// The entries in the order of the listing: a node, then its right
    /// subtree, then its left one.
    pub open spec fn walk(self) -> Seq<(K, V, P)>
        decreases self,
    {
        match self {
            Shape::Empty => Seq::empty(),
            Shape::Fork { left, key, value, priority, right } => seq![(key, value, priority)]
                + right.walk() + left.walk(),
        }
    }

    /// The root exists and has a left child.
    pub open spec fn has_left(self) -> bool {
        self matches Shape::Fork { left, .. } && *left is Fork
    }

    /// The number of nodes.
    pub open spec fn size(self) -> nat
        decreases self,
    {
        match self {
            Shape::Empty => 0,
            Shape::Fork { left, right, .. } => 1 + left.size() + right.size(),
        }
    }

    /// The number of nodes on the longest path from the root down; 0 for the
    /// empty tree.
    pub open spec fn height(self) -> nat
        decreases self,
    {
        match self {
            Shape::Empty => 0,
            Shape::Fork { left, right, .. } => if left.height() >= right.height() {
                1 + left.height()
            } else {
                1 + right.height()
            },
        }
    }

    /// At every node, the keys to the left are strictly smaller and the keys
    /// to the right strictly greater than the node's key.
    pub open spec fn is_search_tree(self) -> bool
        decreases self,
    {
        match self {
            Shape::Empty => true,
            Shape::Fork { left, key, right, .. } => {
                &&& forall|k: K| #[trigger] left.holds(k) ==> lt(k, key)
                &&& forall|k: K| #[trigger] right.holds(k) ==> lt(key, k)
                &&& left.is_search_tree()
                &&& right.is_search_tree()
            },
        }
    }

    /// The root, if there is one, has a priority of at least `bound`.
    pub open spec fn tops_at_least(self, bound: P) -> bool {
        self matches Shape::Fork { priority, .. } ==> le(bound, priority)
    }

    /// The root exists and has a priority strictly below `bound`.
    pub open spec fn tops_below(self, bound: P) -> bool {
        self matches Shape::Fork { priority, .. } && lt(priority, bound)
    }

    /// The root exists and `p` is strictly below its priority.
    pub open spec fn tops_below_root(self, p: P) -> bool {
        self matches Shape::Fork { priority, .. } && lt(p, priority)
    }

    /// No node has a priority above that of either child.
    pub open spec fn is_heap(self) -> bool
        decreases self,
    {
        match self {
            Shape::Empty => true,
            Shape::Fork { left, priority, right, .. } => {
                &&& left.tops_at_least(priority)
                &&& right.tops_at_least(priority)
                &&& left.is_heap()
                &&& right.is_heap()
            },
        }
    }

    /// The root, if there is one, has a priority strictly above `bound`.
    pub open spec fn tops_above(self, bound: P) -> bool {
        self matches Shape::Fork { priority, .. } ==> lt(bound, priority)
    }

    /// Every node has a priority strictly below that of either child.
    pub open spec fn is_strict_heap(self) -> bool
        decreases self,
    {
        match self {
            Shape::Empty => true,
            Shape::Fork { left, priority, right, .. } => {
                &&& left.tops_above(priority)
                &&& right.tops_above(priority)
                &&& left.is_strict_heap()
                &&& right.is_strict_heap()
            },
        }
    }

    /// The tree is a treap: keys and priorities are lawfully ordered, the
    /// keys form a search tree and the priorities a min-heap.
    pub open spec fn wf(self) -> bool {
        &&& lawful::<K>()
        &&& lawful::<P>()
        &&& self.is_search_tree()
        &&& self.is_heap()
    }

    /// The left child takes the root's place; the root becomes its right
    /// child and adopts the child's former right subtree as its left one.
    /// A tree without a left child is left as it is.
    pub open spec fn rotate_right(self) -> Self {
        match self {
            Shape::Empty => self,
            Shape::Fork { left, key, value, priority, right } => match *left {
                Shape::Empty => self,
                Shape::Fork { left: ll, key: lk, value: lv, priority: lp, right: lr } => Shape::Fork {
                    left: ll,
                    key: lk,
                    value: lv,
                    priority: lp,
                    right: Box::new(Shape::Fork { left: lr, key, value, priority, right }),
                },
            },
        }
    }

    /// The mirror image of `rotate_right`: the right child takes the root's
    /// place.
    pub open spec fn rotate_left(self) -> Self {
        match self {
            Shape::Empty => self,
            Shape::Fork { left, key, value, priority, right } => match *right {
                Shape::Empty => self,
                Shape::Fork { left: rl, key: rk, value: rv, priority: rp, right: rr } => Shape::Fork {
                    left: Box::new(Shape::Fork { left, key, value, priority, right: rl }),
                    key: rk,
                    value: rv,
                    priority: rp,
                    right: rr,
                },
            },
        }
    }

    /// The tree after inserting `k` with value `v`, where `p` is the priority
    /// a new node would get. A node that already carries `k` keeps its place
    /// and its priority and takes the value. A new node starts as a leaf at
    /// the place the search for `k` ends, and on the way back up is rotated
    /// above each ancestor whose priority is strictly greater than `p`.
    pub open spec fn insert(self, k: K, v: V, p: P) -> Self
        decreases self,
    {
        match self {
            Shape::Empty => Self::leaf(k, v, p),
            Shape::Fork { left, key, value, priority, right } => if lt(k, key) {
                let grown = left.insert(k, v, p);
                let joined = Shape::Fork { left: Box::new(grown), key, value, priority, right };
                if grown.tops_below(priority) {
                    joined.rotate_right()
                } else {
                    joined
                }
            } else if lt(key, k) {
                let grown = right.insert(k, v, p);
                let joined = Shape::Fork { left, key, value, priority, right: Box::new(grown) };
                if grown.tops_below(priority) {
                    joined.rotate_left()
                } else {
                    joined
                }
            } else {
                Shape::Fork { left, key, value: v, priority, right }
            },
        }
    }

    /// What a search for `k` from the root finds: at each node it goes left
    /// for a smaller key, right for a greater one, and stops on the node's
    /// value otherwise.
    pub open spec fn find(self, k: K) -> Option<V>
        decreases self,
    {
        match self {
            Shape::Empty => None,
            Shape::Fork { left, key, value, right, .. } => if lt(k, key) {
                left.find(k)
            } else if lt(key, k) {
                right.find(k)
            } else {
                Some(value)
            },
        }
    }

    /// The tree with `v` in place of the value that a search for `k` finds;
    /// the tree itself where the search finds nothing.
    pub open spec fn with_value(self, k: K, v: V) -> Self
        decreases self,
    {
        match self {
            Shape::Empty => self,
            Shape::Fork { left, key, value, priority, right } => if lt(k, key) {
                Shape::Fork { left: Box::new(left.with_value(k, v)), key, value, priority, right }
            } else if lt(key, k) {
                Shape::Fork { left, key, value, priority, right: Box::new(right.with_value(k, v)) }
            } else {
                Shape::Fork { left, key, value: v, priority, right }
            },
        }
    }

    /// The tree that inserting the entries of `ops` one after the other,
    /// each as `(key, value, priority)`, builds from the empty tree.
    pub open spec fn built(ops: Seq<(K, V, P)>) -> Self
        decreases ops.len(),
    {
        if ops.len() == 0 {
            Shape::Empty
        } else {
            Self::built(ops.drop_last()).insert(ops.last().0, ops.last().1, ops.last().2)
        }
    }

    /// The value that the last entry of `ops` with key `k` assigns to it, if
    /// any entry has that key.
    pub open spec fn last_value(ops: Seq<(K, V, P)>, k: K) -> Option<V>
        decreases ops.len(),
    {
        if ops.len() == 0 {
            None
        } else if ops.last().0 == k {
            Some(ops.last().1)
        } else {
            Self::last_value(ops.drop_last(), k)
        }
    }

    /// Whether a descent by priority meets `p`: from the root it goes left
    /// where `p` is smaller than the node's priority, right where it is
    /// greater, and succeeds on a node whose priority is `p`.
    pub open spec fn probe(self, p: P) -> bool
        decreases self,
    {
        match self {
            Shape::Empty => false,
            Shape::Fork { left, priority, right, .. } => if lt(p, priority) {
                left.probe(p)
            } else if lt(priority, p) {
                right.probe(p)
            } else {
                true
            },
        }
    }
}

} // verus!
