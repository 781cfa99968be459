//! The treap itself: nodes owned by their parents, rotations, and the
//! operations on the whole tree, each specified against the model in
//! `shape`.

use crate::order::lawful;
use crate::order::lemma_comparison;
use crate::listing::is_label;
use crate::listing::is_line;
use crate::listing::margin;
use crate::listing::nested_prefix;
use crate::shape::Shape;
use std::cmp::Ordering;
use std::fmt::Display;
use vstd::prelude::*;
use vstd::string::StringExecFns;

verus! {

/// A node with its entry and the two subtrees it owns.
struct ValueNode<K, V, P> where K: Ord + Display, P: Ord + Display, V: Display {
    key: K,
    value: V,
    priority: P,
    left: Option<Box<ValueNode<K, V, P>>>,
    right: Option<Box<ValueNode<K, V, P>>>,
}

impl<K, V, P> ValueNode<K, V, P> where K: Ord + Display, P: Ord + Display, V: Display {
    /// The tree that an optional subtree root stands for.
    spec fn shape_of(node: Option<Box<ValueNode<K, V, P>>>) -> Shape<K, V, P>
        decreases node,
    {
        match node {
            None => Shape::Empty,
            Some(n) => n.shape(),
        }
    }

    /// The tree rooted at this node.
    spec fn shape(self) -> Shape<K, V, P>
        decreases self,
    {
        Shape::Fork {
            left: Box::new(Self::shape_of(self.left)),
            key: self.key,
            value: self.value,
            priority: self.priority,
            right: Box::new(Self::shape_of(self.right)),
        }
    }

    /// The entry of this node.
    spec fn entry(self) -> (K, V, P) {
        (self.key, self.value, self.priority)
    }

    /// The node's entry as text: `(key,value,priority)`.
    fn label(&self) -> (text: String)
        ensures
            is_label(self.entry(), text@),
    {
        let key = self.key.to_string();
        let value = self.value.to_string();
        let priority = self.priority.to_string();
        let mut text = String::from_str("(");
        text.append(key.as_str());
        text.append(",");
        text.append(value.as_str());
        text.append(",");
        text.append(priority.as_str());
        text.append(")");
        assert(vstd::string::to_string_from_display_ensures::<K>(&self.entry().0, key));
        assert(vstd::string::to_string_from_display_ensures::<V>(&self.entry().1, value));
        assert(vstd::string::to_string_from_display_ensures::<P>(&self.entry().2, priority));
        assert(text@ == "("@ + key@ + ","@ + value@ + ","@ + priority@ + ")"@);
        text
    }

    /// A node without children.
    fn new(key: K, value: V, priority: P) -> (node: Self)
        ensures
            node.shape() == Shape::leaf(key, value, priority),
    {
        ValueNode { key, value, priority, left: None, right: None }
    }
}

/// A source of priorities for new nodes.
pub trait PriorityGenerator<P: Ord> {
    /// Yields the priority for the next node.
    fn generate(&self) -> P;
}

/// Calls `rand::random::<u64>()`, which draws from the thread's generator
/// with every value of the type equally likely. The value differs from call
/// to call, so nothing is claimed of it. The call panics where the operating
/// system gives the thread's generator no seed.
#[verifier::external_body]
fn random_u64() -> u64 {
    rand::random::<u64>()
}

/// Calls `rand::random::<u8>()`, which draws from the thread's generator
/// with every value of the type equally likely. The value differs from call
/// to call, so nothing is claimed of it. The call panics where the operating
/// system gives the thread's generator no seed.
#[verifier::external_body]
fn random_u8() -> u8 {
    rand::random::<u8>()
}

/// Uniformly random priorities; the value that generates them plays no part.
impl PriorityGenerator<u64> for u64 {
    fn generate(&self) -> u64 {
        random_u64()
    }
}

/// Uniformly random priorities; the value that generates them plays no part.
impl PriorityGenerator<u8> for u8 {
    fn generate(&self) -> u8 {
        random_u8()
    }
}

/// A binary search tree over keys that is a min-heap over the priorities its
/// generator hands out.
pub struct Treap<K, V, P = u64, G = u64> where
    K: Ord + Display,
    P: Ord + Display,
    V: Display,
    G: PriorityGenerator<P>,
 {
    root: Option<Box<ValueNode<K, V, P>>>,
    generator: G,
}

impl<K, V, P, G> View for Treap<K, V, P, G> where
    K: Ord + Display,
    P: Ord + Display,
    V: Display,
    G: PriorityGenerator<P>,
 {
    type V = Shape<K, V, P>;

    closed spec fn view(&self) -> Shape<K, V, P> {
        ValueNode::shape_of(self.root)
    }
}

impl<K, V, P, G> Treap<K, V, P, G> where
    K: Ord + Display,
    P: Ord + Display,
    V: Display,
    G: PriorityGenerator<P>,
 {
    /// The generator the treap was made with.
    pub closed spec fn generator(&self) -> G {
        self.generator
    }

    /// The tree is a treap; see `Shape::wf`.
    pub open spec fn wf(&self) -> bool {
        self@.wf()
    }

    /// An empty treap that draws its priorities from `generator`.
    pub fn new(generator: G) -> (treap: Self)
        ensures
            treap@ == Shape::<K, V, P>::Empty,
            treap.generator() == generator,
            lawful::<K>() && lawful::<P>() ==> treap.wf(),
    {
        Treap { root: None, generator }
    }

    /// Inserts `key` with `value`, drawing one priority from the generator,
    /// whether or not the key is present. A key that is present keeps its
    /// node and its priority and takes the value; the priority drawn is then
    /// dropped.
    pub fn insert(&mut self, key: K, value: V)
        requires
            old(self).wf(),
        ensures
            final(self).wf(),
            exists|p: P|
                call_ensures(G::generate, (&old(self).generator(),), p) && final(self)@ == old(
                    self,
                )@.insert(key, value, p),
            final(self)@.entries() == old(self)@.entries().insert(key, value),
            final(self)@.size() == if old(self)@.holds(key) {
                old(self)@.size()
            } else {
                old(self)@.size() + 1
            },
            final(self).generator() == old(self).generator(),
    {
        let priority = self.generator.generate();
        self.insert_with_priority(key, value, priority);
    }

    /// Inserts `key` with `value`, where `priority` is what a new node gets.
    pub fn insert_with_priority(&mut self, key: K, value: V, priority: P)
        requires
            old(self).wf(),
        ensures
            final(self).wf(),
            final(self)@ == old(self)@.insert(key, value, priority),
            final(self)@.entries() == old(self)@.entries().insert(key, value),
            final(self)@.size() == if old(self)@.holds(key) {
                old(self)@.size()
            } else {
                old(self)@.size() + 1
            },
            final(self).generator() == old(self).generator(),
    {
        proof {
            self@.lemma_insert_wf(key, value, priority);
            self@.lemma_insert_search_tree(key, value, priority);
            if self@.holds(key) {
                self@.lemma_insert_present(key, value, priority);
            } else {
                self@.lemma_insert_absent(key, value, priority);
            }
        }
        self.root = Self::insert_impl(self.root.take(), key, value, priority);
    }

    /// The value stored with `key`, if the treap holds the key.
    pub fn get(&self, key: K) -> (found: Option<&V>)
        requires
            self.wf(),
        ensures
            match found {
                Some(v) => self@.entries().contains_key(key) && *v == self@.entries()[key],
                None => !self@.entries().contains_key(key),
            },
            match found {
                Some(v) => self@.find(key) == Some(*v),
                None => self@.find(key) is None,
            },
    {
        proof {
            self@.lemma_find(key);
        }
        Self::get_impl(&self.root, key)
    }

    /// Searches the subtree `node` for `key`.
    fn get_impl(node: &Option<Box<ValueNode<K, V, P>>>, key: K) -> (found: Option<&V>)
        requires
            lawful::<K>(),
        ensures
            match found {
                Some(v) => ValueNode::shape_of(*node).find(key) == Some(*v),
                None => ValueNode::shape_of(*node).find(key) is None,
            },
        decreases node,
    {
        match node {
            Some(node) => {
                proof {
                    lemma_comparison(key, node.key);
                }
                match key.cmp(&node.key) {
                    Ordering::Less => Self::get_impl(&node.left, key),
                    Ordering::Equal => Some(&node.value),
                    Ordering::Greater => Self::get_impl(&node.right, key),
                }
            },
            None => None,
        }
    }

    /// A mutable reference to the value stored with `key`, if the treap
    /// holds the key. What is written through it becomes the key's value;
    /// nothing else about the treap changes.
    pub fn get_mut(&mut self, key: K) -> (found: Option<&mut V>)
        requires
            old(self).wf(),
        ensures
            match found {
                Some(v) => {
                    &&& old(self)@.entries().contains_key(key)
                    &&& *v == old(self)@.entries()[key]
                    &&& final(self)@ == old(self)@.with_value(key, *final(v))
                    &&& final(self)@.entries() == old(self)@.entries().insert(key, *final(v))
                },
                None => !old(self)@.entries().contains_key(key) && final(self)@ == old(self)@,
            },
            final(self).wf(),
            final(self).generator() == old(self).generator(),
    {
        proof {
            self@.lemma_find(key);
        }
        let found = Self::get_mut_impl(&mut self.root, key);
        proof {
            if found.is_some() {
                old(self)@.lemma_with_value_keeps(key, *final(found.unwrap()));
                old(self)@.lemma_with_value_entries(key, *final(found.unwrap()));
            }
        }
        found
    }

    /// Searches the subtree `node` for `key` and lends out its value.
    fn get_mut_impl(node: &mut Option<Box<ValueNode<K, V, P>>>, key: K) -> (found: Option<&mut V>)
        requires
            lawful::<K>(),
        ensures
            match found {
                Some(v) => {
                    &&& ValueNode::shape_of(*old(node)).find(key) == Some(*v)
                    &&& ValueNode::shape_of(*final(node)) == ValueNode::shape_of(
                        *old(node),
                    ).with_value(key, *final(v))
                },
                None => ValueNode::shape_of(*old(node)).find(key) is None && *final(node) == *old(
                    node,
                ),
            },
        decreases *old(node),
    {
        match node {
            Some(node) => {
                proof {
                    lemma_comparison(key, node.key);
                }
                match key.cmp(&node.key) {
                    Ordering::Less => Self::get_mut_impl(&mut node.left, key),
                    Ordering::Equal => Some(&mut node.value),
                    Ordering::Greater => Self::get_mut_impl(&mut node.right, key),
                }
            },
            None => None,
        }
    }

    /// The number of nodes on the longest path from the root down: 0 for an
    /// empty treap, 1 for a root alone.
    pub fn height(&self) -> (h: usize)
        requires
            self@.height() <= usize::MAX,
        ensures
            h == self@.height(),
    {
        Self::node_height(&self.root)
    }

    /// The height of the subtree `node`.
    fn node_height(node: &Option<Box<ValueNode<K, V, P>>>) -> (h: usize)
        requires
            ValueNode::shape_of(*node).height() <= usize::MAX,
        ensures
            h == ValueNode::shape_of(*node).height(),
        decreases node,
    {
        match node {
            Some(node) => {
                let below_left = Self::node_height(&node.left);
                let below_right = Self::node_height(&node.right);
                if below_left >= below_right {
                    1 + below_left
                } else {
                    1 + below_right
                }
            },
            None => 0,
        }
    }

    /// The listing of the treap, one line per node: the root first, then its
    /// right subtree, then its left one. Each line holds the node's margin
    /// and its entry as `(key,value,priority)`. An empty treap has no lines.
    pub fn print(&self) -> (lines: Vec<String>)
        requires
            self@.height() <= usize::MAX,
        ensures
            lines@.len() == self@.size(),
            self@.listed_as(Seq::new(lines@.len(), |i: int| lines@[i]@)),
    {
        let had_left = match &self.root {
            Some(node) => node.left.is_some(),
            None => false,
        };
        let mut lines: Vec<String> = Vec::new();
        Self::print_node(&self.root, 0, "", true, had_left, &mut lines);
        proof {
            self@.lemma_walk_len(false, ""@, true, had_left);
            let texts = Seq::new(lines@.len(), |i: int| lines@[i]@);
            assert forall|i: int| 0 <= i < texts.len() implies is_line(
                self@.walk()[i],
                self@.margins(false, ""@, true, self@.has_left())[i],
                #[trigger] texts[i],
            ) by {
                assert(texts[i] == lines@[0 + i]@);
            }
        }
        lines
    }

    /// Appends the listing of the subtree `node` to `out`. `depth` counts
    /// the levels above it, `prefix` is what its parent hands down,
    /// `is_right` says on which side of the parent it hangs and `had_left`
    /// whether the parent has a left child.
    fn print_node(
        node: &Option<Box<ValueNode<K, V, P>>>,
        depth: usize,
        prefix: &str,
        is_right: bool,
        had_left: bool,
        out: &mut Vec<String>,
    )
        requires
            depth + ValueNode::shape_of(*node).height() <= usize::MAX,
        ensures
            final(out)@.len() == old(out)@.len() + ValueNode::shape_of(*node).walk().len(),
            forall|i: int| 0 <= i < old(out)@.len() ==> final(out)@[i] == old(out)@[i],
            forall|i: int|
                0 <= i < ValueNode::shape_of(*node).walk().len() ==> is_line(
                    ValueNode::shape_of(*node).walk()[i],
                    ValueNode::shape_of(*node).margins(depth > 0, prefix@, is_right, had_left)[i],
                    #[trigger] final(out)@[old(out)@.len() + i]@,
                ),
        decreases node,
    {
        if let Some(node) = node {
            let node_prefix = if depth > 0 {
                if is_right {
                    if had_left {
                        "├R"
                    } else {
                        "└R"
                    }
                } else {
                    "└L"
                }
            } else {
                ""
            };
            let label = node.label();
            let mut line = String::from_str(prefix);
            line.append(" ");
            line.append(node_prefix);
            line.append(label.as_str());
            assert(is_line(node.entry(), margin(prefix@, depth > 0, is_right, had_left), line@));
            out.push(line);
            let has_left = node.left.is_some();
            let mut nested = String::from_str(prefix);
            nested.append(" ");
            if is_right && had_left && depth > 0 {
                nested.append("│");
            }
            let ghost shape = node.shape();
            let ghost right = ValueNode::shape_of(node.right);
            let ghost left = ValueNode::shape_of(node.left);
            let ghost start = old(out)@.len();
            assert(nested@ == nested_prefix(prefix@, depth > 0, is_right, had_left));
            assert(has_left == shape.has_left());
            Self::print_node(&node.right, depth + 1, nested.as_str(), true, has_left, out);
            let ghost middle = out@;
            Self::print_node(&node.left, depth + 1, nested.as_str(), false, has_left, out);
            proof {
                right.lemma_walk_len(true, nested@, true, has_left);
                left.lemma_walk_len(true, nested@, false, has_left);
                let walk = shape.walk();
                let margins = shape.margins(depth > 0, prefix@, is_right, had_left);
                let rm = right.margins(true, nested@, true, has_left);
                let lm = left.margins(true, nested@, false, has_left);
                assert(walk == seq![node.entry()] + right.walk() + left.walk());
                assert(margins == seq![margin(prefix@, depth > 0, is_right, had_left)] + rm + lm);
                assert forall|i: int| 0 <= i < walk.len() implies is_line(
                    walk[i],
                    margins[i],
                    #[trigger] out@[start + i]@,
                ) by {
                    if i == 0 {
                        assert(out@[start + i] == middle[start + i]);
                    } else if i <= right.walk().len() {
                        assert(walk[i] == right.walk()[i - 1]);
                        assert(margins[i] == rm[i - 1]);
                        assert(out@[start + i] == middle[start + 1 + (i - 1)]);
                    } else {
                        let j = i - 1 - right.walk().len();
                        assert(walk[i] == left.walk()[j]);
                        assert(margins[i] == lm[j]);
                        assert(out@[start + i] == out@[middle.len() + j]);
                    }
                }
            }
        }
    }

    /// Whether a descent by priority meets a node with exactly `priority`:
    /// from the root it goes left where `priority` is smaller than the node's,
    /// right where it is greater. A node it reports does carry the priority;
    /// one off that path goes unseen.
    pub fn has_collision(&self, priority: &P) -> (met: bool)
        requires
            self.wf(),
        ensures
            met == self@.probe(*priority),
            met ==> self@.has_priority(*priority),
    {
        proof {
            self@.lemma_probe(*priority);
        }
        Self::has_collision_impl(&self.root, priority)
    }

    /// Descends the subtree `node` by priority.
    fn has_collision_impl(node: &Option<Box<ValueNode<K, V, P>>>, priority: &P) -> (met: bool)
        requires
            lawful::<P>(),
        ensures
            met == ValueNode::shape_of(*node).probe(*priority),
        decreases node,
    {
        match node {
            Some(node) => {
                proof {
                    lemma_comparison(*priority, node.priority);
                }
                match priority.cmp(&node.priority) {
                    Ordering::Less => Self::has_collision_impl(&node.left, priority),
                    Ordering::Equal => true,
                    Ordering::Greater => Self::has_collision_impl(&node.right, priority),
                }
            },
            None => false,
        }
    }

    /// Inserts into the subtree `node` and returns the root of what it has
    /// become. The new node is made where the search ends; each level on the
    /// way back rotates it one step up if its priority is the smaller one.
    fn insert_impl(
        node: Option<Box<ValueNode<K, V, P>>>,
        key: K,
        value: V,
        priority: P,
    ) -> (grown: Option<Box<ValueNode<K, V, P>>>)
        requires
            lawful::<K>(),
            lawful::<P>(),
        ensures
            ValueNode::shape_of(grown) == ValueNode::shape_of(node).insert(key, value, priority),
        decreases node,
    {
        match node {
            Some(mut node) => {
                proof {
                    lemma_comparison(key, node.key);
                }
                match key.cmp(&node.key) {
                    Ordering::Less => {
                        let left_child = node.left.take();
                        node.left = Self::insert_impl(left_child, key, value, priority);
                        if Self::tops_below(&node.left, &node.priority) {
                            node = Self::rotate_right(node);
                        }
                    },
                    Ordering::Equal => {
                        node.value = value;
                    },
                    Ordering::Greater => {
                        let right_child = node.right.take();
                        node.right = Self::insert_impl(right_child, key, value, priority);
                        if Self::tops_below(&node.right, &node.priority) {
                            node = Self::rotate_left(node);
                        }
                    },
                }
                Some(node)
            },
            None => Some(Box::new(ValueNode::new(key, value, priority))),
        }
    }

    /// Whether `child` has a root whose priority is strictly below `bound`.
    fn tops_below(child: &Option<Box<ValueNode<K, V, P>>>, bound: &P) -> (below: bool)
        requires
            lawful::<P>(),
        ensures
            below == ValueNode::shape_of(*child).tops_below(*bound),
    {
        match child {
            Some(c) => {
                proof {
                    lemma_comparison(c.priority, *bound);
                }
                c.priority < *bound
            },
            None => false,
        }
    }

    /// Lifts the left child of `parent` into its place; `parent` itself
    /// where it has no left child.
    fn rotate_right(parent: Box<ValueNode<K, V, P>>) -> (top: Box<ValueNode<K, V, P>>)
        ensures
            top.shape() == parent.shape().rotate_right(),
    {
        let mut parent = parent;
        let ghost before = parent.shape();
        match parent.left.take() {
            Some(mut left_child) => {
                assert(before->left == left_child.shape());
                let child_right_subtree = left_child.right.take();
                parent.left = child_right_subtree;
                assert(parent.shape()->left == before->left->right);
                left_child.right = Some(parent);
                assert(left_child.shape()->right == parent.shape());
                left_child
            },
            None => parent,
        }
    }

    /// Lifts the right child of `parent` into its place; `parent` itself
    /// where it has no right child.
    fn rotate_left(parent: Box<ValueNode<K, V, P>>) -> (top: Box<ValueNode<K, V, P>>)
        ensures
            top.shape() == parent.shape().rotate_left(),
    {
        let mut parent = parent;
        let ghost before = parent.shape();
        match parent.right.take() {
            Some(mut right_child) => {
                assert(before->right == right_child.shape());
                let child_left_subtree = right_child.left.take();
                parent.right = child_left_subtree;
                assert(parent.shape()->right == before->right->left);
                right_child.left = Some(parent);
                assert(right_child.shape()->left == parent.shape());
                right_child
            },
            None => parent,
        }
    }
}

} // verus!
