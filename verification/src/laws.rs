//! What holds of the model: how traversal, rotation, insertion and lookup
//! relate to one another and to the two invariants of a treap.

use crate::order::ascending;
use crate::order::lawful;
use crate::order::le;
use crate::order::lemma_le_chain;
use crate::order::lemma_lt_transitive;
use crate::order::lemma_trichotomy;
use crate::order::lt;
use crate::shape::Shape;
use vstd::prelude::*;

verus! {

impl<K: Ord, V, P: Ord> Shape<K, V, P> {
    /// The in-order traversal lists each node once: it is as long as the
    /// tree has nodes, and a key occurs in it exactly if a node carries it.
    pub proof fn lemma_keys(self)
        ensures
            self.keys().len() == self.size(),
            forall|k: K| self.keys().contains(k) <==> self.holds(k),
        decreases self,
    {
        match self {
            Shape::Empty => {},
            Shape::Fork { left, key, right, .. } => {
                left.lemma_keys();
                right.lemma_keys();
                let l = left.keys();
                let r = right.keys();
                let all = self.keys();
                assert(all[l.len() as int] == key);
                assert forall|k: K| all.contains(k) <==> self.holds(k) by {
                    if all.contains(k) {
                        let i = choose|i: int| 0 <= i < all.len() && all[i] == k;
                        if i < l.len() {
                            assert(l[i] == k);
                            assert(l.contains(k));
                        } else if i > l.len() {
                            assert(r[i - l.len() - 1] == k);
                            assert(r.contains(k));
                        }
                    }
                    if left.holds(k) {
                        assert(l.contains(k));
                        let i = choose|i: int| 0 <= i < l.len() && l[i] == k;
                        assert(all[i] == k);
                    }
                    if right.holds(k) {
                        assert(r.contains(k));
                        let i = choose|i: int| 0 <= i < r.len() && r[i] == k;
                        assert(all[l.len() + 1 + i] == k);
                    }
                }
            },
        }
    }

    /// The in-order traversal of a search tree yields its keys in strictly
    /// ascending order.
    pub proof fn lemma_search_tree_ascending(self)
        requires
            lawful::<K>(),
            self.is_search_tree(),
        ensures
            ascending(self.keys()),
        decreases self,
    {
        match self {
            Shape::Empty => {},
            Shape::Fork { left, key, right, .. } => {
                left.lemma_search_tree_ascending();
                right.lemma_search_tree_ascending();
                left.lemma_keys();
                right.lemma_keys();
                let l = left.keys();
                let r = right.keys();
                let all = self.keys();
                assert forall|i: int, j: int| 0 <= i < j < all.len() implies lt(all[i], all[j]) by {
                    if i < l.len() {
                        assert(all[i] == l[i]);
                        assert(l.contains(l[i]));
                        assert(left.holds(all[i]));
                    } else if i > l.len() {
                        assert(all[i] == r[i - l.len() - 1]);
                        assert(r.contains(r[i - l.len() - 1]));
                        assert(right.holds(all[i]));
                    }
                    if j < l.len() {
                        assert(all[j] == l[j]);
                    } else if j > l.len() {
                        assert(all[j] == r[j - l.len() - 1]);
                        assert(r.contains(r[j - l.len() - 1]));
                        assert(right.holds(all[j]));
                    }
                    if i < l.len() && j > l.len() {
                        lemma_lt_transitive(all[i], key, all[j]);
                    }
                }
            },
        }
    }

    /// A right rotation keeps the in-order traversal, and with it the number
    /// of nodes and the entries, keys and priorities that occur.
    pub proof fn lemma_rotate_right_keeps(self)
        ensures
            self.rotate_right().keys() == self.keys(),
            self.rotate_right().size() == self.size(),
            forall|k: K| self.rotate_right().holds(k) <==> self.holds(k),
            forall|p: P| self.rotate_right().has_priority(p) <==> self.has_priority(p),
            forall|e: (K, V, P)| self.rotate_right().has_entry(e) <==> self.has_entry(e),
    {
        if let Shape::Fork { left, key, value, priority, right } = self {
            if let Shape::Fork { left: ll, key: lk, value: lv, priority: lp, right: lr } = *left {
                let inner = Shape::Fork { left: lr, key, value, priority, right };
                assert(self.rotate_right()->right == inner);
                assert(inner.keys() == lr.keys().push(key) + right.keys());
                assert(left.keys() == ll.keys().push(lk) + lr.keys());
                assert(self.rotate_right().keys() =~= self.keys());
                assert forall|k: K| self.rotate_right().holds(k) <==> self.holds(k) by {
                    assert(inner.holds(k) <==> key == k || lr.holds(k) || right.holds(k));
                    assert(left.holds(k) <==> lk == k || ll.holds(k) || lr.holds(k));
                }
                assert forall|p: P| self.rotate_right().has_priority(p) <==> self.has_priority(
                    p,
                ) by {
                    assert(inner.has_priority(p) <==> priority == p || lr.has_priority(p)
                        || right.has_priority(p));
                    assert(left.has_priority(p) <==> lp == p || ll.has_priority(p)
                        || lr.has_priority(p));
                }
                assert forall|e: (K, V, P)| self.rotate_right().has_entry(e) <==> self.has_entry(
                    e,
                ) by {
                    assert(inner.has_entry(e) <==> (key, value, priority) == e || lr.has_entry(e)
                        || right.has_entry(e));
                    assert(left.has_entry(e) <==> (lk, lv, lp) == e || ll.has_entry(e)
                        || lr.has_entry(e));
                }
                assert(inner.size() == 1 + lr.size() + right.size());
                assert(left.size() == 1 + ll.size() + lr.size());
            }
        }
    }

    /// A left rotation keeps the in-order traversal, and with it the number
    /// of nodes and the entries, keys and priorities that occur.
    pub proof fn lemma_rotate_left_keeps(self)
        ensures
            self.rotate_left().keys() == self.keys(),
            self.rotate_left().size() == self.size(),
            forall|k: K| self.rotate_left().holds(k) <==> self.holds(k),
            forall|p: P| self.rotate_left().has_priority(p) <==> self.has_priority(p),
            forall|e: (K, V, P)| self.rotate_left().has_entry(e) <==> self.has_entry(e),
    {
        if let Shape::Fork { left, key, value, priority, right } = self {
            if let Shape::Fork { left: rl, key: rk, value: rv, priority: rp, right: rr } = *right {
                let inner = Shape::Fork { left, key, value, priority, right: rl };
                assert(self.rotate_left()->left == inner);
                assert(inner.keys() == left.keys().push(key) + rl.keys());
                assert(right.keys() == rl.keys().push(rk) + rr.keys());
                assert(self.rotate_left().keys() =~= self.keys());
                assert forall|k: K| self.rotate_left().holds(k) <==> self.holds(k) by {
                    assert(inner.holds(k) <==> key == k || left.holds(k) || rl.holds(k));
                    assert(right.holds(k) <==> rk == k || rl.holds(k) || rr.holds(k));
                }
                assert forall|p: P| self.rotate_left().has_priority(p) <==> self.has_priority(
                    p,
                ) by {
                    assert(inner.has_priority(p) <==> priority == p || left.has_priority(p)
                        || rl.has_priority(p));
                    assert(right.has_priority(p) <==> rp == p || rl.has_priority(p)
                        || rr.has_priority(p));
                }
                assert forall|e: (K, V, P)| self.rotate_left().has_entry(e) <==> self.has_entry(
                    e,
                ) by {
                    assert(inner.has_entry(e) <==> (key, value, priority) == e || left.has_entry(e)
                        || rl.has_entry(e));
                    assert(right.has_entry(e) <==> (rk, rv, rp) == e || rl.has_entry(e)
                        || rr.has_entry(e));
                }
                assert(inner.size() == 1 + left.size() + rl.size());
                assert(right.size() == 1 + rl.size() + rr.size());
            }
        }
    }

    /// A right rotation of a search tree gives a search tree with the same
    /// entries.
    pub proof fn lemma_rotate_right_search_tree(self)
        requires
            lawful::<K>(),
            self.is_search_tree(),
        ensures
            self.rotate_right().is_search_tree(),
            forall|k: K| self.rotate_right().value_of(k) == self.value_of(k),
            self.rotate_right().entries() == self.entries(),
    {
        self.lemma_rotate_right_keeps();
        if let Shape::Fork { left, key, value, priority, right } = self {
            if let Shape::Fork { left: ll, key: lk, value: lv, priority: lp, right: lr } = *left {
                let inner = Shape::Fork { left: lr, key, value, priority, right };
                let top = self.rotate_right();
                assert(top->right == inner);
                assert(left.is_search_tree());
                assert(left.holds(lk));
                assert(lt(lk, key));
                assert forall|k: K| #[trigger] lr.holds(k) implies lt(k, key) by {
                    assert(left.holds(k));
                }
                assert(inner.is_search_tree());
                assert forall|k: K| #[trigger] inner.holds(k) implies lt(lk, k) by {
                    if right.holds(k) {
                        assert(lt(key, k));
                        lemma_lt_transitive(lk, key, k);
                    } else if lr.holds(k) {
                        assert(lt(lk, k));
                    } else {
                        assert(key == k);
                    }
                }
                assert(top.is_search_tree());
                assert forall|k: K| top.value_of(k) == self.value_of(k) by {
                    lemma_trichotomy(lk, key);
                    lemma_trichotomy(k, lk);
                    assert(left.holds(k) <==> lk == k || ll.holds(k) || lr.holds(k));
                    assert(inner.value_of(k) == if key == k {
                        value
                    } else if lr.holds(k) {
                        lr.value_of(k)
                    } else {
                        right.value_of(k)
                    });
                    assert(left.value_of(k) == if lk == k {
                        lv
                    } else if ll.holds(k) {
                        ll.value_of(k)
                    } else {
                        lr.value_of(k)
                    });
                }
            }
        }
        assert(self.rotate_right().entries() =~= self.entries());
    }

    /// A left rotation of a search tree gives a search tree with the same
    /// entries.
    pub proof fn lemma_rotate_left_search_tree(self)
        requires
            lawful::<K>(),
            self.is_search_tree(),
        ensures
            self.rotate_left().is_search_tree(),
            forall|k: K| self.rotate_left().value_of(k) == self.value_of(k),
            self.rotate_left().entries() == self.entries(),
    {
        self.lemma_rotate_left_keeps();
        if let Shape::Fork { left, key, value, priority, right } = self {
            if let Shape::Fork { left: rl, key: rk, value: rv, priority: rp, right: rr } = *right {
                let inner = Shape::Fork { left, key, value, priority, right: rl };
                let top = self.rotate_left();
                assert(top->left == inner);
                assert(right.is_search_tree());
                assert(right.holds(rk));
                assert(lt(key, rk));
                assert forall|k: K| #[trigger] rl.holds(k) implies lt(key, k) by {
                    assert(right.holds(k));
                }
                assert(inner.is_search_tree());
                assert forall|k: K| #[trigger] inner.holds(k) implies lt(k, rk) by {
                    if left.holds(k) {
                        assert(lt(k, key));
                        lemma_lt_transitive(k, key, rk);
                    } else if rl.holds(k) {
                        assert(lt(k, rk));
                    } else {
                        assert(key == k);
                    }
                }
                assert(top.is_search_tree());
                assert forall|k: K| top.value_of(k) == self.value_of(k) by {
                    lemma_trichotomy(key, rk);
                    lemma_trichotomy(k, key);
                    lemma_trichotomy(k, rk);
                    if left.holds(k) {
                        lemma_lt_transitive(k, key, rk);
                    }
                    if rl.holds(k) {
                        assert(right.holds(k));
                    }
                    assert(right.holds(k) <==> rk == k || rl.holds(k) || rr.holds(k));
                    assert(inner.holds(k) <==> key == k || left.holds(k) || rl.holds(k));
                    assert(inner.value_of(k) == if key == k {
                        value
                    } else if left.holds(k) {
                        left.value_of(k)
                    } else {
                        rl.value_of(k)
                    });
                    assert(right.value_of(k) == if rk == k {
                        rv
                    } else if rl.holds(k) {
                        rl.value_of(k)
                    } else {
                        rr.value_of(k)
                    });
                }
            }
        }
        assert(self.rotate_left().entries() =~= self.entries());
    }

    /// Where the heap order is broken only between the root and its left
    /// child, whose priority is strictly smaller, a right rotation restores
    /// it.
    pub proof fn lemma_rotate_right_heap(self)
        requires
            lawful::<P>(),
            self matches Shape::Fork { left, priority, right, .. } && {
                &&& left.tops_below(priority)
                &&& left.is_heap()
                &&& *left matches Shape::Fork { right: lr, .. } && lr.tops_at_least(priority)
                &&& right.tops_at_least(priority)
                &&& right.is_heap()
            },
        ensures
            self.rotate_right().is_heap(),
    {
        if let Shape::Fork { left, key, value, priority, right } = self {
            if let Shape::Fork { left: ll, key: lk, value: lv, priority: lp, right: lr } = *left {
                let inner = Shape::Fork { left: lr, key, value, priority, right };
                assert(self.rotate_right()->right == inner);
                lemma_trichotomy(lp, priority);
                assert(inner.is_heap());
                assert(inner.tops_at_least(lp));
            }
        }
    }

    /// Where the heap order is broken only between the root and its right
    /// child, whose priority is strictly smaller, a left rotation restores
    /// it.
    pub proof fn lemma_rotate_left_heap(self)
        requires
            lawful::<P>(),
            self matches Shape::Fork { left, priority, right, .. } && {
                &&& right.tops_below(priority)
                &&& right.is_heap()
                &&& *right matches Shape::Fork { left: rl, .. } && rl.tops_at_least(priority)
                &&& left.tops_at_least(priority)
                &&& left.is_heap()
            },
        ensures
            self.rotate_left().is_heap(),
    {
        if let Shape::Fork { left, key, value, priority, right } = self {
            if let Shape::Fork { left: rl, key: rk, value: rv, priority: rp, right: rr } = *right {
                let inner = Shape::Fork { left, key, value, priority, right: rl };
                assert(self.rotate_left()->left == inner);
                lemma_trichotomy(rp, priority);
                assert(inner.is_heap());
                assert(inner.tops_at_least(rp));
            }
        }
    }

    /// Insertion into a search tree gives a search tree that holds `k` with
    /// value `v`, and beside it exactly the entries held before.
    pub proof fn lemma_insert_search_tree(self, k: K, v: V, p: P)
        requires
            lawful::<K>(),
            self.is_search_tree(),
        ensures
            self.insert(k, v, p).is_search_tree(),
            forall|x: K| self.insert(k, v, p).holds(x) <==> self.holds(x) || x == k,
            forall|x: K|
                self.insert(k, v, p).value_of(x) == if x == k {
                    v
                } else {
                    self.value_of(x)
                },
            self.insert(k, v, p).entries() == self.entries().insert(k, v),
        decreases self,
    {
        let after = self.insert(k, v, p);
        match self {
            Shape::Empty => {
                let e = Shape::<K, V, P>::Empty;
                assert(after == Self::leaf(k, v, p));
                assert(forall|x: K| !e.holds(x));
                assert(after.is_search_tree());
                assert forall|x: K| after.value_of(x) == if x == k {
                    v
                } else {
                    self.value_of(x)
                } by {
                    assert(!e.holds(x));
                }
            },
            Shape::Fork { left, key, value, priority, right } => {
                lemma_trichotomy(k, key);
                if lt(k, key) {
                    let grown = left.insert(k, v, p);
                    let joined = Shape::Fork { left: Box::new(grown), key, value, priority, right };
                    left.lemma_insert_search_tree(k, v, p);
                    assert forall|x: K| #[trigger] grown.holds(x) implies lt(x, key) by {
                        if x != k {
                            assert(left.holds(x));
                        }
                    }
                    assert(joined.is_search_tree());
                    assert forall|x: K| joined.holds(x) <==> self.holds(x) || x == k by {
                        assert(grown.holds(x) <==> left.holds(x) || x == k);
                    }
                    assert forall|x: K| joined.value_of(x) == if x == k {
                        v
                    } else {
                        self.value_of(x)
                    } by {
                        assert(grown.holds(x) <==> left.holds(x) || x == k);
                        assert(grown.value_of(x) == if x == k {
                            v
                        } else {
                            left.value_of(x)
                        });
                    }
                    if grown.tops_below(priority) {
                        joined.lemma_rotate_right_search_tree();
                        joined.lemma_rotate_right_keeps();
                        assert(after == joined.rotate_right());
                        assert forall|x: K| after.value_of(x) == if x == k {
                            v
                        } else {
                            self.value_of(x)
                        } by {
                            assert(joined.rotate_right().value_of(x) == joined.value_of(x));
                        }
                    } else {
                        assert(after == joined);
                    }
                } else if lt(key, k) {
                    let grown = right.insert(k, v, p);
                    let joined = Shape::Fork { left, key, value, priority, right: Box::new(grown) };
                    right.lemma_insert_search_tree(k, v, p);
                    assert forall|x: K| #[trigger] grown.holds(x) implies lt(key, x) by {
                        if x != k {
                            assert(right.holds(x));
                        }
                    }
                    assert(joined.is_search_tree());
                    assert forall|x: K| joined.holds(x) <==> self.holds(x) || x == k by {
                        assert(grown.holds(x) <==> right.holds(x) || x == k);
                    }
                    assert forall|x: K| joined.value_of(x) == if x == k {
                        v
                    } else {
                        self.value_of(x)
                    } by {
                        lemma_trichotomy(x, key);
                        assert(grown.holds(x) <==> right.holds(x) || x == k);
                        assert(grown.value_of(x) == if x == k {
                            v
                        } else {
                            right.value_of(x)
                        });
                        if left.holds(x) {
                            assert(lt(x, key));
                            if x == k {
                                assert(false);
                            }
                        }
                    }
                    if grown.tops_below(priority) {
                        joined.lemma_rotate_left_search_tree();
                        joined.lemma_rotate_left_keeps();
                        assert(after == joined.rotate_left());
                        assert forall|x: K| after.value_of(x) == if x == k {
                            v
                        } else {
                            self.value_of(x)
                        } by {
                            assert(joined.rotate_left().value_of(x) == joined.value_of(x));
                        }
                    } else {
                        assert(after == joined);
                    }
                } else {
                    assert(k == key);
                    let swapped = Shape::Fork { left, key, value: v, priority, right };
                    assert(after == swapped);
                    assert(swapped.is_search_tree());
                    assert forall|x: K| swapped.holds(x) <==> self.holds(x) || x == k by {}
                    assert forall|x: K| swapped.value_of(x) == if x == k {
                        v
                    } else {
                        self.value_of(x)
                    } by {}
                }
            },
        }
        assert(after.entries() =~= self.entries().insert(k, v));
    }

    /// Insertion into a heap gives a heap. Where no priority of the tree was
    /// below `bound`, none below the new root is either.
    pub proof fn lemma_insert_heap(self, k: K, v: V, p: P, bound: P)
        requires
            lawful::<P>(),
            self.is_heap(),
            self.tops_at_least(bound),
        ensures
            self.insert(k, v, p).is_heap(),
            self.insert(k, v, p) matches Shape::Fork { left, right, .. } && left.tops_at_least(bound)
                && right.tops_at_least(bound),
        decreases self,
    {
        let after = self.insert(k, v, p);
        match self {
            Shape::Empty => {
                assert(after == Self::leaf(k, v, p));
            },
            Shape::Fork { left, key, value, priority, right } => {
                if lt(k, key) {
                    let grown = left.insert(k, v, p);
                    let joined = Shape::Fork { left: Box::new(grown), key, value, priority, right };
                    left.lemma_insert_heap(k, v, p, priority);
                    if let Shape::Fork { left: gl, key: gk, value: gv, priority: gp, right: gr } = grown {
                        lemma_trichotomy(gp, priority);
                        lemma_le_chain(bound, priority, gp);
                        if grown.tops_below(priority) {
                            joined.lemma_rotate_right_heap();
                            let inner = Shape::Fork { left: gr, key, value, priority, right };
                            assert(after->right == inner);
                            assert(after->left == *gl);
                            if let Shape::Fork { priority: glp, .. } = *gl {
                                lemma_le_chain(bound, priority, glp);
                            }
                        } else {
                            assert(after == joined);
                            assert(joined.is_heap());
                        }
                    }
                    if let Shape::Fork { priority: rp, .. } = *right {
                        lemma_le_chain(bound, priority, rp);
                    }
                } else if lt(key, k) {
                    let grown = right.insert(k, v, p);
                    let joined = Shape::Fork { left, key, value, priority, right: Box::new(grown) };
                    right.lemma_insert_heap(k, v, p, priority);
                    if let Shape::Fork { left: gl, key: gk, value: gv, priority: gp, right: gr } = grown {
                        lemma_trichotomy(gp, priority);
                        lemma_le_chain(bound, priority, gp);
                        if grown.tops_below(priority) {
                            joined.lemma_rotate_left_heap();
                            let inner = Shape::Fork { left, key, value, priority, right: gl };
                            assert(after->left == inner);
                            assert(after->right == *gr);
                            if let Shape::Fork { priority: grp, .. } = *gr {
                                lemma_le_chain(bound, priority, grp);
                            }
                        } else {
                            assert(after == joined);
                            assert(joined.is_heap());
                        }
                    }
                    if let Shape::Fork { priority: lp, .. } = *left {
                        lemma_le_chain(bound, priority, lp);
                    }
                } else {
                    let swapped = Shape::Fork { left, key, value: v, priority, right };
                    assert(after == swapped);
                    assert(swapped.is_heap());
                    if let Shape::Fork { priority: lp, .. } = *left {
                        lemma_le_chain(bound, priority, lp);
                    }
                    if let Shape::Fork { priority: rp, .. } = *right {
                        lemma_le_chain(bound, priority, rp);
                    }
                }
            },
        }
    }

    /// Insertion into a treap gives a treap.
    pub proof fn lemma_insert_wf(self, k: K, v: V, p: P)
        requires
            self.wf(),
        ensures
            self.insert(k, v, p).wf(),
    {
        self.lemma_insert_search_tree(k, v, p);
        match self {
            Shape::Empty => {
                self.lemma_insert_heap(k, v, p, p);
            },
            Shape::Fork { priority, .. } => {
                lemma_trichotomy(priority, priority);
                self.lemma_insert_heap(k, v, p, priority);
            },
        }
    }

    /// Replacing a value changes neither the form of the tree, nor its keys,
    /// nor its priorities, and so keeps both invariants.
    pub proof fn lemma_with_value_keeps(self, k: K, v: V)
        ensures
            self.with_value(k, v).keys() == self.keys(),
            self.with_value(k, v).size() == self.size(),
            self.with_value(k, v).height() == self.height(),
            forall|x: K| self.with_value(k, v).holds(x) <==> self.holds(x),
            forall|q: P| self.with_value(k, v).has_priority(q) <==> self.has_priority(q),
            forall|q: P| self.with_value(k, v).tops_at_least(q) <==> self.tops_at_least(q),
            self.is_search_tree() ==> self.with_value(k, v).is_search_tree(),
            self.is_heap() ==> self.with_value(k, v).is_heap(),
        decreases self,
    {
        let after = self.with_value(k, v);
        match self {
            Shape::Empty => {},
            Shape::Fork { left, key, value, priority, right } => {
                left.lemma_with_value_keeps(k, v);
                right.lemma_with_value_keeps(k, v);
                if lt(k, key) {
                    let l2 = left.with_value(k, v);
                    assert(after == Shape::Fork { left: Box::new(l2), key, value, priority, right });
                    assert forall|x: K| after.holds(x) <==> self.holds(x) by {
                        assert(l2.holds(x) <==> left.holds(x));
                    }
                    assert forall|q: P| after.has_priority(q) <==> self.has_priority(q) by {
                        assert(l2.has_priority(q) <==> left.has_priority(q));
                    }
                    if self.is_search_tree() {
                        assert forall|x: K| #[trigger] l2.holds(x) implies lt(x, key) by {
                            assert(left.holds(x));
                        }
                        assert(after.is_search_tree());
                    }
                    if self.is_heap() {
                        assert(l2.tops_at_least(priority) <==> left.tops_at_least(priority));
                        assert(after.is_heap());
                    }
                } else if lt(key, k) {
                    let r2 = right.with_value(k, v);
                    assert(after == Shape::Fork { left, key, value, priority, right: Box::new(r2) });
                    assert forall|x: K| after.holds(x) <==> self.holds(x) by {
                        assert(r2.holds(x) <==> right.holds(x));
                    }
                    assert forall|q: P| after.has_priority(q) <==> self.has_priority(q) by {
                        assert(r2.has_priority(q) <==> right.has_priority(q));
                    }
                    if self.is_search_tree() {
                        assert forall|x: K| #[trigger] r2.holds(x) implies lt(key, x) by {
                            assert(right.holds(x));
                        }
                        assert(after.is_search_tree());
                    }
                    if self.is_heap() {
                        assert(r2.tops_at_least(priority) <==> right.tops_at_least(priority));
                        assert(after.is_heap());
                    }
                } else {
                    assert(after == Shape::Fork { left, key, value: v, priority, right });
                    assert forall|x: K| after.holds(x) <==> self.holds(x) by {}
                    assert forall|q: P| after.has_priority(q) <==> self.has_priority(q) by {}
                    if self.is_search_tree() {
                        assert(after.is_search_tree());
                    }
                    if self.is_heap() {
                        assert(after.is_heap());
                    }
                }
            },
        }
    }

    /// Replacing the value of a key that a search tree holds changes that
    /// entry and no other; for a key it does not hold, nothing changes.
    pub proof fn lemma_with_value_entries(self, k: K, v: V)
        requires
            lawful::<K>(),
            self.is_search_tree(),
        ensures
            !self.holds(k) ==> self.with_value(k, v) == self,
            forall|x: K|
                self.with_value(k, v).value_of(x) == if x == k && self.holds(k) {
                    v
                } else {
                    self.value_of(x)
                },
            self.with_value(k, v).entries() == if self.holds(k) {
                self.entries().insert(k, v)
            } else {
                self.entries()
            },
        decreases self,
    {
        let after = self.with_value(k, v);
        self.lemma_with_value_keeps(k, v);
        match self {
            Shape::Empty => {},
            Shape::Fork { left, key, value, priority, right } => {
                lemma_trichotomy(k, key);
                left.lemma_with_value_entries(k, v);
                right.lemma_with_value_entries(k, v);
                left.lemma_with_value_keeps(k, v);
                right.lemma_with_value_keeps(k, v);
                if lt(k, key) {
                    let l2 = left.with_value(k, v);
                    assert(after == Shape::Fork { left: Box::new(l2), key, value, priority, right });
                    if right.holds(k) {
                        lemma_trichotomy(key, k);
                        assert(lt(key, k));
                    }
                    assert(self.holds(k) <==> left.holds(k));
                    assert forall|x: K| after.value_of(x) == if x == k && self.holds(k) {
                        v
                    } else {
                        self.value_of(x)
                    } by {
                        assert(l2.holds(x) <==> left.holds(x));
                        assert(l2.value_of(x) == if x == k && left.holds(k) {
                            v
                        } else {
                            left.value_of(x)
                        });
                    }
                } else if lt(key, k) {
                    let r2 = right.with_value(k, v);
                    assert(after == Shape::Fork { left, key, value, priority, right: Box::new(r2) });
                    if left.holds(k) {
                        assert(lt(k, key));
                    }
                    assert(self.holds(k) <==> right.holds(k));
                    assert forall|x: K| after.value_of(x) == if x == k && self.holds(k) {
                        v
                    } else {
                        self.value_of(x)
                    } by {
                        assert(r2.holds(x) <==> right.holds(x));
                        assert(r2.value_of(x) == if x == k && right.holds(k) {
                            v
                        } else {
                            right.value_of(x)
                        });
                    }
                } else {
                    assert(after == Shape::Fork { left, key, value: v, priority, right });
                    assert forall|x: K| after.value_of(x) == if x == k && self.holds(k) {
                        v
                    } else {
                        self.value_of(x)
                    } by {}
                }
            },
        }
        if self.holds(k) {
            assert(after.entries() =~= self.entries().insert(k, v));
        } else {
            assert(after.entries() =~= self.entries());
        }
    }

    /// In a search tree, a search for `k` finds the value stored with `k`, or
    /// nothing where no node carries `k`.
    pub proof fn lemma_find(self, k: K)
        requires
            lawful::<K>(),
            self.is_search_tree(),
        ensures
            self.find(k) == if self.holds(k) {
                Some(self.value_of(k))
            } else {
                None
            },
            self.find(k) == if self.entries().contains_key(k) {
                Some(self.entries()[k])
            } else {
                None
            },
        decreases self,
    {
        match self {
            Shape::Empty => {},
            Shape::Fork { left, key, value, priority, right } => {
                lemma_trichotomy(k, key);
                left.lemma_find(k);
                right.lemma_find(k);
                if lt(k, key) {
                    if right.holds(k) {
                        assert(lt(key, k));
                    }
                } else if lt(key, k) {
                    if left.holds(k) {
                        assert(lt(k, key));
                    }
                }
            },
        }
    }

    /// Inserting a key that a treap holds replaces its value and changes
    /// nothing else: a search for the key finds the new value, and no node
    /// is added, moved or given another priority, so the keys and their
    /// number stay as they were.
    pub proof fn lemma_insert_present(self, k: K, v: V, p: P)
        requires
            self.wf(),
            self.holds(k),
        ensures
            self.insert(k, v, p) == self.with_value(k, v),
            self.insert(k, v, p).find(k) == Some(v),
            self.insert(k, v, p).keys() == self.keys(),
            self.insert(k, v, p).size() == self.size(),
            forall|x: K| self.insert(k, v, p).holds(x) <==> self.holds(x),
            forall|q: P| self.insert(k, v, p).has_priority(q) <==> self.has_priority(q),
    {
        self.lemma_insert_reshapes_nothing(k, v, p);
        self.lemma_with_value_keeps(k, v);
        self.lemma_with_value_entries(k, v);
        self.with_value(k, v).lemma_find(k);
    }

    /// Inserting a key that a treap holds gives the tree with the value
    /// replaced.
    proof fn lemma_insert_reshapes_nothing(self, k: K, v: V, p: P)
        requires
            self.wf(),
            self.holds(k),
        ensures
            self.insert(k, v, p) == self.with_value(k, v),
        decreases self,
    {
        match self {
            Shape::Empty => {},
            Shape::Fork { left, key, value, priority, right } => {
                lemma_trichotomy(k, key);
                if lt(k, key) {
                    if right.holds(k) {
                        assert(lt(key, k));
                    }
                    assert(left.holds(k));
                    left.lemma_insert_reshapes_nothing(k, v, p);
                    left.lemma_with_value_keeps(k, v);
                    let grown = left.insert(k, v, p);
                    assert(grown.tops_at_least(priority));
                    if let Shape::Fork { priority: gp, .. } = grown {
                        lemma_trichotomy(priority, gp);
                    }
                    assert(!grown.tops_below(priority));
                } else if lt(key, k) {
                    if left.holds(k) {
                        assert(lt(k, key));
                    }
                    assert(right.holds(k));
                    right.lemma_insert_reshapes_nothing(k, v, p);
                    right.lemma_with_value_keeps(k, v);
                    let grown = right.insert(k, v, p);
                    assert(grown.tops_at_least(priority));
                    if let Shape::Fork { priority: gp, .. } = grown {
                        lemma_trichotomy(priority, gp);
                    }
                    assert(!grown.tops_below(priority));
                }
            },
        }
    }

    /// Inserting a key that a search tree does not hold adds one node, which
    /// carries the priority `p`.
    pub proof fn lemma_insert_absent(self, k: K, v: V, p: P)
        requires
            lawful::<K>(),
            self.is_search_tree(),
            !self.holds(k),
        ensures
            self.insert(k, v, p).size() == self.size() + 1,
            forall|q: P| self.insert(k, v, p).has_priority(q) <==> self.has_priority(q) || q == p,
        decreases self,
    {
        let after = self.insert(k, v, p);
        match self {
            Shape::Empty => {
                let e = Shape::<K, V, P>::Empty;
                assert(after == Self::leaf(k, v, p));
                assert(e.size() == 0);
                assert forall|q: P| after.has_priority(q) <==> self.has_priority(q) || q == p by {
                    assert(!e.has_priority(q));
                }
            },
            Shape::Fork { left, key, value, priority, right } => {
                lemma_trichotomy(k, key);
                if lt(k, key) {
                    let grown = left.insert(k, v, p);
                    let joined = Shape::Fork { left: Box::new(grown), key, value, priority, right };
                    left.lemma_insert_absent(k, v, p);
                    joined.lemma_rotate_right_keeps();
                    assert(joined.size() == self.size() + 1);
                    assert forall|q: P| after.has_priority(q) <==> self.has_priority(q) || q == p by {
                        assert(grown.has_priority(q) <==> left.has_priority(q) || q == p);
                        assert(joined.has_priority(q) <==> priority == q || grown.has_priority(q)
                            || right.has_priority(q));
                        assert(joined.rotate_right().has_priority(q) <==> joined.has_priority(q));
                    }
                } else {
                    assert(lt(key, k));
                    let grown = right.insert(k, v, p);
                    let joined = Shape::Fork { left, key, value, priority, right: Box::new(grown) };
                    right.lemma_insert_absent(k, v, p);
                    joined.lemma_rotate_left_keeps();
                    assert(joined.size() == self.size() + 1);
                    assert forall|q: P| after.has_priority(q) <==> self.has_priority(q) || q == p by {
                        assert(grown.has_priority(q) <==> right.has_priority(q) || q == p);
                        assert(joined.has_priority(q) <==> priority == q || left.has_priority(q)
                            || grown.has_priority(q));
                        assert(joined.rotate_left().has_priority(q) <==> joined.has_priority(q));
                    }
                }
            },
        }
    }

    /// In a heap no priority is below that of the root: whatever bounds the
    /// root from below bounds every node.
    pub proof fn lemma_heap_root_least(self, bound: P)
        requires
            lawful::<P>(),
            self.is_heap(),
            self.tops_at_least(bound),
        ensures
            forall|q: P| self.has_priority(q) ==> le(bound, q),
        decreases self,
    {
        match self {
            Shape::Empty => {},
            Shape::Fork { left, priority, right, .. } => {
                left.lemma_heap_root_least(priority);
                right.lemma_heap_root_least(priority);
                assert forall|q: P| self.has_priority(q) implies le(bound, q) by {
                    lemma_le_chain(bound, priority, q);
                    if left.has_priority(q) {
                        assert(le(priority, q));
                    }
                    if right.has_priority(q) {
                        assert(le(priority, q));
                    }
                }
            },
        }
    }

    /// A descent by priority that succeeds has met a node with that
    /// priority. In a heap it fails for every priority below the root's,
    /// which no node carries.
    pub proof fn lemma_probe(self, p: P)
        requires
            lawful::<P>(),
        ensures
            self.probe(p) ==> self.has_priority(p),
            self.is_heap() && self.tops_below_root(p) ==> !self.probe(p) && !self.has_priority(p),
        decreases self,
    {
        match self {
            Shape::Empty => {},
            Shape::Fork { left, priority, right, .. } => {
                lemma_trichotomy(p, priority);
                lemma_trichotomy(priority, p);
                left.lemma_probe(p);
                right.lemma_probe(p);
                if self.is_heap() && lt(p, priority) {
                    lemma_trichotomy(priority, priority);
                    self.lemma_heap_root_least(priority);
                    if self.has_priority(p) {
                        assert(le(priority, p));
                    }
                    if let Shape::Fork { priority: lp, .. } = *left {
                        lemma_trichotomy(p, lp);
                        lemma_le_chain(p, priority, lp);
                    }
                }
            },
        }
    }

    /// Whatever sequence of insertions builds a tree, it is a treap: its
    /// in-order traversal is strictly ascending and no node has a priority
    /// above that of a child.
    pub proof fn lemma_built_wf(ops: Seq<(K, V, P)>)
        requires
            lawful::<K>(),
            lawful::<P>(),
        ensures
            Self::built(ops).wf(),
            Self::built(ops).is_search_tree(),
            Self::built(ops).is_heap(),
            ascending(Self::built(ops).keys()),
        decreases ops.len(),
    {
        if ops.len() > 0 {
            Self::lemma_built_wf(ops.drop_last());
            Self::built(ops.drop_last()).lemma_insert_wf(ops.last().0, ops.last().1, ops.last().2);
        }
        Self::built(ops).lemma_search_tree_ascending();
    }

    /// After any sequence of insertions, a search for a key finds the value
    /// last assigned to it, and nothing for a key that was never inserted.
    pub proof fn lemma_built_find(ops: Seq<(K, V, P)>, k: K)
        requires
            lawful::<K>(),
            lawful::<P>(),
        ensures
            Self::built(ops).find(k) == Self::last_value(ops, k),
        decreases ops.len(),
    {
        if ops.len() > 0 {
            let before = Self::built(ops.drop_last());
            let (key, value, priority) = ops.last();
            Self::lemma_built_wf(ops.drop_last());
            Self::lemma_built_wf(ops);
            Self::lemma_built_find(ops.drop_last(), k);
            before.lemma_insert_search_tree(key, value, priority);
            before.lemma_find(k);
            Self::built(ops).lemma_find(k);
        }
    }

    /// A node's entry carries its key.
    pub proof fn lemma_entry_key(self, e: (K, V, P))
        requires
            self.has_entry(e),
        ensures
            self.holds(e.0),
        decreases self,
    {
        if let Shape::Fork { left, right, .. } = self {
            if left.has_entry(e) {
                left.lemma_entry_key(e);
            }
            if right.has_entry(e) {
                right.lemma_entry_key(e);
            }
        }
    }

    /// In a heap without ties between parent and child, the root has the
    /// one smallest priority.
    pub proof fn lemma_strict_heap_root_least(self, bound: P)
        requires
            lawful::<P>(),
            self.is_strict_heap(),
            self.tops_above(bound),
        ensures
            forall|e: (K, V, P)| self.has_entry(e) ==> lt(bound, e.2),
        decreases self,
    {
        if let Shape::Fork { left, priority, right, .. } = self {
            left.lemma_strict_heap_root_least(priority);
            right.lemma_strict_heap_root_least(priority);
            assert forall|e: (K, V, P)| self.has_entry(e) implies lt(bound, e.2) by {
                if left.has_entry(e) || right.has_entry(e) {
                    lemma_lt_transitive(bound, priority, e.2);
                }
            }
        }
    }

    /// Two treaps with the same entries, in neither of which a child ties
    /// with its parent in priority, are the same tree: the entries fix the
    /// form.
    pub proof fn lemma_unique(self, other: Self)
        requires
            self.wf(),
            other.wf(),
            self.is_strict_heap(),
            other.is_strict_heap(),
            forall|e: (K, V, P)| self.has_entry(e) <==> other.has_entry(e),
        ensures
            self == other,
        decreases self,
    {
        match (self, other) {
            (Shape::Empty, Shape::Empty) => {},
            (Shape::Empty, Shape::Fork { key, value, priority, .. }) => {
                assert(other.has_entry((key, value, priority)));
                assert(self.has_entry((key, value, priority)));
            },
            (Shape::Fork { key, value, priority, .. }, Shape::Empty) => {
                assert(self.has_entry((key, value, priority)));
                assert(other.has_entry((key, value, priority)));
            },
            (
                Shape::Fork { left: la, key: ka, value: va, priority: pa, right: ra },
                Shape::Fork { left: lb, key: kb, value: vb, priority: pb, right: rb },
            ) => {
                let ea = (ka, va, pa);
                let eb = (kb, vb, pb);
                assert(self.has_entry(ea));
                assert(other.has_entry(eb));
                la.lemma_strict_heap_root_least(pa);
                ra.lemma_strict_heap_root_least(pa);
                lb.lemma_strict_heap_root_least(pb);
                rb.lemma_strict_heap_root_least(pb);
                lemma_trichotomy(pa, pb);
                assert(ea == eb) by {
                    assert(other.has_entry(ea));
                    assert(self.has_entry(eb));
                    if ea != eb {
                        assert(lb.has_entry(ea) || rb.has_entry(ea));
                        assert(la.has_entry(eb) || ra.has_entry(eb));
                        assert(lt(pb, pa));
                        assert(lt(pa, pb));
                    }
                }
                assert forall|e: (K, V, P)| la.has_entry(e) <==> lb.has_entry(e) by {
                    lemma_trichotomy(e.0, ka);
                    if la.has_entry(e) {
                        la.lemma_entry_key(e);
                        assert(lt(e.0, ka));
                        assert(other.has_entry(e));
                        if rb.has_entry(e) {
                            rb.lemma_entry_key(e);
                            assert(lt(ka, e.0));
                        }
                    }
                    if lb.has_entry(e) {
                        lb.lemma_entry_key(e);
                        assert(lt(e.0, ka));
                        assert(self.has_entry(e));
                        if ra.has_entry(e) {
                            ra.lemma_entry_key(e);
                            assert(lt(ka, e.0));
                        }
                    }
                }
                assert forall|e: (K, V, P)| ra.has_entry(e) <==> rb.has_entry(e) by {
                    lemma_trichotomy(e.0, ka);
                    if ra.has_entry(e) {
                        ra.lemma_entry_key(e);
                        assert(lt(ka, e.0));
                        assert(other.has_entry(e));
                        if lb.has_entry(e) {
                            lb.lemma_entry_key(e);
                            assert(lt(e.0, ka));
                        }
                    }
                    if rb.has_entry(e) {
                        rb.lemma_entry_key(e);
                        assert(lt(ka, e.0));
                        assert(self.has_entry(e));
                        if la.has_entry(e) {
                            la.lemma_entry_key(e);
                            assert(lt(e.0, ka));
                        }
                    }
                }
                la.lemma_unique(*lb);
                ra.lemma_unique(*rb);
            },
        }
    }

    /// A tree is no higher than it has nodes.
    pub proof fn lemma_height_at_most_size(self)
        ensures
            self.height() <= self.size(),
        decreases self,
    {
        match self {
            Shape::Empty => {},
            Shape::Fork { left, right, .. } => {
                left.lemma_height_at_most_size();
                right.lemma_height_at_most_size();
            },
        }
    }
}

} // verus!
