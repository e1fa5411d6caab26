//! Ordered iteration over the tree by walking the linked leaves: all
//! items, keys or values, and items up to an end bound.
use crate::leaf_chain::{chain_entries, chain_offset, chain_ok, lemma_chain_index, lemma_chain_offset_ends, lemma_leaf_chain};
use crate::node::LeafNode;
use crate::sorted::{entries_sorted, entry_keys, is_lower_index};
use crate::tree::{lview, BPlusTreeMap};
use crate::tree_spec::{content, leaf_entries, leaf_seq, NodeViews};
use crate::types::{KeyBound, KeyOrder, NodeId, TreeKey, NULL_NODE};
use vstd::prelude::*;

verus! {

/// Iterator over the items of the tree in key order, possibly stopping
/// before an end key.
pub struct ItemIterator<'a, K, V> {
    tree: &'a BPlusTreeMap<K, V>,
    current_leaf_id: Option<NodeId>,
    /// The leaf being read, kept to avoid looking it up for every item.
    pub current_leaf_ref: Option<&'a LeafNode<K, V>>,
    current_leaf_index: usize,
    end_key: Option<&'a K>,
    end_bound_key: Option<K>,
    end_inclusive: bool,
    finished: bool,
    chain: Ghost<Seq<NodeId>>,
    leaf_pos: Ghost<int>,
}

/// Iterator over the items of the tree in key order, without end bound.
pub struct FastItemIterator<'a, K, V> {
    tree: &'a BPlusTreeMap<K, V>,
    current_leaf_id: Option<NodeId>,
    /// The leaf being read.
    pub current_leaf_ref: Option<&'a LeafNode<K, V>>,
    current_leaf_index: usize,
    finished: bool,
    chain: Ghost<Seq<NodeId>>,
    leaf_pos: Ghost<int>,
}

/// Iterator over the keys of the tree in order.
pub struct KeyIterator<'a, K, V> {
    items: ItemIterator<'a, K, V>,
}

/// Iterator over the values of the tree in key order.
pub struct ValueIterator<'a, K, V> {
    items: ItemIterator<'a, K, V>,
}

/// Iterator over the items of a key range, skipping the start key when the
/// start bound excludes it.
pub struct RangeIterator<'a, K, V> {
    iterator: Option<ItemIterator<'a, K, V>>,
    skip_first: bool,
    first_key: Option<K>,
}

impl<'a, K: TreeKey, V> ItemIterator<'a, K, V> {
    /// The tree walked.
    pub closed spec fn spec_tree(&self) -> &'a BPlusTreeMap<K, V> {
        self.tree
    }

    /// The leaves of the tree, in order.
    pub closed spec fn leaves(&self) -> Seq<NodeId> {
        self.chain@
    }

    /// Whether iteration has ended.
    pub closed spec fn done(&self) -> bool {
        self.finished
    }

    /// Position of the next item among the tree's entries.
    pub closed spec fn pos(&self) -> int {
        chain_offset(self.tree.views(), self.chain@, self.leaf_pos@) + self.current_leaf_index
    }

    /// Whether a key comes before the end bound.
    pub closed spec fn before_end(&self, k: K) -> bool {
        match self.end_key {
            Some(e) => k.rank() < e.rank(),
            None => match self.end_bound_key {
                Some(e) => if self.end_inclusive {
                    k.rank() <= e.rank()
                } else {
                    k.rank() < e.rank()
                },
                None => true,
            },
        }
    }

    /// The iterator's fields agree with the tree: the leaf being read is
    /// leaf `leaf_pos` of the tree's chain, and the index is within it.
    pub closed spec fn cursor_ok(&self) -> bool {
        &&& self.tree.wf()
        &&& self.chain@ == leaf_seq(self.tree.views(), self.tree.root, self.tree.height@)
        &&& chain_ok(self.tree.views(), self.chain@, NULL_NODE)
        &&& self.tree.entries() == chain_entries(self.tree.views(), self.chain@).flatten()
        &&& 0 <= self.leaf_pos@ < self.chain@.len()
        &&& self.current_leaf_id == Some(self.chain@[self.leaf_pos@])
        &&& self.current_leaf_ref == Some(&self.tree.leaf_arena@[self.chain@[self.leaf_pos@]])
        &&& self.current_leaf_index <= self.tree.leaf_arena@[self.chain@[self.leaf_pos@]].keys@.len()
    }

    /// Consistency of the iterator: a live iterator reads a position of the
    /// tree's leaves.
    pub closed spec fn valid(&self) -> bool {
        &&& self.tree.wf()
        &&& !self.finished ==> self.cursor_ok()
    }

    /// Start at the first item of the tree.
    pub fn new(tree: &'a BPlusTreeMap<K, V>) -> (r: Self)
        requires
            tree.wf(),
        ensures
            r.valid(),
            r.spec_tree() == tree,
            !r.done(),
            r.pos() == 0,
            forall|k: K| r.before_end(k),
    {
        let leftmost_id = tree.get_first_leaf_id();
        let ghost l = leaf_seq(tree.views(), tree.root, tree.height@);
        proof {
            lemma_leaf_chain(tree.views(), tree.root, tree.height@, None, None, NULL_NODE);
            lemma_chain_offset_ends(tree.views(), l);
            assert(tree.views().leaves.contains_key(l[0]));
        }
        let current_leaf_ref = match leftmost_id {
            Some(id) => tree.get_leaf(id),
            None => None,
        };
        Self {
            tree,
            current_leaf_id: leftmost_id,
            current_leaf_ref,
            current_leaf_index: 0,
            end_key: None,
            end_bound_key: None,
            end_inclusive: false,
            finished: false,
            chain: Ghost(l),
            leaf_pos: Ghost(0),
        }
    }

    /// Start at position `index` of the leaf `leaf_id`, which is leaf `k`
    /// of the tree, stopping before the end bound.
    pub fn new_from_position_with_bounds(
        tree: &'a BPlusTreeMap<K, V>,
        leaf_id: NodeId,
        index: usize,
        end_bound: KeyBound<&'a K>,
        Ghost(k): Ghost<int>,
    ) -> (r: Self)
        requires
            tree.wf(),
            0 <= k < leaf_seq(tree.views(), tree.root, tree.height@).len(),
            leaf_seq(tree.views(), tree.root, tree.height@)[k] == leaf_id,
            index <= tree.leaf_arena@[leaf_id].keys@.len(),
        ensures
            r.valid(),
            r.spec_tree() == tree,
            !r.done(),
            r.pos() == chain_offset(tree.views(), leaf_seq(tree.views(), tree.root, tree.height@), k) + index,
            forall|x: K| #[trigger] r.before_end(x) == match end_bound {
                KeyBound::Included(e) => x.rank() < e.rank(),
                KeyBound::Excluded(e) => x.rank() < e.rank(),
                KeyBound::Unbounded => true,
            },
    {
        let ghost l = leaf_seq(tree.views(), tree.root, tree.height@);
        proof {
            lemma_leaf_chain(tree.views(), tree.root, tree.height@, None, None, NULL_NODE);
            assert(tree.views().leaves.contains_key(l[k]));
        }
        let current_leaf_ref = tree.get_leaf(leaf_id);
        let (end_key, end_bound_key, end_inclusive) = match end_bound {
            KeyBound::Included(key) => (Some(key), None, true),
            KeyBound::Excluded(key) => (Some(key), None, false),
            KeyBound::Unbounded => (None, None, false),
        };
        Self {
            tree,
            current_leaf_id: Some(leaf_id),
            current_leaf_ref,
            current_leaf_index: index,
            end_key,
            end_bound_key,
            end_inclusive,
            finished: false,
            chain: Ghost(l),
            leaf_pos: Ghost(k),
        }
    }

    /// The next item of `leaf`, the leaf being read, if there is one before
    /// the end bound; ends iteration at an item beyond it.
    fn try_get_next_item(&mut self, leaf: &'a LeafNode<K, V>) -> (r: Option<(&'a K, &'a V)>)
        requires
            old(self).cursor_ok(),
            old(self).current_leaf_ref == Some(leaf),
        ensures
            final(self).cursor_ok(),
            final(self).tree == old(self).tree,
            final(self).chain == old(self).chain,
            final(self).leaf_pos == old(self).leaf_pos,
            final(self).end_key == old(self).end_key,
            final(self).end_bound_key == old(self).end_bound_key,
            final(self).end_inclusive == old(self).end_inclusive,
            ({
                let e = leaf_entries(lview(*leaf));
                let i = old(self).current_leaf_index as int;
                if i >= e.len() {
                    r is None && *final(self) == *old(self)
                } else if old(self).before_end(e[i].0) {
                    &&& r is Some
                    &&& *r.unwrap().0 == e[i].0
                    &&& *r.unwrap().1 == e[i].1
                    &&& final(self).current_leaf_index == i + 1
                    &&& final(self).finished == old(self).finished
                } else {
                    &&& r is None
                    &&& final(self).finished
                    &&& final(self).current_leaf_index == i
                }
            }),
    {
        proof {
            let l = self.chain@;
            let p = self.leaf_pos@;
            assert(self.tree.views().leaves.contains_key(l[p]));
            assert(self.tree.views().leaves[l[p]] == lview(self.tree.leaf_arena@[l[p]]));
        }
        if self.current_leaf_index >= leaf.keys.len() {
            return None;
        }
        let key = &leaf.keys[self.current_leaf_index];
        let value = &leaf.values[self.current_leaf_index];
        let beyond_end = match self.end_key {
            Some(end) => !matches!(key.compare_key(end), KeyOrder::Less),
            None => match &self.end_bound_key {
                Some(end) => if self.end_inclusive {
                    matches!(key.compare_key(end), KeyOrder::Greater)
                } else {
                    !matches!(key.compare_key(end), KeyOrder::Less)
                },
                None => false,
            },
        };
        if beyond_end {
            self.finished = true;
            return None;
        }
        self.current_leaf_index += 1;
        Some((key, value))
    }

    /// A live iterator's position lies within the tree's entries.
    pub proof fn lemma_pos_bounded(&self)
        requires
            self.valid(),
            !self.done(),
        ensures
            0 <= self.pos() <= self.spec_tree().entries().len(),
    {
        let ns = self.tree.views();
        let l = self.chain@;
        let p = self.leaf_pos@;
        lemma_chain_index(ns, l, p);
        assert(ns.leaves.contains_key(l[p]));
        assert(ns.leaves[l[p]] == lview(self.tree.leaf_arena@[l[p]]));
    }

    /// Move to the leaf after the current one. Gives `Some(true)` when
    /// there is one, `Some(false)` at the last leaf.
    fn advance_to_next_leaf(&mut self) -> (r: Option<bool>)
        requires
            old(self).cursor_ok(),
        ensures
            final(self).tree == old(self).tree,
            final(self).chain == old(self).chain,
            final(self).end_key == old(self).end_key,
            final(self).end_bound_key == old(self).end_bound_key,
            final(self).end_inclusive == old(self).end_inclusive,
            final(self).finished == old(self).finished,
            old(self).leaf_pos@ + 1 < old(self).chain@.len() ==> {
                &&& r == Some(true)
                &&& final(self).cursor_ok()
                &&& final(self).leaf_pos@ == old(self).leaf_pos@ + 1
                &&& final(self).current_leaf_index == 0
            },
            old(self).leaf_pos@ + 1 >= old(self).chain@.len() ==> r == Some(false),
    {
        let leaf = match self.current_leaf_ref {
            Some(l) => l,
            None => {
                return None;
            },
        };
        let ghost l = self.chain@;
        let ghost p = self.leaf_pos@;
        proof {
            assert(self.tree.views().leaves.contains_key(l[p]));
            if p + 1 < l.len() {
                assert(self.tree.views().leaves.contains_key(l[p + 1]));
                self.tree.leaf_arena.lemma_ids_below_slots(l[p + 1]);
            }
        }
        let next_leaf_id = if leaf.next != NULL_NODE {
            Some(leaf.next)
        } else {
            None
        };
        self.current_leaf_id = next_leaf_id;
        self.current_leaf_ref = match next_leaf_id {
            Some(id) => self.tree.get_leaf(id),
            None => None,
        };
        self.current_leaf_index = 0;
        proof {
            if p + 1 < l.len() {
                self.leaf_pos@ = p + 1;
            }
        }
        Some(self.current_leaf_id.is_some())
    }
}

impl<'a, K: TreeKey, V> ItemIterator<'a, K, V> {
    /// The next item in key order: the entry at the iterator's position if
    /// it lies before the end bound. Otherwise iteration ends, and every
    /// later call gives `None`.
    pub fn next(&mut self) -> (r: Option<(&'a K, &'a V)>)
        requires
            old(self).valid(),
        ensures
            final(self).valid(),
            final(self).spec_tree() == old(self).spec_tree(),
            forall|k: K| #[trigger] final(self).before_end(k) == old(self).before_end(k),
            old(self).done() ==> r is None && final(self).done(),
            !old(self).done() ==> ({
                let e = old(self).spec_tree().entries();
                let g = old(self).pos();
                if g < e.len() && old(self).before_end(e[g].0) {
                    &&& r is Some
                    &&& *r.unwrap().0 == e[g].0
                    &&& *r.unwrap().1 == e[g].1
                    &&& !final(self).done()
                    &&& final(self).pos() == g + 1
                } else {
                    r is None && final(self).done()
                }
            }),
    {
        if self.finished {
            return None;
        }
        let ghost g = self.pos();
        let ghost e = self.tree.entries();
        let ghost old_self = *self;
        loop
            invariant
                old_self == *old(self),
                !old_self.finished,
                g == old_self.pos(),
                self.cursor_ok(),
                !self.finished,
                self.pos() == g,
                e == self.tree.entries(),
                self.tree == old_self.tree,
                self.chain == old_self.chain,
                self.end_key == old_self.end_key,
                self.end_bound_key == old_self.end_bound_key,
                self.end_inclusive == old_self.end_inclusive,
            decreases self.chain@.len() - self.leaf_pos@,
        {
            let ghost l = self.chain@;
            let ghost p = self.leaf_pos@;
            let ghost ns = self.tree.views();
            proof {
                lemma_chain_index(ns, l, p);
                assert(ns.leaves.contains_key(l[p]));
                assert(ns.leaves[l[p]] == lview(self.tree.leaf_arena@[l[p]]));
            }
            let leaf = match self.current_leaf_ref {
                Some(leaf) => leaf,
                None => {
                    self.finished = true;
                    return None;
                },
            };
            let result = self.try_get_next_item(leaf);
            match result {
                Some(item) => {
                    return Some(item);
                },
                None => {
                    if self.finished {
                        return None;
                    }
                    proof {
                        if p + 1 < l.len() {
                            lemma_chain_index(ns, l, p + 1);
                        } else {
                            lemma_chain_offset_ends(ns, l);
                        }
                    }
                    let advanced = self.advance_to_next_leaf();
                    let more = match advanced {
                        Some(b) => b,
                        None => false,
                    };
                    if !more {
                        self.finished = true;
                        return None;
                    }
                },
            }
        }
    }
}

impl<'a, K: TreeKey, V> FastItemIterator<'a, K, V> {
    /// The tree walked.
    pub closed spec fn spec_tree(&self) -> &'a BPlusTreeMap<K, V> {
        self.tree
    }

    /// Whether iteration has ended.
    pub closed spec fn done(&self) -> bool {
        self.finished
    }

    /// Position of the next item among the tree's entries.
    pub closed spec fn pos(&self) -> int {
        chain_offset(self.tree.views(), self.chain@, self.leaf_pos@) + self.current_leaf_index
    }

    /// The leaf being read is leaf `leaf_pos` of the tree's chain, and the
    /// index is within it.
    pub closed spec fn cursor_ok(&self) -> bool {
        &&& self.tree.wf()
        &&& self.chain@ == leaf_seq(self.tree.views(), self.tree.root, self.tree.height@)
        &&& chain_ok(self.tree.views(), self.chain@, NULL_NODE)
        &&& self.tree.entries() == chain_entries(self.tree.views(), self.chain@).flatten()
        &&& 0 <= self.leaf_pos@ < self.chain@.len()
        &&& self.current_leaf_id == Some(self.chain@[self.leaf_pos@])
        &&& self.current_leaf_ref == Some(&self.tree.leaf_arena@[self.chain@[self.leaf_pos@]])
        &&& self.current_leaf_index <= self.tree.leaf_arena@[self.chain@[self.leaf_pos@]].keys@.len()
    }

    /// A live iterator reads a position of the tree's leaves.
    pub closed spec fn valid(&self) -> bool {
        &&& self.tree.wf()
        &&& !self.finished ==> self.cursor_ok()
    }

    /// Start at the first item of the tree.
    pub fn new(tree: &'a BPlusTreeMap<K, V>) -> (r: Self)
        requires
            tree.wf(),
        ensures
            r.valid(),
            r.spec_tree() == tree,
            !r.done(),
            r.pos() == 0,
    {
        let leftmost_id = tree.get_first_leaf_id();
        let ghost l = leaf_seq(tree.views(), tree.root, tree.height@);
        proof {
            lemma_leaf_chain(tree.views(), tree.root, tree.height@, None, None, NULL_NODE);
            lemma_chain_offset_ends(tree.views(), l);
            assert(tree.views().leaves.contains_key(l[0]));
        }
        let current_leaf_ref = match leftmost_id {
            Some(id) => tree.get_leaf(id),
            None => None,
        };
        Self {
            tree,
            current_leaf_id: leftmost_id,
            current_leaf_ref,
            current_leaf_index: 0,
            finished: false,
            chain: Ghost(l),
            leaf_pos: Ghost(0),
        }
    }

    /// The next item in key order, or `None` once all items were given.
    pub fn next(&mut self) -> (r: Option<(&'a K, &'a V)>)
        requires
            old(self).valid(),
        ensures
            final(self).valid(),
            final(self).spec_tree() == old(self).spec_tree(),
            old(self).done() ==> r is None && final(self).done(),
            !old(self).done() ==> ({
                let e = old(self).spec_tree().entries();
                let g = old(self).pos();
                if g < e.len() {
                    &&& r is Some
                    &&& *r.unwrap().0 == e[g].0
                    &&& *r.unwrap().1 == e[g].1
                    &&& !final(self).done()
                    &&& final(self).pos() == g + 1
                } else {
                    r is None && final(self).done()
                }
            }),
    {
        if self.finished {
            return None;
        }
        let ghost g = self.pos();
        let ghost old_self = *self;
        loop
            invariant
                old_self == *old(self),
                !old_self.finished,
                g == old_self.pos(),
                self.cursor_ok(),
                !self.finished,
                self.pos() == g,
                self.tree == old_self.tree,
                self.chain == old_self.chain,
            decreases self.chain@.len() - self.leaf_pos@,
        {
            let ghost l = self.chain@;
            let ghost p = self.leaf_pos@;
            let ghost ns = self.tree.views();
            proof {
                lemma_chain_index(ns, l, p);
                assert(ns.leaves.contains_key(l[p]));
                assert(ns.leaves[l[p]] == lview(self.tree.leaf_arena@[l[p]]));
            }
            let leaf = match self.current_leaf_ref {
                Some(leaf) => leaf,
                None => {
                    self.finished = true;
                    return None;
                },
            };
            if self.current_leaf_index < leaf.keys.len() {
                let key = &leaf.keys[self.current_leaf_index];
                let value = &leaf.values[self.current_leaf_index];
                proof {
                    let i = self.current_leaf_index as int;
                    assert(leaf_entries(ns.leaves[l[p]])[i] == (leaf.keys@[i], leaf.values@[i]));
                }
                self.current_leaf_index += 1;
                return Some((key, value));
            } else {
                proof {
                    if p + 1 < l.len() {
                        lemma_chain_index(ns, l, p + 1);
                        assert(ns.leaves.contains_key(l[p + 1]));
                        self.tree.leaf_arena.lemma_ids_below_slots(l[p + 1]);
                    } else {
                        lemma_chain_offset_ends(ns, l);
                    }
                }
                if leaf.next != NULL_NODE {
                    self.current_leaf_id = Some(leaf.next);
                    self.current_leaf_ref = self.tree.get_leaf(leaf.next);
                    self.current_leaf_index = 0;
                    proof {
                        self.leaf_pos@ = p + 1;
                    }
                } else {
                    self.finished = true;
                    return None;
                }
            }
        }
    }
}

impl<'a, K: TreeKey, V> KeyIterator<'a, K, V> {
    /// The item iterator underneath.
    pub closed spec fn items(&self) -> ItemIterator<'a, K, V> {
        self.items
    }

    /// Start at the first key of the tree.
    pub fn new(tree: &'a BPlusTreeMap<K, V>) -> (r: Self)
        requires
            tree.wf(),
        ensures
            r.items().valid(),
            r.items().spec_tree() == tree,
            !r.items().done(),
            r.items().pos() == 0,
            forall|k: K| r.items().before_end(k),
    {
        Self { items: ItemIterator::new(tree) }
    }

    /// The next key in order.
    pub fn next(&mut self) -> (r: Option<&'a K>)
        requires
            old(self).items().valid(),
        ensures
            final(self).items().valid(),
            final(self).items().spec_tree() == old(self).items().spec_tree(),
            forall|k: K| #[trigger] final(self).items().before_end(k) == old(self).items().before_end(k),
            old(self).items().done() ==> r is None && final(self).items().done(),
            !old(self).items().done() ==> ({
                let e = old(self).items().spec_tree().entries();
                let g = old(self).items().pos();
                if g < e.len() && old(self).items().before_end(e[g].0) {
                    &&& r is Some
                    &&& *r.unwrap() == e[g].0
                    &&& !final(self).items().done()
                    &&& final(self).items().pos() == g + 1
                } else {
                    r is None && final(self).items().done()
                }
            }),
    {
        match self.items.next() {
            Some((k, _)) => Some(k),
            None => None,
        }
    }
}

impl<'a, K: TreeKey, V> ValueIterator<'a, K, V> {
    /// The item iterator underneath.
    pub closed spec fn items(&self) -> ItemIterator<'a, K, V> {
        self.items
    }

    /// Start at the value of the first key of the tree.
    pub fn new(tree: &'a BPlusTreeMap<K, V>) -> (r: Self)
        requires
            tree.wf(),
        ensures
            r.items().valid(),
            r.items().spec_tree() == tree,
            !r.items().done(),
            r.items().pos() == 0,
            forall|k: K| r.items().before_end(k),
    {
        Self { items: ItemIterator::new(tree) }
    }

    /// The value of the next key in order.
    pub fn next(&mut self) -> (r: Option<&'a V>)
        requires
            old(self).items().valid(),
        ensures
            final(self).items().valid(),
            final(self).items().spec_tree() == old(self).items().spec_tree(),
            forall|k: K| #[trigger] final(self).items().before_end(k) == old(self).items().before_end(k),
            old(self).items().done() ==> r is None && final(self).items().done(),
            !old(self).items().done() ==> ({
                let e = old(self).items().spec_tree().entries();
                let g = old(self).items().pos();
                if g < e.len() && old(self).items().before_end(e[g].0) {
                    &&& r is Some
                    &&& *r.unwrap() == e[g].1
                    &&& !final(self).items().done()
                    &&& final(self).items().pos() == g + 1
                } else {
                    r is None && final(self).items().done()
                }
            }),
    {
        match self.items.next() {
            Some((_, v)) => Some(v),
            None => None,
        }
    }
}

impl<K: TreeKey, V> BPlusTreeMap<K, V> {
    /// An iterator over all items in key order.
    pub fn items(&self) -> (r: ItemIterator<'_, K, V>)
        requires
            self.wf(),
        ensures
            r.valid(),
            r.spec_tree() == self,
            !r.done(),
            r.pos() == 0,
            forall|k: K| r.before_end(k),
    {
        ItemIterator::new(self)
    }

    /// An iterator over all items in key order, without end bound.
    pub fn items_fast(&self) -> (r: FastItemIterator<'_, K, V>)
        requires
            self.wf(),
        ensures
            r.valid(),
            r.spec_tree() == self,
            !r.done(),
            r.pos() == 0,
    {
        FastItemIterator::new(self)
    }

    /// An iterator over all keys in order.
    pub fn keys(&self) -> (r: KeyIterator<'_, K, V>)
        requires
            self.wf(),
        ensures
            r.items().valid(),
            r.items().spec_tree() == self,
            !r.items().done(),
            r.items().pos() == 0,
            forall|k: K| r.items().before_end(k),
    {
        KeyIterator::new(self)
    }

    /// An iterator over all values in key order.
    pub fn values(&self) -> (r: ValueIterator<'_, K, V>)
        requires
            self.wf(),
        ensures
            r.items().valid(),
            r.items().spec_tree() == self,
            !r.items().done(),
            r.items().pos() == 0,
            forall|k: K| r.items().before_end(k),
    {
        ValueIterator::new(self)
    }
}

/// Whether `x` lies before the end bound `(key, inclusive)`, if any.
pub open spec fn before_end_info<K: TreeKey>(end_info: Option<(K, bool)>, x: K) -> bool {
    match end_info {
        Some((e, inclusive)) => if inclusive {
            x.rank() <= e.rank()
        } else {
            x.rank() < e.rank()
        },
        None => true,
    }
}

impl<'a, K: TreeKey, V> RangeIterator<'a, K, V> {
    /// The item iterator underneath, absent for an empty range.
    pub closed spec fn inner(&self) -> Option<ItemIterator<'a, K, V>> {
        self.iterator
    }

    /// Whether the first item is still to be checked against the key to
    /// skip.
    pub closed spec fn skip_pending(&self) -> bool {
        self.skip_first
    }

    /// The key whose item is skipped when it comes first.
    pub closed spec fn skip_key(&self) -> Option<K> {
        self.first_key
    }

    /// The iterator underneath is consistent.
    pub closed spec fn valid(&self) -> bool {
        self.iterator matches Some(it) ==> it.valid()
    }

    /// Start at position `start_info` (leaf `kk` of the tree and an index in
    /// it), stopping at `end_info`; when `skip_first` holds, the item at the
    /// start position is skipped if it comes first.
    pub fn new_with_skip_owned(
        tree: &'a BPlusTreeMap<K, V>,
        start_info: Option<(NodeId, usize)>,
        skip_first: bool,
        end_info: Option<(K, bool)>,
        Ghost(kk): Ghost<int>,
    ) -> (r: Self)
        requires
            tree.wf(),
            start_info matches Some((id, idx)) ==> {
                let l = leaf_seq(tree.views(), tree.root, tree.height@);
                &&& 0 <= kk < l.len()
                &&& l[kk] == id
                &&& idx <= tree.leaf_arena@[id].keys@.len()
            },
        ensures
            r.valid(),
            r.skip_pending() == skip_first,
            start_info is None ==> r.inner() is None && r.skip_key() is None,
            start_info matches Some((id, idx)) ==> {
                let it = r.inner().unwrap();
                let l = leaf_seq(tree.views(), tree.root, tree.height@);
                let keys = tree.leaf_arena@[id].keys@;
                &&& r.inner() is Some
                &&& it.spec_tree() == tree
                &&& !it.done()
                &&& it.pos() == chain_offset(tree.views(), l, kk) + idx
                &&& forall|x: K| #[trigger] it.before_end(x) == before_end_info(end_info, x)
                &&& r.skip_key() == (if skip_first && idx < keys.len() {
                    Some(keys[idx as int])
                } else {
                    None
                })
            },
    {
        match start_info {
            Some((leaf_id, index)) => {
                let mut iter = ItemIterator::new_from_position_with_bounds(
                    tree,
                    leaf_id,
                    index,
                    KeyBound::Unbounded,
                    Ghost(kk),
                );
                proof {
                    if let Some(e) = iter.end_key {
                        assert(iter.before_end(*e));
                    }
                }
                match end_info {
                    Some((key, is_inclusive)) => {
                        iter.end_bound_key = Some(key);
                        iter.end_inclusive = is_inclusive;
                    },
                    None => {},
                }
                let first_key = if skip_first {
                    match tree.get_leaf(leaf_id) {
                        Some(leaf) => if index < leaf.keys.len() {
                            Some(leaf.keys[index])
                        } else {
                            None
                        },
                        None => None,
                    }
                } else {
                    None
                };
                proof {
                    let l = leaf_seq(tree.views(), tree.root, tree.height@);
                    crate::leaf_chain::lemma_leaf_chain(tree.views(), tree.root, tree.height@, None, None, NULL_NODE);
                    assert(tree.views().leaves.contains_key(l[kk]));
                }
                Self { iterator: Some(iter), skip_first, first_key }
            },
            None => Self { iterator: None, skip_first, first_key: None },
        }
    }

    /// The next item of the range: the next item of the iterator
    /// underneath, past the item to skip when it comes first.
    pub fn next(&mut self) -> (r: Option<(&'a K, &'a V)>)
        requires
            old(self).valid(),
        ensures
            final(self).valid(),
            old(self).inner() is None ==> r is None && final(self).inner() is None,
            old(self).inner() matches Some(it) ==> {
                let e = it.spec_tree().entries();
                let g = it.pos();
                let first = !it.done() && g < e.len() && it.before_end(e[g].0);
                let skipping = old(self).skip_pending() && first && old(self).skip_key() == Some(e[g].0);
                let g2 = if skipping { g + 1 } else { g };
                let avail = if skipping {
                    g2 < e.len() && it.before_end(e[g2].0)
                } else {
                    first
                };
                let it2 = final(self).inner().unwrap();
                &&& final(self).inner() is Some
                &&& it2.spec_tree() == it.spec_tree()
                &&& forall|x: K| #[trigger] it2.before_end(x) == it.before_end(x)
                &&& final(self).skip_pending() == (old(self).skip_pending() && !first)
                &&& final(self).skip_key() == old(self).skip_key()
                &&& avail ==> {
                    &&& r is Some
                    &&& *r.unwrap().0 == e[g2].0
                    &&& *r.unwrap().1 == e[g2].1
                    &&& !it2.done()
                    &&& it2.pos() == g2 + 1
                }
                &&& !avail ==> r is None && it2.done()
            },
    {
        let item = match &mut self.iterator {
            Some(it) => match it.next() {
                Some(item) => item,
                None => {
                    return None;
                },
            },
            None => {
                return None;
            },
        };
        if self.skip_first {
            self.skip_first = false;
            match self.first_key {
                Some(first_key) => {
                    let same = matches!(item.0.compare_key(&first_key), KeyOrder::Equal);
                    proof {
                        K::lemma_rank_injective(*item.0, first_key);
                    }
                    if same {
                        return match &mut self.iterator {
                            Some(it) => it.next(),
                            None => None,
                        };
                    }
                },
                None => {},
            }
        }
        Some(item)
    }
}

impl<K: TreeKey, V> BPlusTreeMap<K, V> {
    /// An iterator over the items with keys from `start_key` (included) up
    /// to `end_key` (excluded); a missing bound leaves that side open.
    pub fn items_range<'a>(&'a self, start_key: Option<&K>, end_key: Option<&'a K>) -> (r: RangeIterator<'a, K, V>)
        requires
            self.wf(),
        ensures
            r.valid(),
            !r.skip_pending(),
            r.inner() is Some,
            r.inner().unwrap().spec_tree() == self,
            !r.inner().unwrap().done(),
            forall|x: K| #[trigger] r.inner().unwrap().before_end(x) == (match end_key {
                Some(e) => x.rank() < e.rank(),
                None => true,
            }),
            match start_key {
                Some(s) => is_lower_index(entry_keys(self.entries()), *s, r.inner().unwrap().pos()),
                None => r.inner().unwrap().pos() == 0,
            },
    {
        let start_bound = match start_key {
            Some(k) => KeyBound::Included(*k),
            None => KeyBound::Unbounded,
        };
        let end_bound = match end_key {
            Some(k) => KeyBound::Excluded(*k),
            None => KeyBound::Unbounded,
        };
        let (start_info, skip_first, end_info) = self.resolve_range_bounds(start_bound, end_bound);
        let ghost kk = match start_key {
            Some(s) => choose|kk: int| self.range_start(kk, start_info.unwrap().0, start_info.unwrap().1, *s),
            None => 0,
        };
        proof {
            let l = leaf_seq(self.views(), self.root, self.height@);
            lemma_leaf_chain(self.views(), self.root, self.height@, None, None, NULL_NODE);
            lemma_chain_offset_ends(self.views(), l);
            assert(self.views().leaves.contains_key(l[0]));
        }
        RangeIterator::new_with_skip_owned(self, start_info, skip_first, end_info, Ghost(kk))
    }
}

} // verus!
