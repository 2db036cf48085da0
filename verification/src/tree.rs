//! The container: a hash map from each key to its links, and a count.

use crate::chains::{
    lemma_ancestor_present, lemma_not_own_descendant, lemma_parentless_is_root, lemma_root_of,
    lemma_root_of_well_formed,
};
use crate::error::InsertError;
use crate::model::{
    ancestor, children_of, in_subtree, is_descendant, key_model, parent_of, pruned, rebased,
    root_of, rooted_at, seedling, well_formed, with_leaf, without_subtree, LinkRecord, LinkTable,
};
use crate::preserve::{
    lemma_pruned_well_formed, lemma_rebased_well_formed, lemma_seedling_well_formed,
    lemma_with_leaf_well_formed, lemma_without_subtree_by_steps,
    lemma_without_subtree_well_formed,
};
use crate::rebase::{lemma_rebase_done, lemma_rebase_start, lemma_rebase_step, rebasing};
use crate::sweep::{lemma_sweep_done, lemma_sweep_start, lemma_sweep_step, sweeping};
use std::collections::hash_map::Entry;
use std::collections::HashMap;
use std::hash::Hash;
use vstd::laws_eq::obeys_concrete_eq;
use vstd::prelude::*;
use vstd::std_specs::cmp::PartialEqSpec;

verus! {

/// The links of one key as the container stores them.
struct Links<T> {
    parent: Option<T>,
    children: Vec<T>,
}

impl<T> Links<T> {
    /// The link record that these links stand for.
    spec fn record(self) -> LinkRecord<T> {
        LinkRecord { parent: self.parent, children: self.children@ }
    }
}

/// The link table that a map of stored links stands for.
spec fn table<T>(raw: Map<T, Links<T>>) -> LinkTable<T> {
    Map::new(|k: T| raw.contains_key(k), |k: T| raw[k].record())
}

/// The table follows the map through an insertion.
proof fn lemma_table_insert<T>(raw: Map<T, Links<T>>, k: T, links: Links<T>)
    ensures
        table(raw.insert(k, links)) == table(raw).insert(k, links.record()),
{
    assert(table(raw.insert(k, links)) =~= table(raw).insert(k, links.record()));
}

/// The table follows the map through a removal.
proof fn lemma_table_remove<T>(raw: Map<T, Links<T>>, k: T)
    ensures
        table(raw.remove(k)) == table(raw).remove(k),
{
    assert(table(raw.remove(k)) =~= table(raw).remove(k));
}

/// The table holds the keys of the map.
proof fn lemma_table_dom<T>(raw: Map<T, Links<T>>)
    ensures
        table(raw).dom() == raw.dom(),
{
    assert(table(raw).dom() =~= raw.dom());
}

/// A tree of keys. The keys are the nodes: each present key has at most one
/// parent and an ordered list of children, and the container keeps both
/// directions in step.
pub struct MappedTree<T: Clone + Eq + Hash> {
    links_by_obj: HashMap<T, Links<T>>,
    size: usize,
}

impl<T: Clone + Eq + Hash> View for MappedTree<T> {
    type V = LinkTable<T>;

    /// The link table that the container holds.
    closed spec fn view(&self) -> LinkTable<T> {
        table(self.links_by_obj@)
    }
}

impl<T: Clone + Eq + Hash> MappedTree<T> {
    /// The count that the container keeps of its keys.
    pub closed spec fn spec_len(&self) -> nat {
        self.size as nat
    }

    /// The container is valid: its key type behaves, its table is empty or
    /// one finite tree, and its count is the number of keys in the table.
    pub open spec fn wf(&self) -> bool {
        &&& key_model::<T>()
        &&& well_formed(self@)
        &&& self.spec_len() == self@.dom().len()
    }

    /// An empty tree.
    pub fn new() -> (tree: Self)
        ensures
            tree@ == Map::<T, LinkRecord<T>>::empty(),
            tree.spec_len() == 0,
            key_model::<T>() ==> tree.wf(),
    {
        let tree = MappedTree { links_by_obj: HashMap::new(), size: 0 };
        proof {
            lemma_table_dom(tree.links_by_obj@);
            assert(tree@ =~= Map::<T, LinkRecord<T>>::empty());
        }
        tree
    }

    /// An empty tree with room for `capacity` keys.
    pub fn with_capacity(capacity: usize) -> (tree: Self)
        ensures
            tree@ == Map::<T, LinkRecord<T>>::empty(),
            tree.spec_len() == 0,
            key_model::<T>() ==> tree.wf(),
    {
        let tree = MappedTree { links_by_obj: HashMap::with_capacity(capacity), size: 0 };
        proof {
            lemma_table_dom(tree.links_by_obj@);
            assert(tree@ =~= Map::<T, LinkRecord<T>>::empty());
        }
        tree
    }

    /// The number of keys in the tree.
    pub fn len(&self) -> (count: usize)
        requires
            self.wf(),
        ensures
            count == self@.dom().len(),
            count == self.spec_len(),
    {
        self.size
    }

    /// Whether `obj` is in the tree.
    pub fn contains(&self, obj: &T) -> (present: bool)
        requires
            self.wf(),
        ensures
            present == self@.contains_key(*obj),
    {
        self.links_by_obj.contains_key(obj)
    }

    /// The stored links of `obj`, if it is in the tree.
    fn links(&self, obj: &T) -> (found: Option<&Links<T>>)
        requires
            key_model::<T>(),
        ensures
            match found {
                Some(links) => self@.contains_key(*obj) && links.record() == self@[*obj],
                None => !self@.contains_key(*obj),
            },
    {
        self.links_by_obj.get(obj)
    }

    /// The parent of `obj`: `None` where `obj` is the root, and where it is
    /// not in the tree.
    pub fn parent(&self, obj: &T) -> (found: Option<&T>)
        requires
            self.wf(),
        ensures
            match found {
                Some(p) => parent_of(self@, *obj) == Some(*p),
                None => parent_of(self@, *obj) is None,
            },
    {
        match self.links(obj) {
            Some(links) => links.parent.as_ref(),
            None => None,
        }
    }

    /// The children of `obj` in order, or `None` where it is not in the tree.
    pub fn children(&self, obj: &T) -> (found: Option<&Vec<T>>)
        requires
            self.wf(),
        ensures
            match found {
                Some(list) => children_of(self@, *obj) == Some(list@),
                None => children_of(self@, *obj) is None,
            },
    {
        match self.links(obj) {
            Some(links) => Some(&links.children),
            None => None,
        }
    }

    /// Some key of the tree, or `None` where the tree is empty.
    fn any_key(&self) -> (found: Option<T>)
        requires
            self.wf(),
        ensures
            match found {
                Some(k) => self@.contains_key(k),
                None => self@.dom().is_empty(),
            },
    {
        proof {
            lemma_table_dom(self.links_by_obj@);
        }
        for key in keys: self.links_by_obj.keys()
            invariant
                key_model::<T>(),
                keys.index() == 0,
        {
            proof {
                let first = keys.seq().unref()[0];
                assert(keys.seq().unref().to_set().contains(first));
            }
            return Some(key.clone());
        }
        None
    }

    /// The root of the tree: the one key without parent, found by walking up
    /// from some key. `None` where the tree is empty.
    pub fn root(&self) -> (found: Option<T>)
        requires
            self.wf(),
        ensures
            found == root_of(self@),
            found is None <==> self@.dom().is_empty(),
            found matches Some(r) ==> self@.contains_key(r) && parent_of(self@, r) is None,
    {
        proof {
            lemma_root_of_well_formed(self@);
        }
        match self.any_key() {
            Some(start) => {
                let ghost top = root_of(self@).unwrap();
                let ghost mut steps = choose|n: nat| ancestor(self@, start, n) == Some(top);
                let mut next = start;
                loop
                    invariant
                        self.wf(),
                        rooted_at(self@, top),
                        root_of(self@) == Some(top),
                        ancestor(self@, next, steps) == Some(top),
                    decreases steps,
                {
                    match self.parent(&next) {
                        Some(above) => {
                            proof {
                                steps = (steps - 1) as nat;
                            }
                            next = above.clone();
                        },
                        None => {
                            proof {
                                lemma_ancestor_present(self@, next, steps);
                                lemma_parentless_is_root(self@, top, next);
                            }
                            return Some(next);
                        },
                    }
                }
            },
            None => None,
        }
    }

    /// Makes `obj` the root. In an empty tree `obj` becomes the only key. In
    /// any other tree `obj` takes the place of the root: it inherits the
    /// root's children, which now name it as parent, and the root leaves the
    /// tree. Returns the root that was replaced, if there was one.
    ///
    /// `obj` must not be in the tree already, unless it is the root itself;
    /// the tree then stays as it is.
    pub fn reset_root(&mut self, obj: &T) -> (old_root: Option<T>)
        requires
            old(self).wf(),
            old(self)@.contains_key(*obj) ==> root_of(old(self)@) == Some(*obj),
        ensures
            final(self).wf(),
            old_root == root_of(old(self)@),
            root_of(final(self)@) == Some(*obj),
            final(self)@ == match old_root {
                Some(r) => rebased(old(self)@, r, *obj),
                None => seedling(*obj),
            },
            final(self).spec_len() == if old_root is Some {
                old(self).spec_len()
            } else {
                1
            },
            final(self)@.contains_key(*obj),
            parent_of(final(self)@, *obj) is None,
            old_root matches Some(r) ==> {
                &&& children_of(final(self)@, *obj) == children_of(old(self)@, r)
                &&& forall|c: T| #[trigger]
                    old(self)@[r].children.contains(c) ==> parent_of(final(self)@, c) == Some(*obj)
                &&& r != *obj ==> !final(self)@.contains_key(r)
            },
    {
        let ghost before = self@;
        proof {
            lemma_root_of_well_formed(before);
            lemma_table_dom(self.links_by_obj@);
        }
        match self.root() {
            Some(old_root) => {
                proof {
                    lemma_table_remove(self.links_by_obj@, old_root);
                    lemma_rebase_start(before, old_root, *obj);
                }
                if let Some(links) = self.links_by_obj.remove(&old_root) {
                    let children = links.children;
                    let mut i: usize = 0;
                    while i < children.len()
                        invariant
                            key_model::<T>(),
                            well_formed(before),
                            rooted_at(before, old_root),
                            children@ == before[old_root].children,
                            i <= children.len(),
                            self.size == old(self).size,
                            table(self.links_by_obj@) == rebasing(before, old_root, *obj, i as int),
                        decreases children.len() - i,
                    {
                        let ghost raw = self.links_by_obj@;
                        proof {
                            lemma_rebase_step(before, old_root, *obj, i as int);
                            lemma_table_dom(raw);
                        }
                        match self.links_by_obj.entry(children[i].clone()) {
                            Entry::Occupied(entry) => {
                                let child_links = entry.into_mut();
                                child_links.parent = Some(obj.clone());
                            },
                            Entry::Vacant(_) => {},
                        }
                        proof {
                            let child = children@[i as int];
                            let changed = self.links_by_obj@[child];
                            lemma_table_insert(raw, child, changed);
                            assert(self.links_by_obj@ =~= raw.insert(child, changed));
                        }
                        i += 1;
                    }
                    let ghost raw = self.links_by_obj@;
                    self.links_by_obj.insert(obj.clone(), Links { parent: None, children });
                    proof {
                        lemma_table_insert(raw, *obj, self.links_by_obj@[*obj]);
                        lemma_rebase_done(before, old_root, *obj);
                        lemma_rebased_well_formed(before, old_root, *obj);
                        lemma_root_of(self@, *obj);
                        assert(self@.dom() =~= before.dom().remove(old_root).insert(*obj));
                    }
                }
                Some(old_root)
            },
            None => {
                let ghost raw = self.links_by_obj@;
                self.links_by_obj.insert(obj.clone(), Links { parent: None, children: Vec::new() });
                proof {
                    lemma_table_insert(raw, *obj, self.links_by_obj@[*obj]);
                    assert(self@ =~= seedling(*obj));
                    lemma_seedling_well_formed(*obj);
                    lemma_root_of(self@, *obj);
                    assert(self@.dom() =~= Set::<T>::empty().insert(*obj));
                }
                self.size += 1;
                None
            },
        }
    }

    /// Attaches `obj` as the new last child of `parent`. A key that is
    /// already in the tree is refused, and so is a parent that is not; the
    /// tree is then left as it was.
    pub fn insert(&mut self, obj: &T, parent: &T) -> (outcome: Result<(), InsertError>)
        requires
            old(self).wf(),
        ensures
            final(self).wf(),
            outcome == if old(self)@.contains_key(*obj) {
                Err::<(), InsertError>(InsertError::DuplicateKey)
            } else if !old(self)@.contains_key(*parent) {
                Err::<(), InsertError>(InsertError::UnknownParent)
            } else {
                Ok::<(), InsertError>(())
            },
            final(self)@ == if outcome is Ok {
                with_leaf(old(self)@, *obj, *parent)
            } else {
                old(self)@
            },
            final(self).spec_len() == old(self).spec_len() + if outcome is Ok {
                1nat
            } else {
                0nat
            },
    {
        let ghost before = self@;
        let ghost raw = self.links_by_obj@;
        if self.links_by_obj.contains_key(obj) {
            return Err(InsertError::DuplicateKey);
        }
        let attached = match self.links_by_obj.entry(parent.clone()) {
            Entry::Occupied(entry) => {
                let parent_links = entry.into_mut();
                parent_links.children.push(obj.clone());
                true
            },
            Entry::Vacant(_) => false,
        };
        if !attached {
            assert(self.links_by_obj@ =~= raw);
            return Err(InsertError::UnknownParent);
        }
        self.links_by_obj.insert(
            obj.clone(),
            Links { parent: Some(parent.clone()), children: Vec::new() },
        );
        proof {
            assert(self@ =~= with_leaf(before, *obj, *parent));
            lemma_with_leaf_well_formed(before, *obj, *parent);
            lemma_table_dom(self.links_by_obj@);
            assert(self@.dom() =~= before.dom().insert(*obj));
            assert(self.links_by_obj.len() == self.links_by_obj@.len());
        }
        self.size += 1;
        Ok(())
    }

    /// Removes the keys in `pending` and everything below them: what is left
    /// to do of removing everything below `top` from the tree `before`. The
    /// links of the keys that stay are not touched.
    fn remove_children_without_links(
        &mut self,
        pending: Vec<T>,
        Ghost(before): Ghost<LinkTable<T>>,
        Ghost(top): Ghost<T>,
    )
        requires
            key_model::<T>(),
            sweeping(before, top, old(self)@, pending@),
            old(self).spec_len() == old(self)@.dom().len(),
        ensures
            final(self)@ == pruned(before, top),
            final(self).spec_len() == final(self)@.dom().len(),
    {
        let mut pending = pending;
        proof {
            lemma_table_dom(self.links_by_obj@);
        }
        loop
            invariant
                key_model::<T>(),
                sweeping(before, top, table(self.links_by_obj@), pending@),
                self.size == self.links_by_obj@.len(),
            ensures
                pending@.len() == 0,
            decreases self.links_by_obj@.len(),
        {
            proof {
                lemma_table_dom(self.links_by_obj@);
                if pending@.len() > 0 {
                    lemma_sweep_step(before, top, table(self.links_by_obj@), pending@);
                    lemma_table_remove(self.links_by_obj@, pending@.last());
                }
            }
            match pending.pop() {
                Some(key) => {
                    if let Some(mut links) = self.links_by_obj.remove(&key) {
                        self.size -= 1;
                        pending.append(&mut links.children);
                    }
                },
                None => {
                    break ;
                },
            }
        }
        proof {
            assert(pending@ =~= Seq::empty());
            lemma_sweep_done(before, top, self@);
            lemma_table_dom(self.links_by_obj@);
        }
    }

    /// Removes everything below `obj`; `obj` itself stays, without children.
    /// Nothing happens where `obj` is not in the tree.
    pub fn remove_children(&mut self, obj: &T)
        requires
            old(self).wf(),
        ensures
            final(self).wf(),
            final(self)@ == pruned(old(self)@, *obj),
            !old(self)@.contains_key(*obj) ==> final(self)@ == old(self)@,
            old(self)@.contains_key(*obj) ==> children_of(final(self)@, *obj) == Some(
                Seq::<T>::empty(),
            ),
            forall|k: T| is_descendant(old(self)@, k, *obj) ==> !final(self)@.contains_key(k),
            root_of(final(self)@) == root_of(old(self)@),
    {
        let ghost before = self@;
        let ghost raw = self.links_by_obj@;
        proof {
            lemma_pruned_well_formed(before, *obj);
            lemma_not_own_descendant(before, *obj);
            lemma_table_dom(raw);
        }
        let mut pending: Vec<T> = Vec::new();
        let known = match self.links_by_obj.entry(obj.clone()) {
            Entry::Occupied(entry) => {
                let links = entry.into_mut();
                pending.append(&mut links.children);
                true
            },
            Entry::Vacant(_) => false,
        };
        if !known {
            assert(self.links_by_obj@ =~= raw);
            return ;
        }
        proof {
            let emptied = self.links_by_obj@[*obj];
            lemma_sweep_start(before, *obj);
            lemma_table_insert(raw, *obj, emptied);
            assert(self.links_by_obj@ =~= raw.insert(*obj, emptied));
            assert(self.links_by_obj@.dom() =~= raw.dom());
            lemma_table_dom(self.links_by_obj@);
        }
        self.remove_children_without_links(pending, Ghost(before), Ghost(*obj));
    }

    /// Removes `obj` and everything below it, and strikes `obj` from the
    /// children list of its parent; the last child of that list takes its
    /// place there. Returns whether `obj` was in the tree; where it was not,
    /// nothing changes.
    pub fn remove(&mut self, obj: &T) -> (removed: bool)
        requires
            old(self).wf(),
        ensures
            final(self).wf(),
            removed == old(self)@.contains_key(*obj),
            final(self)@ == if removed {
                without_subtree(old(self)@, *obj)
            } else {
                old(self)@
            },
            forall|k: T| in_subtree(old(self)@, k, *obj) ==> !final(self)@.contains_key(k),
    {
        let ghost before = self@;
        self.remove_children(obj);
        let ghost raw = self.links_by_obj@;
        proof {
            lemma_table_dom(raw);
            lemma_table_remove(raw, *obj);
            lemma_not_own_descendant(before, *obj);
            if before.contains_key(*obj) {
                lemma_without_subtree_by_steps(before, *obj);
                lemma_without_subtree_well_formed(before, *obj);
            }
        }
        let removed = match self.links_by_obj.remove(obj) {
            Some(links) => {
                self.size -= 1;
                if let Some(parent) = links.parent {
                    let ghost cut = self.links_by_obj@;
                    match self.links_by_obj.entry(parent) {
                        Entry::Occupied(entry) => {
                            let parent_links = entry.into_mut();
                            if let Some(at) = position(&parent_links.children, obj) {
                                parent_links.children.swap_remove(at);
                            }
                        },
                        Entry::Vacant(_) => {},
                    }
                    proof {
                        let changed = self.links_by_obj@[parent];
                        lemma_table_insert(cut, parent, changed);
                        assert(self.links_by_obj@ =~= cut.insert(parent, changed));
                    }
                }
                true
            },
            None => {
                proof {
                    assert(self.links_by_obj@ =~= raw);
                }
                false
            },
        };
        proof {
            lemma_table_dom(self.links_by_obj@);
            assert forall|k: T| in_subtree(before, k, *obj) implies !self@.contains_key(k) by {
                let n = choose|n: nat| ancestor(before, k, n) == Some(*obj);
                lemma_ancestor_present(before, k, n);
            }
        }
        removed
    }
}

impl<T: Clone + Eq + Hash> Default for MappedTree<T> {
    /// An empty tree.
    fn default() -> (tree: Self)
        ensures
            tree@ == Map::<T, LinkRecord<T>>::empty(),
            tree.spec_len() == 0,
            key_model::<T>() ==> tree.wf(),
    {
        MappedTree::new()
    }
}

/// Where `obj` stands in `list`, if it stands there.
fn position<T: Clone + Eq + Hash>(list: &Vec<T>, obj: &T) -> (found: Option<usize>)
    requires
        key_model::<T>(),
    ensures
        match found {
            Some(at) => at < list.len() && list@[at as int] == *obj,
            None => !list@.contains(*obj),
        },
{
    proof {
        reveal(obeys_concrete_eq);
    }
    let mut at: usize = 0;
    while at < list.len()
        invariant
            at <= list.len(),
            T::obeys_eq_spec(),
            forall|x: T, y: T| x.eq_spec(&y) <==> x == y,
            forall|j: int| 0 <= j < at ==> list@[j] != *obj,
        decreases list.len() - at,
    {
        if list[at] == *obj {
            return Some(at);
        }
        at += 1;
    }
    None
}

} // verus!
