//! The mathematical model of the tree: a table from keys to link records,
//! the predicates that make such a table a tree, and the tables that the
//! mutating operations produce.

use std::hash::Hash;
use vstd::laws_eq::obeys_concrete_eq;
use vstd::prelude::*;
use vstd::std_specs::hash::obeys_key_model;

verus! {

/// What the table records for one key: the key above it, if any, and the
/// keys directly below it, in order.
pub struct LinkRecord<T> {
    pub parent: Option<T>,
    pub children: Seq<T>,
}

/// The whole state of a tree: one link record per present key.
pub type LinkTable<T> = Map<T, LinkRecord<T>>;

/// What the container needs of its key type: hashing is deterministic, the
/// executable `==` agrees with equality of values, and `clone` returns a
/// value equal to the one it was given.
pub open spec fn key_model<T: Clone + Eq + Hash>() -> bool {
    &&& obeys_key_model::<T>()
    &&& obeys_concrete_eq::<T>()
    &&& forall|a: T, b: T| #[trigger] call_ensures(T::clone, (&a,), b) ==> a == b
}

/// The parent of `k`; `None` both for a key without parent and for an absent key.
pub open spec fn parent_of<T>(m: LinkTable<T>, k: T) -> Option<T> {
    if m.contains_key(k) {
        m[k].parent
    } else {
        None
    }
}

/// The children of `k`, or `None` for an absent key.
pub open spec fn children_of<T>(m: LinkTable<T>, k: T) -> Option<Seq<T>> {
    if m.contains_key(k) {
        Some(m[k].children)
    } else {
        None
    }
}

/// The key reached from `k` by following the parent link `n` times, if `k`
/// is present and the chain is that long.
pub open spec fn ancestor<T>(m: LinkTable<T>, k: T, n: nat) -> Option<T>
    decreases n,
{
    if !m.contains_key(k) {
        None
    } else if n == 0 {
        Some(k)
    } else {
        match m[k].parent {
            Some(p) => ancestor(m, p, (n - 1) as nat),
            None => None,
        }
    }
}

/// `k` is `top` itself or lies below it.
pub open spec fn in_subtree<T>(m: LinkTable<T>, k: T, top: T) -> bool {
    exists|n: nat| ancestor(m, k, n) == Some(top)
}

/// `k` lies strictly below `top`: one or more parent steps lead from `k` to `top`.
pub open spec fn is_descendant<T>(m: LinkTable<T>, k: T, top: T) -> bool {
    exists|n: nat| n > 0 && ancestor(m, k, n) == Some(top)
}

/// `path` leads downward through the tree: each key but the last lists the
/// next one as a child.
pub open spec fn leads_down<T>(m: LinkTable<T>, path: Seq<T>) -> bool {
    forall|i: int|
        0 <= i < path.len() - 1 ==> m.contains_key(#[trigger] path[i])
            && m[path[i]].children.contains(path[i + 1])
}

/// Parent links and children lists say the same thing: a key with a parent
/// is listed by that parent, whatever a key lists is present and names it as
/// parent, and no list holds a key twice.
pub open spec fn linked<T>(m: LinkTable<T>) -> bool {
    &&& forall|k: T| #[trigger]
        m.contains_key(k) ==> match m[k].parent {
            Some(p) => m.contains_key(p) && m[p].children.contains(k),
            None => true,
        }
    &&& forall|k: T, c: T|
        #![trigger m[k].children.contains(c)]
        m.contains_key(k) && m[k].children.contains(c) ==> m.contains_key(c) && m[c].parent
            == Some(k)
    &&& forall|k: T| #[trigger] m.contains_key(k) ==> m[k].children.no_duplicates()
}

/// `r` is present, has no parent, and every present key lies in its subtree.
pub open spec fn rooted_at<T>(m: LinkTable<T>, r: T) -> bool {
    &&& m.contains_key(r)
    &&& m[r].parent is None
    &&& forall|k: T| #[trigger] m.contains_key(k) ==> in_subtree(m, k, r)
}

/// The table is empty or is one finite tree.
pub open spec fn well_formed<T>(m: LinkTable<T>) -> bool {
    &&& m.dom().finite()
    &&& linked(m)
    &&& m.dom().is_empty() || exists|r: T| rooted_at(m, r)
}

/// The root of the tree, or `None` for a table without one.
pub open spec fn root_of<T>(m: LinkTable<T>) -> Option<T> {
    if exists|r: T| rooted_at(m, r) {
        Some(choose|r: T| rooted_at(m, r))
    } else {
        None
    }
}

/// The tree that holds `root` and nothing else.
pub open spec fn seedling<T>(root: T) -> LinkTable<T> {
    Map::empty().insert(root, LinkRecord { parent: None, children: Seq::empty() })
}

/// `m` after `key` was attached as the new last child of `parent`.
pub open spec fn with_leaf<T>(m: LinkTable<T>, key: T, parent: T) -> LinkTable<T> {
    m.insert(
        parent,
        LinkRecord { parent: m[parent].parent, children: m[parent].children.push(key) },
    ).insert(key, LinkRecord { parent: Some(parent), children: Seq::empty() })
}

/// `m` after `new_root` took the place of `old_root`: it has no parent, it
/// inherits the children list, and those children name it as parent.
pub open spec fn rebased<T>(m: LinkTable<T>, old_root: T, new_root: T) -> LinkTable<T> {
    Map::new(
        |k: T| k == new_root || (m.contains_key(k) && k != old_root),
        |k: T|
            if k == new_root {
                LinkRecord { parent: None, children: m[old_root].children }
            } else if m[k].parent == Some(old_root) {
                LinkRecord { parent: Some(new_root), children: m[k].children }
            } else {
                m[k]
            },
    )
}

/// `m` after everything strictly below `key` was removed; `key` stays, with
/// no children.
pub open spec fn pruned<T>(m: LinkTable<T>, key: T) -> LinkTable<T> {
    Map::new(
        |k: T| m.contains_key(k) && !is_descendant(m, k, key),
        |k: T|
            if k == key {
                LinkRecord { parent: m[k].parent, children: Seq::empty() }
            } else {
                m[k]
            },
    )
}

/// `s` after the occurrence of `x` was overwritten by the last element and
/// the list was shortened by one.
pub open spec fn swap_removed<T>(s: Seq<T>, x: T) -> Seq<T> {
    s.update(s.index_of(x), s.last()).drop_last()
}

/// `m` after `key` and everything below it was removed. The parent of `key`
/// loses it from its children list by `swap_removed`.
pub open spec fn without_subtree<T>(m: LinkTable<T>, key: T) -> LinkTable<T> {
    Map::new(
        |k: T| m.contains_key(k) && !in_subtree(m, k, key),
        |k: T|
            if m.contains_key(key) && m[key].parent == Some(k) {
                LinkRecord { parent: m[k].parent, children: swap_removed(m[k].children, key) }
            } else {
                m[k]
            },
    )
}

} // verus!
