//! Each table that an operation produces is again a tree.

use crate::chains::{
    lemma_ancestor_agrees, lemma_ancestor_present, lemma_descendant_extends_down,
    lemma_descendant_parent, lemma_in_subtree_cases, lemma_not_own_descendant, lemma_root_of,
};
use crate::model::{
    ancestor, in_subtree, is_descendant, linked, pruned, rebased, root_of, rooted_at, seedling,
    swap_removed, well_formed, with_leaf, without_subtree, LinkRecord, LinkTable,
};
use vstd::prelude::*;

verus! {

/// A lone root is a tree.
pub proof fn lemma_seedling_well_formed<T>(root: T)
    ensures
        well_formed(seedling(root)),
        rooted_at(seedling(root), root),
{
    let m = seedling(root);
    assert(ancestor(m, root, 0) == Some(root));
    assert(rooted_at(m, root));
}

/// Attaching an absent key below a present one keeps the tree a tree, with
/// the same root.
pub proof fn lemma_with_leaf_well_formed<T>(m: LinkTable<T>, key: T, parent: T)
    requires
        well_formed(m),
        !m.contains_key(key),
        m.contains_key(parent),
    ensures
        well_formed(with_leaf(m, key, parent)),
        root_of(with_leaf(m, key, parent)) == root_of(m),
{
    let m2 = with_leaf(m, key, parent);
    let r = choose|r: T| rooted_at(m, r);
    let grown = m[parent].children.push(key);
    assert(grown[grown.len() - 1] == key);
    assert forall|c: T| m[parent].children.contains(c) implies grown.contains(c) by {
        let i = m[parent].children.index_of(c);
        assert(grown[i] == c);
    }
    assert(!m[parent].children.contains(key));
    assert forall|k: T, c: T|
        #![trigger m2[k].children.contains(c)]
        m2.contains_key(k) && m2[k].children.contains(c) implies m2.contains_key(c)
        && m2[c].parent == Some(k) by {
        if k == parent && c != key {
            let i = grown.index_of(c);
            assert(m[parent].children[i] == c);
            assert(m[parent].children.contains(c));
        }
    }
    assert forall|k: T| #[trigger] m2.contains_key(k) implies in_subtree(m2, k, r) by {
        let above = if k == key { parent } else { k };
        let n = choose|n: nat| ancestor(m, above, n) == Some(r);
        lemma_ancestor_agrees(m, m2, above, n);
        if k == key {
            assert(ancestor(m2, key, n + 1) == ancestor(m2, parent, n));
        }
    }
    assert(rooted_at(m2, r));
    lemma_root_of(m, r);
}

/// A chain that reaches the old root reaches the new root in as many steps.
proof fn lemma_rebased_chain<T>(m: LinkTable<T>, old_root: T, new_root: T, k: T, n: nat)
    requires
        linked(m),
        m.contains_key(old_root),
        m[old_root].parent is None,
        !m.contains_key(new_root),
        k != old_root,
        ancestor(m, k, n) == Some(old_root),
    ensures
        ancestor(rebased(m, old_root, new_root), k, n) == Some(new_root),
    decreases n,
{
    let m2 = rebased(m, old_root, new_root);
    let p = m[k].parent.unwrap();
    if p == old_root {
        assert(ancestor(m2, new_root, 0) == Some(new_root));
    } else {
        lemma_rebased_chain(m, old_root, new_root, p, (n - 1) as nat);
    }
}

/// Putting a key that is absent, or the root itself, in the place of the
/// root keeps the tree a tree, now rooted at that key.
pub proof fn lemma_rebased_well_formed<T>(m: LinkTable<T>, old_root: T, new_root: T)
    requires
        well_formed(m),
        rooted_at(m, old_root),
        !m.contains_key(new_root) || new_root == old_root,
    ensures
        well_formed(rebased(m, old_root, new_root)),
        rooted_at(rebased(m, old_root, new_root), new_root),
        new_root == old_root ==> rebased(m, old_root, new_root) == m,
{
    let m2 = rebased(m, old_root, new_root);
    if new_root == old_root {
        assert(m2 =~= m);
    } else {
        assert(m2.dom() =~= m.dom().remove(old_root).insert(new_root));
        assert forall|k: T| #[trigger] m2.contains_key(k) implies in_subtree(m2, k, new_root) by {
            if k == new_root {
                assert(ancestor(m2, k, 0) == Some(new_root));
            } else {
                assert(m.contains_key(k));
                let n = choose|n: nat| ancestor(m, k, n) == Some(old_root);
                lemma_rebased_chain(m, old_root, new_root, k, n);
            }
        }
        assert(rooted_at(m2, new_root));
    }
}

/// Removing what lies strictly below a key keeps the tree a tree, with the
/// same root; it changes nothing where the key is absent.
pub proof fn lemma_pruned_well_formed<T>(m: LinkTable<T>, key: T)
    requires
        well_formed(m),
    ensures
        well_formed(pruned(m, key)),
        root_of(pruned(m, key)) == root_of(m),
        !m.contains_key(key) ==> pruned(m, key) == m,
{
    let m2 = pruned(m, key);
    if !m.contains_key(key) {
        assert forall|k: T| !is_descendant(m, k, key) by {
            if is_descendant(m, k, key) {
                let n = choose|n: nat| n > 0 && ancestor(m, k, n) == Some(key);
                lemma_ancestor_present(m, k, n);
            }
        }
        assert(m2 =~= m);
    } else {
        let r = choose|r: T| rooted_at(m, r);
        assert(m2.dom().subset_of(m.dom()));
        assert forall|k: T| #[trigger] m2.contains_key(k) implies match m2[k].parent {
            Some(p) => m2.contains_key(p) && m2[p].children.contains(k),
            None => true,
        } by {
            if let Some(p) = m[k].parent {
                if is_descendant(m, p, key) || p == key {
                    lemma_in_subtree_cases(m, p, key);
                    lemma_descendant_extends_down(m, k, p, key);
                }
            }
        }
        assert forall|k: T, c: T|
            #![trigger m2[k].children.contains(c)]
            m2.contains_key(k) && m2[k].children.contains(c) implies m2.contains_key(c)
            && m2[c].parent == Some(k) by {
            assert(m[k].children.contains(c));
            if is_descendant(m, c, key) {
                lemma_descendant_parent(m, c, key);
            }
        }
        assert forall|k: T| #[trigger] m2.contains_key(k) implies m2[k].children.no_duplicates()
        by {
            assert(m.contains_key(k));
        }
        assert(linked(m2));
        assert forall|k: T| #[trigger] m2.contains_key(k) implies in_subtree(m2, k, r) by {
            assert(m.contains_key(k));
            let n = choose|n: nat| ancestor(m, k, n) == Some(r);
            lemma_ancestor_agrees(m2, m, k, n);
        }
        assert(rooted_at(m2, r));
        lemma_root_of(m2, r);
    }
}

/// What `swap_removed` does to a list without repetitions that holds `x`:
/// `x` leaves, everything else stays, and nothing comes to stand twice.
pub proof fn lemma_swap_removed<T>(s: Seq<T>, x: T)
    requires
        s.no_duplicates(),
        s.contains(x),
    ensures
        swap_removed(s, x).len() == s.len() - 1,
        swap_removed(s, x).no_duplicates(),
        forall|y: T| swap_removed(s, x).contains(y) <==> s.contains(y) && y != x,
{
    let i = s.index_of(x);
    let t = swap_removed(s, x);
    assert forall|y: T| t.contains(y) <==> s.contains(y) && y != x by {
        if t.contains(y) {
            let j = t.index_of(y);
            assert(t[j] == y);
        }
        if s.contains(y) && y != x {
            let j = s.index_of(y);
            let moved = if j == s.len() - 1 { i } else { j };
            assert(t[moved] == y);
        }
    }
}

/// Removing a present key with all that lies below it keeps the tree a
/// tree: the empty one where the key was the root, else one with the same
/// root.
pub proof fn lemma_without_subtree_well_formed<T>(m: LinkTable<T>, key: T)
    requires
        well_formed(m),
        m.contains_key(key),
    ensures
        well_formed(without_subtree(m, key)),
        root_of(without_subtree(m, key)) == if root_of(m) == Some(key) {
            None
        } else {
            root_of(m)
        },
{
    let m2 = without_subtree(m, key);
    let r = choose|r: T| rooted_at(m, r);
    assert(m2.dom().subset_of(m.dom()));
    if key != r {
        let above = m[key].parent.unwrap();
        lemma_swap_removed(m[above].children, key);
        assert forall|k: T| #[trigger] m2.contains_key(k) implies match m2[k].parent {
            Some(p) => m2.contains_key(p) && m2[p].children.contains(k),
            None => true,
        } by {
            assert(m.contains_key(k));
            assert(ancestor(m, key, 0) == Some(key));
            if let Some(p) = m[k].parent {
                if in_subtree(m, p, key) {
                    lemma_descendant_extends_down(m, k, p, key);
                }
            }
        }
        assert forall|k: T, c: T|
            #![trigger m2[k].children.contains(c)]
            m2.contains_key(k) && m2[k].children.contains(c) implies m2.contains_key(c)
            && m2[c].parent == Some(k) by {
            assert(m[k].children.contains(c));
            if is_descendant(m, c, key) {
                lemma_descendant_parent(m, c, key);
            }
        }
        assert forall|k: T| #[trigger] m2.contains_key(k) implies in_subtree(m2, k, r) by {
            let n = choose|n: nat| ancestor(m, k, n) == Some(r);
            lemma_ancestor_agrees(m2, m, k, n);
        }
        assert(rooted_at(m2, r));
    }
}

/// Removing a subtree comes to three steps: prune below the key, take the
/// key out, and strike it from the children list of its parent.
pub proof fn lemma_without_subtree_by_steps<T>(m: LinkTable<T>, key: T)
    requires
        well_formed(m),
        m.contains_key(key),
    ensures
        without_subtree(m, key) == match m[key].parent {
            Some(p) => pruned(m, key).remove(key).insert(
                p,
                LinkRecord { parent: m[p].parent, children: swap_removed(m[p].children, key) },
            ),
            None => pruned(m, key).remove(key),
        },
        m[key].parent matches Some(p) ==> {
            &&& p != key
            &&& pruned(m, key).contains_key(p)
            &&& pruned(m, key)[p] == m[p]
            &&& m[p].children.contains(key)
            &&& m[p].children.no_duplicates()
        },
{
    lemma_not_own_descendant(m, key);
    assert forall|k: T|
        in_subtree(m, k, key) <==> (k == key && m.contains_key(k)) || is_descendant(m, k, key) by {
        lemma_in_subtree_cases(m, k, key);
    }
    if let Some(p) = m[key].parent {
        assert(p != key) by {
            if p == key {
                lemma_descendant_extends_down(m, key, key, key);
            }
        }
        assert(!is_descendant(m, p, key)) by {
            if is_descendant(m, p, key) {
                lemma_descendant_extends_down(m, key, p, key);
            }
        }
    }
}

} // verus!
