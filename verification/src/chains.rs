//! Facts about chains of parent links.

use crate::model::{
    ancestor, in_subtree, is_descendant, linked, root_of, rooted_at, well_formed, LinkTable,
};
use vstd::prelude::*;

verus! {

/// A chain that arrives somewhere starts at a present key and arrives at one.
pub proof fn lemma_ancestor_present<T>(m: LinkTable<T>, k: T, n: nat)
    ensures
        ancestor(m, k, n) matches Some(a) ==> m.contains_key(k) && m.contains_key(a),
    decreases n,
{
    if m.contains_key(k) && n > 0 {
        if let Some(p) = m[k].parent {
            lemma_ancestor_present(m, p, (n - 1) as nat);
        }
    }
}

/// Walking `a` steps and then `b` more is walking `a + b` steps.
pub proof fn lemma_ancestor_compose<T>(m: LinkTable<T>, k: T, a: nat, b: nat)
    ensures
        ancestor(m, k, a + b) == match ancestor(m, k, a) {
            Some(x) => ancestor(m, x, b),
            None => None,
        },
    decreases a,
{
    if m.contains_key(k) && a > 0 {
        if let Some(p) = m[k].parent {
            lemma_ancestor_compose(m, p, (a - 1) as nat, b);
            assert(ancestor(m, k, a + b) == ancestor(m, p, ((a + b) - 1) as nat));
            assert(((a + b) - 1) as nat == (a - 1) as nat + b);
        }
    }
}

/// The subtree of `top` is `top` itself, if present, and its proper descendants.
pub proof fn lemma_in_subtree_cases<T>(m: LinkTable<T>, k: T, top: T)
    ensures
        in_subtree(m, k, top) <==> (k == top && m.contains_key(k)) || is_descendant(m, k, top),
{
    if in_subtree(m, k, top) {
        let n = choose|n: nat| ancestor(m, k, n) == Some(top);
        if n > 0 {
            assert(is_descendant(m, k, top));
        }
    }
    if k == top && m.contains_key(k) {
        assert(ancestor(m, k, 0) == Some(top));
    }
    if is_descendant(m, k, top) {
        let n = choose|n: nat| n > 0 && ancestor(m, k, n) == Some(top);
        assert(ancestor(m, k, n) == Some(top));
    }
}

/// A key listed as a child lies strictly below the key that lists it.
pub proof fn lemma_child_is_descendant<T>(m: LinkTable<T>, c: T, k: T)
    requires
        linked(m),
        m.contains_key(k),
        m[k].children.contains(c),
    ensures
        is_descendant(m, c, k),
{
    assert(ancestor(m, k, 0) == Some(k));
    assert(ancestor(m, c, 1) == ancestor(m, k, 0));
}

/// What lies below a key lies below the parent of that key too.
pub proof fn lemma_descendant_extends_down<T>(m: LinkTable<T>, c: T, k: T, top: T)
    requires
        m.contains_key(c),
        m[c].parent == Some(k),
        in_subtree(m, k, top),
    ensures
        is_descendant(m, c, top),
{
    let n = choose|n: nat| ancestor(m, k, n) == Some(top);
    assert(ancestor(m, c, n + 1) == ancestor(m, k, n));
}

/// A proper descendant of `top` has a parent, which is `top` or lies below it.
pub proof fn lemma_descendant_parent<T>(m: LinkTable<T>, c: T, top: T)
    requires
        is_descendant(m, c, top),
    ensures
        m.contains_key(c),
        m[c].parent is Some,
        in_subtree(m, m[c].parent.unwrap(), top),
{
    let n = choose|n: nat| n > 0 && ancestor(m, c, n) == Some(top);
    assert(ancestor(m, m[c].parent.unwrap(), (n - 1) as nat) == Some(top));
}

/// In a tree no chain of one or more parent links leads back to its start.
pub proof fn lemma_no_cycle<T>(m: LinkTable<T>, r: T, k: T, n: nat)
    requires
        rooted_at(m, r),
        n > 0,
    ensures
        ancestor(m, k, n) != Some(k),
{
    if ancestor(m, k, n) == Some(k) {
        lemma_ancestor_present(m, k, n);
        let j = choose|j: nat| ancestor(m, k, j) == Some(r);
        lemma_ancestor_compose(m, k, n, j);
        lemma_ancestor_compose(m, k, j, n);
        assert(n + j == j + n);
        assert(ancestor(m, r, n) is None);
    }
}

/// In a tree no key lies strictly below itself.
pub proof fn lemma_not_own_descendant<T>(m: LinkTable<T>, k: T)
    requires
        well_formed(m),
    ensures
        !is_descendant(m, k, k),
{
    if is_descendant(m, k, k) {
        let n = choose|n: nat| n > 0 && ancestor(m, k, n) == Some(k);
        lemma_ancestor_present(m, k, n);
        assert(!m.dom().is_empty());
        let r = choose|r: T| rooted_at(m, r);
        lemma_no_cycle(m, r, k, n);
    }
}

/// A tree has one key without parent: the root.
pub proof fn lemma_parentless_is_root<T>(m: LinkTable<T>, r: T, k: T)
    requires
        rooted_at(m, r),
        m.contains_key(k),
        m[k].parent is None,
    ensures
        k == r,
{
    let n = choose|n: nat| ancestor(m, k, n) == Some(r);
    assert(n == 0);
}

/// `root_of` names the key at which the table is rooted.
pub proof fn lemma_root_of<T>(m: LinkTable<T>, r: T)
    requires
        rooted_at(m, r),
    ensures
        root_of(m) == Some(r),
{
    let c = choose|c: T| rooted_at(m, c);
    lemma_parentless_is_root(m, r, c);
}

/// A well-formed table has a root exactly if it holds a key.
pub proof fn lemma_root_of_well_formed<T>(m: LinkTable<T>)
    requires
        well_formed(m),
    ensures
        root_of(m) is None <==> m.dom().is_empty(),
        root_of(m) matches Some(r) ==> rooted_at(m, r),
{
    if m.dom().is_empty() {
        if let Some(r) = root_of(m) {
            assert(m.dom().contains(r));
        }
    }
}

/// Chains are the same in two tables that agree on the parent links of the
/// keys of the first, where those links do not leave the first.
pub proof fn lemma_ancestor_agrees<T>(m1: LinkTable<T>, m2: LinkTable<T>, k: T, n: nat)
    requires
        m1.contains_key(k),
        forall|x: T| #[trigger]
            m1.contains_key(x) ==> m2.contains_key(x) && m2[x].parent == m1[x].parent,
        forall|x: T| #[trigger]
            m1.contains_key(x) ==> (m1[x].parent matches Some(p) ==> m1.contains_key(p)),
    ensures
        ancestor(m2, k, n) == ancestor(m1, k, n),
    decreases n,
{
    if n > 0 {
        if let Some(p) = m1[k].parent {
            lemma_ancestor_agrees(m1, m2, p, (n - 1) as nat);
        }
    }
}

} // verus!
