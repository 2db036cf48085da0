//! What holds of every tree, and of what the operations make of one.

use crate::chains::{
    lemma_ancestor_compose, lemma_descendant_extends_down, lemma_parentless_is_root,
    lemma_root_of, lemma_root_of_well_formed,
};
use crate::model::{
    ancestor, children_of, in_subtree, leads_down, parent_of, rebased, root_of, well_formed,
    without_subtree, LinkTable,
};
use crate::preserve::lemma_rebased_well_formed;
use vstd::prelude::*;

verus! {

/// No key is attached under two parents, and none stands twice in the
/// children list of one.
pub proof fn law_one_parent<T>(m: LinkTable<T>, k: T, one: T, other: T)
    requires
        well_formed(m),
        children_of(m, one) matches Some(list) && list.contains(k),
        children_of(m, other) matches Some(list) && list.contains(k),
    ensures
        one == other,
        parent_of(m, k) == Some(one),
        m[one].children.no_duplicates(),
{
}

/// The two directions of the links agree: a key with a parent stands in
/// the children list of that parent, and every key in the children list of
/// a key names that key as its parent.
pub proof fn law_links_agree<T>(m: LinkTable<T>, k: T)
    requires
        well_formed(m),
        m.contains_key(k),
    ensures
        parent_of(m, k) matches Some(p) ==> (children_of(m, p) matches Some(list) && list.contains(
            k,
        )),
        forall|c: T| m[k].children.contains(c) ==> parent_of(m, c) == Some(k),
{
}

/// Removing a key removes it and every key that a downward path reaches
/// from it; all other keys stay.
pub proof fn law_cascade<T>(m: LinkTable<T>, key: T, path: Seq<T>)
    requires
        well_formed(m),
        m.contains_key(key),
        path.len() > 0,
        path[0] == key,
        leads_down(m, path),
    ensures
        m.contains_key(path.last()),
        !without_subtree(m, key).contains_key(path.last()),
        forall|k: T|
            without_subtree(m, key).contains_key(k) <==> m.contains_key(k) && !in_subtree(
                m,
                k,
                key,
            ),
    decreases path.len(),
{
    if path.len() == 1 {
        assert(ancestor(m, key, 0) == Some(key));
    } else {
        let upper = path.drop_last();
        assert forall|i: int| 0 <= i < upper.len() - 1 implies m.contains_key(#[trigger] upper[i])
            && m[upper[i]].children.contains(upper[i + 1]) by {
            assert(upper[i] == path[i]);
            assert(upper[i + 1] == path[i + 1]);
        }
        law_cascade(m, key, upper);
        let above = path[path.len() - 2];
        assert(above == upper.last());
        assert(m.contains_key(above) && m[above].children.contains(path[path.len() - 2 + 1]));
        lemma_descendant_extends_down(m, path.last(), above, key);
    }
}

/// From every key the parent links lead to the root, which is the one key
/// without parent, and end there.
pub proof fn law_root_discovery<T>(m: LinkTable<T>, k: T)
    requires
        well_formed(m),
        m.contains_key(k),
    ensures
        root_of(m) is Some,
        parent_of(m, root_of(m).unwrap()) is None,
        m.contains_key(root_of(m).unwrap()),
        forall|j: T| m.contains_key(j) && m[j].parent is None ==> root_of(m) == Some(j),
        exists|n: nat|
            ancestor(m, k, n) == root_of(m) && forall|further: nat|
                further > n ==> ancestor(m, k, further) is None,
{
    lemma_root_of_well_formed(m);
    assert(m.dom().contains(k));
    let r = root_of(m).unwrap();
    assert forall|j: T| m.contains_key(j) && m[j].parent is None implies root_of(m) == Some(j) by {
        lemma_parentless_is_root(m, r, j);
    }
    let n = choose|n: nat| ancestor(m, k, n) == Some(r);
    assert forall|further: nat| further > n implies ancestor(m, k, further) is None by {
        lemma_ancestor_compose(m, k, n, (further - n) as nat);
        assert(n + (further - n) as nat == further);
    }
}

/// Replacing the root `r` of a tree by `x` leaves `x` without parent and
/// with the children list that `r` had, makes each of those children name
/// `x` as parent, takes `r` out of the tree, and changes no other link.
pub proof fn law_rebase<T>(m: LinkTable<T>, r: T, x: T)
    requires
        well_formed(m),
        root_of(m) == Some(r),
        !m.contains_key(x) || x == r,
    ensures
        well_formed(rebased(m, r, x)),
        root_of(rebased(m, r, x)) == Some(x),
        parent_of(rebased(m, r, x), x) is None,
        children_of(rebased(m, r, x), x) == children_of(m, r),
        forall|c: T| m[r].children.contains(c) ==> parent_of(rebased(m, r, x), c) == Some(x),
        x != r ==> !rebased(m, r, x).contains_key(r),
        forall|k: T|
            m.contains_key(k) && k != r ==> rebased(m, r, x).contains_key(k) && children_of(
                rebased(m, r, x),
                k,
            ) == children_of(m, k),
        forall|k: T|
            m.contains_key(k) && k != r && parent_of(m, k) != Some(r) ==> parent_of(
                rebased(m, r, x),
                k,
            ) == parent_of(m, k),
{
    lemma_root_of_well_formed(m);
    lemma_rebased_well_formed(m, r, x);
    lemma_root_of(rebased(m, r, x), x);
    assert forall|c: T| m[r].children.contains(c) implies parent_of(rebased(m, r, x), c) == Some(
        x,
    ) by {
        assert(m.contains_key(c) && m[c].parent == Some(r));
    }
}

/// A key lies in the subtree of `top` exactly if it is `top` or its parent
/// lies in that subtree.
pub proof fn law_subtree_by_parent<T>(m: LinkTable<T>, k: T, top: T)
    ensures
        in_subtree(m, k, top) <==> m.contains_key(k) && (k == top || (m[k].parent matches Some(p)
            && in_subtree(m, p, top))),
{
    if in_subtree(m, k, top) {
        let n = choose|n: nat| ancestor(m, k, n) == Some(top);
        if n > 0 {
            assert(ancestor(m, m[k].parent.unwrap(), (n - 1) as nat) == Some(top));
        }
    }
    if m.contains_key(k) {
        if k == top {
            assert(ancestor(m, k, 0) == Some(top));
        } else if let Some(p) = m[k].parent {
            if in_subtree(m, p, top) {
                let n = choose|n: nat| ancestor(m, p, n) == Some(top);
                assert(ancestor(m, k, n + 1) == Some(top));
            }
        }
    }
}

} // verus!
