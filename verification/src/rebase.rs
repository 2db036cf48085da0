//! The replacement of the root, step by step: the tables that stand between
//! the tree before and the rebased tree after.

use crate::model::{rebased, rooted_at, well_formed, LinkRecord, LinkTable};
use vstd::prelude::*;

verus! {

/// The table while the children of the old root are given their new parent:
/// the old root is out, the new root is not in yet, and the first `done`
/// children name the new root as parent.
pub open spec fn rebasing<T>(m: LinkTable<T>, old_root: T, new_root: T, done: int) -> LinkTable<
    T,
> {
    Map::new(
        |k: T| m.contains_key(k) && k != old_root,
        |k: T|
            if m[old_root].children.take(done).contains(k) {
                LinkRecord { parent: Some(new_root), children: m[k].children }
            } else {
                m[k]
            },
    )
}

/// Taking the old root out starts the replacement.
pub proof fn lemma_rebase_start<T>(m: LinkTable<T>, old_root: T, new_root: T)
    ensures
        m.remove(old_root) == rebasing(m, old_root, new_root, 0),
{
    assert(m[old_root].children.take(0) =~= Seq::empty());
    assert(m.remove(old_root) =~= rebasing(m, old_root, new_root, 0));
}

/// One step gives the next child of the old root its new parent.
pub proof fn lemma_rebase_step<T>(m: LinkTable<T>, old_root: T, new_root: T, done: int)
    requires
        well_formed(m),
        rooted_at(m, old_root),
        0 <= done < m[old_root].children.len(),
    ensures
        rebasing(m, old_root, new_root, done).contains_key(m[old_root].children[done]),
        rebasing(m, old_root, new_root, done)[m[old_root].children[done]].children
            == m[m[old_root].children[done]].children,
        rebasing(m, old_root, new_root, done).insert(
            m[old_root].children[done],
            LinkRecord {
                parent: Some(new_root),
                children: m[m[old_root].children[done]].children,
            },
        ) == rebasing(m, old_root, new_root, done + 1),
{
    let kids = m[old_root].children;
    let child = kids[done];
    assert(kids.contains(child));
    assert(kids.take(done + 1) =~= kids.take(done).push(child));
    assert forall|k: T| kids.take(done + 1).contains(k) <==> kids.take(done).contains(k) || k
        == child by {
        if kids.take(done).contains(k) {
            let j = kids.take(done).index_of(k);
            assert(kids.take(done + 1)[j] == k);
        }
        if k == child {
            assert(kids.take(done + 1)[done] == k);
        }
    }
    assert(rebasing(m, old_root, new_root, done).insert(
        child,
        LinkRecord { parent: Some(new_root), children: m[child].children },
    ) =~= rebasing(m, old_root, new_root, done + 1));
}

/// Putting the new root in, with the children list of the old one, ends the
/// replacement.
pub proof fn lemma_rebase_done<T>(m: LinkTable<T>, old_root: T, new_root: T)
    requires
        well_formed(m),
        rooted_at(m, old_root),
    ensures
        rebasing(m, old_root, new_root, m[old_root].children.len() as int).insert(
            new_root,
            LinkRecord { parent: None, children: m[old_root].children },
        ) == rebased(m, old_root, new_root),
{
    let kids = m[old_root].children;
    let last = rebasing(m, old_root, new_root, kids.len() as int).insert(
        new_root,
        LinkRecord { parent: None, children: kids },
    );
    assert(kids.take(kids.len() as int) =~= kids);
    let goal = rebased(m, old_root, new_root);
    assert forall|k: T| last.contains_key(k) implies last[k] == goal[k] by {
        if k != new_root {
            assert(m.contains_key(k));
            assert(kids.contains(k) <==> m[k].parent == Some(old_root));
        }
    }
    assert(last =~= goal);
}

} // verus!
