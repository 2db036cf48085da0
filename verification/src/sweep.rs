//! The removal of everything below a key, step by step: the tables that
//! stand between the tree before and the pruned tree after.

use crate::chains::{
    lemma_child_is_descendant, lemma_descendant_extends_down, lemma_in_subtree_cases,
    lemma_not_own_descendant,
};
use crate::model::{ancestor, is_descendant, pruned, well_formed, LinkRecord, LinkTable};
use vstd::prelude::*;

verus! {

/// The parent that `k` had in `m0` is `key`, or is no longer in `m`.
pub open spec fn cut_loose<T>(m0: LinkTable<T>, key: T, m: LinkTable<T>, k: T) -> bool {
    m0[k].parent matches Some(q) && (q == key || !m.contains_key(q))
}

/// `m` is what is left of the tree `m0` while the keys below `key` are being
/// removed, and `pending` holds the keys that go next: exactly those keys
/// still present whose parent has gone or is `key`.
pub open spec fn sweeping<T>(m0: LinkTable<T>, key: T, m: LinkTable<T>, pending: Seq<T>) -> bool {
    &&& well_formed(m0)
    &&& m0.contains_key(key)
    &&& m.contains_key(key)
    &&& m[key] == LinkRecord { parent: m0[key].parent, children: Seq::empty() }
    &&& forall|k: T| #[trigger]
        m.contains_key(k) ==> m0.contains_key(k) && (k != key ==> m[k] == m0[k])
    &&& forall|k: T| #[trigger]
        m0.contains_key(k) && !m.contains_key(k) ==> is_descendant(m0, k, key) && cut_loose(
            m0,
            key,
            m,
            k,
        )
    &&& pending.no_duplicates()
    &&& forall|i: int|
        0 <= i < pending.len() ==> m.contains_key(#[trigger] pending[i]) && is_descendant(
            m0,
            pending[i],
            key,
        ) && cut_loose(m0, key, m, pending[i])
    &&& forall|k: T|
        m.contains_key(k) && #[trigger] cut_loose(m0, key, m, k) ==> pending.contains(k)
}

/// The removal starts with the children of `key` pending and `key` itself
/// left without children.
pub proof fn lemma_sweep_start<T>(m0: LinkTable<T>, key: T)
    requires
        well_formed(m0),
        m0.contains_key(key),
    ensures
        sweeping(
            m0,
            key,
            m0.insert(key, LinkRecord { parent: m0[key].parent, children: Seq::empty() }),
            m0[key].children,
        ),
{
    let m = m0.insert(key, LinkRecord { parent: m0[key].parent, children: Seq::empty() });
    let pending = m0[key].children;
    lemma_not_own_descendant(m0, key);
    assert forall|i: int| 0 <= i < pending.len() implies m.contains_key(#[trigger] pending[i])
        && is_descendant(m0, pending[i], key) && cut_loose(m0, key, m, pending[i]) by {
        assert(m0[key].children.contains(pending[i]));
        lemma_child_is_descendant(m0, pending[i], key);
    }
}

/// One step takes the last pending key out of the table and makes its
/// children pending.
pub proof fn lemma_sweep_step<T>(m0: LinkTable<T>, key: T, m: LinkTable<T>, pending: Seq<T>)
    requires
        sweeping(m0, key, m, pending),
        pending.len() > 0,
    ensures
        m.contains_key(pending.last()),
        pending.last() != key,
        m[pending.last()] == m0[pending.last()],
        sweeping(
            m0,
            key,
            m.remove(pending.last()),
            pending.drop_last() + m0[pending.last()].children,
        ),
{
    let k = pending.last();
    let kids = m0[k].children;
    let m2 = m.remove(k);
    let rest = pending.drop_last();
    let pending2 = rest + kids;
    lemma_not_own_descendant(m0, key);
    lemma_not_own_descendant(m0, k);
    assert(m.contains_key(pending[pending.len() - 1]));
    assert(k != key);
    assert(cut_loose(m0, key, m, k));
    assert forall|c: T| kids.contains(c) implies m.contains_key(c) && c != k && !rest.contains(c)
        && is_descendant(m0, c, key) by {
        assert(m0[k].children.contains(c));
        lemma_child_is_descendant(m0, c, k);
        lemma_in_subtree_cases(m0, k, key);
        lemma_descendant_extends_down(m0, c, k, key);
        if rest.contains(c) {
            let i = rest.index_of(c);
            assert(pending[i] == c);
        }
    }
    assert forall|i: int| 0 <= i < rest.len() implies rest[i] != k by {
        assert(pending[i] == rest[i]);
    }
    assert(pending2.no_duplicates()) by {
        assert forall|i: int, j: int| 0 <= i < j < pending2.len() implies pending2[i]
            != pending2[j] by {
            if j >= rest.len() {
                assert(kids.contains(pending2[j]));
                if i >= rest.len() {
                    assert(kids[i - rest.len()] != kids[j - rest.len()]);
                } else {
                    assert(rest.contains(pending2[i]));
                }
            } else {
                assert(pending[i] != pending[j]);
            }
        }
    }
    assert forall|i: int| 0 <= i < pending2.len() implies m2.contains_key(
        #[trigger] pending2[i],
    ) && is_descendant(m0, pending2[i], key) && cut_loose(m0, key, m2, pending2[i]) by {
        if i >= rest.len() {
            assert(kids.contains(pending2[i]));
        } else {
            assert(pending2[i] == pending[i]);
        }
    }
    assert forall|x: T| m2.contains_key(x) && #[trigger] cut_loose(
        m0,
        key,
        m2,
        x,
    ) implies pending2.contains(x) by {
        let q = m0[x].parent.unwrap();
        if q == k {
            assert(m0[k].children.contains(x));
            let i = kids.index_of(x);
            assert(pending2[rest.len() + i] == x);
        } else {
            assert(cut_loose(m0, key, m, x));
            let i = pending.index_of(x);
            assert(pending2[i] == x);
        }
    }
    assert forall|x: T| #[trigger] m0.contains_key(x) && !m2.contains_key(x) implies is_descendant(
        m0,
        x,
        key,
    ) && cut_loose(m0, key, m2, x) by {
        if x != k {
            assert(cut_loose(m0, key, m, x));
        }
    }
}

/// A key that the removal has left in the table, with nothing pending, does
/// not reach `key` by any chain of one or more parent links.
proof fn lemma_sweep_left<T>(m0: LinkTable<T>, key: T, m: LinkTable<T>, k: T, n: nat)
    requires
        sweeping(m0, key, m, Seq::empty()),
        m.contains_key(k),
        n > 0,
    ensures
        ancestor(m0, k, n) != Some(key),
    decreases n,
{
    if ancestor(m0, k, n) == Some(key) {
        let q = m0[k].parent.unwrap();
        if q == key || !m.contains_key(q) {
            assert(cut_loose(m0, key, m, k));
            assert(Seq::<T>::empty().contains(k));
        } else if n > 1 {
            lemma_sweep_left(m0, key, m, q, (n - 1) as nat);
        }
    }
}

/// With nothing pending, what is left is the pruned tree.
pub proof fn lemma_sweep_done<T>(m0: LinkTable<T>, key: T, m: LinkTable<T>)
    requires
        sweeping(m0, key, m, Seq::empty()),
    ensures
        m == pruned(m0, key),
{
    assert forall|k: T| m.contains_key(k) implies !is_descendant(m0, k, key) by {
        if is_descendant(m0, k, key) {
            let n = choose|n: nat| n > 0 && ancestor(m0, k, n) == Some(key);
            lemma_sweep_left(m0, key, m, k, n);
        }
    }
    assert(m =~= pruned(m0, key));
}

} // verus!
