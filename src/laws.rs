//! Laws that hold of all three trees. Each is stated over a tree's keys read
//! in order, as the `insert`, `delete` and `find` contracts of `BST`, `BTree`
//! and `ArenaTree` describe them: `insert(k)` takes a tree with keys `before`
//! to one with keys `after` where
//! `after.to_multiset() == before.to_multiset().insert(k)`, `delete(k)`
//! likewise with `remove(k)`, and `find(k)` answers `keys.contains(k)`.

use crate::order::{sorted, TotalOrder};
use vstd::prelude::*;
use vstd::relations::{sorted_by, total_ordering};

verus! {

broadcast use {vstd::seq_lib::group_to_multiset_ensures, vstd::multiset::group_multiset_axioms};

/// After an insert of `k`, a find of `k` answers true.
pub proof fn lemma_insert_then_find<T>(before: Seq<T>, after: Seq<T>, k: T)
    requires
        after.to_multiset() == before.to_multiset().insert(k),
    ensures
        after.contains(k),
{
    assert(after.to_multiset().count(k) > 0);
}

/// An insert of `k` makes `k` present and changes the presence of no other
/// key.
pub proof fn lemma_insert_membership<T>(before: Seq<T>, after: Seq<T>, k: T)
    requires
        after.to_multiset() == before.to_multiset().insert(k),
    ensures
        forall|j: T| #[trigger] after.contains(j) <==> (before.contains(j) || j == k),
{
    assert forall|j: T| #[trigger] after.contains(j) <==> (before.contains(j) || j == k) by {
        assert(after.to_multiset().count(j) == before.to_multiset().count(j) + if j == k {
            1nat
        } else {
            0nat
        });
    }
}

/// A delete of `k` changes the presence of no other key, and leaves `k`
/// present exactly when the tree held it more than once.
pub proof fn lemma_delete_membership<T>(before: Seq<T>, after: Seq<T>, k: T)
    requires
        after.to_multiset() == before.to_multiset().remove(k),
    ensures
        forall|j: T| j != k ==> (#[trigger] after.contains(j) <==> before.contains(j)),
        after.contains(k) <==> before.to_multiset().count(k) > 1,
{
    assert forall|j: T| j != k implies (#[trigger] after.contains(j) <==> before.contains(j)) by {
        assert(after.to_multiset().count(j) == before.to_multiset().count(j));
    }
    assert(after.to_multiset().count(k) == before.to_multiset().count(k) - 1
        || before.to_multiset().count(k) == 0);
}

/// Starting from an empty tree, after the inserts of `ks` in turn the tree
/// has one node for each insert, and holds exactly the keys of `ks`: a key
/// that was never inserted is not found.
pub proof fn lemma_inserts_from_empty<T>(ks: Seq<T>, trees: Seq<Seq<T>>)
    requires
        trees.len() == ks.len() + 1,
        trees[0] == Seq::<T>::empty(),
        forall|i: int|
            0 <= i < ks.len() ==> #[trigger] trees[i + 1].to_multiset() == trees[i].to_multiset().insert(
                ks[i],
            ),
    ensures
        trees.last().len() == ks.len(),
        forall|j: T| #[trigger] trees.last().contains(j) <==> ks.contains(j),
    decreases ks.len(),
{
    if ks.len() == 0 {
        assert(trees.last() == Seq::<T>::empty());
    } else {
        let n = ks.len() - 1;
        let ks0 = ks.take(n);
        let trees0 = trees.take(n + 1);
        assert forall|i: int| 0 <= i < ks0.len() implies #[trigger] trees0[i + 1].to_multiset()
            == trees0[i].to_multiset().insert(ks0[i]) by {
            assert(trees[i + 1].to_multiset() == trees[i].to_multiset().insert(ks[i]));
        }
        lemma_inserts_from_empty(ks0, trees0);
        assert(trees0.last() == trees[n]);
        assert(trees.last() == trees[n + 1]);
        assert(trees[n + 1].to_multiset() == trees[n].to_multiset().insert(ks[n]));
        lemma_insert_membership(trees[n], trees[n + 1], ks[n]);
        assert(trees[n + 1].to_multiset().len() == trees[n].to_multiset().len() + 1);
        assert(ks =~= ks0.push(ks[n]));
        assert forall|j: T| #[trigger] trees.last().contains(j) <==> ks.contains(j) by {
            if ks.contains(j) && !ks0.contains(j) {
                let i = choose|i: int| 0 <= i < ks.len() && ks[i] == j;
                if i < n {
                    assert(ks0[i] == j);
                }
            }
            if ks0.contains(j) {
                let i = choose|i: int| 0 <= i < ks0.len() && ks0[i] == j;
                assert(ks[i] == j);
            }
        }
    }
}

/// One call that changes a tree.
pub enum Change<T> {
    Insert(T),
    Delete(T),
}

/// How many nodes hold `k` after the changes `ops`, made in turn on an empty
/// tree: each insert of `k` adds one, and each delete of `k` takes one away
/// while there is one.
pub open spec fn copies<T>(ops: Seq<Change<T>>, k: T) -> nat
    decreases ops.len(),
{
    if ops.len() == 0 {
        0
    } else {
        let before = copies(ops.drop_last(), k);
        match ops.last() {
            Change::Insert(x) => if x == k {
                before + 1
            } else {
                before
            },
            Change::Delete(x) => if x == k && before > 0 {
                (before - 1) as nat
            } else {
                before
            },
        }
    }
}

/// A key that no change inserts has no copies.
proof fn lemma_copies_without_insert<T>(ops: Seq<Change<T>>, k: T)
    requires
        forall|i: int| 0 <= i < ops.len() ==> ops[i] != Change::Insert(k),
    ensures
        copies(ops, k) == 0,
    decreases ops.len(),
{
    if ops.len() > 0 {
        assert(ops.last() == ops[ops.len() - 1]);
        lemma_copies_without_insert(ops.drop_last(), k);
    }
}

/// Starting from an empty tree, after the inserts and deletes `ops` in turn,
/// the tree holds each key as often as `copies` counts: a key inserted and
/// not since deleted as often is found, and a key never inserted is not.
pub proof fn lemma_membership_after_changes<T>(ops: Seq<Change<T>>, trees: Seq<Seq<T>>)
    requires
        trees.len() == ops.len() + 1,
        trees[0] == Seq::<T>::empty(),
        forall|i: int|
            0 <= i < ops.len() ==> #[trigger] trees[i + 1].to_multiset() == match ops[i] {
                Change::Insert(x) => trees[i].to_multiset().insert(x),
                Change::Delete(x) => trees[i].to_multiset().remove(x),
            },
    ensures
        forall|k: T| #[trigger] trees.last().to_multiset().count(k) == copies(ops, k),
        forall|k: T| #[trigger] trees.last().contains(k) <==> copies(ops, k) > 0,
        forall|k: T|
            (forall|i: int| 0 <= i < ops.len() ==> ops[i] != Change::Insert(k)) ==> !#[trigger] trees.last().contains(k),
    decreases ops.len(),
{
    if ops.len() == 0 {
        assert(trees.last() == Seq::<T>::empty());
    } else {
        let n = ops.len() - 1;
        let ops0 = ops.drop_last();
        let trees0 = trees.take(n + 1);
        assert forall|i: int| 0 <= i < ops0.len() implies #[trigger] trees0[i + 1].to_multiset() == match ops0[i] {
            Change::Insert(x) => trees0[i].to_multiset().insert(x),
            Change::Delete(x) => trees0[i].to_multiset().remove(x),
        } by {
            assert(trees[i + 1].to_multiset() == match ops[i] {
                Change::Insert(x) => trees[i].to_multiset().insert(x),
                Change::Delete(x) => trees[i].to_multiset().remove(x),
            });
        }
        lemma_membership_after_changes(ops0, trees0);
        assert(trees0.last() == trees[n]);
        assert(trees.last() == trees[n + 1]);
        assert(ops.last() == ops[n]);
        assert(trees[n + 1].to_multiset() == match ops[n] {
            Change::Insert(x) => trees[n].to_multiset().insert(x),
            Change::Delete(x) => trees[n].to_multiset().remove(x),
        });
        assert forall|k: T| #[trigger] trees.last().to_multiset().count(k) == copies(ops, k) by {
            assert(trees[n].to_multiset().count(k) == copies(ops0, k));
        }
    }
    assert forall|k: T| #[trigger] trees.last().contains(k) <==> copies(ops, k) > 0 by {
        assert(trees.last().to_multiset().count(k) == copies(ops, k));
    }
    assert forall|k: T|
        (forall|i: int| 0 <= i < ops.len() ==> ops[i] != Change::Insert(k)) implies !#[trigger] trees.last().contains(k) by {
        lemma_copies_without_insert(ops, k);
        assert(trees.last().to_multiset().count(k) == copies(ops, k));
    }
}

/// A delete of a present key removes exactly one node.
pub proof fn lemma_delete_present_count<T>(before: Seq<T>, after: Seq<T>, k: T)
    requires
        before.contains(k),
        after.to_multiset() == before.to_multiset().remove(k),
    ensures
        after.len() == before.len() - 1,
{
    assert(before.to_multiset().count(k) > 0);
    assert(after.to_multiset().len() == before.to_multiset().len() - 1);
}

/// Inserting `k` once into a tree without `k` and then deleting `k` leaves
/// `k` absent, and the tree with the keys it had before.
pub proof fn lemma_delete_after_single_insert<T: TotalOrder>(
    start: Seq<T>,
    inserted: Seq<T>,
    deleted: Seq<T>,
    k: T,
)
    requires
        sorted(start),
        sorted(deleted),
        !start.contains(k),
        inserted.to_multiset() == start.to_multiset().insert(k),
        deleted.to_multiset() == inserted.to_multiset().remove(k),
    ensures
        !deleted.contains(k),
        deleted == start,
{
    assert(deleted.to_multiset() =~= start.to_multiset());
    assert(deleted.to_multiset().count(k) == 0);
    lemma_same_keys_same_order(deleted, start);
}

/// A delete of an absent key changes nothing: the tree keeps the same keys in
/// the same order, so no find answers differently.
pub proof fn lemma_delete_absent<T: TotalOrder>(before: Seq<T>, after: Seq<T>, k: T)
    requires
        sorted(before),
        sorted(after),
        !before.contains(k),
        after.to_multiset() == before.to_multiset().remove(k),
    ensures
        after == before,
{
    assert(before.to_multiset().count(k) == 0);
    assert(after.to_multiset() =~= before.to_multiset());
    lemma_same_keys_same_order(after, before);
}

/// Two trees that hold the same keys, as many times each, read the same in
/// order.
pub proof fn lemma_same_keys_same_order<T: TotalOrder>(a: Seq<T>, b: Seq<T>)
    requires
        sorted(a),
        sorted(b),
        a.to_multiset() == b.to_multiset(),
    ensures
        a == b,
{
    let leq = |x: T, y: T| x.le(y);
    assert forall|x: T| #[trigger] leq(x, x) by {
        T::lemma_le_reflexive(x);
    }
    assert forall|x: T, y: T| #[trigger] leq(x, y) && #[trigger] leq(y, x) implies x == y by {
        T::lemma_le_antisymmetric(x, y);
    }
    assert forall|x: T, y: T, z: T| #[trigger] leq(x, y) && #[trigger] leq(y, z) implies leq(x, z) by {
        T::lemma_le_transitive(x, y, z);
    }
    assert forall|x: T, y: T| #[trigger] leq(x, y) || #[trigger] leq(y, x) by {
        T::lemma_le_total(x, y);
    }
    assert(total_ordering(leq));
    assert(sorted_by(a, leq));
    assert(sorted_by(b, leq));
    vstd::seq_lib::lemma_sorted_unique(a, b, leq);
}

} // verus!
