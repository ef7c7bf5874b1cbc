use std::cmp::Ordering;
use vstd::prelude::*;

verus! {

/// A key type whose values are totally ordered, where two keys compare equal
/// exactly when they are the same value, and which can be duplicated without
/// side effects.
pub trait TotalOrder: Sized {
    /// `self` comes no later than `other`.
    spec fn le(self, other: Self) -> bool;

    proof fn lemma_le_reflexive(x: Self)
        ensures
            x.le(x),
    ;

    proof fn lemma_le_transitive(x: Self, y: Self, z: Self)
        requires
            x.le(y),
            y.le(z),
        ensures
            x.le(z),
    ;

    proof fn lemma_le_antisymmetric(x: Self, y: Self)
        requires
            x.le(y),
            y.le(x),
        ensures
            x == y,
    ;

    proof fn lemma_le_total(x: Self, y: Self)
        ensures
            x.le(y) || y.le(x),
    ;

    /// Three-way comparison of `self` against `other`.
    fn compare(&self, other: &Self) -> (o: Ordering)
        ensures
            o == Ordering::Less <==> (self.le(*other) && *self != *other),
            o == Ordering::Equal <==> *self == *other,
            o == Ordering::Greater <==> (other.le(*self) && *self != *other),
    ;

    /// A copy of `self`.
    fn duplicate(&self) -> (r: Self)
        ensures
            r == *self,
    ;
}

impl TotalOrder for i32 {
    open spec fn le(self, other: Self) -> bool {
        self <= other
    }

    proof fn lemma_le_reflexive(x: Self) {
    }

    proof fn lemma_le_transitive(x: Self, y: Self, z: Self) {
    }

    proof fn lemma_le_antisymmetric(x: Self, y: Self) {
    }

    proof fn lemma_le_total(x: Self, y: Self) {
    }

    fn compare(&self, other: &Self) -> (o: Ordering) {
        if *self < *other {
            Ordering::Less
        } else if *self == *other {
            Ordering::Equal
        } else {
            Ordering::Greater
        }
    }

    fn duplicate(&self) -> (r: Self) {
        *self
    }
}

impl TotalOrder for i64 {
    open spec fn le(self, other: Self) -> bool {
        self <= other
    }

    proof fn lemma_le_reflexive(x: Self) {
    }

    proof fn lemma_le_transitive(x: Self, y: Self, z: Self) {
    }

    proof fn lemma_le_antisymmetric(x: Self, y: Self) {
    }

    proof fn lemma_le_total(x: Self, y: Self) {
    }

    fn compare(&self, other: &Self) -> (o: Ordering) {
        if *self < *other {
            Ordering::Less
        } else if *self == *other {
            Ordering::Equal
        } else {
            Ordering::Greater
        }
    }

    fn duplicate(&self) -> (r: Self) {
        *self
    }
}

impl TotalOrder for u32 {
    open spec fn le(self, other: Self) -> bool {
        self <= other
    }

    proof fn lemma_le_reflexive(x: Self) {
    }

    proof fn lemma_le_transitive(x: Self, y: Self, z: Self) {
    }

    proof fn lemma_le_antisymmetric(x: Self, y: Self) {
    }

    proof fn lemma_le_total(x: Self, y: Self) {
    }

    fn compare(&self, other: &Self) -> (o: Ordering) {
        if *self < *other {
            Ordering::Less
        } else if *self == *other {
            Ordering::Equal
        } else {
            Ordering::Greater
        }
    }

    fn duplicate(&self) -> (r: Self) {
        *self
    }
}

impl TotalOrder for u64 {
    open spec fn le(self, other: Self) -> bool {
        self <= other
    }

    proof fn lemma_le_reflexive(x: Self) {
    }

    proof fn lemma_le_transitive(x: Self, y: Self, z: Self) {
    }

    proof fn lemma_le_antisymmetric(x: Self, y: Self) {
    }

    proof fn lemma_le_total(x: Self, y: Self) {
    }

    fn compare(&self, other: &Self) -> (o: Ordering) {
        if *self < *other {
            Ordering::Less
        } else if *self == *other {
            Ordering::Equal
        } else {
            Ordering::Greater
        }
    }

    fn duplicate(&self) -> (r: Self) {
        *self
    }
}

impl TotalOrder for usize {
    open spec fn le(self, other: Self) -> bool {
        self <= other
    }

    proof fn lemma_le_reflexive(x: Self) {
    }

    proof fn lemma_le_transitive(x: Self, y: Self, z: Self) {
    }

    proof fn lemma_le_antisymmetric(x: Self, y: Self) {
    }

    proof fn lemma_le_total(x: Self, y: Self) {
    }

    fn compare(&self, other: &Self) -> (o: Ordering) {
        if *self < *other {
            Ordering::Less
        } else if *self == *other {
            Ordering::Equal
        } else {
            Ordering::Greater
        }
    }

    fn duplicate(&self) -> (r: Self) {
        *self
    }
}

/// Every key of `s` comes no later than every key after it.
pub open spec fn sorted<T: TotalOrder>(s: Seq<T>) -> bool {
    forall|i: int, j: int| 0 <= i < j < s.len() ==> #[trigger] s[i].le(s[j])
}

/// Every key of `s` comes no later than `k`.
pub open spec fn all_le<T: TotalOrder>(s: Seq<T>, k: T) -> bool {
    forall|x: T| #[trigger] s.contains(x) ==> x.le(k)
}

/// `k` comes no later than any key of `s`.
pub open spec fn all_ge<T: TotalOrder>(s: Seq<T>, k: T) -> bool {
    forall|x: T| #[trigger] s.contains(x) ==> k.le(x)
}

/// What a sequence of the shape `l, k, r` holds, as a multiset and key by key.
pub proof fn lemma_join_contents<T>(l: Seq<T>, k: T, r: Seq<T>)
    ensures
        (l + seq![k] + r).to_multiset() =~= l.to_multiset().insert(k).add(r.to_multiset()),
        forall|x: T| #[trigger] (l + seq![k] + r).contains(x) <==> (l.contains(x) || x == k || r.contains(x)),
{
    broadcast use vstd::seq_lib::group_to_multiset_ensures, vstd::multiset::group_multiset_axioms;

    vstd::seq_lib::lemma_multiset_commutative(l + seq![k], r);
    assert(l + seq![k] =~= l.push(k));
    assert forall|x: T| #[trigger] (l + seq![k] + r).contains(x) <==> (l.contains(x) || x == k
        || r.contains(x)) by {
        assert((l + seq![k] + r).to_multiset().count(x) == l.to_multiset().count(x) + (if x == k {
            1nat
        } else {
            0nat
        }) + r.to_multiset().count(x));
    }
}

/// A sequence of the shape `l, k, r` is sorted exactly when both sides are
/// sorted, everything in `l` comes no later than `k`, and `k` no later than
/// everything in `r`.
pub proof fn lemma_sorted_join<T: TotalOrder>(l: Seq<T>, k: T, r: Seq<T>)
    ensures
        sorted(l + seq![k] + r) <==> (sorted(l) && sorted(r) && all_le(l, k) && all_ge(r, k)),
{
    let s = l + seq![k] + r;
    let n = l.len() as int;
    assert forall|i: int| 0 <= i < l.len() implies s[i] == l[i] by {}
    assert forall|j: int| 0 <= j < r.len() implies s[n + 1 + j] == r[j] by {}
    assert(s[n] == k);
    if sorted(s) {
        assert forall|i: int, j: int| 0 <= i < j < l.len() implies #[trigger] l[i].le(l[j]) by {
            assert(s[i].le(s[j]));
        }
        assert forall|i: int, j: int| 0 <= i < j < r.len() implies #[trigger] r[i].le(r[j]) by {
            assert(s[n + 1 + i].le(s[n + 1 + j]));
        }
        assert forall|x: T| #[trigger] l.contains(x) implies x.le(k) by {
            let i = choose|i: int| 0 <= i < l.len() && l[i] == x;
            assert(s[i].le(s[n]));
        }
        assert forall|x: T| #[trigger] r.contains(x) implies k.le(x) by {
            let j = choose|j: int| 0 <= j < r.len() && r[j] == x;
            assert(s[n].le(s[n + 1 + j]));
        }
    }
    if sorted(l) && sorted(r) && all_le(l, k) && all_ge(r, k) {
        assert forall|i: int, j: int| 0 <= i < j < s.len() implies #[trigger] s[i].le(s[j]) by {
            if j < n {
                assert(l[i].le(l[j]));
            } else if j == n {
                assert(l.contains(l[i]));
            } else if i > n {
                assert(r[i - n - 1].le(r[j - n - 1]));
            } else if i == n {
                assert(r.contains(r[j - n - 1]));
            } else {
                assert(l.contains(l[i]));
                assert(r.contains(r[j - n - 1]));
                T::lemma_le_transitive(s[i], k, s[j]);
            }
        }
    }
}

} // verus!
