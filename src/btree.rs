use crate::order::{lemma_join_contents, lemma_sorted_join, sorted, TotalOrder};
use crate::shape::TreeShape;
use std::cmp::Ordering;
use std::rc::Rc;
use vstd::multiset::Multiset;
use vstd::prelude::*;

verus! {

broadcast use {vstd::seq_lib::group_to_multiset_ensures, vstd::multiset::group_multiset_axioms};

/// A tree cell reached through reference counts. Cells are never changed
/// once built: a change to a tree builds new cells along the path to it and
/// shares every subtree off that path.
struct Shared<T> {
    value: T,
    left: Option<Rc<Shared<T>>>,
    right: Option<Rc<Shared<T>>>,
}

/// The keys of a subtree, read in order: left subtree, own key, right subtree.
spec fn keys_of<T>(link: Option<Rc<Shared<T>>>) -> Seq<T>
    decreases link,
{
    match link {
        None => Seq::empty(),
        Some(n) => keys_of(n.left) + seq![n.value] + keys_of(n.right),
    }
}

/// The shape of a subtree, with the key of each cell.
spec fn shape_of<T>(link: Option<Rc<Shared<T>>>) -> TreeShape<T>
    decreases link,
{
    match link {
        None => TreeShape::Empty,
        Some(n) => TreeShape::Node(Box::new(shape_of(n.left)), n.value, Box::new(shape_of(n.right))),
    }
}

proof fn lemma_keys_of_shape<T: TotalOrder>(link: Option<Rc<Shared<T>>>)
    ensures
        keys_of(link) == shape_of(link).keys(),
    decreases link,
{
    if let Some(n) = link {
        lemma_keys_of_shape(n.left_link());
        lemma_keys_of_shape(n.right_link());
    }
}

/// The parts of a cell, named for proofs that reach the cell through an `Rc`.
impl<T> Shared<T> {
    spec fn left_link(&self) -> Option<Rc<Shared<T>>> {
        self.left
    }

    spec fn right_link(&self) -> Option<Rc<Shared<T>>> {
        self.right
    }

    spec fn left_keys(&self) -> Seq<T> {
        keys_of(self.left)
    }

    spec fn right_keys(&self) -> Seq<T> {
        keys_of(self.right)
    }

    spec fn key(&self) -> T {
        self.value
    }
}

/// Another handle on the same subtree.
fn share<T>(link: &Option<Rc<Shared<T>>>) -> (r: Option<Rc<Shared<T>>>)
    ensures
        r == *link,
{
    match link {
        Some(n) => Some(Rc::clone(n)),
        None => None,
    }
}

/// A binary search tree whose cells are shared through reference counts and
/// rebuilt along the path of each change. Keys equal to a cell's key go to
/// its right subtree, so every inserted key gets a cell.
pub struct BTree<T: TotalOrder> {
    root: Option<Rc<Shared<T>>>,
}

impl<T: TotalOrder> View for BTree<T> {
    type V = Seq<T>;

    /// The keys of the tree, read in order.
    open spec fn view(&self) -> Seq<T> {
        self.shape().keys()
    }
}

impl<T: TotalOrder> Clone for BTree<T> {
    /// A second tree that shares every cell with this one. Since cells are
    /// never changed in place, later changes to either tree leave the other
    /// as it was.
    fn clone(&self) -> (r: Self)
        ensures
            r.shape() == self.shape(),
    {
        proof {
            use_type_invariant(self);
        }
        BTree { root: share(&self.root) }
    }
}

impl<T: TotalOrder> BTree<T> {
    /// The shape of the tree, with the key of each cell.
    pub closed spec fn shape(&self) -> TreeShape<T> {
        shape_of(self.root)
    }

    #[verifier::type_invariant]
    spec fn well_formed(self) -> bool {
        sorted(keys_of(self.root))
    }

    /// An empty tree.
    pub fn new() -> (t: Self)
        ensures
            t.shape() == TreeShape::<T>::Empty,
            t@ == Seq::<T>::empty(),
    {
        BTree { root: None }
    }

    /// Adds a cell holding `value`. A key equal to a cell's key goes into its
    /// right subtree, so a repeated key gets a cell of its own.
    pub fn insert(&mut self, value: T)
        ensures
            final(self).shape() == old(self).shape().inserted(value),
            sorted(final(self)@),
            final(self)@.to_multiset() == old(self)@.to_multiset().insert(value),
    {
        proof {
            use_type_invariant(&*self);
            lemma_keys_of_shape(self.root);
        }
        let new_node = Rc::new(Shared { value, left: None, right: None });
        self.root = Self::insert_internal(&self.root, new_node);
        proof {
            lemma_keys_of_shape(self.root);
        }
    }

    /// The subtree `current` with the leaf `new_node` added where the search
    /// for its key ends.
    fn insert_internal(current: &Option<Rc<Shared<T>>>, new_node: Rc<Shared<T>>) -> (r: Option<
        Rc<Shared<T>>,
    >)
        requires
            sorted(keys_of(*current)),
            new_node.left is None,
            new_node.right is None,
        ensures
            shape_of(r) == shape_of(*current).inserted(new_node.value),
            sorted(keys_of(r)),
            keys_of(r).to_multiset() == keys_of(*current).to_multiset().insert(new_node.value),
        decreases *current,
    {
        let ghost v = new_node.key();
        proof {
            lemma_join_contents(Seq::<T>::empty(), v, Seq::<T>::empty());
        }
        match current {
            Some(cur) => {
                let ghost left0 = cur.left_keys();
                let ghost right0 = cur.right_keys();
                let ghost k = cur.key();
                proof {
                    lemma_sorted_join(left0, k, right0);
                    lemma_join_contents(left0, k, right0);
                }
                match new_node.value.compare(&cur.value) {
                    Ordering::Less => {
                        let next_node = Self::insert_internal(&cur.left, new_node);
                        proof {
                            let left1 = keys_of(next_node);
                            assert forall|x: T| #[trigger] left1.contains(x) implies x.le(k) by {
                                assert(left1.to_multiset().count(x) > 0);
                                if x != v {
                                    assert(left0.contains(x));
                                }
                            }
                            lemma_sorted_join(left1, k, right0);
                            lemma_join_contents(left1, k, right0);
                        }
                        Some(
                            Rc::new(
                                Shared {
                                    value: cur.value.duplicate(),
                                    left: next_node,
                                    right: share(&cur.right),
                                },
                            ),
                        )
                    },
                    _ => {
                        let next_node = Self::insert_internal(&cur.right, new_node);
                        proof {
                            let right1 = keys_of(next_node);
                            assert forall|x: T| #[trigger] right1.contains(x) implies k.le(x) by {
                                assert(right1.to_multiset().count(x) > 0);
                                if x != v {
                                    assert(right0.contains(x));
                                } else if x == k {
                                    T::lemma_le_reflexive(x);
                                }
                            }
                            lemma_sorted_join(left0, k, right1);
                            lemma_join_contents(left0, k, right1);
                        }
                        Some(
                            Rc::new(
                                Shared {
                                    value: cur.value.duplicate(),
                                    left: share(&cur.left),
                                    right: next_node,
                                },
                            ),
                        )
                    },
                }
            },
            None => Some(new_node),
        }
    }

    /// The keys of the tree in order, one for each cell; they never decrease.
    pub fn in_order(&self) -> (r: Vec<T>)
        ensures
            r@ == self@,
            sorted(r@),
    {
        proof {
            use_type_invariant(self);
            lemma_keys_of_shape(self.root);
        }
        let mut out = Vec::new();
        Self::collect(&self.root, &mut out);
        out
    }

    /// Appends the keys of the subtree at `current` to `out`, in order.
    fn collect(current: &Option<Rc<Shared<T>>>, out: &mut Vec<T>)
        ensures
            final(out)@ == old(out)@ + keys_of(*current),
        decreases *current,
    {
        if let Some(cur) = current {
            Self::collect(&cur.left, out);
            out.push(cur.value.duplicate());
            Self::collect(&cur.right, out);
        }
        proof {
            assert(out@ =~= old(out)@ + keys_of(*current));
        }
    }

    /// Whether some cell holds `value`.
    pub fn find(&self, value: &T) -> (r: bool)
        ensures
            r == self@.contains(*value),
    {
        proof {
            use_type_invariant(self);
            lemma_keys_of_shape(self.root);
        }
        Self::find_internal(&self.root, value)
    }

    /// Whether the subtree at `current` holds `value`.
    fn find_internal(current: &Option<Rc<Shared<T>>>, value: &T) -> (r: bool)
        requires
            sorted(keys_of(*current)),
        ensures
            r == keys_of(*current).contains(*value),
        decreases *current,
    {
        if let Some(cur) = current {
            proof {
                lemma_sorted_join(cur.left_keys(), cur.key(), cur.right_keys());
                lemma_join_contents(cur.left_keys(), cur.key(), cur.right_keys());
                if cur.left_keys().contains(*value) && cur.key().le(*value) {
                    T::lemma_le_antisymmetric(*value, cur.key());
                }
                if cur.right_keys().contains(*value) && value.le(cur.key()) {
                    T::lemma_le_antisymmetric(*value, cur.key());
                }
            }
            match value.compare(&cur.value) {
                Ordering::Less => Self::find_internal(&cur.left, value),
                Ordering::Greater => Self::find_internal(&cur.right, value),
                Ordering::Equal => true,
            }
        } else {
            false
        }
    }

    /// Removes one cell holding `value`, if there is one; otherwise the tree
    /// is left as it was.
    pub fn delete(&mut self, value: T)
        ensures
            final(self).shape() == old(self).shape().deleted(value),
            sorted(final(self)@),
            final(self)@.to_multiset() == old(self)@.to_multiset().remove(value),
            !old(self)@.contains(value) ==> *final(self) == *old(self),
    {
        proof {
            use_type_invariant(&*self);
            lemma_keys_of_shape(self.root);
        }
        self.root = Self::delete_internal(&self.root, &value);
        proof {
            lemma_keys_of_shape(self.root);
        }
    }

    /// The subtree `current` without one cell holding `value`. A cell with
    /// two children takes the key of its in-order successor, which is then
    /// deleted from its right subtree.
    fn delete_internal(current: &Option<Rc<Shared<T>>>, value: &T) -> (r: Option<Rc<Shared<T>>>)
        requires
            sorted(keys_of(*current)),
        ensures
            shape_of(r) == shape_of(*current).deleted(*value),
            sorted(keys_of(r)),
            keys_of(r).to_multiset() == keys_of(*current).to_multiset().remove(*value),
            !keys_of(*current).contains(*value) ==> r == *current,
        decreases *current,
    {
        if let Some(cur) = current {
            let ghost left0 = cur.left_keys();
            let ghost right0 = cur.right_keys();
            let ghost k = cur.key();
            proof {
                lemma_sorted_join(left0, k, right0);
                lemma_join_contents(left0, k, right0);
            }
            match value.compare(&cur.value) {
                Ordering::Less => {
                    proof {
                        if right0.contains(*value) {
                            T::lemma_le_antisymmetric(*value, k);
                        }
                    }
                    let new_left = Self::delete_internal(&cur.left, value);
                    proof {
                        let left1 = keys_of(new_left);
                        assert forall|x: T| #[trigger] left1.contains(x) implies x.le(k) by {
                            assert(left1.to_multiset().count(x) > 0);
                            assert(left0.contains(x));
                        }
                        lemma_sorted_join(left1, k, right0);
                        lemma_join_contents(left1, k, right0);
                        assert((left1 + seq![k] + right0).to_multiset() =~= keys_of(
                            *current,
                        ).to_multiset().remove(*value));
                    }
                    Some(
                        Rc::new(
                            Shared {
                                value: cur.value.duplicate(),
                                left: new_left,
                                right: share(&cur.right),
                            },
                        ),
                    )
                },
                Ordering::Greater => {
                    proof {
                        if left0.contains(*value) || value.le(k) {
                            T::lemma_le_antisymmetric(*value, k);
                        }
                    }
                    let new_right = Self::delete_internal(&cur.right, value);
                    proof {
                        let right1 = keys_of(new_right);
                        assert forall|x: T| #[trigger] right1.contains(x) implies k.le(x) by {
                            assert(right1.to_multiset().count(x) > 0);
                            assert(right0.contains(x));
                        }
                        lemma_sorted_join(left0, k, right1);
                        lemma_join_contents(left0, k, right1);
                        assert((left0 + seq![k] + right1).to_multiset() =~= keys_of(
                            *current,
                        ).to_multiset().remove(*value));
                    }
                    Some(
                        Rc::new(
                            Shared {
                                value: cur.value.duplicate(),
                                left: share(&cur.left),
                                right: new_right,
                            },
                        ),
                    )
                },
                Ordering::Equal => {
                    if cur.left.is_none() && cur.right.is_none() {
                        proof {
                            assert(keys_of(*current).to_multiset() =~= Multiset::empty().insert(k));
                        }
                        None
                    } else if cur.left.is_none() {
                        proof {
                            assert(keys_of(*current).to_multiset() =~= right0.to_multiset().insert(k));
                        }
                        share(&cur.right)
                    } else if cur.right.is_none() {
                        proof {
                            assert(keys_of(*current).to_multiset() =~= left0.to_multiset().insert(k));
                        }
                        share(&cur.left)
                    } else {
                        match &cur.right {
                            Some(right) => {
                                let successor = Self::find_min_node(right);
                                let ghost s = *successor;
                                proof {
                                    lemma_keys_of_shape(cur.right_link());
                                }
                                let new_right = Self::delete_internal(&cur.right, successor);
                                proof {
                                    let right1 = keys_of(new_right);
                                    assert(right0.contains(s));
                                    assert forall|x: T| #[trigger] left0.contains(x) implies x.le(s) by {
                                        T::lemma_le_transitive(x, k, s);
                                    }
                                    assert forall|x: T| #[trigger] right1.contains(x) implies s.le(x) by {
                                        assert(right1.to_multiset().count(x) > 0);
                                        assert(right0.contains(x));
                                        let j = choose|j: int| 0 <= j < right0.len() && right0[j] == x;
                                        if j == 0 {
                                            T::lemma_le_reflexive(s);
                                        } else {
                                            assert(right0[0].le(right0[j]));
                                        }
                                    }
                                    lemma_sorted_join(left0, s, right1);
                                    lemma_join_contents(left0, s, right1);
                                    assert((left0 + seq![s] + right1).to_multiset() =~= keys_of(
                                        *current,
                                    ).to_multiset().remove(*value));
                                }
                                Some(
                                    Rc::new(
                                        Shared {
                                            value: successor.duplicate(),
                                            left: share(&cur.left),
                                            right: new_right,
                                        },
                                    ),
                                )
                            },
                            None => None,
                        }
                    }
                },
            }
        } else {
            None
        }
    }

    /// The key of the leftmost cell of a subtree, that is its smallest key.
    fn find_min_node(node: &Rc<Shared<T>>) -> (r: &T)
        ensures
            *r == keys_of(Some(*node))[0],
        decreases *node,
    {
        proof {
            lemma_join_contents(node.left_keys(), node.key(), node.right_keys());
        }
        match &node.left {
            Some(l) => Self::find_min_node(l),
            None => &node.value,
        }
    }
}

} // verus!
