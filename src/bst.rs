use crate::order::{lemma_join_contents, lemma_sorted_join, sorted, TotalOrder};
use crate::shape::TreeShape;
use std::cmp::Ordering;
use vstd::multiset::Multiset;
use vstd::prelude::*;

verus! {

broadcast use {vstd::seq_lib::group_to_multiset_ensures, vstd::multiset::group_multiset_axioms};

/// A tree cell that owns its two subtrees.
#[derive(Debug)]
struct Branch<T> {
    value: T,
    left: Option<Box<Branch<T>>>,
    right: Option<Box<Branch<T>>>,
}

/// The keys of a subtree, read in order: left subtree, own key, right subtree.
spec fn keys_of<T>(link: Option<Box<Branch<T>>>) -> Seq<T>
    decreases link,
{
    match link {
        None => Seq::empty(),
        Some(b) => keys_of(b.left) + seq![b.value] + keys_of(b.right),
    }
}

/// The shape of a subtree, with the key of each node.
spec fn shape_of<T>(link: Option<Box<Branch<T>>>) -> TreeShape<T>
    decreases link,
{
    match link {
        None => TreeShape::Empty,
        Some(b) => TreeShape::Node(Box::new(shape_of(b.left)), b.value, Box::new(shape_of(b.right))),
    }
}

proof fn lemma_keys_of_shape<T: TotalOrder>(link: Option<Box<Branch<T>>>)
    ensures
        keys_of(link) == shape_of(link).keys(),
    decreases link,
{
    if let Some(b) = link {
        lemma_keys_of_shape(b.left);
        lemma_keys_of_shape(b.right);
    }
}

/// A binary search tree whose nodes own their children. Keys equal to a
/// node's key go to its right subtree, so every inserted key gets a node.
#[derive(Debug)]
pub struct BST<T: TotalOrder> {
    root: Option<Box<Branch<T>>>,
}

impl<T: TotalOrder> View for BST<T> {
    type V = Seq<T>;

    /// The keys of the tree, read in order.
    open spec fn view(&self) -> Seq<T> {
        self.shape().keys()
    }
}

impl<T: TotalOrder> BST<T> {
    /// The shape of the tree, with the key of each node.
    pub closed spec fn shape(&self) -> TreeShape<T> {
        shape_of(self.root)
    }

    #[verifier::type_invariant]
    spec fn well_formed(self) -> bool {
        sorted(keys_of(self.root))
    }

    /// An empty tree.
    pub fn new() -> (t: Self)
        ensures
            t.shape() == TreeShape::<T>::Empty,
            t@ == Seq::<T>::empty(),
    {
        BST { root: None }
    }

    /// Adds a node holding `value`. A key equal to a node's key goes into its
    /// right subtree, so a repeated key gets a node of its own.
    pub fn insert(&mut self, value: T)
        ensures
            final(self).shape() == old(self).shape().inserted(value),
            sorted(final(self)@),
            final(self)@.to_multiset() == old(self)@.to_multiset().insert(value),
    {
        proof {
            use_type_invariant(&*self);
            lemma_keys_of_shape(self.root);
        }
        let mut root = None;
        std::mem::swap(&mut root, &mut self.root);
        Self::insert_internal(&mut root, value);
        self.root = root;
        proof {
            lemma_keys_of_shape(self.root);
        }
    }

    /// Adds a leaf holding `value` to the subtree at `node`, where the search
    /// for `value` ends.
    fn insert_internal(node: &mut Option<Box<Branch<T>>>, value: T)
        requires
            sorted(keys_of(*old(node))),
        ensures
            shape_of(*final(node)) == shape_of(*old(node)).inserted(value),
            sorted(keys_of(*final(node))),
            keys_of(*final(node)).to_multiset() == keys_of(*old(node)).to_multiset().insert(value),
        decreases *old(node),
    {
        let ghost v = value;
        match node {
            Some(cur) => {
                let ghost left0 = keys_of(cur.left);
                let ghost right0 = keys_of(cur.right);
                proof {
                    lemma_sorted_join(left0, cur.value, right0);
                    lemma_join_contents(left0, cur.value, right0);
                }
                match value.compare(&cur.value) {
                    Ordering::Less => {
                        Self::insert_internal(&mut cur.left, value);
                        proof {
                            let left1 = keys_of(cur.left);
                            assert forall|x: T| #[trigger] left1.contains(x) implies x.le(cur.value) by {
                                assert(left1.to_multiset().count(x) > 0);
                                if x != v {
                                    assert(left0.contains(x));
                                }
                            }
                            lemma_sorted_join(left1, cur.value, right0);
                            lemma_join_contents(left1, cur.value, right0);
                        }
                    },
                    _ => {
                        Self::insert_internal(&mut cur.right, value);
                        proof {
                            let right1 = keys_of(cur.right);
                            assert forall|x: T| #[trigger] right1.contains(x) implies cur.value.le(x) by {
                                assert(right1.to_multiset().count(x) > 0);
                                if x != v {
                                    assert(right0.contains(x));
                                } else if x == cur.value {
                                    T::lemma_le_reflexive(x);
                                }
                            }
                            lemma_sorted_join(left0, cur.value, right1);
                            lemma_join_contents(left0, cur.value, right1);
                        }
                    },
                }
            },
            None => {
                *node = Some(Box::new(Branch { value, left: None, right: None }));
                proof {
                    lemma_join_contents(Seq::<T>::empty(), v, Seq::<T>::empty());
                }
            },
        }
    }

    /// Removes one node holding `value`, if there is one; otherwise the tree is
    /// left as it was.
    pub fn delete(&mut self, value: T)
        ensures
            final(self).shape() == old(self).shape().deleted(value),
            sorted(final(self)@),
            final(self)@.to_multiset() == old(self)@.to_multiset().remove(value),
            !old(self)@.contains(value) ==> *final(self) == *old(self),
    {
        proof {
            use_type_invariant(&*self);
            lemma_keys_of_shape(self.root);
        }
        let mut root = None;
        std::mem::swap(&mut root, &mut self.root);
        Self::delete_internal(&mut root, &value);
        self.root = root;
        proof {
            lemma_keys_of_shape(self.root);
        }
    }

    /// Removes one node holding `value` from the subtree at `node`. A node with
    /// two children takes a copy of the key of its in-order successor, which
    /// is then deleted from its right subtree.
    fn delete_internal(node: &mut Option<Box<Branch<T>>>, value: &T)
        requires
            sorted(keys_of(*old(node))),
        ensures
            shape_of(*final(node)) == shape_of(*old(node)).deleted(*value),
            sorted(keys_of(*final(node))),
            keys_of(*final(node)).to_multiset() == keys_of(*old(node)).to_multiset().remove(*value),
            !keys_of(*old(node)).contains(*value) ==> *final(node) == *old(node),
        decreases keys_of(*old(node)).len(),
    {
        match node {
            Some(cur) => {
                let ghost left0 = keys_of(cur.left);
                let ghost right0 = keys_of(cur.right);
                let ghost k = cur.value;
                proof {
                    lemma_sorted_join(left0, k, right0);
                    lemma_join_contents(left0, k, right0);
                }
                match value.compare(&cur.value) {
                    Ordering::Less => {
                        proof {
                            if right0.contains(*value) {
                                T::lemma_le_antisymmetric(*value, k);
                            }
                        }
                        Self::delete_internal(&mut cur.left, value);
                        proof {
                            let left1 = keys_of(cur.left);
                            assert forall|x: T| #[trigger] left1.contains(x) implies x.le(k) by {
                                assert(left1.to_multiset().count(x) > 0);
                                assert(left0.contains(x));
                            }
                            lemma_sorted_join(left1, k, right0);
                            lemma_join_contents(left1, k, right0);
                            assert(keys_of(Some(*cur)).to_multiset() =~= keys_of(*old(node)).to_multiset().remove(*value));
                        }
                    },
                    Ordering::Greater => {
                        proof {
                            if left0.contains(*value) || value.le(k) {
                                T::lemma_le_antisymmetric(*value, k);
                            }
                        }
                        Self::delete_internal(&mut cur.right, value);
                        proof {
                            let right1 = keys_of(cur.right);
                            assert forall|x: T| #[trigger] right1.contains(x) implies k.le(x) by {
                                assert(right1.to_multiset().count(x) > 0);
                                assert(right0.contains(x));
                            }
                            lemma_sorted_join(left0, k, right1);
                            lemma_join_contents(left0, k, right1);
                            assert(keys_of(Some(*cur)).to_multiset() =~= keys_of(*old(node)).to_multiset().remove(*value));
                        }
                    },
                    Ordering::Equal => {
                        if cur.left.is_none() && cur.right.is_none() {
                            *node = None;
                            proof {
                                assert(keys_of(*old(node)).to_multiset() =~= Multiset::empty().insert(k));
                            }
                        } else if cur.left.is_none() {
                            let promoted = cur.right.take();
                            *node = promoted;
                            proof {
                                assert(keys_of(*old(node)).to_multiset() =~= right0.to_multiset().insert(k));
                            }
                        } else if cur.right.is_none() {
                            let promoted = cur.left.take();
                            *node = promoted;
                            proof {
                                assert(keys_of(*old(node)).to_multiset() =~= left0.to_multiset().insert(k));
                            }
                        } else {
                            let successor = match &cur.right {
                                Some(r) => Self::find_min_node(r).duplicate(),
                                None => cur.value.duplicate(),
                            };
                            let ghost m = successor;
                            proof {
                                lemma_keys_of_shape(cur.right);
                                assert(right0.contains(m));
                            }
                            Self::delete_internal(&mut cur.right, &successor);
                            cur.value = successor;
                            proof {
                                let right1 = keys_of(cur.right);
                                assert forall|x: T| #[trigger] left0.contains(x) implies x.le(m) by {
                                    T::lemma_le_transitive(x, k, m);
                                }
                                assert forall|x: T| #[trigger] right1.contains(x) implies m.le(x) by {
                                    assert(right1.to_multiset().count(x) > 0);
                                    assert(right0.contains(x));
                                    let j = choose|j: int| 0 <= j < right0.len() && right0[j] == x;
                                    if j == 0 {
                                        T::lemma_le_reflexive(m);
                                    } else {
                                        assert(right0[0].le(right0[j]));
                                    }
                                }
                                lemma_sorted_join(left0, m, right1);
                                lemma_join_contents(left0, m, right1);
                                assert(keys_of(Some(*cur)).to_multiset() =~= keys_of(*old(node)).to_multiset().remove(*value));
                            }
                        }
                    },
                }
            },
            None => {},
        }
    }

    /// The key of the leftmost node of a nonempty subtree, that is its
    /// smallest key.
    fn find_min_node(node: &Box<Branch<T>>) -> (r: &T)
        ensures
            *r == keys_of(Some(*node))[0],
        decreases *node,
    {
        proof {
            lemma_join_contents(keys_of(node.left), node.value, keys_of(node.right));
        }
        match &node.left {
            Some(l) => Self::find_min_node(l),
            None => &node.value,
        }
    }

    /// The keys of the tree in order, one for each node; they never decrease.
    pub fn in_order(&self) -> (r: Vec<T>)
        ensures
            r@ == self@,
            sorted(r@),
    {
        proof {
            use_type_invariant(self);
            lemma_keys_of_shape(self.root);
        }
        let mut out = Vec::new();
        Self::collect(&self.root, &mut out);
        out
    }

    /// Appends the keys of the subtree at `current` to `out`, in order.
    fn collect(current: &Option<Box<Branch<T>>>, out: &mut Vec<T>)
        ensures
            final(out)@ == old(out)@ + keys_of(*current),
        decreases *current,
    {
        match current {
            Some(cur) => {
                Self::collect(&cur.left, out);
                out.push(cur.value.duplicate());
                Self::collect(&cur.right, out);
                proof {
                    assert(out@ =~= old(out)@ + keys_of(*current));
                }
            },
            None => {
                proof {
                    assert(out@ =~= old(out)@ + keys_of(*current));
                }
            },
        }
    }

    /// Whether some node holds `value`.
    pub fn find(&self, value: &T) -> (r: bool)
        ensures
            r == self@.contains(*value),
    {
        proof {
            use_type_invariant(self);
            lemma_keys_of_shape(self.root);
        }
        Self::find_internal(&self.root, value)
    }

    /// Whether the subtree at `current` holds `value`.
    fn find_internal(current: &Option<Box<Branch<T>>>, value: &T) -> (r: bool)
        requires
            sorted(keys_of(*current)),
        ensures
            r == keys_of(*current).contains(*value),
        decreases *current,
    {
        match current {
            Some(cur) => {
                proof {
                    lemma_sorted_join(keys_of(cur.left), cur.value, keys_of(cur.right));
                    lemma_join_contents(keys_of(cur.left), cur.value, keys_of(cur.right));
                }
                match value.compare(&cur.value) {
                    Ordering::Less => {
                        proof {
                            if keys_of(cur.right).contains(*value) {
                                T::lemma_le_antisymmetric(*value, cur.value);
                            }
                        }
                        Self::find_internal(&cur.left, value)
                    },
                    Ordering::Greater => {
                        proof {
                            if keys_of(cur.left).contains(*value) {
                                T::lemma_le_antisymmetric(*value, cur.value);
                            }
                        }
                        Self::find_internal(&cur.right, value)
                    },
                    Ordering::Equal => true,
                }
            },
            None => false,
        }
    }
}

} // verus!
