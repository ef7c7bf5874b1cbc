use crate::order::TotalOrder;
use vstd::prelude::*;

verus! {

/// A binary tree with one key at each node: how the trees of this crate look
/// to their contracts, whatever the cells are made of.
pub enum TreeShape<T> {
    Empty,
    Node(Box<TreeShape<T>>, T, Box<TreeShape<T>>),
}

impl<T: TotalOrder> TreeShape<T> {
    /// The keys read in order: left subtree, own key, right subtree.
    pub open spec fn keys(self) -> Seq<T>
        decreases self,
    {
        match self {
            TreeShape::Empty => Seq::empty(),
            TreeShape::Node(l, k, r) => l.keys() + seq![k] + r.keys(),
        }
    }

    /// The tree with a leaf holding `v` added where the search for `v` ends:
    /// left of a node with a greater key, right of any other.
    pub open spec fn inserted(self, v: T) -> TreeShape<T>
        decreases self,
    {
        match self {
            TreeShape::Empty => TreeShape::Node(Box::new(TreeShape::Empty), v, Box::new(TreeShape::Empty)),
            TreeShape::Node(l, k, r) => if v.le(k) && v != k {
                TreeShape::Node(Box::new(l.inserted(v)), k, r)
            } else {
                TreeShape::Node(l, k, Box::new(r.inserted(v)))
            },
        }
    }

    /// The tree without the first node holding `v` on the search for `v`.
    /// A node without children goes; a node with one child gives its place
    /// to that child; a node with two children takes the smallest key of its
    /// right subtree, which is then deleted from that subtree the same way.
    /// Without such a node the tree is unchanged.
    pub open spec fn deleted(self, v: T) -> TreeShape<T>
        decreases self,
    {
        match self {
            TreeShape::Empty => TreeShape::Empty,
            TreeShape::Node(l, k, r) => if v == k {
                if *l is Empty && *r is Empty {
                    TreeShape::Empty
                } else if *l is Empty {
                    *r
                } else if *r is Empty {
                    *l
                } else {
                    let m = r.keys()[0];
                    TreeShape::Node(l, m, Box::new(r.deleted(m)))
                }
            } else if v.le(k) {
                TreeShape::Node(Box::new(l.deleted(v)), k, r)
            } else {
                TreeShape::Node(l, k, Box::new(r.deleted(v)))
            },
        }
    }
}

} // verus!
