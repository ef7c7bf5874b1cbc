use crate::node::Node;
use crate::order::{lemma_join_contents, lemma_sorted_join, sorted, TotalOrder};
use crate::shape::TreeShape;
use std::cmp::Ordering;
use vstd::multiset::Multiset;
use vstd::prelude::*;

verus! {

broadcast use {
    vstd::seq_lib::group_to_multiset_ensures,
    vstd::multiset::group_multiset_axioms,
    vstd::set::group_set_axioms,
};

/// The shape of a subtree of the store: which cells it is made of, and how
/// they hang together.
enum Shape {
    Empty,
    Cell(usize, Box<Shape>, Box<Shape>),
}

/// The positions of the cells of `s`.
spec fn cells(s: Shape) -> Set<usize>
    decreases s,
{
    match s {
        Shape::Empty => Set::empty(),
        Shape::Cell(i, l, r) => cells(*l).union(cells(*r)).insert(i),
    }
}

/// No cell occurs twice in `s`.
spec fn distinct(s: Shape) -> bool
    decreases s,
{
    match s {
        Shape::Empty => true,
        Shape::Cell(i, l, r) => {
            &&& !cells(*l).contains(i)
            &&& !cells(*r).contains(i)
            &&& cells(*l).disjoint(cells(*r))
            &&& distinct(*l)
            &&& distinct(*r)
        },
    }
}

/// Following the links of `nodes` from `at` traces out exactly `s`.
spec fn traces<T>(nodes: Seq<Node<T>>, at: Option<usize>, s: Shape) -> bool
    decreases s,
{
    match s {
        Shape::Empty => at is None,
        Shape::Cell(i, l, r) => {
            &&& at == Some(i)
            &&& i < nodes.len()
            &&& traces(nodes, nodes[i as int].left, *l)
            &&& traces(nodes, nodes[i as int].right, *r)
        },
    }
}

/// The keys of the cells of `s`, read in order.
spec fn keys_of<T>(nodes: Seq<Node<T>>, s: Shape) -> Seq<T>
    decreases s,
{
    match s {
        Shape::Empty => Seq::empty(),
        Shape::Cell(i, l, r) => keys_of(nodes, *l) + seq![nodes[i as int].value] + keys_of(nodes, *r),
    }
}

/// The subtree of shape `s` as a tree of keys.
spec fn tree_of<T>(nodes: Seq<Node<T>>, s: Shape) -> TreeShape<T>
    decreases s,
{
    match s {
        Shape::Empty => TreeShape::Empty,
        Shape::Cell(i, l, r) => TreeShape::Node(
            Box::new(tree_of(nodes, *l)),
            nodes[i as int].value,
            Box::new(tree_of(nodes, *r)),
        ),
    }
}

proof fn lemma_keys_of_tree<T: TotalOrder>(nodes: Seq<Node<T>>, s: Shape)
    ensures
        keys_of(nodes, s) == tree_of(nodes, s).keys(),
    decreases s,
{
    if let Shape::Cell(_, l, r) = s {
        lemma_keys_of_tree(nodes, *l);
        lemma_keys_of_tree(nodes, *r);
    }
}

/// A subtree reads the same in two stores that agree on its cells.
proof fn lemma_frame<T>(a: Seq<Node<T>>, b: Seq<Node<T>>, at: Option<usize>, s: Shape)
    requires
        traces(a, at, s),
        forall|j: usize| #[trigger] cells(s).contains(j) ==> j < b.len() && b[j as int] == a[j as int],
    ensures
        traces(b, at, s),
        keys_of(b, s) == keys_of(a, s),
        tree_of(b, s) == tree_of(a, s),
    decreases s,
{
    match s {
        Shape::Empty => {},
        Shape::Cell(i, l, r) => {
            assert(cells(s).contains(i));
            assert forall|j: usize| #[trigger] cells(*l).contains(j) implies cells(s).contains(j) by {
                assert(cells(*l).union(cells(*r)).contains(j));
            }
            assert forall|j: usize| #[trigger] cells(*r).contains(j) implies cells(s).contains(j) by {
                assert(cells(*l).union(cells(*r)).contains(j));
            }
            lemma_frame(a, b, a[i as int].left, *l);
            lemma_frame(a, b, a[i as int].right, *r);
        },
    }
}

/// The cells of a shape are its own cell and those of its two sides.
proof fn lemma_cells_of(i: usize, l: Shape, r: Shape)
    ensures
        forall|j: usize| #[trigger]
            cells(Shape::Cell(i, Box::new(l), Box::new(r))).contains(j) <==> (j == i || cells(l).contains(j)
                || cells(r).contains(j)),
{
    let s = Shape::Cell(i, Box::new(l), Box::new(r));
    assert forall|j: usize| #[trigger] cells(s).contains(j) <==> (j == i || cells(l).contains(j) || cells(r).contains(j)) by {
        assert(cells(s) == cells(l).union(cells(r)).insert(i));
    }
}

/// A traced subtree is empty exactly when its position is absent.
proof fn lemma_traced_empty<T>(nodes: Seq<Node<T>>, at: Option<usize>, s: Shape)
    requires
        traces(nodes, at, s),
    ensures
        at is None <==> s == Shape::Empty,
        at is None ==> keys_of(nodes, s) == Seq::<T>::empty(),
        at is Some ==> keys_of(nodes, s).len() > 0,
{
    match s {
        Shape::Empty => {},
        Shape::Cell(i, l, r) => {},
    }
}

/// Every cell of a traced subtree lies in the store.
proof fn lemma_cells_in_store<T>(nodes: Seq<Node<T>>, at: Option<usize>, s: Shape)
    requires
        traces(nodes, at, s),
    ensures
        forall|j: usize| #[trigger] cells(s).contains(j) ==> j < nodes.len(),
    decreases s,
{
    match s {
        Shape::Empty => {},
        Shape::Cell(i, l, r) => {
            lemma_cells_in_store(nodes, nodes[i as int].left, *l);
            lemma_cells_in_store(nodes, nodes[i as int].right, *r);
            assert(cells(s) == cells(*l).union(cells(*r)).insert(i));
            assert(i < nodes.len());
            assert forall|j: usize| #[trigger] cells(s).contains(j) implies j < nodes.len() by {
                if j != i {
                    assert(cells(*l).union(cells(*r)).contains(j));
                    if cells(*l).contains(j) {
                    } else {
                        assert(cells(*r).contains(j));
                    }
                }
            }
        },
    }
}

/// A binary search tree whose cells sit in one growable store and name
/// their children by position in it. A delete unlinks cells and leaves them
/// in the store; their slots are not used again. Keys equal to a cell's key
/// go to its right subtree, so every inserted key gets a cell.
pub struct ArenaTree<T: TotalOrder> {
    nodes: Vec<Node<T>>,
    root: Option<usize>,
    shape: Ghost<Shape>,
}

impl<T: TotalOrder> View for ArenaTree<T> {
    type V = Seq<T>;

    /// The keys of the cells reachable from the root, read in order.
    open spec fn view(&self) -> Seq<T> {
        self.shape().keys()
    }
}

impl<T: TotalOrder> ArenaTree<T> {
    /// The shape of the tree of cells reachable from the root, with the key
    /// of each cell.
    pub closed spec fn shape(&self) -> TreeShape<T> {
        tree_of(self.nodes@, self.shape@)
    }

    #[verifier::type_invariant]
    spec fn well_formed(self) -> bool {
        &&& traces(self.nodes@, self.root, self.shape@)
        &&& distinct(self.shape@)
        &&& sorted(keys_of(self.nodes@, self.shape@))
    }

    /// An empty tree.
    pub fn new() -> (t: Self)
        ensures
            t.shape() == TreeShape::<T>::Empty,
            t@ == Seq::<T>::empty(),
    {
        ArenaTree { nodes: Vec::new(), root: None, shape: Ghost(Shape::Empty) }
    }

    /// Adds a cell holding `value` at the end of the store and links it in
    /// where the search for `value` ends. A key equal to a cell's key goes
    /// into its right subtree, so a repeated key gets a cell of its own.
    pub fn insert(&mut self, value: T)
        ensures
            final(self).shape() == old(self).shape().inserted(value),
            sorted(final(self)@),
            final(self)@.to_multiset() == old(self)@.to_multiset().insert(value),
    {
        proof {
            use_type_invariant(&*self);
            lemma_keys_of_tree(self.nodes@, self.shape@);
        }
        let mut taken = ArenaTree::new();
        std::mem::swap(&mut taken, self);
        let ArenaTree { mut nodes, root, shape } = taken;
        let ghost nodes0 = nodes@;
        let new_index = nodes.len();
        nodes.push(Node::new(value));
        proof {
            lemma_cells_in_store(nodes0, root, shape@);
            lemma_frame(nodes0, nodes@, root, shape@);
        }
        let (new_root, new_shape) = Self::insert_internal(&mut nodes, root, shape, new_index);
        proof {
            lemma_keys_of_tree(nodes@, new_shape@);
        }
        *self = ArenaTree { nodes, root: Some(new_root), shape: new_shape };
    }

    /// Links the childless cell at `new_index` into the subtree of shape
    /// `shape` at `current`, and gives the position and shape of the result.
    fn insert_internal(
        nodes: &mut Vec<Node<T>>,
        current: Option<usize>,
        shape: Ghost<Shape>,
        new_index: usize,
    ) -> (r: (usize, Ghost<Shape>))
        requires
            traces(old(nodes)@, current, shape@),
            distinct(shape@),
            sorted(keys_of(old(nodes)@, shape@)),
            new_index < old(nodes).len(),
            !cells(shape@).contains(new_index),
            old(nodes)@[new_index as int].left is None,
            old(nodes)@[new_index as int].right is None,
        ensures
            final(nodes).len() == old(nodes).len(),
            forall|j: usize|
                j < old(nodes).len() && !cells(shape@).contains(j) ==> #[trigger] final(nodes)@[j as int]
                    == old(nodes)@[j as int],
            traces(final(nodes)@, Some(r.0), r.1@),
            distinct(r.1@),
            forall|j: usize| #[trigger] cells(r.1@).contains(j) <==> (cells(shape@).contains(j) || j == new_index),
            tree_of(final(nodes)@, r.1@) == tree_of(old(nodes)@, shape@).inserted(
                old(nodes)@[new_index as int].value,
            ),
            sorted(keys_of(final(nodes)@, r.1@)),
            keys_of(final(nodes)@, r.1@).to_multiset() == keys_of(old(nodes)@, shape@).to_multiset().insert(
                old(nodes)@[new_index as int].value,
            ),
        decreases shape@,
    {
        let ghost n0 = nodes@;
        let ghost v = n0[new_index as int].value;
        match current {
            None => {
                let ghost leaf = Shape::Cell(new_index, Box::new(Shape::Empty), Box::new(Shape::Empty));
                proof {
                    lemma_cells_of(new_index, Shape::Empty, Shape::Empty);
                    lemma_join_contents(Seq::<T>::empty(), v, Seq::<T>::empty());
                    assert(keys_of(n0, leaf) == Seq::<T>::empty() + seq![v] + Seq::<T>::empty());
                }
                (new_index, Ghost(leaf))
            },
            Some(i) => {
                let ghost (l, r) = match shape@ {
                    Shape::Cell(_, l, r) => (*l, *r),
                    Shape::Empty => (Shape::Empty, Shape::Empty),
                };
                let ghost k = n0[i as int].value;
                let ghost left0 = keys_of(n0, l);
                let ghost right0 = keys_of(n0, r);
                proof {
                    lemma_cells_of(i, l, r);
                    lemma_sorted_join(left0, k, right0);
                    lemma_join_contents(left0, k, right0);
                }
                match nodes[new_index].value.compare(&nodes[i].value) {
                    Ordering::Less => {
                        let (c, ls) = Self::insert_internal(nodes, nodes[i].left, Ghost(l), new_index);
                        let ghost n1 = nodes@;
                        nodes[i].left = Some(c);
                        let ghost grown = Shape::Cell(i, Box::new(ls@), Box::new(r));
                        proof {
                            let n2 = nodes@;
                            lemma_cells_of(i, ls@, r);
                            lemma_cells_in_store(n1, Some(c), ls@);
                            lemma_cells_in_store(n0, n0[i as int].right, r);
                            assert(n2.len() == n1.len());
                            assert(forall|j: int| 0 <= j < n2.len() && j != i ==> n2[j] == n1[j]);
                            assert(!cells(l).contains(i) && !cells(r).contains(i) && cells(l).disjoint(cells(r)));
                            assert forall|j: usize| #[trigger] cells(ls@).contains(j) implies j < n2.len() && n2[j as int] == n1[j as int] by {
                                assert(j != i);
                            }
                            assert forall|j: usize| #[trigger] cells(r).contains(j) implies j < n2.len() && n2[j as int] == n0[j as int] by {
                                assert(j != i);
                                assert(!cells(l).contains(j));
                                assert(n1[j as int] == n0[j as int]);
                            }
                            assert(forall|j: usize| j < n0.len() && !cells(shape@).contains(j) ==> !cells(l).contains(j) && j != i);
                            lemma_frame(n1, n2, Some(c), ls@);
                            lemma_frame(n0, n2, n0[i as int].right, r);
                            let left1 = keys_of(n1, ls@);
                            assert forall|x: T| #[trigger] left1.contains(x) implies x.le(k) by {
                                assert(left1.to_multiset().count(x) > 0);
                                if x != v {
                                    assert(left0.contains(x));
                                }
                            }
                            lemma_sorted_join(left1, k, right0);
                            lemma_join_contents(left1, k, right0);
                            assert(keys_of(n2, grown) == left1 + seq![k] + right0);
                        }
                        (i, Ghost(grown))
                    },
                    _ => {
                        let (c, rs) = Self::insert_internal(nodes, nodes[i].right, Ghost(r), new_index);
                        let ghost n1 = nodes@;
                        nodes[i].right = Some(c);
                        let ghost grown = Shape::Cell(i, Box::new(l), Box::new(rs@));
                        proof {
                            let n2 = nodes@;
                            lemma_cells_of(i, l, rs@);
                            lemma_cells_in_store(n1, Some(c), rs@);
                            lemma_cells_in_store(n0, n0[i as int].left, l);
                            assert(n2.len() == n1.len());
                            assert(forall|j: int| 0 <= j < n2.len() && j != i ==> n2[j] == n1[j]);
                            assert(!cells(l).contains(i) && !cells(r).contains(i) && cells(l).disjoint(cells(r)));
                            assert forall|j: usize| #[trigger] cells(rs@).contains(j) implies j < n2.len() && n2[j as int] == n1[j as int] by {
                                assert(j != i);
                            }
                            assert forall|j: usize| #[trigger] cells(l).contains(j) implies j < n2.len() && n2[j as int] == n0[j as int] by {
                                assert(j != i);
                                assert(!cells(r).contains(j));
                                assert(n1[j as int] == n0[j as int]);
                            }
                            assert(forall|j: usize| j < n0.len() && !cells(shape@).contains(j) ==> !cells(r).contains(j) && j != i);
                            lemma_frame(n1, n2, Some(c), rs@);
                            lemma_frame(n0, n2, n0[i as int].left, l);
                            let right1 = keys_of(n1, rs@);
                            assert forall|x: T| #[trigger] right1.contains(x) implies k.le(x) by {
                                assert(right1.to_multiset().count(x) > 0);
                                if x != v {
                                    assert(right0.contains(x));
                                } else if x == k {
                                    T::lemma_le_reflexive(x);
                                }
                            }
                            lemma_sorted_join(left0, k, right1);
                            lemma_join_contents(left0, k, right1);
                            assert(keys_of(n2, grown) == left0 + seq![k] + right1);
                        }
                        (i, Ghost(grown))
                    },
                }
            },
        }
    }

    /// Unlinks one cell holding `value`, if one is reachable; otherwise the
    /// tree is left as it was. The unlinked cell stays in the store.
    pub fn delete(&mut self, value: T)
        ensures
            final(self).shape() == old(self).shape().deleted(value),
            sorted(final(self)@),
            final(self)@.to_multiset() == old(self)@.to_multiset().remove(value),
            !old(self)@.contains(value) ==> final(self).shape() == old(self).shape(),
    {
        proof {
            use_type_invariant(&*self);
            lemma_keys_of_tree(self.nodes@, self.shape@);
        }
        let mut taken = ArenaTree::new();
        std::mem::swap(&mut taken, self);
        let ArenaTree { mut nodes, root, shape } = taken;
        let (new_root, new_shape) = Self::delete_internal(&mut nodes, root, shape, &value);
        proof {
            lemma_keys_of_tree(nodes@, new_shape@);
        }
        *self = ArenaTree { nodes, root: new_root, shape: new_shape };
    }

    /// Unlinks one cell holding `value` from the subtree of shape `shape` at
    /// `current`, and gives the position and shape of the result. A cell with
    /// two children takes a copy of the key of its in-order successor, which
    /// is then deleted from its right subtree.
    fn delete_internal(
        nodes: &mut Vec<Node<T>>,
        current: Option<usize>,
        shape: Ghost<Shape>,
        value: &T,
    ) -> (r: (Option<usize>, Ghost<Shape>))
        requires
            traces(old(nodes)@, current, shape@),
            distinct(shape@),
            sorted(keys_of(old(nodes)@, shape@)),
        ensures
            final(nodes).len() == old(nodes).len(),
            forall|j: usize|
                j < old(nodes).len() && !cells(shape@).contains(j) ==> #[trigger] final(nodes)@[j as int]
                    == old(nodes)@[j as int],
            traces(final(nodes)@, r.0, r.1@),
            distinct(r.1@),
            forall|j: usize| #[trigger] cells(r.1@).contains(j) ==> cells(shape@).contains(j),
            tree_of(final(nodes)@, r.1@) == tree_of(old(nodes)@, shape@).deleted(*value),
            sorted(keys_of(final(nodes)@, r.1@)),
            keys_of(final(nodes)@, r.1@).to_multiset() == keys_of(old(nodes)@, shape@).to_multiset().remove(
                *value,
            ),
            !keys_of(old(nodes)@, shape@).contains(*value) ==> tree_of(final(nodes)@, r.1@) == tree_of(
                old(nodes)@,
                shape@,
            ),
        decreases shape@,
    {
        let ghost n0 = nodes@;
        match current {
            None => (None, Ghost(Shape::Empty)),
            Some(i) => {
                let ghost (l, r) = match shape@ {
                    Shape::Cell(_, l, r) => (*l, *r),
                    Shape::Empty => (Shape::Empty, Shape::Empty),
                };
                let ghost k = n0[i as int].value;
                let ghost left0 = keys_of(n0, l);
                let ghost right0 = keys_of(n0, r);
                proof {
                    lemma_cells_of(i, l, r);
                    lemma_cells_in_store(n0, n0[i as int].left, l);
                    lemma_cells_in_store(n0, n0[i as int].right, r);
                    lemma_traced_empty(n0, n0[i as int].left, l);
                    lemma_traced_empty(n0, n0[i as int].right, r);
                    lemma_sorted_join(left0, k, right0);
                    lemma_join_contents(left0, k, right0);
                    assert(!cells(l).contains(i) && !cells(r).contains(i) && cells(l).disjoint(cells(r)));
                }
                match value.compare(&nodes[i].value) {
                    Ordering::Less => {
                        proof {
                            if right0.contains(*value) {
                                T::lemma_le_antisymmetric(*value, k);
                            }
                        }
                        let (c, ls) = Self::delete_internal(nodes, nodes[i].left, Ghost(l), value);
                        let ghost n1 = nodes@;
                        nodes[i].left = c;
                        let ghost shrunk = Shape::Cell(i, Box::new(ls@), Box::new(r));
                        proof {
                            let n2 = nodes@;
                            lemma_cells_of(i, ls@, r);
                            lemma_cells_in_store(n1, c, ls@);
                            assert(forall|j: int| 0 <= j < n2.len() && j != i ==> n2[j] == n1[j]);
                            assert forall|j: usize| #[trigger] cells(ls@).contains(j) implies j < n2.len() && n2[j as int] == n1[j as int] by {
                                assert(j != i);
                            }
                            assert forall|j: usize| #[trigger] cells(r).contains(j) implies j < n2.len() && n2[j as int] == n0[j as int] by {
                                assert(j != i);
                                assert(!cells(l).contains(j));
                            }
                            assert(forall|j: usize| j < n0.len() && !cells(shape@).contains(j) ==> !cells(l).contains(j) && j != i);
                            lemma_frame(n1, n2, c, ls@);
                            lemma_frame(n0, n2, n0[i as int].right, r);
                            let left1 = keys_of(n1, ls@);
                            assert forall|x: T| #[trigger] left1.contains(x) implies x.le(k) by {
                                assert(left1.to_multiset().count(x) > 0);
                                assert(left0.contains(x));
                            }
                            lemma_sorted_join(left1, k, right0);
                            lemma_join_contents(left1, k, right0);
                            assert(keys_of(n2, shrunk) == left1 + seq![k] + right0);
                            assert((left1 + seq![k] + right0).to_multiset() =~= keys_of(n0, shape@).to_multiset().remove(*value));
                        }
                        (Some(i), Ghost(shrunk))
                    },
                    Ordering::Greater => {
                        proof {
                            if left0.contains(*value) || value.le(k) {
                                T::lemma_le_antisymmetric(*value, k);
                            }
                        }
                        let (c, rs) = Self::delete_internal(nodes, nodes[i].right, Ghost(r), value);
                        let ghost n1 = nodes@;
                        nodes[i].right = c;
                        let ghost shrunk = Shape::Cell(i, Box::new(l), Box::new(rs@));
                        proof {
                            let n2 = nodes@;
                            lemma_cells_of(i, l, rs@);
                            lemma_cells_in_store(n1, c, rs@);
                            assert(forall|j: int| 0 <= j < n2.len() && j != i ==> n2[j] == n1[j]);
                            assert forall|j: usize| #[trigger] cells(rs@).contains(j) implies j < n2.len() && n2[j as int] == n1[j as int] by {
                                assert(j != i);
                            }
                            assert forall|j: usize| #[trigger] cells(l).contains(j) implies j < n2.len() && n2[j as int] == n0[j as int] by {
                                assert(j != i);
                                assert(!cells(r).contains(j));
                            }
                            assert(forall|j: usize| j < n0.len() && !cells(shape@).contains(j) ==> !cells(r).contains(j) && j != i);
                            lemma_frame(n1, n2, c, rs@);
                            lemma_frame(n0, n2, n0[i as int].left, l);
                            let right1 = keys_of(n1, rs@);
                            assert forall|x: T| #[trigger] right1.contains(x) implies k.le(x) by {
                                assert(right1.to_multiset().count(x) > 0);
                                assert(right0.contains(x));
                            }
                            lemma_sorted_join(left0, k, right1);
                            lemma_join_contents(left0, k, right1);
                            assert(keys_of(n2, shrunk) == left0 + seq![k] + right1);
                            assert((left0 + seq![k] + right1).to_multiset() =~= keys_of(n0, shape@).to_multiset().remove(*value));
                        }
                        (Some(i), Ghost(shrunk))
                    },
                    Ordering::Equal => {
                        if nodes[i].left.is_none() && nodes[i].right.is_none() {
                            proof {
                                assert(keys_of(n0, shape@).to_multiset() =~= Multiset::empty().insert(k));
                            }
                            (None, Ghost(Shape::Empty))
                        } else if nodes[i].left.is_none() {
                            proof {
                                assert(keys_of(n0, shape@).to_multiset() =~= right0.to_multiset().insert(k));
                            }
                            (nodes[i].right, Ghost(r))
                        } else if nodes[i].right.is_none() {
                            proof {
                                assert(keys_of(n0, shape@).to_multiset() =~= left0.to_multiset().insert(k));
                            }
                            (nodes[i].left, Ghost(l))
                        } else {
                            let right_index = match nodes[i].right {
                                Some(m) => m,
                                None => i,
                            };
                            let m = Self::find_min_node(nodes, right_index, Ghost(r));
                            proof {
                                lemma_keys_of_tree(n0, r);
                            }
                            let successor = nodes[m].value.duplicate();
                            let ghost s = successor;
                            let (c, rs) = Self::delete_internal(nodes, nodes[i].right, Ghost(r), &successor);
                            let ghost n1 = nodes@;
                            nodes[i].right = c;
                            nodes[i].value = successor;
                            let ghost shrunk = Shape::Cell(i, Box::new(l), Box::new(rs@));
                            proof {
                                let n2 = nodes@;
                                lemma_cells_of(i, l, rs@);
                                lemma_cells_in_store(n1, c, rs@);
                                assert(forall|j: int| 0 <= j < n2.len() && j != i ==> n2[j] == n1[j]);
                                assert forall|j: usize| #[trigger] cells(rs@).contains(j) implies j < n2.len() && n2[j as int] == n1[j as int] by {
                                    assert(j != i);
                                }
                                assert forall|j: usize| #[trigger] cells(l).contains(j) implies j < n2.len() && n2[j as int] == n0[j as int] by {
                                    assert(j != i);
                                    assert(!cells(r).contains(j));
                                }
                                assert(forall|j: usize| j < n0.len() && !cells(shape@).contains(j) ==> !cells(r).contains(j) && j != i);
                                lemma_frame(n1, n2, c, rs@);
                                lemma_frame(n0, n2, n0[i as int].left, l);
                                let right1 = keys_of(n1, rs@);
                                assert(right0.contains(s));
                                assert forall|x: T| #[trigger] left0.contains(x) implies x.le(s) by {
                                    T::lemma_le_transitive(x, k, s);
                                }
                                assert forall|x: T| #[trigger] right1.contains(x) implies s.le(x) by {
                                    assert(right1.to_multiset().count(x) > 0);
                                    assert(right0.contains(x));
                                    let j = choose|j: int| 0 <= j < right0.len() && right0[j] == x;
                                    if j == 0 {
                                        T::lemma_le_reflexive(s);
                                    } else {
                                        assert(right0[0].le(right0[j]));
                                    }
                                }
                                lemma_sorted_join(left0, s, right1);
                                lemma_join_contents(left0, s, right1);
                                assert(keys_of(n2, shrunk) == left0 + seq![s] + right1);
                                assert((left0 + seq![s] + right1).to_multiset() =~= keys_of(n0, shape@).to_multiset().remove(*value));
                            }
                            (Some(i), Ghost(shrunk))
                        }
                    },
                }
            },
        }
    }

    /// The position of the leftmost cell of the subtree of shape `shape` at
    /// `current`, which holds its smallest key.
    fn find_min_node(nodes: &Vec<Node<T>>, current: usize, shape: Ghost<Shape>) -> (m: usize)
        requires
            traces(nodes@, Some(current), shape@),
        ensures
            cells(shape@).contains(m),
            m < nodes.len(),
            nodes@[m as int].value == keys_of(nodes@, shape@)[0],
        decreases shape@,
    {
        let ghost (l, r) = match shape@ {
            Shape::Cell(_, l, r) => (*l, *r),
            Shape::Empty => (Shape::Empty, Shape::Empty),
        };
        proof {
            lemma_cells_of(current, l, r);
            lemma_traced_empty(nodes@, nodes@[current as int].left, l);
            lemma_join_contents(keys_of(nodes@, l), nodes@[current as int].value, keys_of(nodes@, r));
        }
        match nodes[current].left {
            Some(next) => Self::find_min_node(nodes, next, Ghost(l)),
            None => current,
        }
    }

    /// The keys of the reachable cells in order, one for each cell; they
    /// never decrease.
    pub fn in_order(&self) -> (r: Vec<T>)
        ensures
            r@ == self@,
            sorted(r@),
    {
        proof {
            use_type_invariant(self);
            lemma_keys_of_tree(self.nodes@, self.shape@);
        }
        let mut out = Vec::new();
        Self::collect(&self.nodes, self.root, Ghost(self.shape@), &mut out);
        out
    }

    /// Appends the keys of the subtree of shape `shape` at `current` to
    /// `out`, in order.
    fn collect(nodes: &Vec<Node<T>>, current: Option<usize>, shape: Ghost<Shape>, out: &mut Vec<T>)
        requires
            traces(nodes@, current, shape@),
        ensures
            final(out)@ == old(out)@ + keys_of(nodes@, shape@),
        decreases shape@,
    {
        if let Some(i) = current {
            let ghost (l, r) = match shape@ {
                Shape::Cell(_, l, r) => (*l, *r),
                Shape::Empty => (Shape::Empty, Shape::Empty),
            };
            Self::collect(nodes, nodes[i].left, Ghost(l), out);
            out.push(nodes[i].value.duplicate());
            Self::collect(nodes, nodes[i].right, Ghost(r), out);
        }
        proof {
            assert(out@ =~= old(out)@ + keys_of(nodes@, shape@));
        }
    }

    /// Whether some reachable cell holds `value`.
    pub fn find(&self, value: &T) -> (r: bool)
        ensures
            r == self@.contains(*value),
    {
        proof {
            use_type_invariant(self);
            lemma_keys_of_tree(self.nodes@, self.shape@);
        }
        Self::find_internal(&self.nodes, self.root, Ghost(self.shape@), value)
    }

    /// Whether the subtree of shape `shape` at `current` holds `value`.
    fn find_internal(nodes: &Vec<Node<T>>, current: Option<usize>, shape: Ghost<Shape>, value: &T) -> (r: bool)
        requires
            traces(nodes@, current, shape@),
            sorted(keys_of(nodes@, shape@)),
        ensures
            r == keys_of(nodes@, shape@).contains(*value),
        decreases shape@,
    {
        match current {
            Some(i) => {
                let ghost (l, r) = match shape@ {
                    Shape::Cell(_, l, r) => (*l, *r),
                    Shape::Empty => (Shape::Empty, Shape::Empty),
                };
                let ghost k = nodes@[i as int].value;
                proof {
                    lemma_sorted_join(keys_of(nodes@, l), k, keys_of(nodes@, r));
                    lemma_join_contents(keys_of(nodes@, l), k, keys_of(nodes@, r));
                    if keys_of(nodes@, l).contains(*value) && k.le(*value) {
                        T::lemma_le_antisymmetric(*value, k);
                    }
                    if keys_of(nodes@, r).contains(*value) && value.le(k) {
                        T::lemma_le_antisymmetric(*value, k);
                    }
                }
                match value.compare(&nodes[i].value) {
                    Ordering::Less => Self::find_internal(nodes, nodes[i].left, Ghost(l), value),
                    Ordering::Greater => Self::find_internal(nodes, nodes[i].right, Ghost(r), value),
                    Ordering::Equal => true,
                }
            },
            None => false,
        }
    }
}

} // verus!
