use vstd::prelude::*;

verus! {

/// A tree cell for trees kept in one flat store, such as `ArenaTree`: a
/// child is named by its position in that store.
#[derive(Debug)]
pub struct Node<T> {
    pub value: T,
    pub left: Option<usize>,
    pub right: Option<usize>,
}

impl<T> Node<T> {
    /// A cell holding `value`, with no children.
    pub fn new(value: T) -> (n: Node<T>)
        ensures
            n.value == value,
            n.left is None,
            n.right is None,
    {
        Node { value, left: None, right: None }
    }
}

} // verus!
