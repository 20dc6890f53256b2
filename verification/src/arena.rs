//! Arena storage: values live in one growing vector and refer to each other by index.

use vstd::prelude::*;

verus! {

/// The position of a value in an [`Arena`].
#[derive(Clone, Copy, Debug, PartialEq, Eq, Structural)]
pub struct Node(pub usize);

/// A vector of values that are addressed by [`Node`].
#[derive(Debug)]
pub struct Arena<T> {
    pub items: Vec<T>,
}

impl<T> View for Arena<T> {
    type V = Seq<T>;

    open spec fn view(&self) -> Seq<T> {
        self.items@
    }
}

/// Whether `node` addresses a value of an arena that holds `items`.
pub open spec fn in_arena<T>(items: Seq<T>, node: Node) -> bool {
    node.0 < items.len()
}

/// The value that `node` addresses.
pub open spec fn at<T>(items: Seq<T>, node: Node) -> T {
    items[node.0 as int]
}

impl<T> Arena<T> {
    /// An arena without values.
    pub fn new() -> (arena: Self)
        ensures
            arena@ == Seq::<T>::empty(),
    {
        Arena { items: Vec::new() }
    }

    /// Appends `value` and returns where it is.
    pub fn add(&mut self, value: T) -> (node: Node)
        ensures
            node.0 == old(self)@.len(),
            final(self)@ == old(self)@.push(value),
    {
        let node = Node(self.items.len());
        self.items.push(value);
        node
    }

    /// The value at `node`.
    pub fn get(&self, node: Node) -> (value: &T)
        requires
            in_arena(self@, node),
        ensures
            *value == at(self@, node),
    {
        &self.items[node.0]
    }
}

} // verus!
