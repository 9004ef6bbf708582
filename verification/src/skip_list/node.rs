//! Nodes of the skip list. A base node holds a key, its value and the
//! position of its right neighbour in the base arena; an index node holds a
//! key, its right neighbour on the same level and the node below it.

use vstd::prelude::*;

verus! {

/// A node of the lowest level, which holds the values.
pub struct BaseNode<V> {
    pub key: i64,
    pub value: V,
    pub right: Option<usize>,
}

impl<V> BaseNode<V> {
    /// A node with the given key, value and right neighbour.
    pub fn new(key: i64, value: V, right: Option<usize>) -> (r: BaseNode<V>)
        ensures
            r.key == key,
            r.value == value,
            r.right == right,
    {
        BaseNode { key, value, right }
    }

    pub fn get_key(&self) -> (r: i64)
        ensures
            r == self.key,
    {
        self.key
    }

    /// Replaces the value, keeping key and neighbour.
    pub fn set_value(&mut self, value: V)
        ensures
            final(self).value == value,
            final(self).key == old(self).key,
            final(self).right == old(self).right,
    {
        self.value = value;
    }

    /// Applies `f` to the value.
    pub fn map_value<T, F: Fn(&V) -> T>(&self, f: F) -> (r: T)
        requires
            f.requires((&self.value,)),
        ensures
            f.ensures((&self.value,), r),
    {
        f(&self.value)
    }

    pub fn get_right_node(&self) -> (r: Option<usize>)
        ensures
            r == self.right,
    {
        self.right
    }

    /// Replaces the right neighbour, keeping key and value.
    pub fn set_right_node(&mut self, right: Option<usize>)
        ensures
            final(self).right == right,
            final(self).key == old(self).key,
            final(self).value == old(self).value,
    {
        self.right = right;
    }
}

impl<V: Copy> BaseNode<V> {
    pub fn get_value(&self) -> (r: V)
        ensures
            r == self.value,
    {
        self.value
    }
}

/// What lies below an index node: a base node or an index node of the
/// level below, each given by its position in its arena.
#[derive(Clone, Copy, PartialEq, Eq, Structural, Debug)]
pub enum IndexNodeChild {
    Base(usize),
    Index(usize),
}

/// A node of an index level.
pub struct IndexNode {
    pub key: i64,
    pub right: Option<usize>,
    pub child: IndexNodeChild,
}

impl IndexNode {
    /// A node with the given key, right neighbour and child.
    pub fn new(key: i64, right: Option<usize>, child: IndexNodeChild) -> (r: IndexNode)
        ensures
            r.key == key,
            r.right == right,
            r.child == child,
    {
        IndexNode { key, right, child }
    }

    pub fn get_key(&self) -> (r: i64)
        ensures
            r == self.key,
    {
        self.key
    }

    pub fn get_right_node(&self) -> (r: Option<usize>)
        ensures
            r == self.right,
    {
        self.right
    }

    pub fn get_child(&self) -> (r: IndexNodeChild)
        ensures
            r == self.child,
    {
        self.child
    }

    /// Replaces the right neighbour, keeping key and child.
    pub fn set_right(&mut self, right: Option<usize>)
        ensures
            final(self).right == right,
            final(self).key == old(self).key,
            final(self).child == old(self).child,
    {
        self.right = right;
    }
}

} // verus!
