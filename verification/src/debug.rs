//! Small fixtures for trying out trait dispatch.

use vstd::prelude::*;

verus! {

/// Something that maps a value of type `A` to another.
pub trait Test<A> {
    fn foo(&self, a: A) -> A;
}

/// A byte buffer that hands values through unchanged.
pub struct TB {
    s: Vec<u8>,
}

impl View for TB {
    type V = Seq<u8>;

    closed spec fn view(&self) -> Seq<u8> {
        self.s@
    }
}

impl Test<i32> for TB {
    /// Gives `a` back.
    fn foo(&self, a: i32) -> (r: i32)
        ensures
            r == a,
    {
        a
    }
}

impl TB {
    pub fn new() -> (r: TB)
        ensures
            r@ == Seq::<u8>::empty(),
    {
        TB { s: Vec::new() }
    }

    /// Accepts data and keeps nothing of it.
    pub fn append(&mut self, data: &[u8])
        ensures
            final(self)@ == old(self)@,
    {
    }
}

/// A borrowed integer.
pub struct TC<'a> {
    a: &'a i32,
}

impl<'a> TC<'a> {
    /// The integer borrowed.
    pub closed spec fn value(&self) -> i32 {
        *self.a
    }

    pub fn new(m: &'a i32) -> (r: TC<'a>)
        ensures
            r.value() == *m,
    {
        TC { a: m }
    }
}

/// A wrapped value.
pub struct A<T> {
    a: T,
}

impl<T> A<T> {
    /// The wrapped value.
    pub closed spec fn value(&self) -> T {
        self.a
    }

    /// Wraps `a`.
    pub fn new(a: T) -> (r: A<T>)
        ensures
            r.value() == a,
    {
        A { a }
    }

    /// A fixed label.
    pub fn print(&self) -> (r: &str)
        ensures
            r@ == "dsf"@,
    {
        "dsf"
    }
}

} // verus!
