//! Value cells reserved for a program's main thread.
//!
//! This library spawns no threads and takes no locks: each cell simply owns
//! its value with exclusive access, and handing the cell between threads is
//! its caller's concern. The contracts state the one thing the cells do:
//! they return exactly the value that was put in.

use vstd::prelude::*;

verus! {

/// A cell whose value sticks to the main thread: it is placed once and later
/// taken back or read there.
pub struct MtSticky<T> {
    cell: T,
}

impl<T> MtSticky<T> {
    /// The held value.
    pub closed spec fn view(&self) -> T {
        self.cell
    }

    /// Construct a cell holding `x`.
    pub fn new(x: T) -> (r: Self)
        ensures
            r@ == x,
    {
        MtSticky { cell: x }
    }

    /// Take the inner value.
    pub fn into_inner(self) -> (r: T)
        ensures
            r == self@,
    {
        self.cell
    }

    /// Read the inner value.
    pub fn get(&self) -> (r: &T)
        ensures
            *r == self@,
    {
        &self.cell
    }
}

/// A cell only the main thread reads or writes, in the manner of a lock that
/// never blocks because only one thread ever holds it.
pub struct MtLock<T> {
    cell: T,
}

impl<T> MtLock<T> {
    /// The held value.
    pub closed spec fn view(&self) -> T {
        self.cell
    }

    /// Construct a cell holding `x`.
    pub fn new(x: T) -> (r: Self)
        ensures
            r@ == x,
    {
        MtLock { cell: x }
    }

    /// Take the inner value.
    pub fn into_inner(self) -> (r: T)
        ensures
            r == self@,
    {
        self.cell
    }

    /// Read the inner value.
    pub fn get(&self) -> (r: &T)
        ensures
            *r == self@,
    {
        &self.cell
    }
}

} // verus!
