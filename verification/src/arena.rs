//! Immutable runs of small records, compared by value.

use vstd::prelude::*;
use vstd::slice::slice_to_vec;

verus! {

/// An immutable run of `T`, compared by value. Its view is the sequence of
/// its items.
#[derive(Debug)]
pub struct Slice<T> {
    contents: Vec<T>,
}

impl<T> View for Slice<T> {
    type V = Seq<T>;

    closed spec fn view(&self) -> Seq<T> {
        self.contents@
    }
}

impl<T> Slice<T> {
    /// The slice that holds nothing.
    pub fn empty() -> (s: Self)
        ensures
            s@ == Seq::<T>::empty(),
    {
        Slice { contents: Vec::new() }
    }

    /// Copies `slice` into a handle of its own.
    pub fn new(slice: &[T]) -> (s: Self) where T: Copy
        ensures
            s@ == slice@,
    {
        Slice { contents: slice_to_vec(slice) }
    }

    /// Takes over `contents` as they stand.
    pub fn from(contents: Vec<T>) -> (s: Self)
        ensures
            s@ == contents@,
    {
        Slice { contents }
    }

    /// The items, by value and in order.
    pub fn iter(&self) -> (items: Vec<T>) where T: Copy
        ensures
            items@ == self@,
    {
        slice_to_vec(self.contents.as_slice())
    }

    /// The items, borrowed and in order.
    pub fn iter_ref(&self) -> (items: &[T])
        ensures
            items@ == self@,
    {
        self.contents.as_slice()
    }

    pub fn is_empty(&self) -> (b: bool)
        ensures
            b == (self@.len() == 0),
    {
        self.contents.len() == 0
    }

    pub fn len(&self) -> (n: usize)
        ensures
            n == self@.len(),
    {
        self.contents.len()
    }

    /// The item at `index`.
    pub fn get(&self, index: usize) -> (item: &T)
        requires
            index < self@.len(),
        ensures
            *item == self@[index as int],
    {
        &self.contents[index]
    }

    /// A second handle on the same items.
    pub fn duplicate(&self) -> (s: Self) where T: Copy
        ensures
            s@ == self@,
    {
        Slice { contents: slice_to_vec(self.contents.as_slice()) }
    }
}

} // verus!
