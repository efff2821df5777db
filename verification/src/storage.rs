//! What the buffer asks of its backing store.
use vstd::prelude::*;

verus! {

/// A row of slots of fixed length that can be seen as a slice, for reading
/// and for writing. The buffer never allocates or resizes it.
///
/// Arrays and vectors are stores, and so is a mutable reference to a store,
/// which lets a buffer work on slots that its caller keeps.
pub trait Storage<I> {
    /// The slots, first to last.
    spec fn slots(&self) -> Seq<I>;

    /// The slots as a shared slice.
    fn as_slice(&self) -> (s: &[I])
        ensures
            s@ == self.slots(),
    ;

    /// The slots as a mutable slice: what is written through it is what the
    /// store holds afterwards.
    fn as_mut_slice(&mut self) -> (s: &mut [I])
        ensures
            s@ == (*old(self)).slots(),
            (*final(self)).slots() == final(s)@,
    ;
}

impl<I> Storage<I> for Vec<I> {
    open spec fn slots(&self) -> Seq<I> {
        self@
    }

    fn as_slice(&self) -> (s: &[I]) {
        Vec::as_slice(self)
    }

    fn as_mut_slice(&mut self) -> (s: &mut [I]) {
        Vec::as_mut_slice(self)
    }
}

impl<I, const N: usize> Storage<I> for [I; N] {
    open spec fn slots(&self) -> Seq<I> {
        self@
    }

    fn as_slice(&self) -> (s: &[I]) {
        self
    }

    fn as_mut_slice(&mut self) -> (s: &mut [I]) {
        self
    }
}

impl<I> Storage<I> for [I] {
    open spec fn slots(&self) -> Seq<I> {
        self@
    }

    fn as_slice(&self) -> (s: &[I]) {
        self
    }

    fn as_mut_slice(&mut self) -> (s: &mut [I]) {
        self
    }
}

impl<'a, I, T: Storage<I> + ?Sized> Storage<I> for &'a mut T {
    open spec fn slots(&self) -> Seq<I> {
        (**self).slots()
    }

    fn as_slice(&self) -> (s: &[I]) {
        (**self).as_slice()
    }

    fn as_mut_slice(&mut self) -> (s: &mut [I]) {
        (**self).as_mut_slice()
    }
}

} // verus!
