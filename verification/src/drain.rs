//! The destructive reader: it takes the items out, oldest first.
use vstd::prelude::*;
use crate::ring::{Indices, after_take, indices_ok, lemma_live_after_take, live, take_yield};

verus! {

/// A draining reader of a buffer.
///
/// It borrows the slots for reading and the three indices for writing, so
/// that nothing else can touch the buffer while it lives. Each item it hands
/// out has left the buffer. Dropped early, it leaves the rest in place.
///
/// The fields are public because the contract of the buffer's `drain` speaks
/// of them: the buffer is left with what they hold when the reader is given
/// up. Code that writes them by hand answers for `wf` itself.
#[derive(Debug)]
pub struct WheelBufDrain<'a, I> {
    /// The slots of the buffer
    pub buffer: &'a [I],
    /// The buffer's insert position
    pub head: &'a mut usize,
    /// The buffer's position of the oldest item
    pub tail: &'a mut usize,
    /// The buffer's number of items
    pub len: &'a mut usize,
}

impl<'a, I> View for WheelBufDrain<'a, I> {
    type V = Seq<I>;

    /// The items still in the buffer, oldest first.
    open spec fn view(&self) -> Seq<I> {
        live(self.buffer@, self.indices())
    }
}

impl<'a, I> WheelBufDrain<'a, I> {
    /// The three indices as they stand now.
    pub open spec fn indices(&self) -> Indices {
        Indices { head: *self.head as nat, tail: *self.tail as nat, len: *self.len as nat }
    }

    /// The indices fit the slots.
    pub open spec fn wf(&self) -> bool {
        indices_ok(self.buffer@.len(), self.indices())
    }

    /// Takes the oldest item out of the buffer and hands it out. On an empty
    /// buffer it hands out nothing and puts the indices back to the origin.
    /// The slots themselves are never written, and the three references
    /// stay those that the buffer lent.
    pub fn next(&mut self) -> (r: Option<&'a I>)
        requires
            old(self).wf(),
        ensures
            final(self).wf(),
            final(self).buffer@ == old(self).buffer@,
            final(self).indices() == after_take(old(self).buffer@.len(), old(self).indices()),
            r == (match take_yield(old(self).buffer@, old(self).indices()) {
                Some(x) => Some(&x),
                None => None,
            }),
            old(self)@.len() > 0 ==> r == Some(&old(self)@[0]) && final(self)@ == old(
                self,
            )@.drop_first(),
            old(self)@.len() == 0 ==> r is None && final(self)@ == old(self)@,
            *final(final(self).head) == *final(old(self).head),
            *final(final(self).tail) == *final(old(self).tail),
            *final(final(self).len) == *final(old(self).len),
    {
        proof {
            lemma_live_after_take(self.buffer@, self.indices());
        }
        if *self.len > 0 {
            let elem = &self.buffer[*self.tail];
            *self.tail = (*self.tail + 1) % self.buffer.len();
            *self.len -= 1;
            Some(elem)
        } else {
            *self.head = 0;
            *self.tail = 0;
            None
        }
    }
}

} // verus!
