//! The non-destructive reader: it walks the live items, oldest first.
use vstd::prelude::*;
use crate::ring::{after_next, after_nth, next_yield, nth_yield};
use crate::storage::Storage;
use crate::wheel::WheelBuf;

verus! {

/// A reader of a buffer that leaves the buffer as it is.
#[derive(Debug)]
pub struct WheelBufIter<'a, C, I> where C: Storage<I> {
    buffer: &'a WheelBuf<C, I>,
    cur: usize,
}

impl<'a, C, I> View for WheelBufIter<'a, C, I> where C: Storage<I> {
    type V = Seq<I>;

    /// The items that the reader has yet to hand out, oldest first.
    open spec fn view(&self) -> Seq<I> {
        self.source()@.skip(self.position() as int)
    }
}

impl<'a, C, I> WheelBufIter<'a, C, I> where C: Storage<I> {
    /// The buffer that is read.
    pub closed spec fn source(&self) -> &'a WheelBuf<C, I> {
        self.buffer
    }

    /// The number of items already passed.
    pub closed spec fn position(&self) -> nat {
        self.cur as nat
    }

    /// The reader reads a well-formed buffer and has not passed its end.
    pub open spec fn wf(&self) -> bool {
        &&& self.source().wf()
        &&& self.position() <= self.source()@.len()
    }

    pub(crate) fn start(buffer: &'a WheelBuf<C, I>) -> (it: Self)
        ensures
            it.source() == buffer,
            it.position() == 0,
    {
        WheelBufIter { buffer: buffer, cur: 0 }
    }

    /// Hands out the next item, or nothing once all items have been passed.
    pub fn next(&mut self) -> (r: Option<&'a I>)
        requires
            old(self).wf(),
        ensures
            final(self).wf(),
            final(self).source() == old(self).source(),
            r == (match next_yield(old(self).source()@, old(self).position()) {
                Some(x) => Some(&x),
                None => None,
            }),
            final(self).position() == after_next(old(self).source()@.len(), old(self).position()),
            old(self)@.len() > 0 ==> r == Some(&old(self)@[0]) && final(self)@ == old(
                self,
            )@.drop_first(),
            old(self)@.len() == 0 ==> r is None && final(self)@ == old(self)@,
    {
        let buffer: &'a WheelBuf<C, I> = self.buffer;
        if self.cur >= buffer.len() {
            return None;
        }
        let cur = self.cur;
        self.cur += 1;
        Some(buffer.item_at(cur))
    }

    /// Passes over `n` items and hands out the one after them, or nothing if
    /// fewer than `n + 1` items were left: what `n + 1` calls of `next` come
    /// to, without the items in between.
    pub fn nth(&mut self, n: usize) -> (r: Option<&'a I>)
        requires
            old(self).wf(),
        ensures
            final(self).wf(),
            final(self).source() == old(self).source(),
            r == (match nth_yield(old(self).source()@, old(self).position(), n as nat) {
                Some(x) => Some(&x),
                None => None,
            }),
            final(self).position() == after_nth(
                old(self).source()@.len(),
                old(self).position(),
                n as nat,
            ),
            n < old(self)@.len() ==> r == Some(&old(self)@[n as int]) && final(self)@ == old(
                self,
            )@.skip(n + 1),
            n >= old(self)@.len() ==> r is None && final(self)@ == Seq::<I>::empty(),
    {
        let max_idx = self.buffer.len();
        if n > 0 {
            let step = if n < max_idx {
                n
            } else {
                max_idx
            };
            if step < max_idx - self.cur {
                self.cur += step;
            } else {
                self.cur = max_idx;
            }
        }
        self.next()
    }
}

} // verus!
