//! The buffer: a backing store and the three indices of the ring.
use vstd::prelude::*;
use core::marker::PhantomData;
use crate::drain::WheelBufDrain;
use crate::iter::WheelBufIter;
use crate::ring::{
    Indices, after_push, indices_ok, lemma_live_after_push, lemma_slot_of, live, origin, pushed,
};
use crate::storage::Storage;

verus! {

/// A ring buffer without a read pointer: it can be read many times over.
///
/// `C` is the backing store and `I` the type of the items. The capacity is
/// the number of slots of the store and never changes.
#[derive(Debug)]
pub struct WheelBuf<C, I> where C: Storage<I> {
    /// Backing store
    data: C,
    /// Insert position
    head: usize,
    /// Position of the oldest item
    tail: usize,
    /// Number of items in the buffer
    len: usize,
    _pd: PhantomData<I>,
}

impl<C, I> View for WheelBuf<C, I> where C: Storage<I> {
    type V = Seq<I>;

    /// The live items, oldest first.
    open spec fn view(&self) -> Seq<I> {
        live(self.storage(), self.indices())
    }
}

impl<C, I> WheelBuf<C, I> where C: Storage<I> {
    /// The slots of the backing store, live or not.
    pub closed spec fn storage(&self) -> Seq<I> {
        self.data.slots()
    }

    /// The three indices.
    pub closed spec fn indices(&self) -> Indices {
        Indices { head: self.head as nat, tail: self.tail as nat, len: self.len as nat }
    }

    /// The indices fit the backing store.
    pub open spec fn wf(&self) -> bool {
        indices_ok(self.storage().len(), self.indices())
    }

    /// Creates a buffer over `data`, whose number of slots is the capacity.
    /// The buffer starts empty, whatever the slots hold.
    pub fn new(data: C) -> (w: WheelBuf<C, I>)
        ensures
            w.wf(),
            w.storage() == data.slots(),
            w.indices() == origin(),
            w@ == Seq::<I>::empty(),
    {
        proof {
            if data.slots().len() > 0 {
                lemma_slot_of(data.slots().len(), 0, 0);
            }
        }
        WheelBuf { data: data, head: 0, tail: 0, len: 0, _pd: PhantomData }
    }

    /// Capacity of the buffer: the number of slots of the backing store.
    pub fn capacity(&self) -> (n: usize)
        ensures
            n == self.storage().len(),
    {
        self.data.as_slice().len()
    }

    /// Number of items in the buffer.
    pub fn len(&self) -> (n: usize)
        ensures
            n == self.indices().len,
            n == self@.len(),
    {
        self.len
    }

    /// The slot that the next push writes.
    pub fn head(&self) -> (h: usize)
        ensures
            h == self.indices().head,
    {
        self.head
    }

    /// The slot of the oldest item.
    pub fn tail(&self) -> (t: usize)
        ensures
            t == self.indices().tail,
    {
        self.tail
    }

    /// Tells whether the indices fit the backing store. They do in every
    /// buffer that was changed only by `push` and by the steps of a drain;
    /// they may not where the indices that `drain` lends out were written by
    /// hand.
    pub fn is_consistent(&self) -> (ok: bool)
        ensures
            ok == self.wf(),
    {
        let cap = self.capacity();
        if cap == 0 {
            return self.head == 0 && self.tail == 0 && self.len == 0;
        }
        if self.len > cap || self.head >= cap || self.tail >= cap {
            return false;
        }
        proof {
            lemma_slot_of(cap as nat, self.tail as nat, self.len as nat);
        }
        let room = cap - self.tail;
        let expected = if self.len < room {
            self.tail + self.len
        } else {
            self.len - room
        };
        self.head == expected
    }

    /// Starts a draining read. The reader holds the indices until it is
    /// dropped; what it has done to them by then is what the buffer is left
    /// with. The slots are lent for reading only and are never written.
    pub fn drain<'a>(&'a mut self) -> (d: WheelBufDrain<'a, I>)
        ensures
            d.buffer@ == old(self).storage(),
            d.indices() == old(self).indices(),
            d@ == old(self)@,
            final(self).storage() == old(self).storage(),
            final(self).indices() == (Indices {
                head: *final(d.head) as nat,
                tail: *final(d.tail) as nat,
                len: *final(d.len) as nat,
            }),
    {
        WheelBufDrain {
            buffer: self.data.as_slice(),
            head: &mut self.head,
            tail: &mut self.tail,
            len: &mut self.len,
        }
    }

    /// Starts a read of the items, oldest first, that leaves the buffer as it
    /// is. Any number of such reads may go on at once.
    pub fn iter<'a>(&'a self) -> (it: WheelBufIter<'a, C, I>)
        ensures
            it.source() == self,
            it.position() == 0,
            it@ == self@,
            self.wf() ==> it.wf(),
    {
        WheelBufIter::start(self)
    }

    /// The live item at logical position `k`, the oldest being at 0.
    pub(crate) fn item_at<'a>(&'a self, k: usize) -> (item: &'a I)
        requires
            self.wf(),
            k < self@.len(),
        ensures
            *item == self@[k as int],
    {
        let slots = self.data.as_slice();
        let room = slots.len() - self.tail;
        proof {
            lemma_slot_of(slots@.len(), self.tail as nat, k as nat);
        }
        if k < room {
            &slots[self.tail + k]
        } else {
            &slots[k - room]
        }
    }

    /// Pushes `item` as the newest item. A full buffer gives up its oldest
    /// item for it, so a push always succeeds.
    pub fn push(&mut self, item: I)
        requires
            old(self).wf(),
            old(self).storage().len() >= 1,
        ensures
            final(self).wf(),
            final(self).storage() == old(self).storage().update(
                old(self).indices().head as int,
                item,
            ),
            final(self).indices() == after_push(old(self).storage().len(), old(self).indices()),
            final(self)@ == pushed(old(self)@, old(self).storage().len(), item),
    {
        let cap = self.capacity();
        proof {
            lemma_slot_of(cap as nat, self.head as nat, 1);
            lemma_slot_of(cap as nat, self.tail as nat, 1);
            lemma_slot_of(cap as nat, self.tail as nat, self.len as nat);
        }
        let slots = self.data.as_mut_slice();
        slots[self.head] = item;
        if self.tail == self.head && self.len > 0 {
            self.tail = (self.tail + 1) % cap;
        }
        self.head = (self.head + 1) % cap;
        if self.len < cap {
            self.len += 1;
        }
        proof {
            lemma_live_after_push(old(self).storage(), old(self).indices(), item);
        }
    }
}

} // verus!
