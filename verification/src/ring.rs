//! The model of the ring: three indices over a fixed row of slots.
//!
//! Everything here is ghost code: the functions say what the ring is, the
//! lemmas what follows. The executable types state their contracts over them.
use vstd::prelude::*;

verus! {

/// The bookkeeping of a ring: where the next item goes (`head`), where the
/// oldest live item sits (`tail`), and how many items are live (`len`).
pub struct Indices {
    pub head: nat,
    pub tail: nat,
    pub len: nat,
}

/// The indices of an empty ring in its canonical state.
pub open spec fn origin() -> Indices {
    Indices { head: 0, tail: 0, len: 0 }
}

/// The slot that lies `k` places after the slot `from`, going round a ring of
/// `cap` slots. With `from` the slot of the oldest item, this is the physical
/// slot of the item at logical position `k`.
pub open spec fn slot_of(cap: nat, from: nat, k: nat) -> nat
    recommends
        cap > 0,
{
    (from + k) % cap
}

/// The indices fit a ring of `cap` slots: at most `cap` items are live, both
/// positions are slots of the ring, and `head` lies `len` slots after `tail`,
/// going round. A ring without slots admits only the canonical empty state.
pub open spec fn indices_ok(cap: nat, ix: Indices) -> bool {
    &&& ix.len <= cap
    &&& cap == 0 ==> ix.head == 0 && ix.tail == 0
    &&& cap > 0 ==> ix.head < cap && ix.tail < cap && ix.head == slot_of(cap, ix.tail, ix.len)
}

/// Every slot of the ring holds a live item.
pub open spec fn is_full(cap: nat, ix: Indices) -> bool {
    ix.len == cap
}

/// The live items, oldest first.
pub open spec fn live<I>(slots: Seq<I>, ix: Indices) -> Seq<I> {
    Seq::new(ix.len, |k: int| slots[slot_of(slots.len(), ix.tail, k as nat) as int])
}

/// The indices after one push into a ring of `cap >= 1` slots: `head` moves
/// on by one; a full ring gives up its oldest item, so `tail` moves on too and
/// `len` stays; otherwise `len` grows by one.
pub open spec fn after_push(cap: nat, ix: Indices) -> Indices
    recommends
        cap > 0,
{
    Indices {
        head: slot_of(cap, ix.head, 1),
        tail: if is_full(cap, ix) {
            slot_of(cap, ix.tail, 1)
        } else {
            ix.tail
        },
        len: if is_full(cap, ix) {
            cap
        } else {
            ix.len + 1
        },
    }
}

/// The live items after one push of `item` into a ring of `cap` slots: the
/// new item comes last, and the oldest one leaves if there was no room.
pub open spec fn pushed<I>(items: Seq<I>, cap: nat, item: I) -> Seq<I> {
    if items.len() < cap {
        items.push(item)
    } else {
        items.drop_first().push(item)
    }
}

/// The live items after pushing all of `more`, first to last.
pub open spec fn pushed_all<I>(items: Seq<I>, cap: nat, more: Seq<I>) -> Seq<I>
    decreases more.len(),
{
    if more.len() == 0 {
        items
    } else {
        pushed(pushed_all(items, cap, more.drop_last()), cap, more.last())
    }
}

/// The indices after `n` pushes in a row.
pub open spec fn after_pushes(cap: nat, ix: Indices, n: nat) -> Indices
    recommends
        cap > 0,
    decreases n,
{
    if n == 0 {
        ix
    } else {
        after_push(cap, after_pushes(cap, ix, (n - 1) as nat))
    }
}

/// The slots after pushing all of `more`, first to last, into a ring that
/// started at `ix`: each item is written to the slot where `head` stood when
/// its turn came.
pub open spec fn written<I>(slots: Seq<I>, ix: Indices, more: Seq<I>) -> Seq<I>
    recommends
        slots.len() > 0,
    decreases more.len(),
{
    if more.len() == 0 {
        slots
    } else {
        written(slots, ix, more.drop_last()).update(
            after_pushes(slots.len(), ix, (more.len() - 1) as nat).head as int,
            more.last(),
        )
    }
}

/// The indices after one take from the front: the oldest item leaves. A take
/// from an empty ring yields nothing and puts the indices back to the origin.
pub open spec fn after_take(cap: nat, ix: Indices) -> Indices {
    if ix.len == 0 {
        origin()
    } else {
        Indices { head: ix.head, tail: slot_of(cap, ix.tail, 1), len: (ix.len - 1) as nat }
    }
}

/// What a take hands out: the oldest live item, if there is one.
pub open spec fn take_yield<I>(slots: Seq<I>, ix: Indices) -> Option<I> {
    if ix.len == 0 {
        None
    } else {
        Some(slots[ix.tail as int])
    }
}

/// What a reader at logical position `cur` hands out next: the item there,
/// if `cur` lies before the end.
pub open spec fn next_yield<I>(items: Seq<I>, cur: nat) -> Option<I> {
    if cur < items.len() {
        Some(items[cur as int])
    } else {
        None
    }
}

/// The position of a reader over `len` items after one step from `cur`: one
/// further on, but never past the end.
pub open spec fn after_next(len: nat, cur: nat) -> nat {
    if cur < len {
        cur + 1
    } else {
        cur
    }
}

/// What a reader at `cur` hands out when it skips `n` items first: the item
/// `n` places on, if there is one.
pub open spec fn nth_yield<I>(items: Seq<I>, cur: nat, n: nat) -> Option<I> {
    if cur + n < items.len() {
        Some(items[(cur + n) as int])
    } else {
        None
    }
}

/// The position of a reader over `len` items after it skipped `n` items from
/// `cur` and stepped once more: `n + 1` further on, but never past the end.
pub open spec fn after_nth(len: nat, cur: nat, n: nat) -> nat {
    if cur + n < len {
        cur + n + 1
    } else if cur < len {
        len
    } else {
        cur
    }
}

/// The newest `cap` items of a sequence, or all of it if it has no more.
pub open spec fn newest<I>(items: Seq<I>, cap: nat) -> Seq<I> {
    if items.len() <= cap {
        items
    } else {
        items.skip(items.len() - cap)
    }
}

/// The indices after `k` takes in a row.
pub open spec fn after_takes(cap: nat, ix: Indices, k: nat) -> Indices
    decreases k,
{
    if k == 0 {
        ix
    } else {
        after_takes(cap, after_take(cap, ix), (k - 1) as nat)
    }
}

/// The items that `k` takes in a row hand out, in the order they come. A take
/// that finds the ring empty adds nothing.
pub open spec fn taken<I>(slots: Seq<I>, ix: Indices, k: nat) -> Seq<I>
    decreases k,
{
    if k == 0 {
        Seq::empty()
    } else {
        let rest = taken(slots, after_take(slots.len(), ix), (k - 1) as nat);
        match take_yield(slots, ix) {
            Some(x) => seq![x] + rest,
            None => rest,
        }
    }
}

/// The position of a reader over `len` items after `k` steps in a row.
pub open spec fn after_nexts(len: nat, cur: nat, k: nat) -> nat
    decreases k,
{
    if k == 0 {
        cur
    } else {
        after_nexts(len, after_next(len, cur), (k - 1) as nat)
    }
}

/// The items that `k` steps in a row of a reader at `cur` hand out, in the
/// order they come. A step at the end adds nothing.
pub open spec fn walked<I>(items: Seq<I>, cur: nat, k: nat) -> Seq<I>
    decreases k,
{
    if k == 0 {
        Seq::empty()
    } else {
        let rest = walked(items, after_next(items.len(), cur), (k - 1) as nat);
        match next_yield(items, cur) {
            Some(x) => seq![x] + rest,
            None => rest,
        }
    }
}

/// Going `k <= cap` places on from a slot of the ring either stays below
/// `cap` or wraps round once.
pub proof fn lemma_slot_of(cap: nat, from: nat, k: nat)
    requires
        cap > 0,
        from < cap,
        k <= cap,
    ensures
        slot_of(cap, from, k) == if from + k < cap {
            from + k
        } else {
            (from + k - cap) as nat
        },
{
    let c = cap as int;
    let x = (from + k) as int;
    if x < c {
        vstd::arithmetic::div_mod::lemma_small_mod(x as nat, cap);
    } else {
        vstd::arithmetic::div_mod::lemma_small_mod((x - c) as nat, cap);
        vstd::arithmetic::div_mod::lemma_mod_sub_multiples_vanish(x, c);
    }
}

/// A push writes the slot at `head` and moves the indices; the live items are
/// then the former ones, without the oldest if the ring was full, and the new
/// item last.
pub proof fn lemma_live_after_push<I>(slots: Seq<I>, ix: Indices, item: I)
    requires
        slots.len() > 0,
        indices_ok(slots.len(), ix),
    ensures
        indices_ok(slots.len(), after_push(slots.len(), ix)),
        live(slots.update(ix.head as int, item), after_push(slots.len(), ix)) == pushed(
            live(slots, ix),
            slots.len(),
            item,
        ),
{
    let cap = slots.len();
    let next = after_push(cap, ix);
    let got = live(slots.update(ix.head as int, item), next);
    let want = pushed(live(slots, ix), cap, item);
    lemma_slot_of(cap, ix.head, 1);
    lemma_slot_of(cap, ix.tail, 1);
    lemma_slot_of(cap, ix.tail, ix.len);
    lemma_slot_of(cap, next.tail, next.len);
    assert(got.len() == want.len());
    assert forall|k: int| 0 <= k < got.len() implies got[k] == want[k] by {
        lemma_slot_of(cap, next.tail, k as nat);
        if is_full(cap, ix) {
            lemma_slot_of(cap, ix.tail, (k + 1) as nat);
        } else {
            lemma_slot_of(cap, ix.tail, k as nat);
        }
    }
    assert(got =~= want);
}

/// A take hands out the first live item and leaves the others, in order.
/// A take from an empty ring leaves it empty.
pub proof fn lemma_live_after_take<I>(slots: Seq<I>, ix: Indices)
    requires
        indices_ok(slots.len(), ix),
    ensures
        indices_ok(slots.len(), after_take(slots.len(), ix)),
        ix.len > 0 ==> take_yield(slots, ix) == Some(live(slots, ix)[0]),
        ix.len > 0 ==> live(slots, after_take(slots.len(), ix)) == live(slots, ix).drop_first(),
        ix.len == 0 ==> take_yield(slots, ix) == None::<I>,
        ix.len == 0 ==> live(slots, after_take(slots.len(), ix)) == live(slots, ix),
{
    let cap = slots.len();
    let next = after_take(cap, ix);
    if ix.len == 0 {
        if cap > 0 {
            lemma_slot_of(cap, 0, 0);
        }
        assert(live(slots, next) =~= live(slots, ix));
    } else {
        lemma_slot_of(cap, ix.tail, 0);
        lemma_slot_of(cap, ix.tail, 1);
        lemma_slot_of(cap, ix.tail, ix.len);
        lemma_slot_of(cap, next.tail, next.len);
        let got = live(slots, next);
        let want = live(slots, ix).drop_first();
        assert forall|k: int| 0 <= k < got.len() implies got[k] == want[k] by {
            lemma_slot_of(cap, next.tail, k as nat);
            lemma_slot_of(cap, ix.tail, (k + 1) as nat);
        }
        assert(got =~= want);
    }
}

/// Pushing the first `k + 1` items of `more` is pushing the first `k` and
/// then the one at `k`: for the live items, for the slots and for the
/// indices.
pub proof fn lemma_push_run_step<I>(slots: Seq<I>, ix: Indices, more: Seq<I>, k: int)
    requires
        0 <= k < more.len(),
    ensures
        pushed_all(live(slots, ix), slots.len(), more.take(k + 1)) == pushed(
            pushed_all(live(slots, ix), slots.len(), more.take(k)),
            slots.len(),
            more[k],
        ),
        written(slots, ix, more.take(k + 1)) == written(slots, ix, more.take(k)).update(
            after_pushes(slots.len(), ix, k as nat).head as int,
            more[k],
        ),
        after_pushes(slots.len(), ix, (k + 1) as nat) == after_push(
            slots.len(),
            after_pushes(slots.len(), ix, k as nat),
        ),
{
    assert(more.take(k + 1).drop_last() == more.take(k));
}

} // verus!
