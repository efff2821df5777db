//! What holds of whole runs of pushes, reads and takes.
//!
//! The contracts of the executable functions speak of one call. The proof
//! functions here put calls in a row, over the same model.
use vstd::prelude::*;
use crate::ring::{
    Indices, after_next, after_nexts, after_nth, after_pushes, after_take, after_takes,
    indices_ok, lemma_live_after_push, lemma_live_after_take, live, newest, next_yield,
    nth_yield, origin, pushed, pushed_all, taken, walked, written,
};

verus! {

/// After any run of pushes into a ring that held `items`, the ring holds the
/// newest `cap` of the items it had and those pushed, oldest first.
pub proof fn lemma_pushes_keep_newest<I>(items: Seq<I>, cap: nat, more: Seq<I>)
    requires
        cap >= 1,
        items.len() <= cap,
    ensures
        pushed_all(items, cap, more) == newest(items + more, cap),
        pushed_all(items, cap, more).len() <= cap,
    decreases more.len(),
{
    if more.len() == 0 {
        assert(items + more =~= items);
    } else {
        let front = more.drop_last();
        lemma_pushes_keep_newest(items, cap, front);
        let before = newest(items + front, cap);
        assert((items + front).push(more.last()) =~= items + more);
        assert(pushed(before, cap, more.last()) =~= newest(items + more, cap));
    }
}

/// A run of pushes on the slots and indices of a ring does to its live
/// items what the pushes do one by one, and leaves the indices fitting.
pub proof fn lemma_push_run<I>(slots: Seq<I>, ix: Indices, more: Seq<I>)
    requires
        slots.len() >= 1,
        indices_ok(slots.len(), ix),
    ensures
        written(slots, ix, more).len() == slots.len(),
        indices_ok(slots.len(), after_pushes(slots.len(), ix, more.len())),
        live(written(slots, ix, more), after_pushes(slots.len(), ix, more.len())) == pushed_all(
            live(slots, ix),
            slots.len(),
            more,
        ),
        live(written(slots, ix, more), after_pushes(slots.len(), ix, more.len())) == newest(
            live(slots, ix) + more,
            slots.len(),
        ),
    decreases more.len(),
{
    lemma_pushes_keep_newest(live(slots, ix), slots.len(), more);
    if more.len() > 0 {
        let front = more.drop_last();
        lemma_push_run(slots, ix, front);
        lemma_live_after_push(
            written(slots, ix, front),
            after_pushes(slots.len(), ix, front.len()),
            more.last(),
        );
    }
}

/// Pushes into an empty ring, no more of them than it has slots: the ring
/// then holds as many items as were pushed, and they read in push order.
pub proof fn lemma_pushes_within_capacity<I>(cap: nat, more: Seq<I>)
    requires
        more.len() <= cap,
    ensures
        pushed_all(Seq::<I>::empty(), cap, more) == more,
        pushed_all(Seq::<I>::empty(), cap, more).len() == more.len(),
        forall|k: nat|
            k >= more.len() ==> #[trigger] walked(
                pushed_all(Seq::<I>::empty(), cap, more),
                0,
                k,
            ) == more,
{
    if more.len() > 0 {
        lemma_pushes_keep_newest(Seq::<I>::empty(), cap, more);
        assert(Seq::<I>::empty() + more =~= more);
    }
    assert forall|k: nat| k >= more.len() implies #[trigger] walked(more, 0, k) == more by {
        lemma_walk_yields_all(more, k);
    }
}

/// Pushes into an empty ring, more of them than it has slots: the ring is
/// then full and holds the last `cap` items pushed, the oldest of those
/// first.
pub proof fn lemma_pushes_beyond_capacity<I>(cap: nat, more: Seq<I>)
    requires
        cap >= 1,
        more.len() > cap,
    ensures
        pushed_all(Seq::<I>::empty(), cap, more).len() == cap,
        pushed_all(Seq::<I>::empty(), cap, more) == more.skip(more.len() - cap),
        forall|k: nat|
            k >= cap ==> #[trigger] walked(pushed_all(Seq::<I>::empty(), cap, more), 0, k)
                == more.skip(more.len() - cap),
{
    lemma_pushes_keep_newest(Seq::<I>::empty(), cap, more);
    assert(Seq::<I>::empty() + more =~= more);
    let kept = more.skip(more.len() - cap);
    assert forall|k: nat| k >= cap implies #[trigger] walked(kept, 0, k) == kept by {
        lemma_walk_yields_all(kept, k);
    }
}

/// The steps of a reader from `cur` hand out the items from `cur` on, in
/// order, as many as there are steps, and stop at the end.
pub proof fn lemma_walk<I>(items: Seq<I>, cur: nat, k: nat)
    requires
        cur <= items.len(),
    ensures
        cur + k <= items.len() ==> walked(items, cur, k) == items.subrange(
            cur as int,
            (cur + k) as int,
        ) && after_nexts(items.len(), cur, k) == cur + k,
        cur + k >= items.len() ==> walked(items, cur, k) == items.skip(cur as int) && after_nexts(
            items.len(),
            cur,
            k,
        ) == items.len(),
    decreases k,
{
    if k == 0 {
        assert(items.subrange(cur as int, cur as int) =~= Seq::<I>::empty());
        if cur == items.len() {
            assert(items.skip(cur as int) =~= Seq::<I>::empty());
        }
    } else {
        let step = after_next(items.len(), cur);
        lemma_walk(items, step, (k - 1) as nat);
        let rest = walked(items, step, (k - 1) as nat);
        if cur < items.len() {
            if cur + k <= items.len() {
                assert(seq![items[cur as int]] + rest =~= items.subrange(
                    cur as int,
                    (cur + k) as int,
                ));
            }
            if cur + k >= items.len() {
                assert(seq![items[cur as int]] + rest =~= items.skip(cur as int));
            }
        } else {
            assert(items.skip(cur as int) =~= Seq::<I>::empty());
            assert(items.subrange(cur as int, cur as int) =~= Seq::<I>::empty());
        }
    }
}

/// A fresh reader that steps at least as often as there are items hands out
/// all of them, oldest first.
pub proof fn lemma_walk_yields_all<I>(items: Seq<I>, k: nat)
    requires
        k >= items.len(),
    ensures
        walked(items, 0, k) == items,
        after_nexts(items.len(), 0, k) == items.len(),
{
    lemma_walk(items, 0, k);
    assert(items.skip(0) =~= items);
}

/// A drain that stops after `k` takes, with at least `k` items live: it has
/// handed out the `k` oldest items, oldest first, and the ring holds the
/// others, in order, for a later read or drain to hand out.
pub proof fn lemma_partial_drain<I>(slots: Seq<I>, ix: Indices, k: nat)
    requires
        indices_ok(slots.len(), ix),
        k <= ix.len,
    ensures
        taken(slots, ix, k) == live(slots, ix).take(k as int),
        indices_ok(slots.len(), after_takes(slots.len(), ix, k)),
        after_takes(slots.len(), ix, k).len == ix.len - k,
        after_takes(slots.len(), ix, k).head == ix.head,
        live(slots, after_takes(slots.len(), ix, k)) == live(slots, ix).skip(k as int),
        forall|j: nat|
            j >= ix.len - k ==> #[trigger] walked(
                live(slots, after_takes(slots.len(), ix, k)),
                0,
                j,
            ) == live(slots, ix).skip(k as int),
        forall|j: nat|
            j > ix.len - k ==> #[trigger] taken(slots, after_takes(slots.len(), ix, k), j) == live(
                slots,
                ix,
            ).skip(k as int),
{
    lemma_drain_prefix(slots, ix, k);
    let then = after_takes(slots.len(), ix, k);
    assert forall|j: nat| j >= ix.len - k implies #[trigger] walked(live(slots, then), 0, j)
        == live(slots, ix).skip(k as int) by {
        lemma_walk_yields_all(live(slots, then), j);
    }
    assert forall|j: nat| j > ix.len - k implies #[trigger] taken(slots, then, j) == live(
        slots,
        ix,
    ).skip(k as int) by {
        lemma_drain_to_exhaustion(slots, then, j);
    }
}

/// The first `k` takes of a drain, with at least `k` items live, hand out the
/// `k` oldest items and leave the others.
proof fn lemma_drain_prefix<I>(slots: Seq<I>, ix: Indices, k: nat)
    requires
        indices_ok(slots.len(), ix),
        k <= ix.len,
    ensures
        taken(slots, ix, k) == live(slots, ix).take(k as int),
        indices_ok(slots.len(), after_takes(slots.len(), ix, k)),
        after_takes(slots.len(), ix, k).len == ix.len - k,
        after_takes(slots.len(), ix, k).head == ix.head,
        live(slots, after_takes(slots.len(), ix, k)) == live(slots, ix).skip(k as int),
    decreases k,
{
    let items = live(slots, ix);
    if k == 0 {
        assert(items.take(0) =~= Seq::<I>::empty());
        assert(items.skip(0) =~= items);
    } else {
        let step = after_take(slots.len(), ix);
        lemma_live_after_take(slots, ix);
        lemma_drain_prefix(slots, step, (k - 1) as nat);
        assert(seq![items[0]] + items.drop_first().take(k - 1) =~= items.take(k as int));
        assert(items.drop_first().skip(k - 1) =~= items.skip(k as int));
    }
}

/// A drain run until it hands out nothing more: it has handed out what a
/// fresh reader would have, the live items oldest first, and it leaves the
/// ring empty with its indices at the origin.
pub proof fn lemma_drain_to_exhaustion<I>(slots: Seq<I>, ix: Indices, k: nat)
    requires
        indices_ok(slots.len(), ix),
        k > ix.len,
    ensures
        taken(slots, ix, k) == live(slots, ix),
        taken(slots, ix, k) == walked(live(slots, ix), 0, k),
        after_takes(slots.len(), ix, k) == origin(),
        live(slots, after_takes(slots.len(), ix, k)) == Seq::<I>::empty(),
    decreases k,
{
    let items = live(slots, ix);
    lemma_walk_yields_all(items, k);
    lemma_live_after_take(slots, ix);
    let step = after_take(slots.len(), ix);
    if ix.len == 0 {
        lemma_takes_of_empty(slots, (k - 1) as nat);
        assert(items =~= Seq::<I>::empty());
    } else {
        lemma_drain_to_exhaustion(slots, step, (k - 1) as nat);
        assert(seq![items[0]] + items.drop_first() =~= items);
    }
    assert(live(slots, origin()) =~= Seq::<I>::empty());
}

/// Takes from a ring at the origin hand out nothing and leave it there.
pub proof fn lemma_takes_of_empty<I>(slots: Seq<I>, k: nat)
    ensures
        taken(slots, origin(), k) == Seq::<I>::empty(),
        after_takes(slots.len(), origin(), k) == origin(),
    decreases k,
{
    if k > 0 {
        lemma_takes_of_empty(slots, (k - 1) as nat);
    }
}

/// Skipping `n` items and stepping once hands out what the last of `n + 1`
/// single steps hands out, and leaves the reader where they leave it.
pub proof fn lemma_nth_is_repeated_next<I>(items: Seq<I>, cur: nat, n: nat)
    ensures
        nth_yield(items, cur, n) == next_yield(items, after_nexts(items.len(), cur, n)),
        after_nth(items.len(), cur, n) == after_nexts(items.len(), cur, n + 1),
    decreases n,
{
    let len = items.len();
    if n == 0 {
        assert(after_nexts(len, after_next(len, cur), 0) == after_next(len, cur));
    } else {
        lemma_nth_is_repeated_next(items, after_next(len, cur), (n - 1) as nat);
    }
}

} // verus!
