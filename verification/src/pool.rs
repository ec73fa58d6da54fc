//! The mathematical model of a reservoir: what its slots hold, how one item
//! passes through, and how the pool is settled when the stream ends.

use vstd::multiset::Multiset;
use vstd::prelude::*;

verus! {

/// What a reservoir is, mathematically: the number of items that have
/// passed through and the slots of the pool, each empty or holding one item.
#[verifier::ext_equal]
pub struct Pool<T> {
    pub seen: nat,
    pub slots: Seq<Option<T>>,
}

/// The item of one slot as a multiset: empty for an empty slot.
pub open spec fn slot_items<T>(slot: Option<T>) -> Multiset<T> {
    match slot {
        Some(it) => Multiset::singleton(it),
        None => Multiset::empty(),
    }
}

/// The items that the slots hold, each as often as it occurs.
pub open spec fn held<T>(slots: Seq<Option<T>>) -> Multiset<T>
    decreases slots.len(),
{
    if slots.len() == 0 {
        Multiset::empty()
    } else {
        held(slots.drop_last()).add(slot_items(slots.last()))
    }
}

/// The rank that a raw draw gives to the `seen`-th item: a number from 1
/// to `seen`. The draw is reduced modulo `seen`, so where `seen` does not
/// divide the number of possible draws the low ranks are very slightly
/// more likely than the high ones.
pub open spec fn rank_of(draw: usize, seen: nat) -> nat
    recommends
        seen > 0,
{
    (draw as nat % seen + 1) as nat
}

/// One step of settling: the content of the slot at rank `rank_of(draw, i)`
/// moves to slot `i - 1`, and the slot it came from is left empty.
pub open spec fn shifted<T>(slots: Seq<Option<T>>, i: nat, draw: usize) -> Seq<Option<T>>
    recommends
        1 <= i <= slots.len(),
{
    let r = rank_of(draw, i);
    slots.update(r - 1, None).update(i - 1, slots[r - 1])
}

/// The slots after settling with the given draws, one for each of the slots
/// `from`, `from + 1`, ... in turn.
pub open spec fn settled<T>(slots: Seq<Option<T>>, from: nat, draws: Seq<usize>) -> Seq<Option<T>>
    recommends
        from + draws.len() <= slots.len(),
    decreases draws.len(),
{
    if draws.len() == 0 {
        slots
    } else {
        shifted(settled(slots, from, draws.drop_last()), from + draws.len(), draws.last())
    }
}

impl<T> Pool<T> {
    /// The pool before any item has passed: `n` empty slots.
    pub open spec fn empty(n: nat) -> Self {
        Pool { seen: 0, slots: Seq::new(n, |i: int| None) }
    }

    pub open spec fn capacity(self) -> nat {
        self.slots.len()
    }

    /// While the pool fills, the first `seen` slots are taken and the rest
    /// are empty; from then on every slot is taken.
    pub open spec fn wf(self) -> bool {
        forall|i: int|
            0 <= i < self.slots.len() ==> ((#[trigger] self.slots[i]) is Some <==> i < self.seen)
    }

    /// The rank that `draw` gives to the next item.
    pub open spec fn next_rank(self, draw: usize) -> nat {
        rank_of(draw, self.seen + 1)
    }

    /// The pool after the next item `it` has passed with the raw draw `draw`.
    pub open spec fn sampled(self, draw: usize, it: T) -> Self {
        let seen = self.seen + 1;
        let r = self.next_rank(draw);
        Pool {
            seen,
            slots: if r > self.capacity() {
                self.slots
            } else if seen <= self.capacity() && r < seen {
                self.slots.update(r - 1, Some(it)).update(seen - 1, self.slots[r - 1])
            } else {
                self.slots.update(r - 1, Some(it))
            },
        }
    }

    /// The item that leaves the pool when the next item passes with `draw`.
    pub open spec fn evicted(self, draw: usize) -> Option<T> {
        let seen = self.seen + 1;
        let r = self.next_rank(draw);
        if r > self.capacity() || (seen <= self.capacity() && r < seen) {
            None
        } else {
            self.slots[r - 1]
        }
    }
}

/// Whether every slot is empty.
pub open spec fn all_empty<T>(slots: Seq<Option<T>>) -> bool {
    forall|i: int| 0 <= i < slots.len() ==> (#[trigger] slots[i]) is None
}

/// Slots hold no item exactly when every one of them is empty.
pub proof fn lemma_held_none<T>(slots: Seq<Option<T>>)
    ensures
        all_empty(slots) <==> held(slots).len() == 0,
    decreases slots.len(),
{
    if slots.len() > 0 {
        let rest = slots.drop_last();
        lemma_held_none(rest);
        assert(held(slots) == held(rest).add(slot_items(slots.last())));
        if all_empty(slots) {
            assert forall|i: int| 0 <= i < rest.len() implies (#[trigger] rest[i]) is None by {
                assert(rest[i] == slots[i]);
            }
        }
        if held(slots).len() == 0 {
            assert forall|i: int| 0 <= i < slots.len() implies (#[trigger] slots[i]) is None by {
                if i < rest.len() {
                    assert(rest[i] == slots[i]);
                }
            }
        }
    }
}

/// Updating one slot exchanges what it held for what it holds now.
pub proof fn lemma_held_update<T>(slots: Seq<Option<T>>, i: int, slot: Option<T>)
    requires
        0 <= i < slots.len(),
    ensures
        held(slots.update(i, slot)).add(slot_items(slots[i])) == held(slots).add(slot_items(slot)),
    decreases slots.len(),
{
    let updated = slots.update(i, slot);
    let lhs = held(updated).add(slot_items(slots[i]));
    let rhs = held(slots).add(slot_items(slot));
    assert(held(updated) == held(updated.drop_last()).add(slot_items(updated.last())));
    assert(held(slots) == held(slots.drop_last()).add(slot_items(slots.last())));
    if i == slots.len() - 1 {
        assert(updated.drop_last() =~= slots.drop_last());
    } else {
        let rest = slots.drop_last();
        lemma_held_update(rest, i, slot);
        assert(updated.drop_last() =~= rest.update(i, slot));
        let a = held(rest.update(i, slot)).add(slot_items(rest[i]));
        let b = held(rest).add(slot_items(slot));
        assert forall|v: T| lhs.count(v) == rhs.count(v) by {
            assert(a.count(v) == b.count(v));
        }
    }
    assert(lhs =~= rhs);
}

/// A settling step that fills an empty slot keeps the items that are held.
pub proof fn lemma_held_shifted<T>(slots: Seq<Option<T>>, i: nat, draw: usize)
    requires
        1 <= i <= slots.len(),
        slots[i - 1] is None,
    ensures
        held(shifted(slots, i, draw)) == held(slots),
{
    let r = rank_of(draw, i);
    assert(1 <= r <= i) by {
        lemma_rank_in_range(draw, i);
    }
    let emptied = slots.update(r - 1, None);
    let moved = emptied.update(i - 1, slots[r - 1]);
    lemma_held_update(slots, r - 1, None);
    lemma_held_update(emptied, i - 1, slots[r - 1]);
    let a1 = held(emptied).add(slot_items(slots[r - 1]));
    let b1 = held(slots).add(slot_items(None::<T>));
    let a2 = held(moved).add(slot_items(emptied[i - 1]));
    let b2 = held(emptied).add(slot_items(slots[r - 1]));
    assert forall|v: T| held(moved).count(v) == held(slots).count(v) by {
        assert(a1.count(v) == b1.count(v));
        assert(a2.count(v) == b2.count(v));
    }
    assert(held(moved) =~= held(slots));
}

/// A rank lies between 1 and the number of items seen.
pub proof fn lemma_rank_in_range(draw: usize, seen: nat)
    requires
        seen > 0,
    ensures
        1 <= rank_of(draw, seen) <= seen,
{
}

/// Settling fills only empty slots behind the first `from`, so it keeps the
/// length of the pool and the items that are held.
pub proof fn lemma_settled_keeps<T>(slots: Seq<Option<T>>, from: nat, draws: Seq<usize>)
    requires
        from + draws.len() <= slots.len(),
        forall|j: int| from <= j < slots.len() ==> (#[trigger] slots[j]) is None,
    ensures
        settled(slots, from, draws).len() == slots.len(),
        held(settled(slots, from, draws)) == held(slots),
        forall|j: int|
            from + draws.len() <= j < slots.len() ==> (#[trigger] settled(slots, from, draws)[j])
                is None,
    decreases draws.len(),
{
    if draws.len() > 0 {
        let before = settled(slots, from, draws.drop_last());
        lemma_settled_keeps(slots, from, draws.drop_last());
        let i = from + draws.len();
        lemma_rank_in_range(draws.last(), i);
        lemma_held_shifted(before, i, draws.last());
    }
}

impl<T> Pool<T> {
    /// A well-formed pool holds as many items as have passed, up to its
    /// capacity.
    pub proof fn lemma_held_count(self)
        requires
            self.wf(),
        ensures
            held(self.slots).len() == if self.seen < self.capacity() {
                self.seen
            } else {
                self.capacity()
            },
        decreases self.slots.len(),
    {
        if self.slots.len() > 0 {
            let rest = Pool { seen: self.seen, slots: self.slots.drop_last() };
            rest.lemma_held_count();
        }
    }

    /// Passing an item keeps the pool well-formed and its capacity. While the
    /// pool fills the item joins those held and nothing leaves; afterwards
    /// the item either takes the place of the one that leaves or is passed
    /// over.
    pub proof fn lemma_sampled(self, draw: usize, it: T)
        requires
            self.wf(),
        ensures
            self.sampled(draw, it).wf(),
            self.sampled(draw, it).capacity() == self.capacity(),
            self.sampled(draw, it).seen == self.seen + 1,
            1 <= self.next_rank(draw) <= self.seen + 1,
            self.seen < self.capacity() ==> self.evicted(draw) is None && held(
                self.sampled(draw, it).slots,
            ) == held(self.slots).insert(it),
            self.seen >= self.capacity() && self.next_rank(draw) <= self.capacity()
                ==> self.evicted(draw) is Some && held(self.sampled(draw, it).slots).insert(
                self.evicted(draw).unwrap(),
            ) == held(self.slots).insert(it),
            self.next_rank(draw) > self.capacity() ==> self.evicted(draw) is None
                && self.sampled(draw, it).slots == self.slots,
    {
        let seen = self.seen + 1;
        let r = self.next_rank(draw);
        lemma_rank_in_range(draw, seen);
        if r <= self.capacity() {
            let taken = self.slots.update(r - 1, Some(it));
            lemma_held_update(self.slots, r - 1, Some(it));
            if seen <= self.capacity() && r < seen {
                lemma_held_update(taken, seen - 1, self.slots[r - 1]);
                assert(held(self.sampled(draw, it).slots) =~= held(self.slots).insert(it));
            } else if seen <= self.capacity() {
                assert(held(self.sampled(draw, it).slots) =~= held(self.slots).insert(it));
            } else {
                assert(held(self.sampled(draw, it).slots).insert(self.evicted(draw).unwrap())
                    =~= held(self.slots).insert(it));
            }
        }
    }
}

/// Whether `after` and `res` are what passing `it` through `before` with the
/// raw draw `draw` gives.
pub open spec fn is_sample_of<T>(
    before: Pool<T>,
    it: T,
    draw: usize,
    after: Pool<T>,
    res: (usize, usize, Option<T>),
) -> bool {
    &&& after == before.sampled(draw, it)
    &&& res.0 == before.next_rank(draw)
    &&& res.1 == before.seen + 1
    &&& res.2 == before.evicted(draw)
}

/// The number of slots that settling has to fill: those behind the items
/// seen, if the pool is not full.
pub open spec fn gap<T>(pool: Pool<T>) -> nat {
    if pool.seen < pool.capacity() {
        (pool.capacity() - pool.seen) as nat
    } else {
        0
    }
}

/// Whether `out` is what settling `pool` with the raw draws `draws` gives.
pub open spec fn is_settling_of<T>(pool: Pool<T>, draws: Seq<usize>, out: Seq<Option<T>>) -> bool {
    &&& draws.len() == gap(pool)
    &&& out == settled(pool.slots, pool.seen, draws)
}

/// The pool after the items of a stream have passed one by one through `n`
/// empty slots, the `k`-th of them with the raw draw `draws[k]`.
pub open spec fn fed<T>(n: nat, items: Seq<T>, draws: Seq<usize>) -> Pool<T>
    recommends
        draws.len() == items.len(),
    decreases items.len(),
{
    if items.len() == 0 {
        Pool::empty(n)
    } else {
        fed(n, items.drop_last(), draws.drop_last()).sampled(draws.last(), items.last())
    }
}

/// Whatever the draws, feeding a stream leaves a well-formed pool of the
/// same capacity that has counted every item.
pub proof fn lemma_fed_wf<T>(n: nat, items: Seq<T>, draws: Seq<usize>)
    requires
        draws.len() == items.len(),
    ensures
        fed(n, items, draws).wf(),
        fed(n, items, draws).capacity() == n,
        fed(n, items, draws).seen == items.len(),
    decreases items.len(),
{
    if items.len() > 0 {
        lemma_fed_wf(n, items.drop_last(), draws.drop_last());
        fed(n, items.drop_last(), draws.drop_last()).lemma_sampled(draws.last(), items.last());
    }
}

/// No item is lost while the pool fills: when a stream of at most `n` items
/// has passed through `n` slots and the pool has been settled, the pool
/// holds every item of the stream exactly as often as the stream had it,
/// whatever the draws were.
pub proof fn lemma_warm_up_complete<T>(
    n: nat,
    items: Seq<T>,
    draws: Seq<usize>,
    settling: Seq<usize>,
)
    requires
        items.len() <= n,
        draws.len() == items.len(),
        settling.len() == n - items.len(),
    ensures
        held(settled(fed(n, items, draws).slots, items.len(), settling)) == items.to_multiset(),
{
    lemma_fed_holds_all(n, items, draws);
    lemma_fed_wf(n, items, draws);
    lemma_settled_keeps(fed(n, items, draws).slots, items.len(), settling);
}

/// While the pool fills it holds exactly the items that have passed.
pub proof fn lemma_fed_holds_all<T>(n: nat, items: Seq<T>, draws: Seq<usize>)
    requires
        items.len() <= n,
        draws.len() == items.len(),
    ensures
        held(fed(n, items, draws).slots) == items.to_multiset(),
    decreases items.len(),
{
    broadcast use vstd::seq_lib::group_to_multiset_ensures;

    if items.len() == 0 {
        lemma_held_empty::<T>(n);
    } else {
        let before = fed(n, items.drop_last(), draws.drop_last());
        lemma_fed_holds_all(n, items.drop_last(), draws.drop_last());
        lemma_fed_wf(n, items.drop_last(), draws.drop_last());
        before.lemma_sampled(draws.last(), items.last());
        assert(items.drop_last().push(items.last()) =~= items);
    }
}

/// Empty slots hold nothing.
pub proof fn lemma_held_empty<T>(n: nat)
    ensures
        held(Pool::<T>::empty(n).slots) == Multiset::<T>::empty(),
    decreases n,
{
    if n > 0 {
        lemma_held_empty::<T>((n - 1) as nat);
        assert(Pool::<T>::empty(n).slots.drop_last() =~= Pool::<T>::empty((n - 1) as nat).slots);
    }
}

/// The settled pool never holds more items than it has slots: it holds as
/// many as have passed, up to its capacity, whatever the stream and the
/// draws were.
pub proof fn lemma_capacity_bound<T>(
    n: nat,
    items: Seq<T>,
    draws: Seq<usize>,
    settling: Seq<usize>,
)
    requires
        draws.len() == items.len(),
        settling.len() == gap(fed(n, items, draws)),
    ensures
        settled(fed(n, items, draws).slots, items.len(), settling).len() == n,
        held(settled(fed(n, items, draws).slots, items.len(), settling)).len() == if items.len()
            < n {
            items.len()
        } else {
            n
        },
        held(settled(fed(n, items, draws).slots, items.len(), settling)).len() <= n,
{
    let pool = fed(n, items, draws);
    lemma_fed_wf(n, items, draws);
    pool.lemma_held_count();
    if items.len() < n {
        lemma_settled_keeps(pool.slots, items.len(), settling);
    }
}

} // verus!
