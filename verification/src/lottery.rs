//! The lottery: candidates are drawn one by one into a reservoir as large as
//! all positions together; closing it hands each position the winners in its
//! own run of slots.

use crate::pool::{
    all_empty, gap, held, is_sample_of, is_settling_of, lemma_held_none, settled, slot_items, Pool,
};
use crate::pos::{
    all_accepted, first_slot, has_owner, lemma_accepted_wf, lemma_first_slot_bounds,
    lemma_first_slot_grows, lemma_owner, lemma_total_cap_positive, owns, tiers_of, total_cap,
    Position, PositionType, Tier,
};
use crate::sampler::{Reservoir, ReservoirSampler};
use vstd::prelude::*;

verus! {

/// Why a lottery could not be released.
#[derive(Clone, Copy, PartialEq, Eq, Debug, Structural)]
pub enum ChoosenError {
    NoOneIsChoosen,
}

/// What one position gets when the lottery is released: its name and its
/// winners, in slot order.
pub struct Prize<P> {
    pub name: Seq<char>,
    pub winners: Seq<P>,
}

/// The items in the slots from `lo` up to, not including, `hi`, in slot
/// order; empty slots are passed over.
pub open spec fn winners<P>(slots: Seq<Option<P>>, lo: int, hi: int) -> Seq<P>
    recommends
        0 <= lo,
        hi <= slots.len(),
    decreases hi - lo,
{
    if hi <= lo {
        Seq::empty()
    } else {
        match slots[hi - 1] {
            Some(it) => winners(slots, lo, hi - 1).push(it),
            None => winners(slots, lo, hi - 1),
        }
    }
}

/// The prizes of the tiers over the settled slots: tier `k` owns the slots
/// from `first_slot(tiers, k)` on, as many as it takes winners.
pub open spec fn awarded<P>(tiers: Seq<Tier>, slots: Seq<Option<P>>) -> Seq<Prize<P>> {
    Seq::new(
        tiers.len(),
        |k: int|
            Prize {
                name: tiers[k].name,
                winners: winners(
                    slots,
                    first_slot(tiers, k) as int,
                    (first_slot(tiers, k) + tiers[k].cap) as int,
                ),
            },
    )
}

/// The prizes that a released list stands for.
pub open spec fn prizes_of<P>(list: Seq<(String, Vec<P>)>) -> Seq<Prize<P>> {
    Seq::new(list.len(), |k: int| Prize { name: list[k].0@, winners: list[k].1@ })
}

/// Whether any slot holds an item.
fn any_taken<P>(slots: &Vec<Option<P>>) -> (res: bool)
    ensures
        res == !all_empty(slots@),
{
    let mut i: usize = 0;
    while i < slots.len()
        invariant
            i <= slots.len(),
            forall|j: int| 0 <= j < i ==> (#[trigger] slots@[j]) is None,
        decreases slots.len() - i,
    {
        if slots[i].is_some() {
            return true;
        }
        i += 1;
    }
    false
}

/// Hands the settled slots to the positions. Fails if every slot is empty.
/// Otherwise each position, in order, gets the items of the next run of
/// slots, as long as its capacity, in slot order; a position whose slots
/// are all empty gets an empty list.
pub fn award<P, PT: PositionType>(positions: Vec<PT>, slots: Vec<Option<P>>) -> (res: Result<
    Vec<(String, Vec<P>)>,
    ChoosenError,
>)
    requires
        total_cap(tiers_of(positions@)) == slots@.len(),
    ensures
        match res {
            Ok(list) => !all_empty(slots@) && prizes_of(list@) == awarded(
                tiers_of(positions@),
                slots@,
            ),
            Err(e) => all_empty(slots@) && e == ChoosenError::NoOneIsChoosen,
        },
{
    let mut final_lucky = slots;
    if !any_taken(&final_lucky) {
        return Err(ChoosenError::NoOneIsChoosen);
    }
    let ghost tiers = tiers_of(positions@);
    let mut counted: usize = 0;
    let mut result: Vec<(String, Vec<P>)> = Vec::new();
    let mut k: usize = 0;
    while k < positions.len()
        invariant
            tiers == tiers_of(positions@),
            total_cap(tiers) == slots@.len(),
            k <= positions.len(),
            counted == first_slot(tiers, k as int),
            final_lucky.len() == slots@.len(),
            forall|j: int| counted <= j < slots@.len() ==> final_lucky@[j] == slots@[j],
            result@.len() == k,
            forall|j: int| 0 <= j < k ==> (#[trigger] prizes_of(result@)[j]) == awarded(tiers, slots@)[j],
        decreases positions.len() - k,
    {
        let cap: usize = positions[k].cap();
        proof {
            lemma_first_slot_bounds(tiers, k as int);
        }
        let mut luck: Vec<P> = Vec::with_capacity(cap);
        let mut i: usize = 0;
        while i < cap
            invariant
                i <= cap,
                counted + cap <= slots@.len(),
                final_lucky.len() == slots@.len(),
                forall|j: int| counted + i <= j < slots@.len() ==> final_lucky@[j] == slots@[j],
                luck@ == winners(slots@, counted as int, counted + i),
            decreases cap - i,
        {
            if let Some(it) = final_lucky[counted + i].take() {
                luck.push(it);
            }
            i += 1;
        }
        let name = positions[k].name().to_string();
        let ghost before = result@;
        result.push((name, luck));
        proof {
            assert forall|j: int| 0 <= j < k + 1 implies (#[trigger] prizes_of(result@)[j])
                == awarded(tiers, slots@)[j] by {
                if j < k {
                    assert(prizes_of(before)[j] == awarded(tiers, slots@)[j]);
                    assert(result@[j] == before[j]);
                }
            }
        }
        counted += cap;
        k += 1;
    }
    assert(prizes_of(result@) =~= awarded(tiers, slots@));
    Ok(result)
}

/// All winners of the prizes, position after position.
pub open spec fn all_winners<P>(prizes: Seq<Prize<P>>) -> Seq<P>
    decreases prizes.len(),
{
    if prizes.len() == 0 {
        Seq::empty()
    } else {
        all_winners(prizes.drop_last()) + prizes.last().winners
    }
}

/// A run of slots yields at most one winner for each slot.
pub proof fn lemma_winners_len<P>(slots: Seq<Option<P>>, lo: int, hi: int)
    ensures
        winners(slots, lo, hi).len() <= if hi <= lo {
            0
        } else {
            hi - lo
        },
    decreases hi - lo,
{
    if lo < hi {
        lemma_winners_len(slots, lo, hi - 1);
    }
}

/// The winners of two runs that meet are the winners of the joined run.
pub proof fn lemma_winners_join<P>(slots: Seq<Option<P>>, lo: int, mid: int, hi: int)
    requires
        lo <= mid <= hi,
    ensures
        winners(slots, lo, hi) == winners(slots, lo, mid) + winners(slots, mid, hi),
    decreases hi - mid,
{
    if mid < hi {
        lemma_winners_join(slots, lo, mid, hi - 1);
    }
    assert(winners(slots, lo, hi) =~= winners(slots, lo, mid) + winners(slots, mid, hi));
}

/// The winners of the whole pool are the items that it holds.
pub proof fn lemma_winners_held<P>(slots: Seq<Option<P>>)
    ensures
        winners(slots, 0, slots.len() as int).to_multiset() == held(slots),
    decreases slots.len(),
{
    broadcast use vstd::seq_lib::group_to_multiset_ensures;

    if slots.len() > 0 {
        let rest = slots.drop_last();
        lemma_winners_held(rest);
        lemma_winners_same(slots, rest, 0, rest.len() as int);
        assert(held(slots) == held(rest).add(slot_items(slots.last())));
        assert(winners(slots, 0, slots.len() as int).to_multiset() =~= held(slots));
    } else {
        assert(winners(slots, 0, 0) =~= Seq::<P>::empty());
    }
}

/// The winners of a run depend only on the slots of the run.
pub proof fn lemma_winners_same<P>(a: Seq<Option<P>>, b: Seq<Option<P>>, lo: int, hi: int)
    requires
        0 <= lo,
        hi <= a.len(),
        hi <= b.len(),
        forall|j: int| lo <= j < hi ==> a[j] == b[j],
    ensures
        winners(a, lo, hi) == winners(b, lo, hi),
    decreases hi - lo,
{
    if lo < hi {
        lemma_winners_same(a, b, lo, hi - 1);
    }
}

/// The first `k` prizes hold the winners of the slots before tier `k`.
proof fn lemma_awarded_prefix<P>(tiers: Seq<Tier>, slots: Seq<Option<P>>, k: int)
    requires
        0 <= k <= tiers.len(),
    ensures
        all_winners(awarded(tiers, slots).take(k)) == winners(
            slots,
            0,
            first_slot(tiers, k) as int,
        ),
    decreases k,
{
    let prizes = awarded(tiers, slots);
    if k == 0 {
        lemma_first_slot_bounds(tiers, 0);
        assert(all_winners(prizes.take(0)) =~= Seq::<P>::empty());
        assert(winners(slots, 0, 0) =~= Seq::<P>::empty());
    } else {
        lemma_awarded_prefix(tiers, slots, k - 1);
        lemma_first_slot_bounds(tiers, k - 1);
        assert(prizes.take(k).drop_last() =~= prizes.take(k - 1));
        lemma_winners_join(
            slots,
            0,
            first_slot(tiers, k - 1) as int,
            first_slot(tiers, k) as int,
        );
    }
}

/// The positions divide the slots among themselves exactly. The runs of
/// slots of two positions never overlap, every slot of the pool lies in the
/// run of some position, and the winners of all positions together are the
/// items of the pool in slot order: each item that the pool holds wins once,
/// in the position that owns its slot.
pub proof fn lemma_partition_exact<P>(tiers: Seq<Tier>, slots: Seq<Option<P>>)
    requires
        total_cap(tiers) == slots.len(),
    ensures
        forall|a: int, b: int|
            0 <= a < b < tiers.len() ==> #[trigger] first_slot(tiers, a) + tiers[a].cap
                <= #[trigger] first_slot(tiers, b),
        forall|j: int| 0 <= j < slots.len() ==> #[trigger] has_owner(tiers, j),
        forall|j: int, a: int, b: int|
            #[trigger] owns(tiers, a, j) && #[trigger] owns(tiers, b, j) ==> a == b,
        forall|k: int|
            0 <= k < tiers.len() ==> first_slot(tiers, k) + (#[trigger] tiers[k]).cap
                <= slots.len(),
        forall|k: int|
            0 <= k < tiers.len() ==> (#[trigger] awarded(tiers, slots)[k]).winners.len()
                <= tiers[k].cap,
        all_winners(awarded(tiers, slots)) == winners(slots, 0, slots.len() as int),
        all_winners(awarded(tiers, slots)).to_multiset() == held(slots),
{
    assert forall|k: int| 0 <= k < tiers.len() implies (#[trigger] awarded(
        tiers,
        slots,
    )[k]).winners.len() <= tiers[k].cap by {
        lemma_winners_len(
            slots,
            first_slot(tiers, k) as int,
            (first_slot(tiers, k) + tiers[k].cap) as int,
        );
    }
    assert forall|a: int, b: int| 0 <= a < b < tiers.len() implies #[trigger] first_slot(tiers, a)
        + tiers[a].cap <= #[trigger] first_slot(tiers, b) by {
        lemma_first_slot_bounds(tiers, a);
        lemma_first_slot_grows(tiers, a + 1, b);
    }
    assert forall|j: int| 0 <= j < slots.len() implies #[trigger] has_owner(tiers, j) by {
        let k = lemma_owner(tiers, j);
    }
    assert forall|j: int, a: int, b: int| #[trigger]
        owns(tiers, a, j) && #[trigger] owns(tiers, b, j) implies a == b by {
        if a < b {
            assert(first_slot(tiers, a) + tiers[a].cap <= first_slot(tiers, b));
        }
        if b < a {
            assert(first_slot(tiers, b) + tiers[b].cap <= first_slot(tiers, a));
        }
    }
    assert forall|k: int| 0 <= k < tiers.len() implies first_slot(tiers, k) + (
    #[trigger] tiers[k]).cap <= slots.len() by {
        lemma_first_slot_bounds(tiers, k);
    }
    lemma_awarded_prefix(tiers, slots, tiers.len() as int);
    lemma_first_slot_bounds(tiers, tiers.len() as int);
    assert(awarded(tiers, slots).take(tiers.len() as int) =~= awarded(tiers, slots));
    lemma_winners_held(slots);
}

/// A lottery over the positions it was built from: candidates are drawn
/// into one reservoir that has a slot for every winner of every position.
pub struct Choosen<P, PT = Position> where PT: PositionType {
    positions: Vec<PT>,
    lucky: Reservoir<P>,
}

/// Whether `list` is what releasing a lottery of these tiers over this pool
/// gives when the pool is settled with the raw draws `draws`.
pub open spec fn is_release_of<P>(
    tiers: Seq<Tier>,
    pool: Pool<P>,
    draws: Seq<usize>,
    list: Seq<(String, Vec<P>)>,
) -> bool {
    &&& draws.len() == gap(pool)
    &&& prizes_of(list) == awarded(tiers, settled(pool.slots, pool.seen, draws))
}

impl<P, PT> Choosen<P, PT> where PT: PositionType {
    /// The positions of the lottery, in order.
    pub closed spec fn spec_positions(&self) -> Seq<PT> {
        self.positions@
    }

    /// The tiers of the lottery, in the order of its positions.
    pub open spec fn tiers(&self) -> Seq<Tier> {
        tiers_of(self.spec_positions())
    }

    /// The reservoir of the lottery.
    pub closed spec fn pool(&self) -> Pool<P> {
        self.lucky@
    }

    /// A lottery has at least one position, each with a name and a capacity
    /// that its kind takes, and its reservoir has one slot for every winner.
    pub open spec fn wf(&self) -> bool {
        &&& self.tiers().len() > 0
        &&& all_accepted::<PT>(self.tiers())
        &&& self.pool().wf()
        &&& self.pool().capacity() == total_cap(self.tiers())
    }

    /// Joins positions and a reservoir into a lottery.
    pub(crate) fn assemble(positions: Vec<PT>, lucky: Reservoir<P>) -> (res: Self)
        ensures
            res.spec_positions() == positions@,
            res.pool() == lucky@,
    {
        Choosen { positions, lucky }
    }

    /// Draws one candidate into the reservoir, with a fresh random draw.
    /// Returns the candidate's rank, the number of candidates drawn so far
    /// and the candidate that lost its slot, if any.
    pub fn poll_one(&mut self, it: P) -> (res: (usize, usize, Option<P>))
        requires
            old(self).wf(),
            old(self).pool().seen < usize::MAX,
        ensures
            final(self).wf(),
            final(self).spec_positions() == old(self).spec_positions(),
            exists|draw: usize| is_sample_of(old(self).pool(), it, draw, final(self).pool(), res),
            res.1 == old(self).pool().seen + 1,
            1 <= res.0 <= res.1,
            old(self).pool().seen < old(self).pool().capacity() ==> res.2 is None && held(
                final(self).pool().slots,
            ) == held(old(self).pool().slots).insert(it),
    {
        let res = self.lucky.sample(it);
        proof {
            let draw = choose|draw: usize| is_sample_of(old(self).pool(), it, draw, self.pool(), res);
            assert(is_sample_of(old(self).pool(), it, draw, self.pool(), res));
        }
        res
    }

    /// The slots of the reservoir as they are now.
    pub fn lucky(&self) -> (res: &[Option<P>])
        ensures
            res@ == self.pool().slots,
    {
        self.lucky.samples()
    }

    /// The positions of the lottery, in order.
    pub fn positions(&self) -> (res: &[PT])
        ensures
            res@ == self.spec_positions(),
    {
        self.positions.as_slice()
    }

    /// Closes the lottery. The reservoir is settled with fresh random draws
    /// and its slots are handed to the positions in order, each getting a run
    /// as long as its capacity. Fails exactly when no candidate was ever
    /// drawn. Otherwise every candidate that the reservoir held wins once.
    pub fn release(self) -> (res: Result<Vec<(String, Vec<P>)>, ChoosenError>)
        requires
            self.wf(),
        ensures
            match res {
                Ok(list) => {
                    &&& self.pool().seen > 0
                    &&& exists|draws: Seq<usize>|
                        is_release_of(self.tiers(), self.pool(), draws, list@)
                    &&& list@.len() == self.tiers().len()
                    &&& all_winners(prizes_of(list@)).to_multiset() == held(self.pool().slots)
                },
                Err(e) => self.pool().seen == 0 && e == ChoosenError::NoOneIsChoosen,
            },
    {
        let ghost tiers = self.tiers();
        let ghost pool = self.pool();
        let final_lucky = self.lucky.lock();
        proof {
            pool.lemma_held_count();
            lemma_held_none(final_lucky@);
            lemma_partition_exact(tiers, final_lucky@);
            lemma_accepted_wf::<PT>(tiers);
            lemma_total_cap_positive(tiers);
        }
        let ghost fin = final_lucky@;
        let res = award(self.positions, final_lucky);
        proof {
            if res is Ok {
                let list = res->Ok_0;
                let draws = choose|draws: Seq<usize>| is_settling_of(pool, draws, fin);
                assert(is_settling_of(pool, draws, fin) && prizes_of(list@) == awarded(tiers, fin));
                assert(is_release_of(tiers, pool, draws, list@));
            }
        }
        res
    }
}

} // verus!
