//! Reservoir sampling: a pool of fixed size that holds a random sample of
//! the items of a stream whose length is not known in advance.

use crate::pool::{
    gap, held, is_sample_of, is_settling_of, lemma_held_shifted, lemma_rank_in_range, settled,
    shifted, Pool,
};
use vstd::prelude::*;

verus! {

/// A streaming sampler: it sees the items of a stream one at a time, decides
/// for each whether to keep it, and knows at any time which samples it holds.
pub trait ReservoirSampler {
    /// Each sampler only processes the same type of items.
    type Item;

    /// Whether the sampler is in a state that its own operations produce.
    spec fn valid(&self) -> bool;

    /// How many items have passed through so far.
    spec fn passed(&self) -> nat;

    /// Processes one item of the stream. Returns the random rank that the
    /// item got, the number of items that have passed through so far, and
    /// the item that the new one replaced, if any.
    fn sample(&mut self, it: Self::Item) -> (res: (usize, usize, Option<Self::Item>))
        requires
            old(self).valid(),
            old(self).passed() < usize::MAX,
        ensures
            final(self).valid(),
            final(self).passed() == old(self).passed() + 1,
            res.1 == final(self).passed(),
    ;

    /// The samples held at this moment, whether or not sampling has ended.
    fn samples(&self) -> (res: &[Option<Self::Item>]);

    /// Ends the sampling and hands out the samples, possibly reordered.
    fn lock(self) -> (res: Vec<Option<Self::Item>>)
        requires
            self.valid(),
    ;
}

/// A raw random number from `rand::random::<usize>()`, which draws it from
/// the thread-local generator. Nothing is claimed of the number: every
/// `usize` may come back. The call panics if the operating system cannot
/// seed the generator, which no argument decides.
#[verifier::external_body]
fn random_draw() -> (draw: usize) {
    rand::random::<usize>()
}

/// One step of settling on the slots themselves: the slot of rank
/// `draw % i + 1` is emptied into slot `i - 1`.
pub fn settle_slot<T>(pool: &mut Vec<Option<T>>, i: usize, draw: usize)
    requires
        1 <= i <= old(pool).len(),
    ensures
        final(pool)@ == shifted(old(pool)@, i as nat, draw),
{
    let r: usize = draw % i + 1;
    let moved = pool[r - 1].take();
    pool[i - 1] = moved;
}

/// A reservoir is a pool of slots together with the count of the items that
/// have passed through it.
pub struct Reservoir<T> {
    total: usize,
    pool: Vec<Option<T>>,
}

impl<T> View for Reservoir<T> {
    type V = Pool<T>;

    closed spec fn view(&self) -> Pool<T> {
        Pool { seen: self.total as nat, slots: self.pool@ }
    }
}

impl<T> Reservoir<T> {
    /// Passes one item through with the given raw draw. The item gets the
    /// rank `draw % seen + 1`, where `seen` counts it too. With a rank within
    /// the capacity it takes the slot of that rank; what the slot held moves
    /// to the first free slot while the pool fills, and leaves otherwise.
    pub fn place(&mut self, draw: usize, it: T) -> (res: (usize, usize, Option<T>))
        requires
            old(self)@.wf(),
            old(self)@.seen < usize::MAX,
        ensures
            final(self)@ == old(self)@.sampled(draw, it),
            final(self)@.wf(),
            res.0 == old(self)@.next_rank(draw),
            res.1 == old(self)@.seen + 1,
            res.2 == old(self)@.evicted(draw),
            1 <= res.0 <= res.1,
    {
        let pool_cap: usize = self.pool.len();

        self.total += 1;

        let r: usize = draw % self.total + 1;
        let mut replaced = None;
        if r <= pool_cap {
            replaced = self.pool[r - 1].take();
            self.pool[r - 1] = Some(it);
        }
        if self.total <= pool_cap && r < self.total {
            self.pool[self.total - 1] = replaced.take();
        }
        (r, self.total, replaced)
    }
}

impl<T: Clone> Reservoir<T> {
    /// A reservoir of `n` empty slots through which nothing has passed.
    pub fn with_capacity(n: usize) -> (res: Self)
        ensures
            res@ == Pool::<T>::empty(n as nat),
            res@.wf(),
    {
        let mut pool: Vec<Option<T>> = Vec::with_capacity(n);
        let mut i: usize = 0;
        while i < n
            invariant
                i <= n,
                pool@.len() == i,
                forall|j: int| 0 <= j < i ==> (#[trigger] pool@[j]) is None,
            decreases n - i,
        {
            pool.push(None);
            i += 1;
        }
        Self { total: 0, pool }
    }
}

impl<T> ReservoirSampler for Reservoir<T> {
    type Item = T;

    open spec fn valid(&self) -> bool {
        self@.wf()
    }

    open spec fn passed(&self) -> nat {
        self@.seen
    }

    /// Passes one item through with a fresh random draw: see `place`.
    fn sample(&mut self, it: Self::Item) -> (res: (usize, usize, Option<Self::Item>))
        ensures
            exists|draw: usize| is_sample_of(old(self)@, it, draw, final(self)@, res),
            1 <= res.0 <= res.1,
            final(self)@.capacity() == old(self)@.capacity(),
            old(self)@.seen < old(self)@.capacity() ==> res.2 is None && held(final(self)@.slots)
                == held(old(self)@.slots).insert(it),
    {
        let draw: usize = random_draw();
        proof {
            self@.lemma_sampled(draw, it);
        }
        let res = self.place(draw, it);
        assert(is_sample_of(old(self)@, it, draw, self@, res));
        res
    }

    fn samples(&self) -> (res: &[Option<Self::Item>])
        ensures
            res@ == self@.slots,
    {
        self.pool.as_slice()
    }

    /// Ends the sampling. If fewer items have passed than the pool has slots,
    /// each empty slot behind them is settled in turn with a fresh random
    /// draw, which spreads the items over the whole pool; a full pool is
    /// handed out as it is.
    fn lock(self) -> (res: Vec<Option<Self::Item>>)
        ensures
            exists|draws: Seq<usize>| is_settling_of(self@, draws, res@),
            res@.len() == self@.capacity(),
            held(res@) == held(self@.slots),
            held(res@).len() == if self@.seen < self@.capacity() {
                self@.seen
            } else {
                self@.capacity()
            },
            self@.seen >= self@.capacity() ==> res@ == self@.slots,
    {
        let ghost start = self@;
        proof {
            start.lemma_held_count();
        }
        let mut i: usize = self.total;
        let mut pool = self.pool;
        let ghost mut draws: Seq<usize> = Seq::empty();
        while i < pool.len()
            invariant
                start.wf(),
                i == start.seen + draws.len(),
                draws.len() <= gap(start),
                pool@ == settled(start.slots, start.seen, draws),
                pool@.len() == start.slots.len(),
                held(pool@) == held(start.slots),
                forall|j: int| i <= j < pool@.len() ==> (#[trigger] pool@[j]) is None,
            decreases pool.len() - i,
        {
            i += 1;
            let draw: usize = random_draw();
            proof {
                lemma_rank_in_range(draw, i as nat);
                lemma_held_shifted(pool@, i as nat, draw);
            }
            settle_slot(&mut pool, i, draw);
            proof {
                assert(draws.push(draw).drop_last() =~= draws);
                draws = draws.push(draw);
            }
        }
        assert(is_settling_of(start, draws, pool@));
        pool
    }
}

} // verus!
