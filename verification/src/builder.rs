//! Staging the positions of a lottery before any candidate is drawn.

use crate::lottery::Choosen;
use crate::pool::Pool;
use crate::pos::{
    all_accepted, first_slot, lemma_first_slot_bounds, tiers_of, total_cap, Position,
    PositionType, PositionTypeError, Tier,
};
use crate::sampler::Reservoir;
use vstd::prelude::*;

verus! {

/// Why the builder refused an operation.
#[derive(Debug, PartialEq, Eq, Clone, Copy)]
pub enum BuildChoosenError {
    EmptyBuilder,
    WrongPositionType(PositionTypeError),
    PositionOutBound(usize),
}

/// Why no position of the kind `PT` can be made of `name` and `cap`, if none
/// can: the name is judged first, then the capacity.
pub open spec fn refusal<PT: PositionType>(name: Seq<char>, cap: nat) -> Option<
    PositionTypeError,
> {
    match PT::name_refusal(name) {
        Some(why) => Some(why),
        None => PT::cap_refusal(cap),
    }
}

/// A builder holds the positions while they are being settled on. Each can
/// still be renamed, resized or removed; choosing starts only once the
/// lottery has been built from them.
pub struct ChoosenBuilder<PT = Position> where PT: PositionType + Default + Clone {
    positions: Vec<PT>,
}

impl<PT> View for ChoosenBuilder<PT> where PT: PositionType + Default + Clone {
    type V = Seq<Tier>;

    open spec fn view(&self) -> Seq<Tier> {
        tiers_of(self.spec_positions())
    }
}

impl<PT> ChoosenBuilder<PT> where PT: PositionType + Default + Clone {
    /// The staged positions, in order.
    pub closed spec fn spec_positions(&self) -> Seq<PT> {
        self.positions@
    }

    /// Every staged position has a name and a capacity that its kind takes.
    pub open spec fn wf(&self) -> bool {
        all_accepted::<PT>(self@)
    }

    pub fn new() -> (res: Self)
        ensures
            res@ == Seq::<Tier>::empty(),
            res.wf(),
    {
        ChoosenBuilder { positions: Vec::<PT>::new() }
    }

    /// Appends a position of the given name and capacity. A name that the
    /// kind of position refuses fails first, then a capacity that it refuses;
    /// a failure leaves the builder as it was.
    pub fn add_position(&mut self, name: &str, cap: usize) -> (res: Result<
        &mut Self,
        BuildChoosenError,
    >)
        requires
            old(self).wf(),
        ensures
            match res {
                Ok(r) => {
                    &&& refusal::<PT>(name@, cap as nat) is None
                    &&& r@ == old(self)@.push((Tier { name: name@, cap: cap as nat }))
                    &&& r.wf()
                    &&& *final(self) == *final(r)
                },
                Err(e) => {
                    &&& refusal::<PT>(name@, cap as nat) is Some
                    &&& e == BuildChoosenError::WrongPositionType(
                        refusal::<PT>(name@, cap as nat).unwrap(),
                    )
                    &&& final(self)@ == old(self)@
                    &&& final(self).wf()
                },
            },
    {
        let mut pos = PT::default();
        match pos.set_name(name) {
            Ok(_) => {},
            Err(e) => {
                return Err(BuildChoosenError::WrongPositionType(e));
            },
        }
        match pos.set_cap(cap) {
            Ok(_) => {},
            Err(e) => {
                return Err(BuildChoosenError::WrongPositionType(e));
            },
        }
        self.positions.push(pos);
        assert(self@ =~= old(self)@.push((Tier { name: name@, cap: cap as nat })));
        Ok(self)
    }

    /// Whether `idx` names a staged position.
    pub fn check_idx(&self, idx: usize) -> (res: Result<(), BuildChoosenError>)
        ensures
            match res {
                Ok(_) => idx < self@.len(),
                Err(e) => idx >= self@.len() && e == BuildChoosenError::PositionOutBound(idx),
            },
    {
        if idx < self.positions.len() {
            Ok(())
        } else {
            Err(BuildChoosenError::PositionOutBound(idx))
        }
    }

    /// Renames the position at `idx`. An index that names no position fails
    /// first, then a name that the kind of position refuses; a failure
    /// leaves the builder as it was.
    pub fn set_position_name(&mut self, name: &str, idx: usize) -> (res: Result<
        &mut Self,
        BuildChoosenError,
    >)
        requires
            old(self).wf(),
        ensures
            match res {
                Ok(r) => {
                    &&& idx < old(self)@.len()
                    &&& PT::name_refusal(name@) is None
                    &&& r@ == old(self)@.update(
                        idx as int,
                        (Tier { name: name@, cap: old(self)@[idx as int].cap }),
                    )
                    &&& r.wf()
                    &&& *final(self) == *final(r)
                },
                Err(e) => {
                    &&& if idx >= old(self)@.len() {
                        e == BuildChoosenError::PositionOutBound(idx)
                    } else {
                        &&& PT::name_refusal(name@) is Some
                        &&& e == BuildChoosenError::WrongPositionType(
                            PT::name_refusal(name@).unwrap(),
                        )
                    }
                    &&& final(self)@ == old(self)@
                    &&& final(self).wf()
                },
            },
    {
        match self.check_idx(idx) {
            Ok(_) => {},
            Err(e) => {
                return Err(e);
            },
        }
        match self.positions[idx].set_name(name) {
            Ok(_) => {},
            Err(e) => {
                assert(self@ =~= old(self)@);
                return Err(BuildChoosenError::WrongPositionType(e));
            },
        }
        assert(self@ =~= old(self)@.update(
            idx as int,
            (Tier { name: name@, cap: old(self)@[idx as int].cap }),
        ));
        Ok(self)
    }

    /// Resizes the position at `idx`. An index that names no position fails
    /// first, then a capacity that the kind of position refuses; a failure
    /// leaves the builder as it was.
    pub fn set_position_cap(&mut self, new_cap: usize, idx: usize) -> (res: Result<
        &mut Self,
        BuildChoosenError,
    >)
        requires
            old(self).wf(),
        ensures
            match res {
                Ok(r) => {
                    &&& idx < old(self)@.len()
                    &&& PT::cap_refusal(new_cap as nat) is None
                    &&& r@ == old(self)@.update(
                        idx as int,
                        (Tier { name: old(self)@[idx as int].name, cap: new_cap as nat }),
                    )
                    &&& r.wf()
                    &&& *final(self) == *final(r)
                },
                Err(e) => {
                    &&& if idx >= old(self)@.len() {
                        e == BuildChoosenError::PositionOutBound(idx)
                    } else {
                        &&& PT::cap_refusal(new_cap as nat) is Some
                        &&& e == BuildChoosenError::WrongPositionType(
                            PT::cap_refusal(new_cap as nat).unwrap(),
                        )
                    }
                    &&& final(self)@ == old(self)@
                    &&& final(self).wf()
                },
            },
    {
        match self.check_idx(idx) {
            Ok(_) => {},
            Err(e) => {
                return Err(e);
            },
        }
        match self.positions[idx].set_cap(new_cap) {
            Ok(_) => {},
            Err(e) => {
                assert(self@ =~= old(self)@);
                return Err(BuildChoosenError::WrongPositionType(e));
            },
        }
        assert(self@ =~= old(self)@.update(
            idx as int,
            (Tier { name: old(self)@[idx as int].name, cap: new_cap as nat }),
        ));
        Ok(self)
    }

    /// Removes the position at `idx`; those behind it move up by one. An
    /// index that names no position is refused and leaves the builder as it
    /// was.
    pub fn remove_position(&mut self, idx: usize) -> (res: Result<&mut Self, BuildChoosenError>)
        requires
            old(self).wf(),
        ensures
            match res {
                Ok(r) => {
                    &&& idx < old(self)@.len()
                    &&& r@ == old(self)@.remove(idx as int)
                    &&& r.wf()
                    &&& *final(self) == *final(r)
                },
                Err(e) => {
                    &&& idx >= old(self)@.len()
                    &&& e == BuildChoosenError::PositionOutBound(idx)
                    &&& final(self)@ == old(self)@
                    &&& final(self).wf()
                },
            },
    {
        match self.check_idx(idx) {
            Ok(_) => {},
            Err(e) => {
                return Err(e);
            },
        }
        self.positions.remove(idx);
        assert(self@ =~= old(self)@.remove(idx as int));
        Ok(self)
    }

    /// The staged positions, in order.
    pub fn positions(&self) -> (res: &[PT])
        ensures
            res@ == self.spec_positions(),
    {
        self.positions.as_slice()
    }

    /// Builds the lottery: a copy of the staged positions and an empty
    /// reservoir with one slot for every winner of every position. Fails if
    /// no position is staged. The builder stays as it is and can be changed
    /// afterwards without touching the lottery.
    pub fn build<P: Clone>(&self) -> (res: Result<Choosen<P, PT>, BuildChoosenError>)
        requires
            self.wf(),
            total_cap(self@) <= usize::MAX,
        ensures
            match res {
                Ok(lottery) => {
                    &&& self@.len() > 0
                    &&& lottery.wf()
                    &&& lottery.tiers() == self@
                    &&& lottery.pool() == Pool::<P>::empty(total_cap(self@))
                },
                Err(e) => self@.len() == 0 && e == BuildChoosenError::EmptyBuilder,
            },
    {
        if self.positions.is_empty() {
            return Err(BuildChoosenError::EmptyBuilder);
        }
        let mut lucky_cap: usize = 0;
        let mut k: usize = 0;
        while k < self.positions.len()
            invariant
                k <= self.positions.len(),
                self@.len() == self.positions.len(),
                lucky_cap == first_slot(self@, k as int),
                total_cap(self@) <= usize::MAX,
            decreases self.positions.len() - k,
        {
            proof {
                lemma_first_slot_bounds(self@, k as int);
            }
            lucky_cap += self.positions[k].cap();
            k += 1;
        }
        let positions = self.positions.clone();
        proof {
            lemma_first_slot_bounds(self@, 0);
            assert forall|i: int| 0 <= i < positions@.len() implies tiers_of(positions@)[i]
                == self@[i] by {
                PT::lemma_clone_keeps(&self.positions@[i], &positions@[i]);
            }
            assert(tiers_of(positions@) =~= self@);
        }
        Ok(Choosen::assemble(positions, Reservoir::<P>::with_capacity(lucky_cap)))
    }
}

} // verus!
