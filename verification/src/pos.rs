//! Prize positions: a name and the number of winners the position takes.

use vstd::prelude::*;

verus! {

/// Why a position refused a new name or capacity.
#[derive(Clone, Copy, PartialEq, Eq, Debug, Structural)]
pub enum PositionTypeError {
    EmptyName,
    ZeroCapacity,
}

/// What a prize position must offer: a name and a capacity that can be read
/// and replaced. Each kind of position says for itself which names and
/// capacities it refuses; every kind refuses the empty name and a capacity
/// of zero.
pub trait PositionType: Sized {
    /// The position's name, as a sequence of characters.
    spec fn name_view(&self) -> Seq<char>;

    /// The number of winners the position takes.
    spec fn cap_view(&self) -> nat;

    /// Why this kind of position refuses the name `name`, if it does.
    spec fn name_refusal(name: Seq<char>) -> Option<PositionTypeError>;

    /// Why this kind of position refuses the capacity `cap`, if it does.
    spec fn cap_refusal(cap: nat) -> Option<PositionTypeError>;

    /// No position is without a name or without room for a winner: the empty
    /// name is refused as `EmptyName`, a capacity of zero as `ZeroCapacity`.
    proof fn lemma_refusals()
        ensures
            Self::name_refusal(Seq::empty()) == Some(PositionTypeError::EmptyName),
            Self::cap_refusal(0) == Some(PositionTypeError::ZeroCapacity),
    ;

    fn name(&self) -> (res: &str)
        ensures
            res@ == self.name_view(),
    ;

    /// Replaces the name. A refused name leaves the position as it was; any
    /// other name is taken and the capacity is kept.
    fn set_name(&mut self, name: &str) -> (res: Result<&mut Self, PositionTypeError>)
        ensures
            match res {
                Ok(r) => {
                    &&& Self::name_refusal(name@) is None
                    &&& r.name_view() == name@
                    &&& r.cap_view() == old(self).cap_view()
                    &&& *final(self) == *final(r)
                },
                Err(e) => Self::name_refusal(name@) == Some(e) && *final(self) == *old(self),
            },
    ;

    fn cap(&self) -> (res: usize)
        ensures
            res == self.cap_view(),
    ;

    /// Replaces the capacity. A refused capacity leaves the position as it
    /// was; any other capacity is taken and the name is kept.
    fn set_cap(&mut self, new_cap: usize) -> (res: Result<&mut Self, PositionTypeError>)
        ensures
            match res {
                Ok(r) => {
                    &&& Self::cap_refusal(new_cap as nat) is None
                    &&& r.cap_view() == new_cap
                    &&& r.name_view() == old(self).name_view()
                    &&& *final(self) == *final(r)
                },
                Err(e) => Self::cap_refusal(new_cap as nat) == Some(e) && *final(self) == *old(self),
            },
    ;

    /// A clone of a position stands for the same position.
    proof fn lemma_clone_keeps(a: &Self, b: &Self) where Self: Clone
        requires
            cloned::<Self>(*a, *b),
        ensures
            b.name_view() == a.name_view(),
            b.cap_view() == a.cap_view(),
    ;
}

/// What a position is to the lottery: its name and the number of winners it
/// takes.
pub struct Tier {
    pub name: Seq<char>,
    pub cap: nat,
}

/// The tier that a position stands for.
pub open spec fn tier_of<PT: PositionType>(p: PT) -> Tier {
    Tier { name: p.name_view(), cap: p.cap_view() }
}

/// The tiers that a list of positions stands for, in the same order.
pub open spec fn tiers_of<PT: PositionType>(ps: Seq<PT>) -> Seq<Tier> {
    Seq::new(ps.len(), |i: int| tier_of(ps[i]))
}

/// Whether positions of the kind `PT` take the name and the capacity of
/// the tier.
pub open spec fn accepted<PT: PositionType>(tier: Tier) -> bool {
    PT::name_refusal(tier.name) is None && PT::cap_refusal(tier.cap) is None
}

/// Whether positions of the kind `PT` take every one of the tiers.
pub open spec fn all_accepted<PT: PositionType>(tiers: Seq<Tier>) -> bool {
    forall|i: int| 0 <= i < tiers.len() ==> accepted::<PT>(#[trigger] tiers[i])
}

/// Every tier has a name and takes at least one winner.
pub open spec fn tiers_wf(tiers: Seq<Tier>) -> bool {
    forall|i: int| 0 <= i < tiers.len() ==> (#[trigger] tiers[i]).name.len() > 0 && tiers[i].cap > 0
}

/// Tiers that some kind of position takes have names and room for winners.
pub proof fn lemma_accepted_wf<PT: PositionType>(tiers: Seq<Tier>)
    requires
        all_accepted::<PT>(tiers),
    ensures
        tiers_wf(tiers),
{
    PT::lemma_refusals();
    assert forall|i: int| 0 <= i < tiers.len() implies (#[trigger] tiers[i]).name.len() > 0
        && tiers[i].cap > 0 by {
        assert(accepted::<PT>(tiers[i]));
        if tiers[i].name.len() == 0 {
            assert(tiers[i].name =~= Seq::<char>::empty());
        }
    }
}

/// The number of winners that the tiers take together.
pub open spec fn total_cap(tiers: Seq<Tier>) -> nat
    decreases tiers.len(),
{
    if tiers.len() == 0 {
        0
    } else {
        total_cap(tiers.drop_last()) + tiers.last().cap
    }
}

/// The first slot of tier `k`: the number of winners that the tiers before
/// it take together.
pub open spec fn first_slot(tiers: Seq<Tier>, k: int) -> nat
    recommends
        0 <= k <= tiers.len(),
{
    total_cap(tiers.take(k))
}

/// The tiers before `k` take no more winners than all of them.
pub proof fn lemma_first_slot_bounds(tiers: Seq<Tier>, k: int)
    requires
        0 <= k <= tiers.len(),
    ensures
        first_slot(tiers, k) <= total_cap(tiers),
        first_slot(tiers, 0) == 0,
        first_slot(tiers, tiers.len() as int) == total_cap(tiers),
        k < tiers.len() ==> first_slot(tiers, k + 1) == first_slot(tiers, k) + tiers[k].cap,
        k < tiers.len() ==> first_slot(tiers, k) + tiers[k].cap <= total_cap(tiers),
    decreases tiers.len() - k,
{
    assert(tiers.take(tiers.len() as int) =~= tiers);
    assert(tiers.take(0).len() == 0);
    if k < tiers.len() {
        assert(tiers.take(k + 1).drop_last() =~= tiers.take(k));
        lemma_first_slot_bounds(tiers, k + 1);
    }
}

/// The first slots of the tiers grow with the tiers.
pub proof fn lemma_first_slot_grows(tiers: Seq<Tier>, a: int, b: int)
    requires
        0 <= a <= b <= tiers.len(),
    ensures
        first_slot(tiers, a) <= first_slot(tiers, b),
    decreases b - a,
{
    if a < b {
        lemma_first_slot_bounds(tiers, a);
        lemma_first_slot_grows(tiers, a + 1, b);
    }
}

/// Whether slot `j` lies in the run of slots of tier `k`.
pub open spec fn owns(tiers: Seq<Tier>, k: int, j: int) -> bool {
    &&& 0 <= k < tiers.len()
    &&& first_slot(tiers, k) <= j < first_slot(tiers, k) + tiers[k].cap
}

/// Whether slot `j` lies in the run of slots of some tier.
pub open spec fn has_owner(tiers: Seq<Tier>, j: int) -> bool {
    exists|k: int| owns(tiers, k, j)
}

/// The tier that owns slot `j`.
pub proof fn lemma_owner(tiers: Seq<Tier>, j: int) -> (k: int)
    requires
        0 <= j < total_cap(tiers),
    ensures
        owns(tiers, k, j),
    decreases tiers.len(),
{
    let last = tiers.len() - 1;
    lemma_first_slot_bounds(tiers, last);
    if j >= first_slot(tiers, last) {
        last
    } else {
        let rest = tiers.drop_last();
        assert(tiers.take(last) =~= rest);
        let k = lemma_owner(rest, j);
        assert(rest.take(k) =~= tiers.take(k));
        k
    }
}

/// Tiers that each take a winner take at least one winner together.
pub proof fn lemma_total_cap_positive(tiers: Seq<Tier>)
    requires
        tiers.len() > 0,
        tiers_wf(tiers),
    ensures
        total_cap(tiers) > 0,
{
}

/// The plain position: a name that is never empty and a capacity that is
/// never zero.
#[derive(Debug)]
pub struct Position {
    name: String,
    cap: usize,
}

impl Position {
    #[verifier::type_invariant]
    spec fn inv(self) -> bool {
        self.name@.len() > 0 && self.cap > 0
    }
}

impl Clone for Position {
    fn clone(&self) -> (res: Self)
        ensures
            res == *self,
    {
        proof {
            use_type_invariant(self);
        }
        Position { name: self.name.clone(), cap: self.cap }
    }
}

impl Default for Position {
    /// The position named `default_name` that takes one winner.
    fn default() -> (res: Self)
        ensures
            res.name_view() == "default_name"@,
            res.cap_view() == 1,
    {
        proof {
            reveal_strlit("default_name");
        }
        Position { name: "default_name".to_string(), cap: 1 }
    }
}

impl PositionType for Position {
    closed spec fn name_view(&self) -> Seq<char> {
        self.name@
    }

    closed spec fn cap_view(&self) -> nat {
        self.cap as nat
    }

    /// Only the empty name is refused.
    open spec fn name_refusal(name: Seq<char>) -> Option<PositionTypeError> {
        if name.len() == 0 {
            Some(PositionTypeError::EmptyName)
        } else {
            None
        }
    }

    /// Only a capacity of zero is refused.
    open spec fn cap_refusal(cap: nat) -> Option<PositionTypeError> {
        if cap == 0 {
            Some(PositionTypeError::ZeroCapacity)
        } else {
            None
        }
    }

    proof fn lemma_refusals() {
    }

    fn name(&self) -> (res: &str)
        ensures
            res@.len() > 0,
    {
        proof {
            use_type_invariant(self);
        }
        self.name.as_str()
    }

    fn set_name(&mut self, name: &str) -> (res: Result<&mut Self, PositionTypeError>) {
        if name.is_empty() {
            return Err(PositionTypeError::EmptyName);
        }
        proof {
            use_type_invariant(&*self);
        }
        self.name = name.to_string();
        Ok(self)
    }

    fn cap(&self) -> (res: usize)
        ensures
            res > 0,
    {
        proof {
            use_type_invariant(self);
        }
        self.cap
    }

    fn set_cap(&mut self, new_cap: usize) -> (res: Result<&mut Self, PositionTypeError>) {
        if new_cap == 0 {
            return Err(PositionTypeError::ZeroCapacity);
        }
        proof {
            use_type_invariant(&*self);
        }
        self.cap = new_cap;
        Ok(self)
    }

    proof fn lemma_clone_keeps(a: &Self, b: &Self) {
    }
}

} // verus!
