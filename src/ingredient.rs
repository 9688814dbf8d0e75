//! Materials with a signed flow, and their algebra.

use vstd::prelude::*;
use crate::error::PlanError;
use crate::rate::{bounded_by, Frac, Rate};
use crate::text::str_eq;

verus! {

/// How a material travels between machines.
#[derive(Debug, Clone, Copy, PartialEq, Eq, Structural)]
pub enum Transport {
    Belt,
    Pipe,
}

impl Transport {
    /// The transport's name.
    pub fn name(&self) -> (r: &'static str)
        ensures
            r@ == (match self {
                Transport::Belt => "Belt"@,
                Transport::Pipe => "Pipe"@,
            }),
    {
        match self {
            Transport::Belt => "Belt",
            Transport::Pipe => "Pipe",
        }
    }
}

/// The fluids of the game, which travel by pipe.
pub open spec fn is_fluid(p: Seq<char>) -> bool {
    ||| p == "Alumina Solution"@
    ||| p == "Fuel"@
    ||| p == "Heavy Oil Residue"@
    ||| p == "Ionised Fuel"@
    ||| p == "Liquid Biofuel"@
    ||| p == "Nitric Acid"@
    ||| p == "Nitrogen Gas"@
    ||| p == "Crude Oil"@
    ||| p == "Rocket Fuel"@
    ||| p == "Sulfuric Acid"@
    ||| p == "Turbofuel"@
    ||| p == "Water"@
    ||| p == "Excited Photonic Matter"@
    ||| p == "Dark Matter Residue"@
}

pub open spec fn transport_of(p: Seq<char>) -> Transport {
    if is_fluid(p) {
        Transport::Pipe
    } else {
        Transport::Belt
    }
}

/// Names the result of `str::to_lowercase`.
pub uninterp spec fn lower_of(s: Seq<char>) -> Seq<char>;

/// Relies on `str::to_lowercase`: the lowercase form depends on the characters alone.
#[verifier::external_body]
fn lowercase(s: &str) -> (r: String)
    ensures
        r@ == lower_of(s@),
{
    s.to_lowercase()
}

/// A material and its flow in items per minute (positive: supplied or
/// produced; negative: consumed or claimed).
#[derive(Debug)]
pub struct Ingredient {
    pub part: String,
    pub quantity: Rate,
}

impl Clone for Ingredient {
    fn clone(&self) -> (r: Self)
        ensures
            r == *self,
    {
        Ingredient { part: self.part.clone(), quantity: self.quantity }
    }
}

/// A material and its flow, as the contracts see it.
pub type Flow = (Seq<char>, Frac);

impl Ingredient {
    pub open spec fn wf(&self) -> bool {
        self.quantity.wf()
    }

    pub open spec fn flow(&self) -> Flow {
        (self.part@, self.quantity@)
    }

    pub fn new(part: String, quantity: Rate) -> (r: Ingredient)
        ensures
            r.part == part,
            r.quantity == quantity,
    {
        Ingredient { part, quantity }
    }

    /// Same material, by exact name.
    #[must_use]
    pub fn same_type_as(&self, other: &Ingredient) -> (r: bool)
        ensures
            r == (self.part@ == other.part@),
    {
        self.part == other.part
    }

    /// Same material, ignoring case.
    pub fn same_type(&self, other_part: &str) -> (r: bool)
        ensures
            r == (lower_of(self.part@) == lower_of(other_part@)),
    {
        let a = lowercase(self.part.as_str());
        let b = lowercase(other_part);
        a == b
    }

    /// The same material with the flow negated.
    #[must_use]
    pub fn neg(&self) -> (r: Ingredient)
        requires
            self.wf(),
        ensures
            r.wf(),
            r.part == self.part,
            r.quantity@ == self.quantity@.neg(),
    {
        Ingredient { part: self.part.clone(), quantity: self.quantity.neg() }
    }

    /// The same material with the flow multiplied by `scalar`; `None` when
    /// the product does not fit.
    #[must_use]
    pub fn scale(&self, scalar: &Rate) -> (r: Option<Ingredient>)
        requires
            self.wf(),
            scalar.wf(),
        ensures
            (r is Some) ==> r->0.wf() && r->0.part == self.part && r->0.quantity@.eqv(
                self.quantity@.mul(scalar@),
            ),
            self.quantity@.mul(scalar@).fits() ==> (r is Some),
            (r is Some) ==> bounded_by(r->0.quantity, self.quantity@.mul(scalar@)),
            self.quantity.den == 1 && scalar.den == 1 && (r is Some) ==> r->0.quantity.den == 1
                && r->0.quantity.num == self.quantity.num * scalar.num,
    {
        match self.quantity.mul(scalar) {
            Some(q) => Some(Ingredient { part: self.part.clone(), quantity: q }),
            None => None,
        }
    }

    /// Adds the flow of `other`, a quantity of the same material.
    pub fn merge(&mut self, other: &Ingredient) -> (r: Result<(), PlanError>)
        requires
            old(self).wf(),
            other.wf(),
            old(self).part@ == other.part@,
        ensures
            final(self).wf(),
            final(self).part == old(self).part,
            r is Ok ==> final(self).quantity@.eqv(old(self).quantity@.add(other.quantity@))
                && bounded_by(final(self).quantity, old(self).quantity@.add(other.quantity@)),
            r is Err ==> r->Err_0 == PlanError::Overflow && *final(self) == *old(self),
            old(self).quantity@.add(other.quantity@).fits() ==> (r is Ok),
            old(self).quantity.den == 1 && other.quantity.den == 1 ==> final(self).quantity.den == 1,
    {
        match self.quantity.add(&other.quantity) {
            Some(q) => {
                self.quantity = q;
                Ok(())
            },
            None => Err(PlanError::Overflow),
        }
    }

    /// Adds this flow into the list: into the entry of the same material
    /// where there is one (the first), else as a new entry at the end.
    pub fn merge_with(&self, others: &mut Vec<Ingredient>) -> (r: Result<(), PlanError>)
        requires
            self.wf(),
            all_wf(old(others)@),
        ensures
            all_wf(final(others)@),
            r is Ok ==> merged(old(others)@, final(others)@, *self),
            r is Err ==> r->Err_0 == PlanError::Overflow && final(others)@ == old(others)@,
            ({
                let j = position(old(others)@, self.part@);
                j >= 0 ==> old(others)@[j].quantity@.add(self.quantity@).fits()
            }) ==> (r is Ok),
            whole(old(others)@) && self.quantity.den == 1 ==> whole(final(others)@),
    {
        let mut i: usize = 0;
        while i < others.len()
            invariant
                i <= others.len(),
                others@ == old(others)@,
                whole(old(others)@) ==> whole(others@),
                self.wf(),
                all_wf(others@),
                forall|k: int| 0 <= k < i ==> others@[k].part@ != self.part@,
            decreases others.len() - i,
        {
            if others[i].part == self.part {
                proof {
                    lemma_position_is(others@, self.part@, i as int);
                    assert(others@[i as int].wf());
                }
                let mut target = others[i].clone();
                let res = target.merge(self);
                match res {
                    Ok(()) => {
                        others.set(i, target);
                        proof {
                            assert forall|k: int| 0 <= k < others@.len() implies (#[trigger] others@[k]).wf() by {
                                if k != i {
                                    assert(old(others)@[k].wf());
                                }
                            }
                            if whole(old(others)@) && self.quantity.den == 1 {
                                assert forall|k: int| 0 <= k < others@.len() implies (#[trigger] others@[k]).quantity.den == 1 by {
                                    assert(old(others)@[k].quantity.den == 1);
                                }
                            }
                        }
                        return Ok(());
                    },
                    Err(e) => {
                        return Err(e);
                    },
                }
            }
            i = i + 1;
        }
        proof {
            lemma_position_absent(others@, self.part@);
        }
        others.push(self.clone());
        proof {
            assert(others@ == old(others)@.push(*self));
            assert forall|k: int| 0 <= k < others@.len() implies (#[trigger] others@[k]).wf() by {
                if k < old(others)@.len() {
                    assert(old(others)@[k].wf());
                }
            }
            if whole(old(others)@) && self.quantity.den == 1 {
                assert forall|k: int| 0 <= k < others@.len() implies (#[trigger] others@[k]).quantity.den == 1 by {
                    if k < old(others)@.len() {
                        assert(old(others)@[k].quantity.den == 1);
                    }
                }
            }
        }
        Ok(())
    }

    #[must_use]
    pub fn is_negative(&self) -> (r: bool)
        ensures
            r == (self.quantity.num <= 0),
    {
        self.quantity.num <= 0
    }

    /// Pipe for the fluids of the game, belt for everything else.
    pub fn transport(&self) -> (r: Transport)
        ensures
            r == transport_of(self.part@),
    {
        let p = self.part.as_str();
        if str_eq(p, "Alumina Solution") || str_eq(p, "Fuel") || str_eq(p, "Heavy Oil Residue")
            || str_eq(p, "Ionised Fuel") || str_eq(p, "Liquid Biofuel") || str_eq(p, "Nitric Acid")
            || str_eq(p, "Nitrogen Gas") || str_eq(p, "Crude Oil") || str_eq(p, "Rocket Fuel")
            || str_eq(p, "Sulfuric Acid") || str_eq(p, "Turbofuel") || str_eq(p, "Water") || str_eq(
            p,
            "Excited Photonic Matter",
        ) || str_eq(p, "Dark Matter Residue") {
            Transport::Pipe
        } else {
            Transport::Belt
        }
    }
}

/// Every quantity of the list is a whole number.
pub open spec fn whole(s: Seq<Ingredient>) -> bool {
    forall|k: int| 0 <= k < s.len() ==> (#[trigger] s[k]).quantity.den == 1
}

pub open spec fn all_wf(s: Seq<Ingredient>) -> bool {
    forall|k: int| 0 <= k < s.len() ==> (#[trigger] s[k]).wf()
}

/// Index of the first entry of material `p`, or -1.
pub open spec fn position(s: Seq<Ingredient>, p: Seq<char>) -> int
    decreases s.len(),
{
    if s.len() == 0 {
        -1
    } else if position(s.drop_last(), p) >= 0 {
        position(s.drop_last(), p)
    } else if s.last().part@ == p {
        s.len() - 1
    } else {
        -1
    }
}

pub proof fn lemma_position_is(s: Seq<Ingredient>, p: Seq<char>, i: int)
    requires
        0 <= i < s.len(),
        s[i].part@ == p,
        forall|k: int| 0 <= k < i ==> s[k].part@ != p,
    ensures
        position(s, p) == i,
    decreases s.len(),
{
    if i < s.len() - 1 {
        lemma_position_is(s.drop_last(), p, i);
    } else {
        lemma_position_absent(s.drop_last(), p);
    }
}

pub proof fn lemma_position_absent(s: Seq<Ingredient>, p: Seq<char>)
    requires
        forall|k: int| 0 <= k < s.len() ==> s[k].part@ != p,
    ensures
        position(s, p) == -1,
    decreases s.len(),
{
    if s.len() > 0 {
        lemma_position_absent(s.drop_last(), p);
    }
}

/// `after` is `before` with the flow of `i` added: into the first entry of
/// the same material, or appended.
pub open spec fn merged(before: Seq<Ingredient>, after: Seq<Ingredient>, i: Ingredient) -> bool {
    let j = position(before, i.part@);
    if j >= 0 {
        &&& after.len() == before.len()
        &&& after[j].part == before[j].part
        &&& after[j].quantity@.eqv(before[j].quantity@.add(i.quantity@))
        &&& bounded_by(after[j].quantity, before[j].quantity@.add(i.quantity@))
        &&& forall|k: int| 0 <= k < before.len() && k != j ==> after[k] == before[k]
    } else {
        after == before.push(i)
    }
}

} // verus!

verus! {

pub proof fn lemma_position_range(s: Seq<Ingredient>, p: Seq<char>)
    ensures
        -1 <= position(s, p) < s.len(),
        position(s, p) >= 0 ==> s[position(s, p)].part@ == p,
    decreases s.len(),
{
    if s.len() > 0 {
        lemma_position_range(s.drop_last(), p);
    }
}

} // verus!

verus! {

/// A list with an entry of material `p` has a first one.
pub proof fn lemma_position_is_found(s: Seq<Ingredient>, p: Seq<char>, k: int)
    requires
        0 <= k < s.len(),
        s[k].part@ == p,
    ensures
        0 <= position(s, p) <= k,
    decreases s.len(),
{
    if k < s.len() - 1 {
        lemma_position_is_found(s.drop_last(), p, k);
    } else {
        lemma_position_range(s.drop_last(), p);
    }
}

} // verus!
