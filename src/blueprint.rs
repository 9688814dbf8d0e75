//! Sizing a recipe's blueprint: how many machines, at what clock, drawing
//! how much power, within the limits of belts and pipes.

use vstd::prelude::*;
use crate::error::PlanError;
use crate::ingredient::{Ingredient, Transport, transport_of};
use crate::rate::{
    abs, bounded_by, lemma_abs_mul, lemma_div_fits_mono, lemma_mul_mono, RATE_LIMIT, lemma_cmp_congr, lemma_div_congr, lemma_eqv_pos, lemma_eqv_trans, lemma_wf_ops, Frac, Rate,
};
use crate::recipe::Recipe;
use crate::text::str_eq;

verus! {

/// The planner's constants: transport capacities (items per minute) and,
/// per building type, the number of machines built together.
#[derive(Debug)]
pub struct State {
    pub belt_ipm: Rate,
    pub pipe_ipm: Rate,
    pub pref_multiple_assembler: Rate,
    pub pref_multiple_blender: Rate,
    pub pref_multiple_constructor: Rate,
    pub pref_multiple_converter: Rate,
    pub pref_multiple_foundry: Rate,
    pub pref_multiple_manufacturer: Rate,
    pub pref_multiple_nuclear_power_plant: Rate,
    pub pref_multiple_packager: Rate,
    pub pref_multiple_particle_accelerator: Rate,
    pub pref_multiple_refinery: Rate,
    pub pref_multiple_smelter: Rate,
}

/// A valid, strictly positive rate.
pub open spec fn positive(r: Rate) -> bool {
    r.wf() && r@.is_pos()
}

/// The preferred machine multiple configured for building `b`.
pub open spec fn pref_of(st: State, b: Seq<char>) -> Option<Rate> {
    if b == "Assembler"@ {
        Some(st.pref_multiple_assembler)
    } else if b == "Blender"@ {
        Some(st.pref_multiple_blender)
    } else if b == "Constructor"@ {
        Some(st.pref_multiple_constructor)
    } else if b == "Converter"@ {
        Some(st.pref_multiple_converter)
    } else if b == "Foundry"@ {
        Some(st.pref_multiple_foundry)
    } else if b == "Manufacturer"@ {
        Some(st.pref_multiple_manufacturer)
    } else if b == "Packager"@ {
        Some(st.pref_multiple_packager)
    } else if b == "Particle Accelerator"@ {
        Some(st.pref_multiple_particle_accelerator)
    } else if b == "Smelter"@ {
        Some(st.pref_multiple_smelter)
    } else if b == "Refinery"@ {
        Some(st.pref_multiple_refinery)
    } else if b == "Nuclear Power Plant"@ {
        Some(st.pref_multiple_nuclear_power_plant)
    } else {
        None
    }
}

/// The power a machine of building `b` draws at full clock, in MW.
pub open spec fn base_power_of(b: Seq<char>) -> Option<i64> {
    if b == "Assembler"@ {
        Some(15i64)
    } else if b == "Blender"@ {
        Some(75i64)
    } else if b == "Constructor"@ {
        Some(4i64)
    } else if b == "Converter"@ {
        Some(1i64)
    } else if b == "Foundry"@ {
        Some(16i64)
    } else if b == "Manufacturer"@ {
        Some(55i64)
    } else if b == "Packager"@ {
        Some(10i64)
    } else if b == "Refinery"@ {
        Some(30i64)
    } else if b == "Smelter"@ {
        Some(4i64)
    } else if b == "Particle Accelerator"@ {
        Some(1i64)
    } else if b == "Nuclear Power Plant"@ {
        Some(-2500i64)
    } else {
        None
    }
}

impl State {
    pub open spec fn wf(&self) -> bool {
        &&& positive(self.belt_ipm)
        &&& positive(self.pipe_ipm)
        &&& positive(self.pref_multiple_assembler)
        &&& positive(self.pref_multiple_blender)
        &&& positive(self.pref_multiple_constructor)
        &&& positive(self.pref_multiple_converter)
        &&& positive(self.pref_multiple_foundry)
        &&& positive(self.pref_multiple_manufacturer)
        &&& positive(self.pref_multiple_nuclear_power_plant)
        &&& positive(self.pref_multiple_packager)
        &&& positive(self.pref_multiple_particle_accelerator)
        &&& positive(self.pref_multiple_refinery)
        &&& positive(self.pref_multiple_smelter)
    }

    /// The preferred machine multiple of a building type, if configured.
    pub fn prefered_building_multiple(&self, building: &str) -> (r: Option<Rate>)
        ensures
            r == pref_of(*self, building@),
    {
        if str_eq(building, "Assembler") {
            Some(self.pref_multiple_assembler)
        } else if str_eq(building, "Blender") {
            Some(self.pref_multiple_blender)
        } else if str_eq(building, "Constructor") {
            Some(self.pref_multiple_constructor)
        } else if str_eq(building, "Converter") {
            Some(self.pref_multiple_converter)
        } else if str_eq(building, "Foundry") {
            Some(self.pref_multiple_foundry)
        } else if str_eq(building, "Manufacturer") {
            Some(self.pref_multiple_manufacturer)
        } else if str_eq(building, "Packager") {
            Some(self.pref_multiple_packager)
        } else if str_eq(building, "Particle Accelerator") {
            Some(self.pref_multiple_particle_accelerator)
        } else if str_eq(building, "Smelter") {
            Some(self.pref_multiple_smelter)
        } else if str_eq(building, "Refinery") {
            Some(self.pref_multiple_refinery)
        } else if str_eq(building, "Nuclear Power Plant") {
            Some(self.pref_multiple_nuclear_power_plant)
        } else {
            None
        }
    }
}

impl Default for State {
    /// Belts of 780 and pipes of 600 per minute; assemblers, constructors
    /// and foundries by three, blenders and manufacturers by two, packagers,
    /// smelters and refineries by four, the rest one at a time.
    fn default() -> (r: Self)
        ensures
            r.wf(),
            r.belt_ipm@ == Frac::of_int(780),
            r.pipe_ipm@ == Frac::of_int(600),
            r.pref_multiple_assembler@ == Frac::of_int(3),
            r.pref_multiple_blender@ == Frac::of_int(2),
            r.pref_multiple_constructor@ == Frac::of_int(3),
            r.pref_multiple_converter@ == Frac::of_int(1),
            r.pref_multiple_foundry@ == Frac::of_int(3),
            r.pref_multiple_manufacturer@ == Frac::of_int(2),
            r.pref_multiple_nuclear_power_plant@ == Frac::of_int(1),
            r.pref_multiple_packager@ == Frac::of_int(4),
            r.pref_multiple_particle_accelerator@ == Frac::of_int(1),
            r.pref_multiple_refinery@ == Frac::of_int(4),
            r.pref_multiple_smelter@ == Frac::of_int(4),
    {
        State {
            belt_ipm: Rate::from_int(780),
            pipe_ipm: Rate::from_int(600),
            pref_multiple_assembler: Rate::from_int(3),
            pref_multiple_blender: Rate::from_int(2),
            pref_multiple_constructor: Rate::from_int(3),
            pref_multiple_converter: Rate::from_int(1),
            pref_multiple_foundry: Rate::from_int(3),
            pref_multiple_manufacturer: Rate::from_int(2),
            pref_multiple_nuclear_power_plant: Rate::from_int(1),
            pref_multiple_packager: Rate::from_int(4),
            pref_multiple_particle_accelerator: Rate::from_int(1),
            pref_multiple_refinery: Rate::from_int(4),
            pref_multiple_smelter: Rate::from_int(4),
        }
    }
}

/// The power a machine of this building type draws at full clock, in MW.
pub fn base_power_mw(building: &str) -> (r: Option<i64>)
    ensures
        r == base_power_of(building@),
{
    if str_eq(building, "Assembler") {
        Some(15)
    } else if str_eq(building, "Blender") {
        Some(75)
    } else if str_eq(building, "Constructor") {
        Some(4)
    } else if str_eq(building, "Converter") {
        Some(1)
    } else if str_eq(building, "Foundry") {
        Some(16)
    } else if str_eq(building, "Manufacturer") {
        Some(55)
    } else if str_eq(building, "Packager") {
        Some(10)
    } else if str_eq(building, "Refinery") {
        Some(30)
    } else if str_eq(building, "Smelter") {
        Some(4)
    } else if str_eq(building, "Particle Accelerator") {
        Some(1)
    } else if str_eq(building, "Nuclear Power Plant") {
        Some(-2500)
    } else {
        None
    }
}

/// The largest flow among the ingredients that travel by `t` (zero when
/// none does), the first of equal ones.
pub open spec fn max_flow(s: Seq<Ingredient>, t: Transport) -> Rate
    decreases s.len(),
{
    if s.len() == 0 {
        Rate { num: 0, den: 1 }
    } else {
        let m = max_flow(s.drop_last(), t);
        let i = s.last();
        if transport_of(i.part@) == t && m@.lt(i.quantity@) {
            i.quantity
        } else {
            m
        }
    }
}

pub proof fn lemma_max_flow_wf(s: Seq<Ingredient>, t: Transport)
    requires
        crate::ingredient::all_wf(s),
    ensures
        max_flow(s, t).wf(),
        !max_flow(s, t)@.lt(Frac::of_int(0)),
    decreases s.len(),
{
    if s.len() > 0 {
        assert(crate::ingredient::all_wf(s.drop_last()));
        lemma_max_flow_wf(s.drop_last(), t);
        assert(s[s.len() - 1].wf());
        let m = max_flow(s.drop_last(), t);
        let q = s.last().quantity@;
        if transport_of(s.last().part@) == t && m@.lt(q) {
            // 0 <= m < q
            assert(m@.n >= 0) by (nonlinear_arith)
                requires !(m@.n * 1 < 0 * m@.d), m@.d > 0;
            assert(q.n > 0) by (nonlinear_arith)
                requires m@.n * q.d < q.n * m@.d, m@.n >= 0, q.d > 0, m@.d > 0;
        }
    }
}

impl Recipe {
    /// The largest belt flow and the largest pipe flow among the recipe's
    /// ingredients.
    pub fn max_outputs(&self) -> (r: (Rate, Rate))
        requires
            self.wf(),
        ensures
            r.0 == max_flow(self.ingredients_seq(), Transport::Belt),
            r.1 == max_flow(self.ingredients_seq(), Transport::Pipe),
    {
        let ings = self.ingredients();
        let mut belt = Rate { num: 0, den: 1 };
        let mut pipe = Rate { num: 0, den: 1 };
        let mut k: usize = 0;
        while k < ings.len()
            invariant
                k <= ings.len(),
                ings@ == self.ingredients_seq(),
                crate::ingredient::all_wf(ings@),
                belt == max_flow(ings@.subrange(0, k as int), Transport::Belt),
                pipe == max_flow(ings@.subrange(0, k as int), Transport::Pipe),
            decreases ings.len() - k,
        {
            let ghost pre = ings@.subrange(0, k as int);
            assert(ings@.subrange(0, k + 1).drop_last() =~= pre);
            proof {
                lemma_max_flow_wf(pre, Transport::Belt);
                lemma_max_flow_wf(pre, Transport::Pipe);
                assert(ings@[k as int].wf());
            }
            let i = &ings[k];
            match i.transport() {
                Transport::Belt => {
                    if belt.lt(&i.quantity) {
                        belt = i.quantity;
                    }
                },
                Transport::Pipe => {
                    if pipe.lt(&i.quantity) {
                        pipe = i.quantity;
                    }
                },
            }
            k = k + 1;
        }
        assert(ings@.subrange(0, ings@.len() as int) =~= ings@);
        (belt, pipe)
    }
}

} // verus!

verus! {

/// The tolerance within which a machine count counts as whole: 1/10000.
pub open spec fn tol() -> Frac {
    Frac { n: 1, d: 10000 }
}

/// `x` lies within the tolerance of the whole number `k`.
pub open spec fn near(x: Frac, k: int) -> bool {
    Frac::of_int(k).sub(tol()).le(x) && x.le(Frac::of_int(k).add(tol()))
}

/// `x` lies within the tolerance of some whole number.
pub open spec fn near_whole(x: Frac) -> bool {
    exists|k: int| #[trigger] near(x, k)
}

/// The count `nb` and clock `c` for a need of `x` blueprint instances:
/// `x` itself at full clock when `x` lies within the tolerance of a whole
/// number; else the whole number just above `x`, run at `x / nb`.
pub open spec fn sizing_rule(x: Frac, nb: Rate, c: Frac) -> bool {
    if near_whole(x) {
        nb@.eqv(x) && c == Frac::of_int(1)
    } else {
        &&& nb.den == 1
        &&& nb.num >= 1
        &&& x.le(Frac::of_int(nb.num as int))
        &&& Frac::of_int(nb.num - 1).lt(x)
        &&& c.eqv(x.div(Frac::of_int(nb.num as int)))
    }
}

/// A value between `fl` and `fl + 1` can lie near no other whole number.
proof fn lemma_near_only(x: Frac, fl: int)
    requires
        x.d > 0,
        fl * x.d <= x.n < (fl + 1) * x.d,
    ensures
        forall|k: int| #[trigger] near(x, k) ==> k == fl || k == fl + 1,
{
    assert forall|k: int| #[trigger] near(x, k) implies k == fl || k == fl + 1 by {
        assert((k * 10000 + (-1) * 1) * x.d <= x.n * (1 * 10000));
        assert(x.n * (1 * 10000) <= (k * 10000 + 1 * 1) * x.d);
        if k <= fl - 1 {
            assert(false) by (nonlinear_arith)
                requires
                    k <= fl - 1,
                    x.d > 0,
                    fl * x.d <= x.n,
                    x.n * (1 * 10000) <= (k * 10000 + 1 * 1) * x.d,
            ;
        }
        if k >= fl + 2 {
            assert(false) by (nonlinear_arith)
                requires
                    k >= fl + 2,
                    x.d > 0,
                    x.n < (fl + 1) * x.d,
                    (k * 10000 + (-1) * 1) * x.d <= x.n * (1 * 10000),
            ;
        }
    }
}

proof fn lemma_near_congr(x: Frac, y: Frac, k: int)
    requires
        x.wf(),
        y.wf(),
        x.eqv(y),
    ensures
        near(x, k) == near(y, k),
{
    let lo = Frac::of_int(k).sub(tol());
    let hi = Frac::of_int(k).add(tol());
    lemma_wf_ops(Frac::of_int(k), tol());
    crate::rate::lemma_eqv_refl(lo);
    crate::rate::lemma_eqv_refl(hi);
    lemma_cmp_congr(lo, lo, x, y);
    lemma_cmp_congr(x, y, hi, hi);
}

/// The rule holds of a value if it holds of an equal one.
proof fn lemma_sizing_congr(x: Frac, y: Frac, nb: Rate, c: Frac)
    requires
        x.wf(),
        y.wf(),
        c.wf(),
        x.eqv(y),
        sizing_rule(x, nb, c),
    ensures
        sizing_rule(y, nb, c),
{
    if near_whole(x) {
        let k = choose|k: int| #[trigger] near(x, k);
        lemma_near_congr(x, y, k);
        assert(near(y, k));
        lemma_eqv_trans(nb@, x, y);
    } else {
        assert forall|k: int| !#[trigger] near(y, k) by {
            lemma_near_congr(x, y, k);
        }
        let k = nb.num as int;
        crate::rate::lemma_eqv_refl(Frac::of_int(k));
        crate::rate::lemma_eqv_refl(Frac::of_int(k - 1));
        lemma_cmp_congr(x, y, Frac::of_int(k), Frac::of_int(k));
        lemma_cmp_congr(Frac::of_int(k - 1), Frac::of_int(k - 1), x, y);
        lemma_div_congr(x, y, Frac::of_int(k));
        lemma_wf_ops(x, Frac::of_int(k));
        lemma_eqv_trans(c, x.div(Frac::of_int(k)), y.div(Frac::of_int(k)));
    }
}

/// The count at its clock carries the whole need.
proof fn lemma_sizing_throughput(x: Frac, nb: Rate, c: Frac)
    requires
        x.wf(),
        nb.wf(),
        c.wf(),
        sizing_rule(x, nb, c),
    ensures
        nb@.mul(c).eqv(x),
{
    if near_whole(x) {
        assert(nb@.mul(c).eqv(nb@)) by (nonlinear_arith)
            requires c == Frac::of_int(1);
        lemma_wf_ops(nb@, c);
        lemma_eqv_trans(nb@.mul(c), nb@, x);
    } else {
        let k = Frac::of_int(nb.num as int);
        assert(nb@ == k);
        crate::rate::lemma_eqv_refl(k);
        crate::rate::lemma_mul_congr(k, k, c, x.div(k));
        assert(k.mul(x.div(k)) == x.div(k).mul(k)) by {
            assert(k.n * x.div(k).n == x.div(k).n * k.n) by (nonlinear_arith);
            assert(k.d * x.div(k).d == x.div(k).d * k.d) by (nonlinear_arith);
        }
        crate::rate::lemma_div_mul_cancel(x, k);
        lemma_wf_ops(x, k);
        lemma_wf_ops(k, x.div(k));
        lemma_eqv_trans(k.mul(c), k.mul(x.div(k)), x);
    }
}

/// Whether `x` lies within the tolerance of `k`; `None` when the bounds do
/// not fit a rate.
fn is_near(x: &Rate, k: i64) -> (r: Option<bool>)
    requires
        x.wf(),
        k >= 0,
    ensures
        (r is Some) ==> r->0 == near(x@, k as int),
        10000 * (k as int) + 1 <= RATE_LIMIT ==> (r is Some),
{
    let kr = Rate::from_int(k);
    let t = Rate { num: 1, den: 10000 };
    let lo = match kr.sub(&t) {
        Some(v) => v,
        None => {
            return None;
        },
    };
    let hi = match kr.add(&t) {
        Some(v) => v,
        None => {
            return None;
        },
    };
    proof {
        lemma_wf_ops(kr@, t@);
        crate::rate::lemma_eqv_refl(x@);
        lemma_cmp_congr(lo@, kr@.sub(t@), x@, x@);
        lemma_cmp_congr(x@, x@, hi@, kr@.add(t@));
        // t is 1/10000 in some form; the bounds do not depend on which
        crate::rate::lemma_eqv_refl(kr@);
        crate::rate::lemma_neg_congr(t@, tol());
        crate::rate::lemma_add_congr(kr@, kr@, t@.neg(), tol().neg());
        crate::rate::lemma_add_congr(kr@, kr@, t@, tol());
        lemma_wf_ops(kr@, tol());
        lemma_cmp_congr(kr@.sub(t@), Frac::of_int(k as int).sub(tol()), x@, x@);
        lemma_cmp_congr(x@, x@, kr@.add(t@), Frac::of_int(k as int).add(tol()));
    }
    Some(lo.le(x) && x.le(&hi))
}

/// Splits a positive need of `x` blueprint instances into a count and a
/// clock; `None` when a bound does not fit a rate.
fn round_boxes(x: &Rate) -> (r: Option<(Rate, Rate)>)
    requires
        x.wf(),
        x@.is_pos(),
    ensures
        (r is Some) ==> {
            let (k, c) = r->0;
            &&& k.wf() && c.wf()
            &&& sizing_rule(x@, k, c@)
            &&& c@.is_pos()
            &&& c@.le(Frac::of_int(1))
            &&& k@.is_pos()
            &&& k.den <= x.den
            &&& k.num <= x.num + 1
        },
        10000 * (x.num + 1) + 1 <= RATE_LIMIT && x.den * (x.num + 1) <= RATE_LIMIT ==> (r is Some),
{
    let fl: i64 = x.num / x.den;
    proof {
        vstd::arithmetic::div_mod::lemma_fundamental_div_mod(x.num as int, x.den as int);
        vstd::arithmetic::div_mod::lemma_mod_bound(x.num as int, x.den as int);
        vstd::arithmetic::div_mod::lemma_div_pos_is_pos(x.num as int, x.den as int);
        assert(fl * x.den <= x.num < (fl + 1) * x.den) by (nonlinear_arith)
            requires
                x.num == x.den * fl + x.num % x.den,
                0 <= x.num % x.den < x.den,
        ;
        assert(fl <= x.num) by (nonlinear_arith)
            requires fl * x.den <= x.num, x.den >= 1, fl >= 0;
        crate::rate::lemma_eqv_refl(x@);
    }
    let one = Rate::from_int(1);
    match is_near(x, fl) {
        None => {
            return None;
        },
        Some(b) => {
            if b {
                assert(near(x@, fl as int));
                return Some((*x, one));
            }
        },
    }
    if fl >= 0x7fff_ffff_ffff_fffe {
        return None;
    }
    let ce: i64 = fl + 1;
    proof {
        // x is not the whole number fl, so it lies strictly above it
        if fl * x.den == x.num {
            assert(near(x@, fl as int)) by {
                assert(Frac::of_int(fl as int).sub(tol()).le(x@)) by (nonlinear_arith)
                    requires fl * x.den == x.num, x.den > 0;
                assert(x@.le(Frac::of_int(fl as int).add(tol()))) by (nonlinear_arith)
                    requires fl * x.den == x.num, x.den > 0;
            }
        }
        assert(fl * x.den < x.num);
        if 10000 * (x.num + 1) + 1 <= RATE_LIMIT && x.den * (x.num + 1) <= RATE_LIMIT {
            crate::rate::lemma_mul_mono(ce as int, x.num + 1, x.den as int);
            assert(x@.div(Frac::of_int(ce as int)).fits()) by {
                assert(x@.div(Frac::of_int(ce as int)).d == x.den * ce);
                assert(x@.div(Frac::of_int(ce as int)).n == x.num * 1);
                assert(x.den * ce > 0) by (nonlinear_arith)
                    requires x.den > 0, ce > 0;
            }
        }
    }
    match is_near(x, ce) {
        None => None,
        Some(true) => {
            assert(near(x@, ce as int));
            Some((*x, one))
        },
        Some(false) => {
            proof {
                lemma_near_only(x@, fl as int);
                assert(!near_whole(x@));
            }
            let kr = Rate::from_int(ce);
            match x.div(&kr) {
                None => None,
                Some(c) => {
                    proof {
                        let q = x@.div(kr@);
                        assert(q.n > 0 && q.d > 0) by (nonlinear_arith)
                            requires q.n == x.num * 1, q.d == x.den * ce, x.num > 0, x.den > 0, ce > 0;
                        lemma_eqv_pos(c@, q);
                        assert(q.le(Frac::of_int(1))) by (nonlinear_arith)
                            requires q.n == x.num * 1, q.d == x.den * ce, x.num < ce * x.den;
                        crate::rate::lemma_eqv_refl(Frac::of_int(1));
                        lemma_cmp_congr(c@, q, Frac::of_int(1), Frac::of_int(1));
                    }
                    Some((kr, c))
                },
            }
        },
    }
}

/// The machine plan for one recipe: whether belts and pipes are used, how
/// many recipe instances one belt or pipe feeds, how many blueprint
/// instances of `pref_mult` machines to build, at what clock, and the power
/// all of them draw at full clock.
#[derive(Debug)]
pub struct BlueprintSuggestion {
    pub use_belt: bool,
    pub use_pipe: bool,
    pub m_per_belt: Option<Rate>,
    pub m_per_pipe: Option<Rate>,
    pub n_boxes: Rate,
    pub pref_mult: Rate,
    pub clock: Rate,
    pub base_power_mw: i64,
    pub full_clock_power_mw: Rate,
}

/// The least flow that counts as carried: 1/100000.
pub open spec fn carry_threshold() -> Frac {
    Frac { n: 1, d: 100000 }
}

pub open spec fn min_frac(a: Frac, b: Frac) -> Frac {
    if a.le(b) {
        a
    } else {
        b
    }
}

/// The numbers of a sizing fit a rate: recipe instances per belt and per
/// pipe, blueprint instances needed (`x`), the tolerance bounds around the
/// count (at most `x + 1`), the clock, and the power at full clock.
pub open spec fn sizing_fits(st: State, r: Recipe, pref: Rate, base: int) -> bool {
    let mb = max_flow(r.ingredients_seq(), Transport::Belt)@;
    let mp = max_flow(r.ingredients_seq(), Transport::Pipe)@;
    let x = r.transport_limit(st).div(pref@);
    &&& mb.is_pos() ==> st.belt_ipm@.div(mb).fits()
    &&& mp.is_pos() ==> st.pipe_ipm@.div(mp).fits()
    &&& x.fits()
    &&& 10000 * (x.n + 1) + 1 <= RATE_LIMIT
    &&& x.d * (x.n + 1) <= RATE_LIMIT
    &&& abs((x.n + 1) * pref.num) <= RATE_LIMIT
    &&& x.d * pref.den <= RATE_LIMIT
    &&& abs((x.n + 1) * pref.num * base) <= RATE_LIMIT
}

impl Recipe {
    /// Recipe instances per belt and per pipe, and the binding one of the two.
    pub open spec fn transport_limit(&self, st: State) -> Frac {
        let mb = max_flow(self.ingredients_seq(), Transport::Belt)@;
        let mp = max_flow(self.ingredients_seq(), Transport::Pipe)@;
        let ub = carry_threshold().le(mb);
        let up = carry_threshold().le(mp);
        if ub && up {
            min_frac(st.belt_ipm@.div(mb), st.pipe_ipm@.div(mp))
        } else if ub {
            st.belt_ipm@.div(mb)
        } else {
            st.pipe_ipm@.div(mp)
        }
    }
}

} // verus!

verus! {

proof fn lemma_div_pos(a: Frac, b: Frac)
    requires
        a.wf(),
        b.wf(),
        a.is_pos(),
        b.is_pos(),
    ensures
        a.div(b).is_pos(),
        a.div(b).wf(),
{
    assert(a.n * b.d > 0) by (nonlinear_arith)
        requires a.n > 0, b.d > 0;
    lemma_wf_ops(a, b);
}

proof fn lemma_pref_positive(st: State, b: Seq<char>)
    requires
        st.wf(),
        pref_of(st, b) is Some,
    ensures
        positive(pref_of(st, b)->0),
{
}

impl Recipe {
    /// Sizes a blueprint for this recipe: the binding transport sets how
    /// many recipe instances are needed, which is divided into blueprint
    /// instances of the building's preferred multiple, rounded up to a
    /// whole number and under-clocked so that the throughput is kept.
    pub fn suggest_blueprint(&self, state: &State) -> (r: Result<BlueprintSuggestion, PlanError>)
        requires
            self.wf(),
            state.wf(),
        ensures
            ({
                let mb = max_flow(self.ingredients_seq(), Transport::Belt)@;
                let mp = max_flow(self.ingredients_seq(), Transport::Pipe)@;
                let ub = carry_threshold().le(mb);
                let up = carry_threshold().le(mp);
                let pref = pref_of(*state, self.building@);
                let base = base_power_of(self.building@);
                let x = self.transport_limit(*state).div(pref->0@);
                &&& pref is None ==> r == Err::<BlueprintSuggestion, PlanError>(
                    PlanError::UnknownBuilding { building: self.building },
                )
                &&& pref is Some && base is None ==> r == Err::<BlueprintSuggestion, PlanError>(
                    PlanError::NoBasePower { building: self.building },
                )
                &&& pref is Some && base is Some && !ub && !up ==> r == Err::<
                    BlueprintSuggestion,
                    PlanError,
                >(PlanError::NothingToTransport)
                &&& (ub || up) && pref is Some && base is Some && sizing_fits(
                    *state,
                    *self,
                    pref->0,
                    base->0 as int,
                ) ==> r is Ok
                &&& r is Err ==> {
                    ||| r->Err_0 == PlanError::Overflow && (ub || up) && pref is Some && base is Some
                        && !sizing_fits(*state, *self, pref->0, base->0 as int)
                    ||| r->Err_0 == PlanError::NothingToTransport && !ub && !up && pref is Some
                        && base is Some
                    ||| r->Err_0 == (PlanError::UnknownBuilding { building: self.building })
                        && pref is None
                    ||| r->Err_0 == (PlanError::NoBasePower { building: self.building })
                        && pref is Some && base is None
                }
                &&& r is Ok ==> {
                    let bp = r->Ok_0;
                    &&& bp.use_belt == ub
                    &&& bp.use_pipe == up
                    &&& (bp.m_per_belt is Some) == mb.is_pos()
                    &&& mb.is_pos() ==> bp.m_per_belt->0@.eqv(state.belt_ipm@.div(mb))
                    &&& (bp.m_per_pipe is Some) == mp.is_pos()
                    &&& mp.is_pos() ==> bp.m_per_pipe->0@.eqv(state.pipe_ipm@.div(mp))
                    &&& pref == Some(bp.pref_mult)
                    &&& bp.n_boxes.wf() && bp.clock.wf()
                    &&& sizing_rule(x, bp.n_boxes, bp.clock@)
                    &&& bp.n_boxes@.mul(bp.pref_mult@).mul(bp.clock@).eqv(
                        self.transport_limit(*state),
                    )
                    &&& bp.clock@.is_pos()
                    &&& bp.clock@.le(Frac::of_int(1))
                    &&& base == Some(bp.base_power_mw)
                    &&& bp.full_clock_power_mw@.eqv(
                        bp.n_boxes@.mul(bp.pref_mult@).mul(Frac::of_int(bp.base_power_mw as int)),
                    )
                }
            }),
    {
        let ghost ings = self.ingredients_seq();
        let (mb, mp) = self.max_outputs();
        proof {
            lemma_max_flow_wf(ings, Transport::Belt);
            lemma_max_flow_wf(ings, Transport::Pipe);
        }
        let th = Rate { num: 1, den: 100000 };
        let use_belt = th.le(&mb);
        let use_pipe = th.le(&mp);
        let pref = match state.prefered_building_multiple(self.building.as_str()) {
            Some(p) => p,
            None => {
                return Err(PlanError::UnknownBuilding { building: self.building.clone() });
            },
        };
        proof {
            lemma_pref_positive(*state, self.building@);
        }
        let base = match base_power_mw(self.building.as_str()) {
            Some(b) => b,
            None => {
                return Err(PlanError::NoBasePower { building: self.building.clone() });
            },
        };
        if !use_belt && !use_pipe {
            return Err(PlanError::NothingToTransport);
        }
        proof {
            if use_belt {
                assert(mb.num > 0) by (nonlinear_arith)
                    requires 1 * mb.den <= mb.num * 100000, mb.den > 0;
            }
            if use_pipe {
                assert(mp.num > 0) by (nonlinear_arith)
                    requires 1 * mp.den <= mp.num * 100000, mp.den > 0;
            }
        }
        let ghost fits = sizing_fits(*state, *self, pref, base as int);
        let m_per_belt = if mb.num > 0 {
            match state.belt_ipm.div(&mb) {
                Some(v) => Some(v),
                None => {
                    return Err(PlanError::Overflow);
                },
            }
        } else {
            None
        };
        let m_per_pipe = if mp.num > 0 {
            match state.pipe_ipm.div(&mp) {
                Some(v) => Some(v),
                None => {
                    return Err(PlanError::Overflow);
                },
            }
        } else {
            None
        };
        let ghost lim = self.transport_limit(*state);
        let m = match (m_per_belt, m_per_pipe) {
            (Some(a), Some(b)) => {
                proof {
                    lemma_div_pos(state.belt_ipm@, mb@);
                    lemma_div_pos(state.pipe_ipm@, mp@);
                    lemma_cmp_congr(a@, state.belt_ipm@.div(mb@), b@, state.pipe_ipm@.div(mp@));
                }
                if use_belt && use_pipe {
                    if a.le(&b) {
                        a
                    } else {
                        b
                    }
                } else if use_belt {
                    a
                } else {
                    b
                }
            },
            (Some(a), None) => {
                if !use_belt {
                    return Err(PlanError::NothingToTransport);
                }
                a
            },
            (None, Some(b)) => {
                if !use_pipe {
                    return Err(PlanError::NothingToTransport);
                }
                b
            },
            (None, None) => {
                return Err(PlanError::NothingToTransport);
            },
        };
        proof {
            if use_belt {
                lemma_div_pos(state.belt_ipm@, mb@);
            }
            if use_pipe {
                lemma_div_pos(state.pipe_ipm@, mp@);
            }
            assert(m@.eqv(lim));
            assert(lim.wf() && lim.is_pos());
            lemma_eqv_pos(m@, lim);
            assert(bounded_by(m, lim));
            if fits {
                lemma_pref_positive(*state, self.building@);
                lemma_div_fits_mono(m@, lim, pref@);
            }
        }
        let n = match m.div(&pref) {
            Some(v) => v,
            None => {
                return Err(PlanError::Overflow);
            },
        };
        let ghost x = lim.div(pref@);
        proof {
            // n is no larger in its parts than x
            lemma_abs_mul(m.num as int, pref.den as int);
            lemma_abs_mul(lim.n, pref.den as int);
            lemma_mul_mono(abs(m.num as int), abs(lim.n), pref.den as int);
            lemma_mul_mono(m.den as int, lim.d, pref.num as int);
            assert(bounded_by(n, x));
            lemma_div_congr(m@, lim, pref@);
            lemma_div_pos(m@, pref@);
            lemma_div_pos(lim, pref@);
            lemma_eqv_trans(n@, m@.div(pref@), x);
            lemma_eqv_pos(n@, m@.div(pref@));
            if fits {
                assert(x.n > 0) by (nonlinear_arith)
                    requires x.n == lim.n * pref.den, lim.n > 0, pref.den > 0;
                lemma_mul_mono(n.den as int, x.d, n.num + 1);
                lemma_mul_mono(n.num + 1, x.n + 1, x.d);
                assert(x.d * (n.num + 1) == (n.num + 1) * x.d) by (nonlinear_arith);
            }
        }
        let (k, c) = match round_boxes(&n) {
            Some(kc) => kc,
            None => {
                return Err(PlanError::Overflow);
            },
        };
        proof {
            lemma_sizing_congr(n@, x, k, c@);
            if fits {
                // k * pref and then * base fit
                lemma_abs_mul(k.num as int, pref.num as int);
                lemma_abs_mul(x.n + 1, pref.num as int);
                lemma_mul_mono(k.num as int, x.n + 1, abs(pref.num as int));
                lemma_mul_mono(k.den as int, x.d, pref.den as int);
                assert(k.den * pref.den > 0) by (nonlinear_arith)
                    requires k.den > 0, pref.den > 0;
                assert(k@.mul(pref@).fits());
            }
        }
        let km = match k.mul(&pref) {
            Some(v) => v,
            None => {
                return Err(PlanError::Overflow);
            },
        };
        proof {
            if fits {
                lemma_abs_mul(km.num as int, base as int);
                lemma_abs_mul((x.n + 1) * pref.num, base as int);
                lemma_mul_mono(abs(km.num as int), abs((x.n + 1) * pref.num), abs(base as int));
                assert(km@.mul(Frac::of_int(base as int)).fits());
            }
        }
        let power = match km.mul(&Rate::from_int(base)) {
            Some(v) => v,
            None => {
                return Err(PlanError::Overflow);
            },
        };
        proof {
            crate::rate::lemma_eqv_refl(Frac::of_int(base as int));
            crate::rate::lemma_mul_congr(km@, k@.mul(pref@), Frac::of_int(base as int), Frac::of_int(base as int));
            lemma_wf_ops(km@, Frac::of_int(base as int));
            lemma_eqv_trans(power@, km@.mul(Frac::of_int(base as int)), k@.mul(pref@).mul(Frac::of_int(base as int)));
            // the count times the multiple at the clock carries what the transport can
            lemma_sizing_throughput(x, k, c@);
            let kc = k@.mul(c@);
            assert(k@.mul(pref@).mul(c@) == kc.mul(pref@)) by {
                assert(k.num * pref.num * c.num == k.num * c.num * pref.num) by (nonlinear_arith);
                assert(k.den * pref.den * c.den == k.den * c.den * pref.den) by (nonlinear_arith);
            }
            crate::rate::lemma_eqv_refl(pref@);
            crate::rate::lemma_mul_congr(kc, x, pref@, pref@);
            crate::rate::lemma_div_mul_cancel(lim, pref@);
            lemma_wf_ops(x, pref@);
            lemma_eqv_trans(kc.mul(pref@), x.mul(pref@), lim);
        }
        Ok(
            BlueprintSuggestion {
                use_belt,
                use_pipe,
                m_per_belt,
                m_per_pipe,
                n_boxes: k,
                pref_mult: pref,
                clock: c,
                base_power_mw: base,
                full_clock_power_mw: power,
            },
        )
    }
}

} // verus!

verus! {

/// The base power draw of a building, in MW, provided `clock` lies in the
/// domain (0, 2.5) of the power curve. The draw at that clock is the base
/// times clock^1.321928 (the exponent is log2 of 2.5), a floating-point
/// step left to the caller.
pub fn power_base_mw(building: &str, clock: &Rate) -> (r: Result<i64, PlanError>)
    requires
        clock.wf(),
    ensures
        base_power_of(building@) is None ==> r is Err && (r->Err_0 matches PlanError::NoBasePower {
            building: b,
        } && b@ == building@),
        base_power_of(building@) is Some && !(clock@.is_pos() && clock@.lt(Frac { n: 5, d: 2 }))
            ==> r == Err::<i64, PlanError>(PlanError::ClockOutOfRange),
        base_power_of(building@) is Some && clock@.is_pos() && clock@.lt(Frac { n: 5, d: 2 })
            ==> r == Ok::<i64, PlanError>(base_power_of(building@)->0),
{
    let base = match base_power_mw(building) {
        Some(b) => b,
        None => {
            return Err(PlanError::NoBasePower { building: String::from_str(building) });
        },
    };
    if !clock.is_positive() {
        return Err(PlanError::ClockOutOfRange);
    }
    if !clock.lt(&Rate { num: 5, den: 2 }) {
        return Err(PlanError::ClockOutOfRange);
    }
    Ok(base)
}

} // verus!
