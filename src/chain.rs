//! Chain state: named groups, the current one, and the allocation of
//! recipes against a group's balance.

use vstd::prelude::*;
use crate::error::PlanError;
use crate::ingredient::{all_wf, position, Flow, Ingredient};
use crate::ledger::{
    is_ledger,
    allocated_flows, den_bound, flows_fit, flows_wf, lemma_total_wf, num_bound, parts_in_order,
    recipe_flows, total, Group,
};
use crate::rate::{
    abs, lemma_div_fits_mono, lemma_mul_fits_mono, lemma_add_congr, lemma_add_zero, lemma_div_congr, lemma_div_mul_cancel, lemma_eqv_pos,
    lemma_eqv_trans, lemma_mul_congr, lemma_neg_congr, lemma_wf_ops, Frac, Rate,
};
use crate::recipe::Recipe;
use crate::text::str_eq;

verus! {

/// Index of the first group named `name`, or -1.
pub open spec fn group_position(gs: Seq<Group>, name: Seq<char>) -> int
    decreases gs.len(),
{
    if gs.len() == 0 {
        -1
    } else if group_position(gs.drop_last(), name) >= 0 {
        group_position(gs.drop_last(), name)
    } else if gs.last().name@ == name {
        gs.len() - 1
    } else {
        -1
    }
}

proof fn lemma_group_position(gs: Seq<Group>, name: Seq<char>, i: int)
    requires
        0 <= i <= gs.len(),
        i == gs.len() || gs[i].name@ == name,
        forall|k: int| 0 <= k < i ==> gs[k].name@ != name,
    ensures
        group_position(gs, name) == (if i == gs.len() { -1 } else { i }),
    decreases gs.len(),
{
    if gs.len() > 0 {
        if i < gs.len() - 1 {
            lemma_group_position(gs.drop_last(), name, i);
        } else {
            lemma_group_position(gs.drop_last(), name, gs.len() - 1);
        }
    }
}

/// `after` has group `name` current, made empty where `before` had no
/// group of that name; every group that was there stays as it was.
pub open spec fn group_set(before: ChainState, after: ChainState, name: Seq<char>) -> bool {
    &&& after.current_group matches Some(c) && c@ == name
    &&& group_position(before.groups@, name) >= 0 ==> after.groups@ == before.groups@
    &&& group_position(before.groups@, name) < 0 ==> {
        &&& after.groups@.len() == before.groups@.len() + 1
        &&& after.groups@.drop_last() == before.groups@
        &&& after.groups@.last().name@ == name
        &&& after.groups@.last().inputs@.len() == 0
        &&& after.groups@.last().outputs@.len() == 0
        &&& after.groups@.last().recipes@.len() == 0
    }
}

/// The groups of one chain and the group that directives act on.
#[derive(Debug)]
pub struct ChainState {
    pub groups: Vec<Group>,
    pub current_group: Option<String>,
}

impl ChainState {
    pub open spec fn wf(&self) -> bool {
        &&& forall|k: int| 0 <= k < self.groups@.len() ==> (#[trigger] self.groups@[k]).wf()
        &&& forall|i: int, j: int|
            0 <= i < j < self.groups@.len() ==> (#[trigger] self.groups@[i]).name@ != (
            #[trigger] self.groups@[j]).name@
        &&& self.current_group matches Some(c) ==> group_position(self.groups@, c@) >= 0
    }

    /// Index of the current group, or -1 when there is none.
    pub open spec fn current_index(&self) -> int {
        match self.current_group {
            Some(c) => group_position(self.groups@, c@),
            None => -1,
        }
    }

    /// No groups, no current group.
    pub fn new() -> (r: ChainState)
        ensures
            r.wf(),
            r.groups@.len() == 0,
            r.current_group is None,
    {
        ChainState { groups: Vec::new(), current_group: None }
    }

    /// Makes `group` the current group, creating it empty if no group has
    /// that name; an existing group keeps what it holds.
    pub fn set_or_make_group(&mut self, group: &str)
        requires
            old(self).wf(),
        ensures
            final(self).wf(),
            group_set(*old(self), *final(self), group@),
    {
        let mut i: usize = 0;
        while i < self.groups.len()
            invariant
                i <= self.groups.len(),
                self.groups@ == old(self).groups@,
                old(self).wf(),
                forall|k: int| 0 <= k < i ==> self.groups@[k].name@ != group@,
            decreases self.groups.len() - i,
        {
            if str_eq(self.groups[i].name.as_str(), group) {
                proof {
                    lemma_group_position(self.groups@, group@, i as int);
                }
                let name = String::from_str(group);
                self.current_group = Some(name);
                assert(group_position(self.groups@, name@) >= 0);
                return;
            }
            i = i + 1;
        }
        proof {
            lemma_group_position(self.groups@, group@, self.groups@.len() as int);
        }
        self.groups.push(Group::new(String::from_str(group)));
        self.current_group = Some(String::from_str(group));
        proof {
            assert(self.groups@.drop_last() == old(self).groups@);
            let n = old(self).groups@.len() as int;
            assert forall|k: int| 0 <= k < n implies self.groups@[k].name@ != group@ by {
                assert(self.groups@[k] == old(self).groups@[k]);
            }
            lemma_group_position(self.groups@, group@, n);
            assert forall|k: int| 0 <= k < self.groups@.len() implies (
            #[trigger] self.groups@[k]).wf() by {
                if k < n {
                    assert(self.groups@[k] == old(self).groups@[k]);
                }
            }
            assert forall|c: String| old(self).current_group == Some(c) implies group_position(
                old(self).groups@,
                c@,
            ) >= 0 by {}
        }
    }

    /// The current group, for editing.
    pub fn group(&mut self) -> (r: &mut Group)
        requires
            old(self).wf(),
            old(self).current_group is Some,
        ensures
            *r == old(self).groups@[old(self).current_index()],
            final(self).groups@ == old(self).groups@.update(old(self).current_index(), *final(r)),
            final(self).current_group == old(self).current_group,
    {
        let j = self.current_position();
        &mut self.groups[j]
    }

    pub(crate) fn current_position(&self) -> (j: usize)
        requires
            self.wf(),
            self.current_group is Some,
        ensures
            j == self.current_index(),
            j < self.groups@.len(),
    {
        let name = match &self.current_group {
            Some(c) => c,
            None => {
                assert(false);
                return 0;
            },
        };
        let mut i: usize = 0;
        while i < self.groups.len()
            invariant
                self.wf(),
                self.current_group == Some(*name),
                i <= self.groups.len(),
                forall|k: int| 0 <= k < i ==> self.groups@[k].name@ != name@,
            decreases self.groups.len() - i,
        {
            if str_eq(self.groups[i].name.as_str(), name.as_str()) {
                proof {
                    lemma_group_position(self.groups@, name@, i as int);
                }
                return i;
            }
            i = i + 1;
        }
        proof {
            lemma_group_position(self.groups@, name@, self.groups@.len() as int);
        }
        0
    }
}

} // verus!

verus! {

/// `after` is `before` with `recipe` allocated at the scale that consumes
/// the fraction `f` of the balance of material `p`: the recipe's first
/// input of `p` times the scale is `f` times that balance.
pub open spec fn allocated(before: Group, after: Group, p: Seq<char>, recipe: Recipe, f: Frac) -> bool {
    let q = total(before.contributions(), p);
    let m = position(recipe.inputs_seq(), p);
    &&& m >= 0
    &&& after.name == before.name
    &&& after.inputs == before.inputs
    &&& after.outputs == before.outputs
    &&& after.recipes@.len() == before.recipes@.len() + 1
    &&& after.recipes@.drop_last() == before.recipes@
    &&& after.recipes@.last().1 == recipe
    &&& after.recipes@.last().0@.eqv(q.mul(f).div(recipe.inputs_seq()[m].quantity@))
}

/// The first input of material `p` is the recipe's only ingredient of `p`.
pub open spec fn sole_use(recipe: Recipe, p: Seq<char>) -> bool {
    let m = position(recipe.inputs_seq(), p);
    &&& m >= 0
    &&& forall|k: int|
        0 <= k < recipe.inputs_seq().len() && k != m ==> (#[trigger] recipe.inputs_seq()[k]).part@
            != p
    &&& forall|k: int|
        0 <= k < recipe.outputs_seq().len() ==> (#[trigger] recipe.outputs_seq()[k]).part@ != p
}

/// The numbers of an allocation fit a rate: the group's flows over a
/// common denominator (which bound every balance entry, `big`), the share
/// `big × f`, and the scale `big × f ÷ r` for the recipe's input `r`.
pub open spec fn allocation_fits(cs: Seq<Flow>, f: Frac, r: Frac) -> bool {
    let big = Frac { n: num_bound(0, 1, cs), d: den_bound(1, cs) };
    &&& flows_fit(cs)
    &&& big.mul(f).fits()
    &&& big.mul(f).div(r).fits()
}

/// What allocating `recipe` for the fraction `f` of the ingredient's balance
/// does to a chain state, and when it fails.
pub open spec fn recipe_added(
    before: ChainState,
    after: ChainState,
    ingredient: Ingredient,
    recipe: Recipe,
    f: Frac,
    r: Result<(), PlanError>,
) -> bool {
    &&& r is Err ==> after == before
    &&& before.current_group is None ==> r == Err::<(), PlanError>(PlanError::NoCurrentGroup)
    &&& before.current_group is Some ==> {
        let j = before.current_index();
        let g = before.groups@[j];
        let cs = g.contributions();
        let p = ingredient.part@;
        let q = total(cs, p);
        let m = position(recipe.inputs_seq(), p);
        &&& r is Ok ==> {
            &&& after.current_group == before.current_group
            &&& after.groups@.len() == before.groups@.len()
            &&& forall|k: int|
                0 <= k < before.groups@.len() && k != j ==> after.groups@[k] == before.groups@[k]
            &&& allocated(g, after.groups@[j], p, recipe, f)
        }
        &&& !parts_in_order(cs).contains(p) ==> r is Err
        &&& !q.is_pos() ==> r is Err
        &&& m < 0 ==> r is Err
        &&& parts_in_order(cs).contains(p) && q.is_pos() && m >= 0
            && !recipe.inputs_seq()[m].quantity@.is_zero() && allocation_fits(cs, f, recipe.inputs_seq()[m].quantity@)
            ==> r is Ok
        &&& r is Err ==> {
            ||| r->Err_0 == PlanError::Overflow && (!flows_fit(cs) || m >= 0 && !allocation_fits(cs, f, recipe.inputs_seq()[m].quantity@))
            ||| r->Err_0 == (PlanError::NotInBalance { part: ingredient.part })
                && !parts_in_order(cs).contains(p)
            ||| r->Err_0 == (PlanError::NonPositiveBalance { part: ingredient.part })
                && parts_in_order(cs).contains(p) && !q.is_pos()
            ||| r->Err_0 == (PlanError::NotARecipeInput { query: ingredient.part, recipe: recipe.name })
                && q.is_pos() && m < 0
            ||| r->Err_0 == (PlanError::ZeroRecipeInput { part: ingredient.part, recipe: recipe.name })
                && q.is_pos() && m >= 0 && recipe.inputs_seq()[m].quantity@.is_zero()
        }
    }
}

impl ChainState {
    /// Allocates `recipe` in the current group at the scale that consumes
    /// the fraction `use_ratio` of the current balance of the ingredient's
    /// material: scale = balance × use_ratio ÷ the recipe's input of it.
    pub fn add_recipe(&mut self, ingredient: &Ingredient, recipe: &Recipe, use_ratio: &Rate) -> (r:
        Result<(), PlanError>)
        requires
            old(self).wf(),
            recipe.wf(),
            use_ratio.wf(),
        ensures
            final(self).wf(),
            recipe_added(*old(self), *final(self), *ingredient, *recipe, use_ratio@, r),
    {
        if self.current_group.is_none() {
            return Err(PlanError::NoCurrentGroup);
        }
        let j = self.current_position();
        let ghost g = self.groups@[j as int];
        let ghost cs = g.contributions();
        let ghost p = ingredient.part@;
        assert(self.groups@[j as int].wf());
        let b = match self.groups[j].balances() {
            Ok(b) => b,
            Err(e) => {
                return Err(e);
            },
        };
        // the balance entry of the material
        let k = find_part(&b, &ingredient.part);
        if k == b.len() {
            proof {
                if parts_in_order(cs).contains(p) {
                    let i = choose|i: int| 0 <= i < parts_in_order(cs).len() && parts_in_order(cs)[i] == p;
                    assert(b@[i].part@ == parts_in_order(cs)[i]);
                }
            }
            return Err(PlanError::NotInBalance { part: ingredient.part.clone() });
        }
        let q = b[k].quantity;
        proof {
            assert(b@[k as int].part@ == p);
            assert(parts_in_order(cs)[k as int] == p);
            assert(parts_in_order(cs).contains(p));
            assert(b@[k as int].wf());
            lemma_total_wf_of(g, p);
            lemma_eqv_pos(q@, total(cs, p));
        }
        if !q.is_positive() {
            return Err(PlanError::NonPositiveBalance { part: ingredient.part.clone() });
        }
        // the recipe's input of the material
        let ins = recipe.inputs();
        let m = find_part(&ins, &ingredient.part);
        if m == ins.len() {
            proof {
                crate::ingredient::lemma_position_absent(ins@, p);
            }
            return Err(
                PlanError::NotARecipeInput { query: ingredient.part.clone(), recipe: recipe.name.clone() },
            );
        }
        proof {
            crate::ingredient::lemma_position_is(ins@, p, m as int);
            assert(recipe.ingredients_seq()[m as int] == ins@[m as int]);
        }
        let in_q = ins[m].quantity;
        if in_q.num == 0 {
            return Err(
                PlanError::ZeroRecipeInput { part: ingredient.part.clone(), recipe: recipe.name.clone() },
            );
        }
        let ghost big = Frac { n: num_bound(0, 1, cs), d: den_bound(1, cs) };
        let ghost fits = allocation_fits(cs, use_ratio@, in_q@);
        proof {
            if fits {
                lemma_total_wf_of(g, p);
                crate::ledger::lemma_bound_base(0, 1, cs);
                let e = b@[k as int].quantity;
                assert(e.den <= big.d && abs(e.num as int) * big.d <= big.n * e.den);
                assert(big.n * e.den <= big.n * big.d) by (nonlinear_arith)
                    requires big.n >= 0, e.den <= big.d;
                assert(abs(e.num as int) <= big.n) by (nonlinear_arith)
                    requires abs(e.num as int) * big.d <= big.n * big.d, big.d >= 1;
                lemma_mul_fits_mono(q@, big, use_ratio@);
            }
        }
        let scaled = match q.mul(use_ratio) {
            Some(v) => v,
            None => {
                return Err(PlanError::Overflow);
            },
        };
        proof {
            if fits {
                lemma_div_fits_mono(scaled@, big.mul(use_ratio@), in_q@);
            }
        }
        let ratio = match scaled.div(&in_q) {
            Some(v) => v,
            None => {
                return Err(PlanError::Overflow);
            },
        };
        proof {
            lemma_mul_congr(q@, total(cs, p), use_ratio@, use_ratio@);
            lemma_wf_ops(q@, use_ratio@);
            lemma_eqv_trans(scaled@, q@.mul(use_ratio@), total(cs, p).mul(use_ratio@));
            lemma_div_congr(scaled@, total(cs, p).mul(use_ratio@), in_q@);
            lemma_wf_ops(scaled@, in_q@);
            lemma_eqv_trans(ratio@, scaled@.div(in_q@), total(cs, p).mul(use_ratio@).div(in_q@));
        }
        let ghost old_groups = self.groups@;
        let grp = self.group();
        grp.recipes.push((ratio, recipe.clone()));
        proof {
            let after = self.groups@[j as int];
            assert(after.recipes@.drop_last() == g.recipes@);
            assert(after.wf()) by {
                assert forall|t: int| 0 <= t < after.recipes@.len() implies (
                #[trigger] after.recipes@[t]).0.wf() && after.recipes@[t].1.wf() by {
                    if t < g.recipes@.len() {
                        assert(after.recipes@[t] == g.recipes@[t]);
                    }
                }
            }
            assert forall|t: int| 0 <= t < self.groups@.len() implies (#[trigger] self.groups@[t]).wf() by {
                if t != j {
                    assert(self.groups@[t] == old_groups[t]);
                    assert(old_groups[t].wf());
                }
            }
            let c = self.current_group->0;
            assert(group_position(self.groups@, c@) == group_position(old_groups, c@)) by {
                lemma_group_position_names(old_groups, self.groups@, c@);
            }
        }
        Ok(())
    }
}

/// Index of the first entry of material `part`, or the length.
fn find_part(v: &Vec<Ingredient>, part: &String) -> (r: usize)
    ensures
        r <= v@.len(),
        r < v@.len() ==> v@[r as int].part@ == part@,
        forall|t: int| 0 <= t < r ==> v@[t].part@ != part@,
{
    let mut k: usize = 0;
    while k < v.len()
        invariant
            k <= v.len(),
            forall|t: int| 0 <= t < k ==> v@[t].part@ != part@,
        decreases v.len() - k,
    {
        if v[k].part == *part {
            return k;
        }
        k = k + 1;
    }
    k
}

proof fn lemma_total_wf_of(g: Group, p: Seq<char>)
    requires
        g.wf(),
    ensures
        total(g.contributions(), p).wf(),
        flows_wf(g.contributions()),
{
    crate::ledger::lemma_contributions_wf(g);
    lemma_total_wf(g.contributions(), p);
}

/// Renaming nothing keeps every group where it was.
pub proof fn lemma_group_position_names(a: Seq<Group>, b: Seq<Group>, name: Seq<char>)
    requires
        a.len() == b.len(),
        forall|k: int| 0 <= k < a.len() ==> (#[trigger] a[k]).name == b[k].name,
    ensures
        group_position(a, name) == group_position(b, name),
    decreases a.len(),
{
    if a.len() > 0 {
        lemma_group_position_names(a.drop_last(), b.drop_last(), name);
    }
}

} // verus!

verus! {

/// Use-fraction law: allocating a recipe that takes material `p` as its one
/// and only ingredient of `p`, at the scale that consumes the fraction `f`
/// of `p`'s balance `q`, leaves the balance of `p` at exactly `q - f × q`.
pub proof fn lemma_use_fraction(before: Group, after: Group, p: Seq<char>, recipe: Recipe, f: Frac)
    requires
        before.wf(),
        recipe.wf(),
        f.wf(),
        after.recipes@.last().0.wf(),
        allocated(before, after, p, recipe, f),
        sole_use(recipe, p),
        !recipe.inputs_seq()[position(recipe.inputs_seq(), p)].quantity@.is_zero(),
    ensures
        ({
            let q = total(before.contributions(), p);
            total(after.contributions(), p).eqv(q.sub(q.mul(f)))
        }),
{
    let q = total(before.contributions(), p);
    let m = position(recipe.inputs_seq(), p);
    let k = after.recipes@.last().0;
    let in_q = recipe.inputs_seq()[m].quantity@;
    let outs = recipe.outputs_seq();
    let ins = recipe.inputs_seq();
    let rf = recipe_flows(k@, recipe);
    lemma_total_wf_of(before, p);
    // the new contributions are the old ones followed by the recipe's
    assert(after.recipes@ == before.recipes@.push(after.recipes@.last()));
    assert(allocated_flows(after.recipes@) == allocated_flows(before.recipes@) + rf);
    assert(after.contributions() =~= before.contributions() + rf);
    // the recipe's flows name p once, as consumption of its input
    crate::ingredient::lemma_position_range(ins, p);
    assert(rf[outs.len() + m] == (p, in_q.mul(k@).neg()));
    assert forall|t: int| 0 <= t < rf.len() && t != outs.len() + m implies (#[trigger] rf[t]).0 != p by {
        if t < outs.len() {
            assert(rf[t].0 == outs[t].part@);
        } else {
            assert(rf[t].0 == ins[t - outs.len()].part@);
        }
    }
    crate::ledger::lemma_total_single(rf, p, outs.len() + m);
    // validity of what the proof relates
    assert(all_wf(ins)) by {
        assert forall|t: int| 0 <= t < ins.len() implies (#[trigger] ins[t]).wf() by {
            assert(recipe.ingredients_seq()[t] == ins[t]);
        }
    }
    assert(ins[m].wf());
    assert(all_wf(outs)) by {
        assert forall|t: int| 0 <= t < outs.len() implies (#[trigger] outs[t]).wf() by {
            assert(recipe.ingredients_seq()[ins.len() + t] == outs[t]);
        }
    }
    assert(flows_wf(rf)) by {
        assert forall|t: int| 0 <= t < rf.len() implies (#[trigger] rf[t]).1.wf() by {
            if t < outs.len() {
                assert(outs[t].wf());
                lemma_wf_ops(outs[t].quantity@, k@);
            } else {
                assert(ins[t - outs.len()].wf());
                lemma_wf_ops(ins[t - outs.len()].quantity@, k@);
                lemma_wf_ops(ins[t - outs.len()].quantity@.mul(k@), k@);
            }
        }
    }
    lemma_wf_ops(q, f);
    lemma_wf_ops(q.mul(f), in_q);
    // in_q × k ~ q × f
    let s = q.mul(f).div(in_q);
    lemma_mul_congr(in_q, in_q, k@, s);
    assert(in_q.mul(s) == s.mul(in_q)) by {
        assert(in_q.n * s.n == s.n * in_q.n) by (nonlinear_arith);
        assert(in_q.d * s.d == s.d * in_q.d) by (nonlinear_arith);
    }
    lemma_div_mul_cancel(q.mul(f), in_q);
    lemma_wf_ops(in_q, s);
    lemma_eqv_trans(in_q.mul(k@), in_q.mul(s), q.mul(f));
    lemma_neg_congr(in_q.mul(k@), q.mul(f));
    // 0 + -(in_q × k) ~ -(q × f)
    lemma_add_zero(in_q.mul(k@).neg());
    lemma_wf_ops(in_q, k@);
    lemma_wf_ops(in_q.mul(k@), k@);
    lemma_eqv_trans(
        Frac::of_int(0).add(in_q.mul(k@).neg()),
        in_q.mul(k@).neg(),
        q.mul(f).neg(),
    );
    // total after ~ q + total(rf) ~ q - q × f
    crate::ledger::lemma_total_append(before.contributions(), rf, p);
    lemma_add_congr(q, q, total(rf, p), q.mul(f).neg());
    lemma_total_wf(rf, p);
    lemma_wf_ops(q, total(rf, p));
    lemma_eqv_trans(total(after.contributions(), p), q.add(total(rf, p)), q.sub(q.mul(f)));
}

/// Allocation law: allocating all of material `p`'s balance to a recipe that
/// takes `p` as its one and only ingredient of `p` brings that balance to zero.
pub proof fn lemma_all_into_clears(before: Group, after: Group, p: Seq<char>, recipe: Recipe)
    requires
        before.wf(),
        recipe.wf(),
        after.recipes@.last().0.wf(),
        allocated(before, after, p, recipe, Frac::of_int(1)),
        sole_use(recipe, p),
        !recipe.inputs_seq()[position(recipe.inputs_seq(), p)].quantity@.is_zero(),
    ensures
        total(after.contributions(), p).is_zero(),
{
    let q = total(before.contributions(), p);
    lemma_use_fraction(before, after, p, recipe, Frac::of_int(1));
    lemma_total_wf_of(before, p);
    let z = q.sub(q.mul(Frac::of_int(1)));
    assert(z.n == 0) by {
        assert(q.n * 1 == q.n);
        assert(q.d * 1 == q.d);
        assert(q.n * q.d + (-q.n) * q.d == 0) by (nonlinear_arith);
    }
    lemma_wf_ops(q, q.mul(Frac::of_int(1)));
    assert(after.wf()) by {
        assert forall|t: int| 0 <= t < after.recipes@.len() implies (
        #[trigger] after.recipes@[t]).0.wf() && after.recipes@[t].1.wf() by {
            if t < before.recipes@.len() {
                assert(after.recipes@[t] == before.recipes@[t]);
            }
        }
    }
    lemma_total_wf_of(after, p);
    lemma_eqv_pos(total(after.contributions(), p), z);
}

} // verus!

verus! {

/// Use-fraction law, over balances: where `b0` is the balance before and
/// `b1` the balance after allocating the fraction `f` of material `p` to a
/// recipe that takes `p` as its one and only ingredient of `p`, `p`'s entry
/// after is its entry before less `f` times it.
pub proof fn lemma_use_fraction_balance(
    before: Group,
    after: Group,
    p: Seq<char>,
    recipe: Recipe,
    f: Frac,
    b0: Seq<Ingredient>,
    b1: Seq<Ingredient>,
    i: int,
    j: int,
)
    requires
        before.wf(),
        recipe.wf(),
        f.wf(),
        after.recipes@.last().0.wf(),
        allocated(before, after, p, recipe, f),
        sole_use(recipe, p),
        !recipe.inputs_seq()[position(recipe.inputs_seq(), p)].quantity@.is_zero(),
        is_ledger(b0, before.contributions()),
        is_ledger(b1, after.contributions()),
        0 <= i < b0.len() && b0[i].part@ == p,
        0 <= j < b1.len() && b1[j].part@ == p,
    ensures
        ({
            let q = b0[i].quantity@;
            b1[j].quantity@.eqv(q.sub(q.mul(f)))
        }),
{
    let t = total(before.contributions(), p);
    let q = b0[i].quantity@;
    lemma_use_fraction(before, after, p, recipe, f);
    lemma_total_wf_of(before, p);
    assert(b0[i].wf() && b1[j].wf());
    // q ~ t, so q - q f ~ t - t f
    crate::rate::lemma_eqv_sym(q, t);
    lemma_mul_congr(t, q, f, f);
    lemma_neg_congr(t.mul(f), q.mul(f));
    lemma_add_congr(t, q, t.mul(f).neg(), q.mul(f).neg());
    assert(after.wf()) by {
        assert forall|k: int| 0 <= k < after.recipes@.len() implies (
        #[trigger] after.recipes@[k]).0.wf() && after.recipes@[k].1.wf() by {
            if k < before.recipes@.len() {
                assert(after.recipes@[k] == before.recipes@[k]);
            }
        }
    }
    lemma_total_wf_of(after, p);
    lemma_wf_ops(t, f);
    lemma_wf_ops(t, t.mul(f));
    lemma_eqv_trans(b1[j].quantity@, total(after.contributions(), p), t.sub(t.mul(f)));
    lemma_eqv_trans(b1[j].quantity@, t.sub(t.mul(f)), q.sub(q.mul(f)));
}

/// Allocation law, over balances: after allocating all of material `p`'s
/// balance to a recipe that takes `p` as its one and only ingredient of
/// `p`, `p`'s entry in the balance is zero.
pub proof fn lemma_all_into_clears_balance(
    before: Group,
    after: Group,
    p: Seq<char>,
    recipe: Recipe,
    b1: Seq<Ingredient>,
    j: int,
)
    requires
        before.wf(),
        recipe.wf(),
        after.recipes@.last().0.wf(),
        allocated(before, after, p, recipe, Frac::of_int(1)),
        sole_use(recipe, p),
        !recipe.inputs_seq()[position(recipe.inputs_seq(), p)].quantity@.is_zero(),
        is_ledger(b1, after.contributions()),
        0 <= j < b1.len() && b1[j].part@ == p,
    ensures
        b1[j].quantity@.is_zero(),
{
    lemma_all_into_clears(before, after, p, recipe);
    assert(after.wf()) by {
        assert forall|k: int| 0 <= k < after.recipes@.len() implies (
        #[trigger] after.recipes@[k]).0.wf() && after.recipes@[k].1.wf() by {
            if k < before.recipes@.len() {
                assert(after.recipes@[k] == before.recipes@[k]);
            }
        }
    }
    lemma_total_wf_of(after, p);
    assert(b1[j].wf());
    lemma_eqv_pos(b1[j].quantity@, total(after.contributions(), p));
}

} // verus!
