//! Recipes of the catalog and the numeric configuration of the planner.

use vstd::prelude::*;
use crate::ingredient::{all_wf, Ingredient};
use crate::rate::Rate;
use crate::text::str_eq;

verus! {

/// One crafting recipe; flows are per minute.
#[derive(Debug)]
pub struct Recipe {
    pub building: String,
    pub name: String,
    pub craft_time_s: Rate,
    pub is_alt: bool,
    pub unlocks: String,
    pub is_unlocked: bool,
    pub in_1: Option<Ingredient>,
    pub in_2: Option<Ingredient>,
    pub in_3: Option<Ingredient>,
    pub in_4: Option<Ingredient>,
    pub out_1: Option<Ingredient>,
    pub out_2: Option<Ingredient>,
}

/// The ingredient of a slot, if the slot is filled.
pub open spec fn slot(o: Option<Ingredient>) -> Seq<Ingredient> {
    match o {
        Some(i) => seq![i],
        None => Seq::empty(),
    }
}

fn push_slot(v: &mut Vec<Ingredient>, o: &Option<Ingredient>)
    ensures
        final(v)@ == old(v)@ + slot(*o),
{
    match o {
        Some(i) => {
            v.push(i.clone());
            assert(final(v)@ =~= old(v)@ + slot(*o));
        },
        None => {
            assert(old(v)@ + slot(*o) =~= old(v)@);
        },
    }
}

impl Clone for Recipe {
    fn clone(&self) -> (r: Self)
        ensures
            r == *self,
    {
        Recipe {
            building: self.building.clone(),
            name: self.name.clone(),
            craft_time_s: self.craft_time_s,
            is_alt: self.is_alt,
            unlocks: self.unlocks.clone(),
            is_unlocked: self.is_unlocked,
            in_1: clone_slot(&self.in_1),
            in_2: clone_slot(&self.in_2),
            in_3: clone_slot(&self.in_3),
            in_4: clone_slot(&self.in_4),
            out_1: clone_slot(&self.out_1),
            out_2: clone_slot(&self.out_2),
        }
    }
}

fn clone_slot(o: &Option<Ingredient>) -> (r: Option<Ingredient>)
    ensures
        r == *o,
{
    match o {
        Some(i) => Some(i.clone()),
        None => None,
    }
}

impl Recipe {
    /// The filled input slots, in slot order.
    pub open spec fn inputs_seq(&self) -> Seq<Ingredient> {
        slot(self.in_1) + slot(self.in_2) + slot(self.in_3) + slot(self.in_4)
    }

    /// The filled output slots, in slot order.
    pub open spec fn outputs_seq(&self) -> Seq<Ingredient> {
        slot(self.out_1) + slot(self.out_2)
    }

    /// Inputs, then outputs.
    pub open spec fn ingredients_seq(&self) -> Seq<Ingredient> {
        self.inputs_seq() + self.outputs_seq()
    }

    /// Every flow of the recipe is a valid rate.
    pub open spec fn wf(&self) -> bool {
        all_wf(self.ingredients_seq())
    }

    pub fn inputs(&self) -> (r: Vec<Ingredient>)
        ensures
            r@ == self.inputs_seq(),
    {
        let mut v: Vec<Ingredient> = Vec::new();
        push_slot(&mut v, &self.in_1);
        push_slot(&mut v, &self.in_2);
        push_slot(&mut v, &self.in_3);
        push_slot(&mut v, &self.in_4);
        assert(v@ =~= self.inputs_seq());
        v
    }

    pub fn outputs(&self) -> (r: Vec<Ingredient>)
        ensures
            r@ == self.outputs_seq(),
    {
        let mut v: Vec<Ingredient> = Vec::new();
        push_slot(&mut v, &self.out_1);
        push_slot(&mut v, &self.out_2);
        assert(v@ =~= self.outputs_seq());
        v
    }

    pub fn ingredients(&self) -> (r: Vec<Ingredient>)
        ensures
            r@ == self.ingredients_seq(),
    {
        let mut v: Vec<Ingredient> = Vec::new();
        push_slot(&mut v, &self.in_1);
        push_slot(&mut v, &self.in_2);
        push_slot(&mut v, &self.in_3);
        push_slot(&mut v, &self.in_4);
        push_slot(&mut v, &self.out_1);
        push_slot(&mut v, &self.out_2);
        assert(v@ =~= self.ingredients_seq());
        v
    }
}

/// Index of the first recipe named `name`, or -1.
pub open spec fn recipe_position(col: Seq<Recipe>, name: Seq<char>) -> int
    decreases col.len(),
{
    if col.len() == 0 {
        -1
    } else if recipe_position(col.drop_last(), name) >= 0 {
        recipe_position(col.drop_last(), name)
    } else if col.last().name@ == name {
        col.len() - 1
    } else {
        -1
    }
}

proof fn lemma_recipe_position(col: Seq<Recipe>, name: Seq<char>, i: int)
    requires
        0 <= i <= col.len(),
        i == col.len() || col[i].name@ == name,
        forall|k: int| 0 <= k < i ==> col[k].name@ != name,
    ensures
        recipe_position(col, name) == (if i == col.len() { -1 } else { i }),
    decreases col.len(),
{
    if col.len() > 0 {
        if i < col.len() - 1 {
            lemma_recipe_position(col.drop_last(), name, i);
        } else {
            lemma_recipe_position(col.drop_last(), name, col.len() - 1);
        }
    }
}

pub proof fn lemma_recipe_position_range(col: Seq<Recipe>, name: Seq<char>)
    ensures
        -1 <= recipe_position(col, name) < col.len(),
    decreases col.len(),
{
    if col.len() > 0 {
        lemma_recipe_position_range(col.drop_last(), name);
    }
}

/// The first recipe of the collection with exactly this name, for editing.
pub fn recipe_by_name_mut<'a>(col: &'a mut Vec<Recipe>, name: &str) -> (r: Option<&'a mut Recipe>)
    ensures
        ({
            let j = recipe_position(old(col)@, name@);
            &&& (r is Some) <==> j >= 0
            &&& (r is Some) ==> *r->0 == old(col)@[j] && final(col)@ == old(col)@.update(
                j,
                *final(r->0),
            )
            &&& (r is None) ==> final(col)@ == old(col)@
            &&& j < old(col)@.len()
        }),
{
    proof {
        lemma_recipe_position_range(col@, name@);
    }
    let mut i: usize = 0;
    while i < col.len()
        invariant
            i <= col.len(),
            col@ == old(col)@,
            forall|k: int| 0 <= k < i ==> col@[k].name@ != name@,
        decreases col.len() - i,
    {
        if str_eq(col[i].name.as_str(), name) {
            proof {
                lemma_recipe_position(col@, name@, i as int);
            }
            return Some(&mut col[i]);
        }
        i = i + 1;
    }
    proof {
        lemma_recipe_position(col@, name@, col@.len() as int);
    }
    None
}

} // verus!

verus! {

/// Each ingredient of a recipe sits in one of its slots.
pub proof fn lemma_slots_member(r: Recipe, k: int)
    requires
        0 <= k < r.ingredients_seq().len(),
    ensures
        r.in_1 == Some(r.ingredients_seq()[k]) || r.in_2 == Some(r.ingredients_seq()[k]) || r.in_3
            == Some(r.ingredients_seq()[k]) || r.in_4 == Some(r.ingredients_seq()[k]) || r.out_1
            == Some(r.ingredients_seq()[k]) || r.out_2 == Some(r.ingredients_seq()[k]),
{
    let s = r.ingredients_seq();
    let a = slot(r.in_1);
    let b = slot(r.in_2);
    let c = slot(r.in_3);
    let d = slot(r.in_4);
    let e = slot(r.out_1);
    let f = slot(r.out_2);
    assert(s =~= a + b + c + d + e + f);
}

} // verus!

verus! {

/// The filled slots of a recipe are among its ingredients.
pub proof fn lemma_slot_in(r: Recipe)
    ensures
        r.in_1 is Some ==> r.ingredients_seq().contains(r.in_1->0),
        r.in_2 is Some ==> r.ingredients_seq().contains(r.in_2->0),
        r.in_3 is Some ==> r.ingredients_seq().contains(r.in_3->0),
        r.in_4 is Some ==> r.ingredients_seq().contains(r.in_4->0),
        r.out_1 is Some ==> r.ingredients_seq().contains(r.out_1->0),
        r.out_2 is Some ==> r.ingredients_seq().contains(r.out_2->0),
{
    let a = slot(r.in_1);
    let b = slot(r.in_2);
    let c = slot(r.in_3);
    let d = slot(r.in_4);
    let e = slot(r.out_1);
    let f = slot(r.out_2);
    let s = r.ingredients_seq();
    assert(s =~= a + b + c + d + e + f);
    if r.in_1 is Some {
        assert(s[0] == r.in_1->0);
    }
    if r.in_2 is Some {
        assert(s[a.len() as int] == r.in_2->0);
    }
    if r.in_3 is Some {
        assert(s[(a.len() + b.len()) as int] == r.in_3->0);
    }
    if r.in_4 is Some {
        assert(s[(a.len() + b.len() + c.len()) as int] == r.in_4->0);
    }
    if r.out_1 is Some {
        assert(s[(a.len() + b.len() + c.len() + d.len()) as int] == r.out_1->0);
    }
    if r.out_2 is Some {
        assert(s[(a.len() + b.len() + c.len() + d.len() + e.len()) as int] == r.out_2->0);
    }
}

} // verus!
