//! Resolving names typed by a user to names of the catalog: an exact match
//! first, else the best-scoring fuzzy match.

use vstd::prelude::*;
use fuzzy_matcher::FuzzyMatcher;
use fuzzy_matcher::skim::SkimMatcherV2;
use crate::error::PlanError;
use crate::ingredient::Ingredient;
use crate::recipe::Recipe;
use crate::text::{str_eq, views};

verus! {

/// Names the score that the skim fuzzy matcher gives `choice` for `pattern`.
pub uninterp spec fn skim_score(choice: Seq<char>, pattern: Seq<char>) -> Option<i64>;

/// Relies on `SkimMatcherV2::fuzzy_match` of fuzzy-matcher, default
/// settings: `None` when `pattern` does not match `choice`, else a score;
/// the result depends on the two strings alone.
#[verifier::external_body]
fn fuzzy_score(choice: &str, pattern: &str) -> (r: Option<i64>)
    ensures
        r == skim_score(choice@, pattern@),
{
    SkimMatcherV2::default().fuzzy_match(choice, pattern)
}

/// Index of the highest score, the last of equal ones; -1 when no score.
pub open spec fn best_index(scores: Seq<Option<i64>>) -> int
    decreases scores.len(),
{
    if scores.len() == 0 {
        -1
    } else {
        let b = best_index(scores.drop_last());
        match scores.last() {
            Some(v) => if b < 0 || scores[b]->0 <= v {
                scores.len() - 1
            } else {
                b
            },
            None => b,
        }
    }
}

pub proof fn lemma_best_index(scores: Seq<Option<i64>>)
    ensures
        -1 <= best_index(scores) < scores.len(),
        best_index(scores) >= 0 ==> scores[best_index(scores)] is Some,
    decreases scores.len(),
{
    if scores.len() > 0 {
        lemma_best_index(scores.drop_last());
    }
}

/// The index of the best score, the last of equal ones; `None` when no
/// candidate scored.
pub fn best_match(scores: &Vec<Option<i64>>) -> (r: Option<usize>)
    ensures
        best_index(scores@) < 0 ==> r is None,
        best_index(scores@) >= 0 ==> r == Some(best_index(scores@) as usize),
{
    let mut best: Option<usize> = None;
    let mut k: usize = 0;
    while k < scores.len()
        invariant
            k <= scores.len(),
            best_index(scores@.subrange(0, k as int)) < 0 ==> best is None,
            best_index(scores@.subrange(0, k as int)) >= 0 ==> best == Some(
                best_index(scores@.subrange(0, k as int)) as usize,
            ),
        decreases scores.len() - k,
    {
        let ghost pre = scores@.subrange(0, k as int);
        assert(scores@.subrange(0, k + 1).drop_last() =~= pre);
        proof {
            lemma_best_index(pre);
        }
        match scores[k] {
            Some(v) => {
                match best {
                    None => {
                        best = Some(k);
                    },
                    Some(b) => {
                        assert(pre[b as int] == scores@[b as int]);
                        let bv = match scores[b] {
                            Some(x) => x,
                            None => v,
                        };
                        if bv <= v {
                            best = Some(k);
                        }
                    },
                }
            },
            None => {},
        }
        k = k + 1;
    }
    assert(scores@.subrange(0, scores@.len() as int) =~= scores@);
    best
}

/// The scores of the candidates for the query.
pub open spec fn scores_of(cands: Seq<Seq<char>>, query: Seq<char>) -> Seq<Option<i64>> {
    cands.map_values(|c: Seq<char>| skim_score(c, query))
}

/// Index of the first candidate equal to the query, or -1.
pub open spec fn exact_index(cands: Seq<Seq<char>>, query: Seq<char>) -> int
    decreases cands.len(),
{
    if cands.len() == 0 {
        -1
    } else if exact_index(cands.drop_last(), query) >= 0 {
        exact_index(cands.drop_last(), query)
    } else if cands.last() == query {
        cands.len() - 1
    } else {
        -1
    }
}

proof fn lemma_exact_index(cands: Seq<Seq<char>>, query: Seq<char>, i: int)
    requires
        0 <= i <= cands.len(),
        i == cands.len() || cands[i] == query,
        forall|k: int| 0 <= k < i ==> cands[k] != query,
    ensures
        exact_index(cands, query) == (if i == cands.len() { -1 } else { i }),
    decreases cands.len(),
{
    if cands.len() > 0 {
        if i < cands.len() - 1 {
            lemma_exact_index(cands.drop_last(), query, i);
        } else {
            lemma_exact_index(cands.drop_last(), query, cands.len() - 1);
        }
    }
}

/// Which candidate a query names: the first exact match, else the best
/// fuzzy match; -1 for none.
pub open spec fn resolved(cands: Seq<Seq<char>>, query: Seq<char>) -> int {
    if exact_index(cands, query) >= 0 {
        exact_index(cands, query)
    } else {
        best_index(scores_of(cands, query))
    }
}

proof fn lemma_exact_range(cands: Seq<Seq<char>>, query: Seq<char>)
    ensures
        -1 <= exact_index(cands, query) < cands.len(),
    decreases cands.len(),
{
    if cands.len() > 0 {
        lemma_exact_range(cands.drop_last(), query);
    }
}

pub proof fn lemma_resolved_range(cands: Seq<Seq<char>>, query: Seq<char>)
    ensures
        -1 <= resolved(cands, query) < cands.len(),
{
    lemma_exact_range(cands, query);
    lemma_best_index(scores_of(cands, query));
}

/// The index of the candidate that the query names.
pub fn resolve_name(cands: &Vec<String>, query: &str) -> (r: Option<usize>)
    ensures
        resolved(views(cands@), query@) < 0 ==> r is None,
        resolved(views(cands@), query@) >= 0 ==> r == Some(
            resolved(views(cands@), query@) as usize,
        ),
        resolved(views(cands@), query@) < cands@.len(),
        (r is Some) ==> r->0 as int == resolved(views(cands@), query@),
{
    proof {
        lemma_resolved_range(views(cands@), query@);
    }
    let ghost vs = views(cands@);
    let mut k: usize = 0;
    while k < cands.len()
        invariant
            k <= cands.len(),
            vs == views(cands@),
            forall|t: int| 0 <= t < k ==> vs[t] != query@,
        decreases cands.len() - k,
    {
        if str_eq(cands[k].as_str(), query) {
            proof {
                lemma_exact_index(vs, query@, k as int);
            }
            return Some(k);
        }
        k = k + 1;
    }
    proof {
        lemma_exact_index(vs, query@, vs.len() as int);
    }
    let mut scores: Vec<Option<i64>> = Vec::new();
    let mut j: usize = 0;
    while j < cands.len()
        invariant
            j <= cands.len(),
            vs == views(cands@),
            scores@ == scores_of(vs, query@).subrange(0, j as int),
        decreases cands.len() - j,
    {
        let s = fuzzy_score(cands[j].as_str(), query);
        scores.push(s);
        assert(scores@ =~= scores_of(vs, query@).subrange(0, j + 1));
        j = j + 1;
    }
    assert(scores@ =~= scores_of(vs, query@));
    best_match(&scores)
}

/// The names of the recipes.
pub open spec fn recipe_names(cat: Seq<Recipe>) -> Seq<Seq<char>> {
    cat.map_values(|r: Recipe| r.name@)
}

/// The materials of the ingredients.
pub open spec fn part_names(s: Seq<Ingredient>) -> Seq<Seq<char>> {
    s.map_values(|i: Ingredient| i.part@)
}

/// The catalog recipe that the query names: the first one of that exact
/// name, else the best fuzzy match among the recipe names.
pub fn find_recipe<'a>(all_recipes: &'a Vec<Recipe>, recipe_query: &str) -> (r: Result<
    &'a Recipe,
    PlanError,
>)
    ensures
        ({
            let j = resolved(recipe_names(all_recipes@), recipe_query@);
            &&& j < 0 <==> r is Err
            &&& j < 0 ==> (r->Err_0 matches PlanError::UnknownRecipe { query } && query@
                == recipe_query@)
            &&& j >= 0 ==> r is Ok && *r->Ok_0 == all_recipes@[j]
        }),
{
    let mut names: Vec<String> = Vec::new();
    let mut k: usize = 0;
    while k < all_recipes.len()
        invariant
            k <= all_recipes.len(),
            views(names@) == recipe_names(all_recipes@).subrange(0, k as int),
        decreases all_recipes.len() - k,
    {
        let ghost before = names@;
        names.push(all_recipes[k].name.clone());
        assert(names@ == before.push(all_recipes@[k as int].name));
        assert(views(names@) =~= views(before).push(all_recipes@[k as int].name@));
        assert(views(names@) =~= recipe_names(all_recipes@).subrange(0, k + 1));
        k = k + 1;
    }
    assert(views(names@) =~= recipe_names(all_recipes@));
    proof {
        lemma_resolved_range(recipe_names(all_recipes@), recipe_query@);
    }
    match resolve_name(&names, recipe_query) {
        Some(j) => Ok(&all_recipes[j]),
        None => Err(PlanError::UnknownRecipe { query: String::from_str(recipe_query) }),
    }
}

} // verus!

verus! {

/// The names, each once, in order of first appearance.
pub open spec fn distinct_in_order(s: Seq<Seq<char>>) -> Seq<Seq<char>>
    decreases s.len(),
{
    if s.len() == 0 {
        Seq::empty()
    } else if distinct_in_order(s.drop_last()).contains(s.last()) {
        distinct_in_order(s.drop_last())
    } else {
        distinct_in_order(s.drop_last()).push(s.last())
    }
}

/// The materials of the catalog's recipes, inputs then outputs, recipe by recipe.
pub open spec fn catalog_parts(cat: Seq<Recipe>) -> Seq<Seq<char>>
    decreases cat.len(),
{
    if cat.len() == 0 {
        Seq::empty()
    } else {
        catalog_parts(cat.drop_last()) + part_names(cat.last().ingredients_seq())
    }
}

fn contains_name(v: &Vec<String>, name: &String) -> (r: bool)
    ensures
        r == views(v@).contains(name@),
{
    let mut k: usize = 0;
    while k < v.len()
        invariant
            k <= v.len(),
            forall|t: int| 0 <= t < k ==> v@[t]@ != name@,
        decreases v.len() - k,
    {
        if v[k] == *name {
            assert(views(v@)[k as int] == name@);
            return true;
        }
        k = k + 1;
    }
    proof {
        if views(v@).contains(name@) {
            let t = choose|t: int| 0 <= t < views(v@).len() && views(v@)[t] == name@;
            assert(v@[t]@ == name@);
        }
    }
    false
}

/// Every material named in the catalog, once each, in order of first appearance.
pub fn material_names(all_recipes: &Vec<Recipe>) -> (r: Vec<String>)
    ensures
        views(r@) == distinct_in_order(catalog_parts(all_recipes@)),
{
    let mut out: Vec<String> = Vec::new();
    let mut k: usize = 0;
    while k < all_recipes.len()
        invariant
            k <= all_recipes.len(),
            views(out@) == distinct_in_order(catalog_parts(all_recipes@.subrange(0, k as int))),
        decreases all_recipes.len() - k,
    {
        let ghost pre = catalog_parts(all_recipes@.subrange(0, k as int));
        assert(all_recipes@.subrange(0, k + 1).drop_last() =~= all_recipes@.subrange(0, k as int));
        let ings = all_recipes[k].ingredients();
        let ghost ps = part_names(ings@);
        let mut m: usize = 0;
        while m < ings.len()
            invariant
                m <= ings.len(),
                ps == part_names(ings@),
                views(out@) == distinct_in_order(pre + ps.subrange(0, m as int)),
            decreases ings.len() - m,
        {
            assert((pre + ps.subrange(0, m + 1)).drop_last() =~= pre + ps.subrange(0, m as int));
            assert((pre + ps.subrange(0, m + 1)).last() == ings@[m as int].part@);
            if !contains_name(&out, &ings[m].part) {
                let ghost before = out@;
                out.push(ings[m].part.clone());
                assert(views(out@) =~= views(before).push(ings@[m as int].part@));
            }
            m = m + 1;
        }
        assert(ps.subrange(0, ings@.len() as int) =~= ps);
        assert(pre + ps =~= catalog_parts(all_recipes@.subrange(0, k + 1)));
        k = k + 1;
    }
    assert(all_recipes@.subrange(0, all_recipes@.len() as int) =~= all_recipes@);
    out
}

/// The known material that the query names: the first of that exact name,
/// else the best fuzzy match.
pub fn find_ingredient_name(all_ingredients: &Vec<String>, ingredient_query: &str) -> (r: Result<
    String,
    PlanError,
>)
    ensures
        ({
            let j = resolved(views(all_ingredients@), ingredient_query@);
            &&& j < 0 <==> r is Err
            &&& j < 0 ==> (r->Err_0 matches PlanError::UnknownIngredient { query } && query@
                == ingredient_query@)
            &&& j >= 0 ==> r is Ok && r->Ok_0 == all_ingredients@[j]
        }),
{
    match resolve_name(all_ingredients, ingredient_query) {
        Some(j) => Ok(all_ingredients[j].clone()),
        None => Err(PlanError::UnknownIngredient { query: String::from_str(ingredient_query) }),
    }
}

/// The recipe input that the query names: the first of that exact
/// material, else the best fuzzy match among the input materials.
pub fn find_ingredient_in_recipe(recipe: &Recipe, ingredient_query: &str) -> (r: Result<
    Ingredient,
    PlanError,
>)
    ensures
        ({
            let j = resolved(part_names(recipe.inputs_seq()), ingredient_query@);
            &&& j < 0 <==> r is Err
            &&& j < 0 ==> (r->Err_0 matches PlanError::NotARecipeInput { query, recipe: rn }
                && query@ == ingredient_query@ && rn == recipe.name)
            &&& j >= 0 ==> r is Ok && r->Ok_0 == recipe.inputs_seq()[j]
        }),
{
    let ins = recipe.inputs();
    let mut names: Vec<String> = Vec::new();
    let mut k: usize = 0;
    while k < ins.len()
        invariant
            k <= ins.len(),
            ins@ == recipe.inputs_seq(),
            views(names@) == part_names(ins@).subrange(0, k as int),
        decreases ins.len() - k,
    {
        let ghost before = names@;
        names.push(ins[k].part.clone());
        assert(views(names@) =~= views(before).push(ins@[k as int].part@));
        assert(views(names@) =~= part_names(ins@).subrange(0, k + 1));
        k = k + 1;
    }
    assert(views(names@) =~= part_names(ins@));
    match resolve_name(&names, ingredient_query) {
        Some(j) => Ok(ins[j].clone()),
        None => Err(
            PlanError::NotARecipeInput {
                query: String::from_str(ingredient_query),
                recipe: recipe.name.clone(),
            },
        ),
    }
}

} // verus!

verus! {

/// The recipe has an output of material `part`.
pub open spec fn produces(r: Recipe, part: Seq<char>) -> bool {
    exists|k: int| 0 <= k < r.outputs_seq().len() && (#[trigger] r.outputs_seq()[k]).part@ == part
}

fn has_output(r: &Recipe, part: &str) -> (b: bool)
    ensures
        b == produces(*r, part@),
{
    let outs = r.outputs();
    let mut k: usize = 0;
    while k < outs.len()
        invariant
            k <= outs.len(),
            outs@ == r.outputs_seq(),
            forall|t: int| 0 <= t < k ==> outs@[t].part@ != part@,
        decreases outs.len() - k,
    {
        if str_eq(outs[k].part.as_str(), part) {
            return true;
        }
        k = k + 1;
    }
    false
}

/// The indices, in order, of the recipes that have an output of `part`.
pub fn recipes_producing(all_recipes: &Vec<Recipe>, part: &str) -> (r: Vec<usize>)
    ensures
        forall|i: int| 0 <= i < r@.len() ==> (#[trigger] r@[i]) < all_recipes@.len() && produces(
            all_recipes@[r@[i] as int],
            part@,
        ),
        forall|i: int, j: int| 0 <= i < j < r@.len() ==> (#[trigger] r@[i]) < (#[trigger] r@[j]),
        forall|k: int|
            0 <= k < all_recipes@.len() && produces(#[trigger] all_recipes@[k], part@) ==> r@.contains(
                k as usize,
            ),
{
    let mut out: Vec<usize> = Vec::new();
    let mut k: usize = 0;
    while k < all_recipes.len()
        invariant
            k <= all_recipes.len(),
            forall|i: int| 0 <= i < out@.len() ==> (#[trigger] out@[i]) < k && produces(
                all_recipes@[out@[i] as int],
                part@,
            ),
            forall|i: int, j: int| 0 <= i < j < out@.len() ==> (#[trigger] out@[i]) < (#[trigger] out@[j]),
            forall|t: int|
                0 <= t < k && produces(#[trigger] all_recipes@[t], part@) ==> out@.contains(t as usize),
        decreases all_recipes.len() - k,
    {
        if has_output(&all_recipes[k], part) {
            let ghost before = out@;
            out.push(k);
            proof {
                assert forall|t: int| 0 <= t < k + 1 && produces(#[trigger] all_recipes@[t], part@) implies out@.contains(t as usize) by {
                    if t < k {
                        let i = choose|i: int| 0 <= i < before.len() && before[i] == t as usize;
                        assert(out@[i] == t as usize);
                    } else {
                        assert(out@[before.len() as int] == k);
                    }
                }
            }
        }
        k = k + 1;
    }
    out
}

} // verus!
