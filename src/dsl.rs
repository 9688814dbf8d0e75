//! The chain language: one directive per line.
//!
//! ```text
//! # comment text
//! group <group name>
//! mine <quantity> <material>
//! all <material> into <recipe>
//! use <fraction> <material> into <recipe>
//! ```
//!
//! Words are separated by whitespace; names are their words joined by
//! single spaces. In `all` and `use` the last `into` word separates the
//! material from the recipe. Numbers are decimal numerals.

use vstd::prelude::*;
use crate::chain::{group_set, recipe_added, ChainState};
use crate::error::PlanError;
use crate::import::catalog_wf;
use crate::ingredient::{merged, position, Ingredient};
use crate::ledger::distinct_parts;
use crate::lookup::{
    find_ingredient_in_recipe, find_ingredient_name, find_recipe, lemma_resolved_range, part_names,
    recipe_names, resolved,
};
use crate::rate::{Frac, Rate};
use crate::recipe::Recipe;
use crate::text::{decimal, is_comment_start, join, join_words, parse_decimal, split_words, str_eq, views, words};

verus! {

/// A directive as written, before its names are resolved.
#[derive(Debug)]
pub enum Directive {
    Comment { text: String },
    Group { name: String },
    Mine { quantity: Rate, name: String },
    AllInto { ingredient: String, recipe: String },
    Use { fraction: Rate, ingredient: String, recipe: String },
}

/// Index of the last word `into` among words `lo..i`, or -1.
pub open spec fn last_into(w: Seq<Seq<char>>, lo: int, i: int) -> int
    decreases i - lo,
{
    if i <= lo {
        -1
    } else if w[i - 1] == "into"@ {
        i - 1
    } else {
        last_into(w, lo, i - 1)
    }
}

/// `#` followed by some text.
pub open spec fn is_comment(w: Seq<Seq<char>>) -> bool {
    w.len() > 0 && w[0].len() > 0 && w[0][0] == '#' && (w[0].len() > 1 || w.len() > 1)
}

/// The separator of an `all` line: an `into` with a word on each side.
pub open spec fn all_split(w: Seq<Seq<char>>) -> int {
    last_into(w, 2, w.len() - 1)
}

/// The separator of a `use` line: an `into` after the fraction and a word.
pub open spec fn use_split(w: Seq<Seq<char>>) -> int {
    last_into(w, 3, w.len() - 1)
}

/// The words form a directive.
pub open spec fn parses(w: Seq<Seq<char>>) -> bool {
    ||| is_comment(w)
    ||| w.len() >= 2 && w[0] == "group"@
    ||| w.len() >= 3 && w[0] == "mine"@ && decimal(w[1]) is Some
    ||| w.len() >= 4 && w[0] == "all"@ && all_split(w) >= 0
    ||| w.len() >= 5 && w[0] == "use"@ && decimal(w[1]) is Some && use_split(w) >= 0
}

/// `d` is the directive that the words form.
pub open spec fn parsed_as(w: Seq<Seq<char>>, d: Directive) -> bool {
    let n = w.len() as int;
    match d {
        Directive::Comment { text } => is_comment(w) && text@ == join(w),
        Directive::Group { name } => !is_comment(w) && n >= 2 && w[0] == "group"@ && name@ == join(
            w.subrange(1, n),
        ),
        Directive::Mine { quantity, name } => {
            &&& n >= 3 && w[0] == "mine"@ && decimal(w[1]) is Some
            &&& quantity.wf() && quantity@.eqv(decimal(w[1])->0)
            &&& name@ == join(w.subrange(2, n))
        },
        Directive::AllInto { ingredient, recipe } => {
            let j = all_split(w);
            &&& n >= 4 && w[0] == "all"@ && j >= 2
            &&& ingredient@ == join(w.subrange(1, j))
            &&& recipe@ == join(w.subrange(j + 1, n))
        },
        Directive::Use { fraction, ingredient, recipe } => {
            let j = use_split(w);
            &&& n >= 5 && w[0] == "use"@ && decimal(w[1]) is Some && j >= 3
            &&& fraction.wf() && fraction@.eqv(decimal(w[1])->0)
            &&& ingredient@ == join(w.subrange(2, j))
            &&& recipe@ == join(w.subrange(j + 1, n))
        },
    }
}

proof fn lemma_last_into(w: Seq<Seq<char>>, lo: int, i: int)
    ensures
        last_into(w, lo, i) == -1 || (lo <= last_into(w, lo, i) < i && w[last_into(w, lo, i)]
            == "into"@),
    decreases i - lo,
{
    if i > lo && w[i - 1] != "into"@ {
        lemma_last_into(w, lo, i - 1);
    }
}

/// Index of the last `into` among words `lo..hi`, or `None`.
fn find_last_into(w: &Vec<String>, lo: usize, hi: usize) -> (r: Option<usize>)
    requires
        hi <= w@.len(),
    ensures
        last_into(views(w@), lo as int, hi as int) < 0 ==> r is None,
        last_into(views(w@), lo as int, hi as int) >= 0 ==> r == Some(
            last_into(views(w@), lo as int, hi as int) as usize,
        ),
        (r is Some) ==> lo <= r->0 < hi,
        last_into(views(w@), lo as int, hi as int) < hi,
{
    proof {
        lemma_last_into(views(w@), lo as int, hi as int);
    }
    let mut i: usize = hi;
    while i > lo
        invariant
            hi <= w@.len(),
            lo < i ==> i <= hi,
            last_into(views(w@), lo as int, i as int) == last_into(views(w@), lo as int, hi as int),
        decreases i,
    {
        if str_eq(w[i - 1].as_str(), "into") {
            return Some(i - 1);
        }
        i = i - 1;
    }
    None
}

/// Reads one line of a chain.
pub fn parse_line(line: &str) -> (r: Result<Directive, PlanError>)
    ensures
        (r is Ok) == parses(words(line@)),
        (r is Ok) ==> parsed_as(words(line@), r->Ok_0),
        (r is Err) ==> (r->Err_0 matches PlanError::Parse { line: l } && l@ == line@),
{
    proof {
        reveal_strlit("group");
        reveal_strlit("mine");
        reveal_strlit("all");
        reveal_strlit("use");
    }
    let w = split_words(line);
    let ghost ws = words(line@);
    let n: usize = w.len();
    assert(views(w@).len() == n);
    if n == 0 {
        return Err(PlanError::Parse { line: String::from_str(line) });
    }
    assert(ws[0] == w@[0]@);
    assert(views(w@).subrange(0, n as int) =~= views(w@));
    if is_comment_start(w[0].as_str()) && (w[0].as_str().unicode_len() > 1 || n > 1) {
        return Ok(Directive::Comment { text: join_words(&w, 0, n) });
    }
    if str_eq(w[0].as_str(), "group") {
        if n >= 2 {
            return Ok(Directive::Group { name: join_words(&w, 1, n) });
        }
    } else if str_eq(w[0].as_str(), "mine") {
        if n >= 3 {
            assert(ws[1] == w@[1]@);
            if let Some(q) = parse_decimal(w[1].as_str()) {
                return Ok(Directive::Mine { quantity: q, name: join_words(&w, 2, n) });
            }
        }
    } else if str_eq(w[0].as_str(), "all") {
        if n >= 4 {
            if let Some(j) = find_last_into(&w, 2, n - 1) {
                assert(all_split(ws) == j as int);
                return Ok(
                    Directive::AllInto {
                        ingredient: join_words(&w, 1, j),
                        recipe: join_words(&w, j + 1, n),
                    },
                );
            }
        }
    } else if str_eq(w[0].as_str(), "use") {
        if n >= 5 {
            assert(ws[1] == w@[1]@);
            if let Some(f) = parse_decimal(w[1].as_str()) {
                if let Some(j) = find_last_into(&w, 3, n - 1) {
                    assert(use_split(ws) == j as int);
                    return Ok(
                        Directive::Use {
                            fraction: f,
                            ingredient: join_words(&w, 2, j),
                            recipe: join_words(&w, j + 1, n),
                        },
                    );
                }
            }
        }
    }
    proof {
        if n >= 4 {
            lemma_last_into(ws, 2, n - 1);
        }
        if n >= 5 {
            lemma_last_into(ws, 3, n - 1);
        }
    }
    Err(PlanError::Parse { line: String::from_str(line) })
}

} // verus!

verus! {

/// A directive with its names resolved against the catalog.
#[derive(Debug)]
pub enum Action {
    Comment(String),
    Group { name: String },
    Mine { ingredient: Ingredient },
    AllInto { ingredient: Ingredient, recipe: Recipe },
    Use { fraction: Rate, ingredient: Ingredient, recipe: Recipe },
}

impl Action {
    pub open spec fn wf(&self) -> bool {
        match self {
            Action::Mine { ingredient } => ingredient.wf(),
            Action::AllInto { ingredient, recipe } => recipe.wf(),
            Action::Use { fraction, ingredient, recipe } => fraction.wf() && recipe.wf(),
            _ => true,
        }
    }
}

/// The names of the words can be resolved: the material of a `mine`, the
/// recipe of an `all` or `use` and the material among its inputs.
pub open spec fn resolvable(w: Seq<Seq<char>>, cat: Seq<Recipe>, mats: Seq<String>) -> bool {
    let n = w.len() as int;
    if is_comment(w) || w[0] == "group"@ {
        true
    } else if w[0] == "mine"@ {
        resolved(views(mats), join(w.subrange(2, n))) >= 0
    } else {
        let j = if w[0] == "all"@ {
            all_split(w)
        } else {
            use_split(w)
        };
        let first = if w[0] == "all"@ {
            1
        } else {
            2int
        };
        let ri = resolved(recipe_names(cat), join(w.subrange(j + 1, n)));
        ri >= 0 && resolved(part_names(cat[ri].inputs_seq()), join(w.subrange(first, j))) >= 0
    }
}

/// `a` is what the words say once their names are resolved.
pub open spec fn resolves_to(w: Seq<Seq<char>>, cat: Seq<Recipe>, mats: Seq<String>, a: Action) -> bool {
    let n = w.len() as int;
    match a {
        Action::Comment(text) => parsed_as(w, Directive::Comment { text }),
        Action::Group { name } => parsed_as(w, Directive::Group { name }),
        Action::Mine { ingredient } => {
            &&& parsed_as(w, Directive::Mine { quantity: ingredient.quantity, name: ingredient.part })
                || (n >= 3 && w[0] == "mine"@ && decimal(w[1]) is Some && ingredient.quantity.wf()
                && ingredient.quantity@.eqv(decimal(w[1])->0))
            &&& ingredient.part == mats[resolved(views(mats), join(w.subrange(2, n)))]
        },
        Action::AllInto { ingredient, recipe } => {
            let j = all_split(w);
            let ri = resolved(recipe_names(cat), join(w.subrange(j + 1, n)));
            let ii = resolved(part_names(recipe.inputs_seq()), join(w.subrange(1, j)));
            &&& n >= 4 && w[0] == "all"@ && j >= 2
            &&& recipe == cat[ri]
            &&& ingredient.part == recipe.inputs_seq()[ii].part
            &&& ingredient.quantity@ == Frac::of_int(0)
        },
        Action::Use { fraction, ingredient, recipe } => {
            let j = use_split(w);
            let ri = resolved(recipe_names(cat), join(w.subrange(j + 1, n)));
            let ii = resolved(part_names(recipe.inputs_seq()), join(w.subrange(2, j)));
            &&& n >= 5 && w[0] == "use"@ && decimal(w[1]) is Some && j >= 3
            &&& fraction.wf() && fraction@.eqv(decimal(w[1])->0)
            &&& recipe == cat[ri]
            &&& ingredient.part == recipe.inputs_seq()[ii].part
            &&& ingredient.quantity@ == Frac::of_int(0)
        },
    }
}

impl Action {
    /// Reads one line of a chain and resolves its names: materials against
    /// the known materials, recipes against the catalog, and the material
    /// of `all` and `use` against the recipe's inputs.
    pub fn parse(v: &str, all_recipes: &Vec<Recipe>, all_ingredients: &Vec<String>) -> (r: Result<
        Action,
        PlanError,
    >)
        requires
            catalog_wf(all_recipes@),
        ensures
            ({
                let w = words(v@);
                &&& (r is Ok) == (parses(w) && resolvable(w, all_recipes@, all_ingredients@))
                &&& (r is Ok) ==> resolves_to(w, all_recipes@, all_ingredients@, r->Ok_0) && r->Ok_0.wf()
                &&& (r is Err) ==> line_error(v@, r->Err_0)
            }),
    {
        proof {
            reveal_strlit("group");
            reveal_strlit("mine");
            reveal_strlit("all");
            reveal_strlit("use");
        }
        let ghost w = words(v@);
        let d = match parse_line(v) {
            Ok(x) => x,
            Err(e) => {
                return Err(e);
            },
        };
        match d {
            Directive::Comment { text } => Ok(Action::Comment(text)),
            Directive::Group { name } => Ok(Action::Group { name }),
            Directive::Mine { quantity, name } => {
                let part = match find_ingredient_name(all_ingredients, name.as_str()) {
                    Ok(x) => x,
                    Err(e) => {
                        return Err(e);
                    },
                };
                Ok(Action::Mine { ingredient: Ingredient::new(part, quantity) })
            },
            Directive::AllInto { ingredient, recipe } => {
                let r = match find_recipe(all_recipes, recipe.as_str()) {
                    Ok(x) => x,
                    Err(e) => {
                        return Err(e);
                    },
                };
                let ghost ri = resolved(recipe_names(all_recipes@), recipe@);
                proof {
                    lemma_resolved_range(recipe_names(all_recipes@), recipe@);
                    assert(all_recipes@[ri].wf());
                }
                let i = match find_ingredient_in_recipe(r, ingredient.as_str()) {
                    Ok(x) => x,
                    Err(e) => {
                        return Err(e);
                    },
                };
                Ok(
                    Action::AllInto {
                        ingredient: Ingredient::new(i.part, Rate::zero()),
                        recipe: r.clone(),
                    },
                )
            },
            Directive::Use { fraction, ingredient, recipe } => {
                proof {
                    assert(w[0] == "use"@);
                    assert(w[0] != "all"@) by {
                        assert(w[0][0] == 'u');
                        assert("all"@[0] == 'a');
                    }
                    assert(w[0].len() == 3);
                    assert(w[0] != "mine"@) by {
                        assert("mine"@.len() == 4);
                    }
                    assert(w[0] != "group"@) by {
                        assert("group"@.len() == 5);
                    }
                    assert(!is_comment(w)) by {
                        assert(w[0][0] == 'u');
                    }
                }
                let r = match find_recipe(all_recipes, recipe.as_str()) {
                    Ok(x) => x,
                    Err(e) => {
                        return Err(e);
                    },
                };
                let ghost ri = resolved(recipe_names(all_recipes@), recipe@);
                proof {
                    lemma_resolved_range(recipe_names(all_recipes@), recipe@);
                    assert(all_recipes@[ri].wf());
                }
                let i = match find_ingredient_in_recipe(r, ingredient.as_str()) {
                    Ok(x) => x,
                    Err(e) => {
                        return Err(e);
                    },
                };
                Ok(
                    Action::Use {
                        fraction,
                        ingredient: Ingredient::new(i.part, Rate::zero()),
                        recipe: r.clone(),
                    },
                )
            },
        }
    }
}

} // verus!

verus! {

/// What a `mine` of `ingredient` does to a chain state, and when it fails.
pub open spec fn mined(before: ChainState, after: ChainState, ingredient: Ingredient, r: Result<
    (),
    PlanError,
>) -> bool {
    &&& r is Err ==> after == before
    &&& before.current_group is None ==> r == Err::<(), PlanError>(PlanError::NoCurrentGroup)
    &&& before.current_group is Some ==> {
        let j = before.current_index();
        let g = before.groups@[j];
        let p = position(g.inputs@, ingredient.part@);
        &&& r is Ok ==> {
            &&& after.current_group == before.current_group
            &&& after.groups@.len() == before.groups@.len()
            &&& forall|k: int|
                0 <= k < before.groups@.len() && k != j ==> after.groups@[k] == before.groups@[k]
            &&& after.groups@[j].name == g.name
            &&& after.groups@[j].outputs == g.outputs
            &&& after.groups@[j].recipes == g.recipes
            &&& merged(g.inputs@, after.groups@[j].inputs@, ingredient)
        }
        &&& r is Err ==> r->Err_0 == PlanError::Overflow && p >= 0
            && !g.inputs@[p].quantity@.add(ingredient.quantity@).fits()
    }
}

/// What one action does to a chain state, and when it fails.
pub open spec fn step(before: ChainState, a: Action, after: ChainState, r: Result<(), PlanError>) -> bool {
    match a {
        Action::Comment(_) => r is Ok && after == before,
        Action::Group { name } => r is Ok && group_set(before, after, name@),
        Action::Mine { ingredient } => mined(before, after, ingredient, r),
        Action::AllInto { ingredient, recipe } => recipe_added(
            before,
            after,
            ingredient,
            recipe,
            Frac::of_int(1),
            r,
        ),
        Action::Use { fraction, ingredient, recipe } => recipe_added(
            before,
            after,
            ingredient,
            recipe,
            fraction@,
            r,
        ),
    }
}

/// Merging keeps the materials of a list distinct.
proof fn lemma_merged_distinct(b: Seq<Ingredient>, b2: Seq<Ingredient>, i: Ingredient)
    requires
        distinct_parts(b),
        merged(b, b2, i),
    ensures
        distinct_parts(b2),
{
    crate::ingredient::lemma_position_range(b, i.part@);
    let j = position(b, i.part@);
    if j >= 0 {
        assert forall|x: int, y: int| 0 <= x < y < b2.len() implies (#[trigger] b2[x]).part@ != (
        #[trigger] b2[y]).part@ by {
            assert(b2[x].part@ == b[x].part@);
            assert(b2[y].part@ == b[y].part@);
        }
    } else {
        assert forall|x: int, y: int| 0 <= x < y < b2.len() implies (#[trigger] b2[x]).part@ != (
        #[trigger] b2[y]).part@ by {
            if y == b.len() {
                if b[x].part@ == i.part@ {
                    crate::ingredient::lemma_position_is_found(b, i.part@, x);
                }
            } else {
                assert(b2[x] == b[x] && b2[y] == b[y]);
            }
        }
    }
}

fn copy_ingredients(v: &Vec<Ingredient>) -> (r: Vec<Ingredient>)
    ensures
        r@ == v@,
{
    let mut out: Vec<Ingredient> = Vec::new();
    let mut k: usize = 0;
    while k < v.len()
        invariant
            k <= v.len(),
            out@ == v@.subrange(0, k as int),
        decreases v.len() - k,
    {
        out.push(v[k].clone());
        assert(out@ =~= v@.subrange(0, k + 1));
        k = k + 1;
    }
    assert(v@.subrange(0, v@.len() as int) =~= v@);
    out
}

impl ChainState {
    /// Carries out one action on the chain.
    pub fn apply(&mut self, a: &Action) -> (r: Result<(), PlanError>)
        requires
            old(self).wf(),
            a.wf(),
        ensures
            final(self).wf(),
            step(*old(self), *a, *final(self), r),
    {
        match a {
            Action::Comment(_) => Ok(()),
            Action::Group { name } => {
                self.set_or_make_group(name.as_str());
                Ok(())
            },
            Action::Mine { ingredient } => {
                if self.current_group.is_none() {
                    return Err(PlanError::NoCurrentGroup);
                }
                let j = self.current_position();
                assert(self.groups@[j as int].wf());
                let mut ins = copy_ingredients(&self.groups[j].inputs);
                match ingredient.merge_with(&mut ins) {
                    Ok(()) => {},
                    Err(e) => {
                        proof {
                            crate::ingredient::lemma_position_range(ins@, ingredient.part@);
                        }
                        return Err(e);
                    },
                }
                let ghost old_groups = self.groups@;
                let ghost g = self.groups@[j as int];
                proof {
                    lemma_merged_distinct(g.inputs@, ins@, *ingredient);
                }
                let grp = self.group();
                grp.inputs = ins;
                proof {
                    let after = self.groups@[j as int];
                    assert(after.wf());
                    assert forall|t: int| 0 <= t < self.groups@.len() implies (
                    #[trigger] self.groups@[t]).wf() by {
                        if t != j {
                            assert(self.groups@[t] == old_groups[t]);
                            assert(old_groups[t].wf());
                        }
                    }
                    let c = self.current_group->0;
                    crate::chain::lemma_group_position_names(old_groups, self.groups@, c@);
                }
                Ok(())
            },
            Action::AllInto { ingredient, recipe } => {
                self.add_recipe(ingredient, recipe, &Rate::from_int(1))
            },
            Action::Use { fraction, ingredient, recipe } => {
                self.add_recipe(ingredient, recipe, fraction)
            },
        }
    }
}

/// A state with no groups and no current group.
pub open spec fn fresh(s: ChainState) -> bool {
    s.groups@.len() == 0 && s.current_group is None
}

/// `trace` is the run of the actions from a fresh state, each succeeding.
pub open spec fn runs(trace: Seq<ChainState>, acts: Seq<Action>) -> bool {
    &&& trace.len() == acts.len() + 1
    &&& fresh(trace[0])
    &&& forall|k: int|
        0 <= k < acts.len() ==> step(#[trigger] trace[k], acts[k], trace[k + 1], Ok(()))
}

/// `trace` is the run of the actions before the one that then fails with
/// `e`, leaving `after`.
pub open spec fn fails_after(trace: Seq<ChainState>, acts: Seq<Action>, after: ChainState, e: PlanError) -> bool {
    &&& 1 <= trace.len() <= acts.len()
    &&& runs(trace, acts.subrange(0, trace.len() - 1))
    &&& step(trace.last(), acts[trace.len() - 1], after, Err(e))
}

pub open spec fn actions_wf(acts: Seq<Action>) -> bool {
    forall|k: int| 0 <= k < acts.len() ==> (#[trigger] acts[k]).wf()
}

/// Carries out the actions in order on a fresh state; stops at the first
/// that fails.
pub fn run_actions(actions: &Vec<Action>) -> (r: Result<ChainState, PlanError>)
    requires
        actions_wf(actions@),
    ensures
        (r is Ok) ==> exists|trace: Seq<ChainState>|
            runs(trace, actions@) && trace.last() == r->Ok_0,
        (r is Ok) ==> r->Ok_0.wf(),
        (r is Err) ==> exists|trace: Seq<ChainState>, after: ChainState|
            #[trigger] fails_after(trace, actions@, after, r->Err_0),
{
    let mut state = ChainState::new();
    let ghost mut trace: Seq<ChainState> = seq![state];
    let mut k: usize = 0;
    while k < actions.len()
        invariant
            k <= actions.len(),
            actions_wf(actions@),
            state.wf(),
            runs(trace, actions@.subrange(0, k as int)),
            trace.last() == state,
        decreases actions.len() - k,
    {
        let ghost before = state;
        assert(actions@[k as int].wf());
        let res = state.apply(&actions[k]);
        match res {
            Ok(()) => {},
            Err(e) => {
                proof {
                    assert(step(before, actions@[k as int], state, Err(e)));
                    assert(trace.len() - 1 == k);
                }
                let out: Result<ChainState, PlanError> = Err(e);
                assert(fails_after(trace, actions@, state, out->Err_0));
                return out;
            },
        }
        proof {
            let acts = actions@.subrange(0, k + 1);
            assert(acts.subrange(0, k as int) =~= actions@.subrange(0, k as int));
            let t2 = trace.push(state);
            assert forall|m: int| 0 <= m < acts.len() implies step(
                #[trigger] t2[m],
                acts[m],
                t2[m + 1],
                Ok(()),
            ) by {
                if m < k {
                    assert(t2[m] == trace[m] && t2[m + 1] == trace[m + 1]);
                    assert(acts[m] == actions@.subrange(0, k as int)[m]);
                }
            }
            trace = t2;
        }
        k = k + 1;
    }
    assert(actions@.subrange(0, actions@.len() as int) =~= actions@);
    Ok(state)
}

} // verus!

verus! {

/// The lines that hold more than whitespace, in order.
pub open spec fn nonblank(lines: Seq<String>) -> Seq<String>
    decreases lines.len(),
{
    if lines.len() == 0 {
        Seq::empty()
    } else if words(lines.last()@).len() > 0 {
        nonblank(lines.drop_last()).push(lines.last())
    } else {
        nonblank(lines.drop_last())
    }
}

/// `e` is the error of reading the line `l`: a parse error, naming the
/// line, exactly when `l` is no directive; else a failed name lookup.
pub open spec fn line_error(l: Seq<char>, e: PlanError) -> bool {
    &&& (e is Parse) == !parses(words(l))
    &&& (e matches PlanError::Parse { line } ==> line@ == l)
}

/// The lines that are not directives whose names resolve, in order.
pub open spec fn failing_lines(ls: Seq<String>, cat: Seq<Recipe>, mats: Seq<String>) -> Seq<String>
    decreases ls.len(),
{
    if ls.len() == 0 {
        Seq::empty()
    } else if line_ok(ls.last(), cat, mats) {
        failing_lines(ls.drop_last(), cat, mats)
    } else {
        failing_lines(ls.drop_last(), cat, mats).push(ls.last())
    }
}

/// The line is a directive whose names resolve.
pub open spec fn line_ok(l: String, cat: Seq<Recipe>, mats: Seq<String>) -> bool {
    parses(words(l@)) && resolvable(words(l@), cat, mats)
}

/// How many of the lines are not directives whose names resolve.
pub open spec fn failing_count(ls: Seq<String>, cat: Seq<Recipe>, mats: Seq<String>) -> nat
    decreases ls.len(),
{
    if ls.len() == 0 {
        0
    } else {
        failing_count(ls.drop_last(), cat, mats) + if line_ok(ls.last(), cat, mats) {
            0nat
        } else {
            1nat
        }
    }
}

/// `errs` holds, in order, the error of reading each of the lines.
pub open spec fn errors_of(lines: Seq<String>, errs: Seq<PlanError>) -> bool {
    &&& errs.len() == lines.len()
    &&& forall|i: int| 0 <= i < lines.len() ==> line_error((#[trigger] lines[i])@, errs[i])
}

/// The actions are those the lines say, one per line.
pub open spec fn parsed_chain(ls: Seq<String>, cat: Seq<Recipe>, mats: Seq<String>, acts: Seq<Action>) -> bool {
    &&& acts.len() == ls.len()
    &&& forall|k: int| 0 <= k < ls.len() ==> resolves_to(words(ls[k]@), cat, mats, #[trigger] acts[k])
}

/// Reads every non-blank line of a chain; fails with one error per line
/// that is not a directive or whose names do not resolve.
pub fn parse_chain(chain: &Vec<String>, all_recipes: &Vec<Recipe>, all_ingredients: &Vec<String>) -> (r:
    Result<Vec<Action>, Vec<PlanError>>)
    requires
        catalog_wf(all_recipes@),
    ensures
        ({
            let ls = nonblank(chain@);
            &&& (r is Ok) == (failing_count(ls, all_recipes@, all_ingredients@) == 0)
            &&& (r is Ok) ==> parsed_chain(ls, all_recipes@, all_ingredients@, r->Ok_0@)
                && actions_wf(r->Ok_0@)
            &&& (r is Err) ==> r->Err_0@.len() == failing_count(ls, all_recipes@, all_ingredients@)
            &&& (r is Err) ==> errors_of(failing_lines(ls, all_recipes@, all_ingredients@), r->Err_0@)
        }),
{
    let mut acts: Vec<Action> = Vec::new();
    let mut errs: Vec<PlanError> = Vec::new();
    let mut k: usize = 0;
    while k < chain.len()
        invariant
            k <= chain.len(),
            catalog_wf(all_recipes@),
            errs@.len() == failing_count(nonblank(chain@.subrange(0, k as int)), all_recipes@, all_ingredients@),
            errors_of(failing_lines(nonblank(chain@.subrange(0, k as int)), all_recipes@, all_ingredients@), errs@),
            errs@.len() == 0 ==> parsed_chain(nonblank(chain@.subrange(0, k as int)), all_recipes@, all_ingredients@, acts@),
            actions_wf(acts@),
        decreases chain.len() - k,
    {
        let ghost pre = chain@.subrange(0, k as int);
        let ghost ls = nonblank(pre);
        assert(chain@.subrange(0, k + 1).drop_last() =~= pre);
        assert(chain@.subrange(0, k + 1).last() == chain@[k as int]);
        let w = split_words(chain[k].as_str());
        if w.len() > 0 {
            assert(views(w@).len() > 0);
            let ghost ls2 = ls.push(chain@[k as int]);
            assert(ls2.drop_last() == ls);
            match Action::parse(chain[k].as_str(), all_recipes, all_ingredients) {
                Ok(a) => {
                    proof {
                        assert(line_ok(chain@[k as int], all_recipes@, all_ingredients@));
                    }
                    let ghost acts_before = acts@;
                    acts.push(a);
                    proof {
                        if errs@.len() == 0 {
                            assert forall|m: int| 0 <= m < ls2.len() implies resolves_to(
                                words(ls2[m]@),
                                all_recipes@,
                                all_ingredients@,
                                #[trigger] acts@[m],
                            ) by {
                                if m < ls.len() {
                                    assert(acts@[m] == acts_before[m]);
                                    assert(ls2[m] == ls[m]);
                                }
                            }
                        }
                        assert forall|m: int| 0 <= m < acts@.len() implies (#[trigger] acts@[m]).wf() by {
                            if m < acts_before.len() {
                                assert(acts@[m] == acts_before[m]);
                            }
                        }
                    }
                },
                Err(e) => {
                    let ghost eb = errs@;
                    errs.push(e);
                    proof {
                        let fl = failing_lines(ls, all_recipes@, all_ingredients@);
                        assert(failing_lines(ls2, all_recipes@, all_ingredients@) == fl.push(chain@[k as int]));
                        assert forall|i: int| 0 <= i < errs@.len() implies line_error(
                            (#[trigger] fl.push(chain@[k as int])[i])@,
                            errs@[i],
                        ) by {
                            if i < eb.len() {
                                assert(errs@[i] == eb[i]);
                            }
                        }
                    }
                },
            }
        }
        k = k + 1;
    }
    assert(chain@.subrange(0, chain@.len() as int) =~= chain@);
    if errs.len() > 0 {
        Err(errs)
    } else {
        Ok(acts)
    }
}

/// Why a chain could not be carried out: the lines that could not be read,
/// all of them, or the first action that failed.
#[derive(Debug)]
pub enum ChainFailure {
    Parse(Vec<PlanError>),
    Run(PlanError),
}

/// Reads a whole chain, then, only if every line could be read, carries
/// out its actions in order on a fresh state.
pub fn process_chain(chain: &Vec<String>, all_recipes: &Vec<Recipe>, all_ingredients: &Vec<String>) -> (r:
    Result<ChainState, ChainFailure>)
    requires
        catalog_wf(all_recipes@),
    ensures
        ({
            let ls = nonblank(chain@);
            let cat = all_recipes@;
            let mats = all_ingredients@;
            &&& (failing_count(ls, cat, mats) > 0) == (r matches Err(ChainFailure::Parse(_)))
            &&& (r matches Err(ChainFailure::Parse(errs)) ==> errs@.len() == failing_count(ls, cat, mats)
                && errors_of(failing_lines(ls, cat, mats), errs@))
            &&& (r is Ok) ==> r->Ok_0.wf()
            &&& (r is Ok) ==> exists|acts: Seq<Action>, trace: Seq<ChainState>|
                #[trigger] parsed_chain(ls, cat, mats, acts) && #[trigger] runs(trace, acts)
                    && trace.last() == r->Ok_0
            &&& (r matches Err(ChainFailure::Run(e)) ==> exists|acts: Seq<Action>, trace: Seq<ChainState>, after: ChainState|
                #[trigger] parsed_chain(ls, cat, mats, acts) && #[trigger] fails_after(trace, acts, after, e))
        }),
{
    let acts = match parse_chain(chain, all_recipes, all_ingredients) {
        Ok(a) => a,
        Err(errs) => {
            return Err(ChainFailure::Parse(errs));
        },
    };
    match run_actions(&acts) {
        Ok(st) => Ok(st),
        Err(e) => Err(ChainFailure::Run(e)),
    }
}

} // verus!
