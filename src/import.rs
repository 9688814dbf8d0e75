//! The recipe catalog: reading it from comma-separated records, with the
//! corrections and additions the planner applies to it.
//!
//! A record holds building, name, craft time in seconds, whether the recipe
//! is an alternate (`TRUE`), what unlocks it, whether it is unlocked
//! (`TRUE`), then four input and two output slots, each a material and a
//! quantity per minute. A record whose building is empty is skipped.

use vstd::prelude::*;
use crate::error::PlanError;
use crate::ingredient::Ingredient;
use crate::rate::{Frac, Rate};
use crate::recipe::{recipe_by_name_mut, recipe_position, Recipe};
use crate::text::{number, parse_number, str_eq, views};

verus! {

#[verifier::external_type_specification]
#[verifier::external_body]
pub struct ExCsvError(csv::Error);

/// Names what the csv crate reads from a text that has no header row: the
/// records, each as its fields, or `None` where reading fails.
pub uninterp spec fn csv_records(text: Seq<char>) -> Option<Seq<Seq<Seq<char>>>>;

/// Relies on csv's `Reader`, built by `ReaderBuilder::new().has_headers(false)`:
/// whether it reads the whole text, and the records it yields, as fields,
/// depend on the text alone.
#[verifier::external_body]
fn read_records(text: &str) -> (r: Result<Vec<Vec<String>>, csv::Error>)
    ensures
        (r is Ok) == (csv_records(text@) is Some),
        r is Ok ==> r->Ok_0@.map_values(|rec: Vec<String>| views(rec@)) == csv_records(text@)->0,
{
    let mut reader = csv::ReaderBuilder::new().has_headers(false).from_reader(text.as_bytes());
    reader.records().map(|res| res.map(|rec| rec.iter().map(String::from).collect())).collect()
}

/// The name of the bundled catalog file, which holds the production
/// recipes exported as comma-separated values, without header rows.
pub fn recipe_file() -> (r: &'static str)
    ensures
        r@ == "recipes.csv"@,
{
    "recipes.csv"
}

/// A slot is empty when its material or its quantity is; else its quantity
/// must be a number (sign, decimal numeral, exponent).
pub open spec fn slot_ok(part: Seq<char>, qty: Seq<char>) -> bool {
    part.len() == 0 || qty.len() == 0 || number(qty) is Some
}

/// `o` is what the slot's two fields say.
pub open spec fn slot_parsed(part: Seq<char>, qty: Seq<char>, o: Option<Ingredient>) -> bool {
    if part.len() == 0 || qty.len() == 0 {
        o is None
    } else {
        o matches Some(i) && i.part@ == part && i.wf() && i.quantity@.eqv(number(qty)->0)
    }
}

/// Every number of the record is a decimal numeral.
pub open spec fn record_ok(fs: Seq<Seq<char>>) -> bool {
    &&& number(fs[2]) is Some
    &&& slot_ok(fs[6], fs[7])
    &&& slot_ok(fs[8], fs[9])
    &&& slot_ok(fs[10], fs[11])
    &&& slot_ok(fs[12], fs[13])
    &&& slot_ok(fs[14], fs[15])
    &&& slot_ok(fs[16], fs[17])
}

/// `r` is the recipe that the record's fields say.
pub open spec fn record_parsed(fs: Seq<Seq<char>>, r: Recipe) -> bool {
    &&& r.building@ == fs[0]
    &&& r.name@ == fs[1]
    &&& r.craft_time_s.wf() && r.craft_time_s@.eqv(number(fs[2])->0)
    &&& r.is_alt == (fs[3] == "TRUE"@)
    &&& r.unlocks@ == fs[4]
    &&& r.is_unlocked == (fs[5] == "TRUE"@)
    &&& slot_parsed(fs[6], fs[7], r.in_1)
    &&& slot_parsed(fs[8], fs[9], r.in_2)
    &&& slot_parsed(fs[10], fs[11], r.in_3)
    &&& slot_parsed(fs[12], fs[13], r.in_4)
    &&& slot_parsed(fs[14], fs[15], r.out_1)
    &&& slot_parsed(fs[16], fs[17], r.out_2)
}

fn parse_ingredient(part: &String, quantity: &String) -> (r: Result<Option<Ingredient>, ()>)
    ensures
        (r is Ok) == slot_ok(part@, quantity@),
        (r is Ok) ==> slot_parsed(part@, quantity@, r->Ok_0),
{
    if part.as_str().unicode_len() == 0 || quantity.as_str().unicode_len() == 0 {
        return Ok(None);
    }
    match parse_number(quantity.as_str()) {
        Some(q) => Ok(Some(Ingredient::new(part.clone(), q))),
        None => Err(()),
    }
}

/// Reads one catalog record; `None` for a record whose building is empty.
pub fn parse_recipe(record: &Vec<String>) -> (r: Result<Option<Recipe>, PlanError>)
    ensures
        ({
            let fs = views(record@);
            &&& fs.len() > 0 && fs[0].len() == 0 ==> r == Ok::<Option<Recipe>, PlanError>(None)
            &&& !(fs.len() > 0 && fs[0].len() == 0) ==> {
                &&& (r is Ok) == (fs.len() >= 18 && record_ok(fs))
                &&& (r is Ok) ==> (r->Ok_0 matches Some(rec) && record_parsed(fs, rec) && rec.wf())
                &&& (r is Err) ==> (r->Err_0 matches PlanError::BadRecord { fields } && fields@
                    == record@)
            }
        }),
{
    let ghost fs = views(record@);
    if record.len() > 0 && record[0].as_str().unicode_len() == 0 {
        return Ok(None);
    }
    if record.len() < 18 {
        return Err(PlanError::BadRecord { fields: copy_strings(record) });
    }
    let craft = match parse_number(record[2].as_str()) {
        Some(c) => c,
        None => {
            return Err(PlanError::BadRecord { fields: copy_strings(record) });
        },
    };
    let in_1 = parse_ingredient(&record[6], &record[7]);
    let in_2 = parse_ingredient(&record[8], &record[9]);
    let in_3 = parse_ingredient(&record[10], &record[11]);
    let in_4 = parse_ingredient(&record[12], &record[13]);
    let out_1 = parse_ingredient(&record[14], &record[15]);
    let out_2 = parse_ingredient(&record[16], &record[17]);
    match (in_1, in_2, in_3, in_4, out_1, out_2) {
        (Ok(in_1), Ok(in_2), Ok(in_3), Ok(in_4), Ok(out_1), Ok(out_2)) => {
            let r = Recipe {
                building: record[0].clone(),
                name: record[1].clone(),
                craft_time_s: craft,
                is_alt: str_eq(record[3].as_str(), "TRUE"),
                unlocks: record[4].clone(),
                is_unlocked: str_eq(record[5].as_str(), "TRUE"),
                in_1,
                in_2,
                in_3,
                in_4,
                out_1,
                out_2,
            };
            proof {
                assert(r.wf()) by {
                    assert forall|k: int| 0 <= k < r.ingredients_seq().len() implies (
                    #[trigger] r.ingredients_seq()[k]).wf() by {
                        crate::recipe::lemma_slots_member(r, k);
                    }
                }
            }
            Ok(Some(r))
        },
        _ => Err(PlanError::BadRecord { fields: copy_strings(record) }),
    }
}

fn copy_strings(v: &Vec<String>) -> (r: Vec<String>)
    ensures
        r@ == v@,
{
    let mut out: Vec<String> = Vec::new();
    let mut k: usize = 0;
    while k < v.len()
        invariant
            k <= v.len(),
            out@ == v@.subrange(0, k as int),
        decreases v.len() - k,
    {
        out.push(v[k].clone());
        assert(out@ =~= v@.subrange(0, k + 1));
        k = k + 1;
    }
    assert(v@.subrange(0, v@.len() as int) =~= v@);
    out
}

} // verus!

verus! {

/// `b` is `a` with the quantity of its first input set to 12 per minute.
pub open spec fn first_input_set_to_twelve(a: Recipe, b: Recipe) -> bool {
    &&& b.building == a.building && b.name == a.name && b.craft_time_s == a.craft_time_s
    &&& b.is_alt == a.is_alt && b.unlocks == a.unlocks && b.is_unlocked == a.is_unlocked
    &&& b.in_2 == a.in_2 && b.in_3 == a.in_3 && b.in_4 == a.in_4
    &&& b.out_1 == a.out_1 && b.out_2 == a.out_2
    &&& b.in_1 matches Some(i) && i.part == a.in_1->0.part && i.quantity@ == Frac::of_int(12)
}

/// `after` is `before` with the Time Crystal recipe's first input set to 12.
pub open spec fn patched(before: Seq<Recipe>, after: Seq<Recipe>) -> bool {
    let j = recipe_position(before, "Time Crystal"@);
    &&& 0 <= j < before.len()
    &&& after.len() == before.len()
    &&& forall|k: int| 0 <= k < before.len() && k != j ==> after[k] == before[k]
    &&& first_input_set_to_twelve(before[j], after[j])
}

/// The recipe that burns uranium fuel rods in a nuclear power plant.
pub open spec fn burn_uranium(r: Recipe) -> bool {
    &&& r.wf()
    &&& r.building@ == "Nuclear Power Plant"@ && r.name@ == "Burn Uranium"@
    &&& r.craft_time_s@ == Frac::of_int(300)
    &&& !r.is_alt && r.is_unlocked && r.unlocks@.len() == 0
    &&& r.in_1 matches Some(i) && i.part@ == "Uranium Fuel Rod"@ && i.quantity@ == (Frac { n: 1, d: 5 })
    &&& r.in_2 matches Some(i) && i.part@ == "Water"@ && i.quantity@ == Frac::of_int(240)
    &&& r.in_3 is None && r.in_4 is None
    &&& r.out_1 matches Some(i) && i.part@ == "Uranium Waste"@ && i.quantity@ == Frac::of_int(10)
    &&& r.out_2 is None
}

/// Index of the first record named `name`, or -1.
pub open spec fn record_position(rs: Seq<Seq<Seq<char>>>, name: Seq<char>) -> int
    decreases rs.len(),
{
    if rs.len() == 0 {
        -1
    } else if record_position(rs.drop_last(), name) >= 0 {
        record_position(rs.drop_last(), name)
    } else if rs.last()[1] == name {
        rs.len() - 1
    } else {
        -1
    }
}

/// The records read as recipes, and the Time Crystal record, which the
/// corrections target, has a first input.
pub open spec fn catalog_ok(kept: Seq<Seq<Seq<char>>>) -> bool {
    let j = record_position(kept, "Time Crystal"@);
    &&& forall|k: int| 0 <= k < kept.len() ==> (#[trigger] kept[k]).len() >= 18 && record_ok(kept[k])
    &&& j >= 0
    &&& kept[j][6].len() > 0 && kept[j][7].len() > 0
}

proof fn lemma_record_position(kept: Seq<Seq<Seq<char>>>, cat: Seq<Recipe>, name: Seq<char>)
    requires
        catalog_records_of(kept, cat),
    ensures
        recipe_position(cat, name) == record_position(kept, name),
    decreases kept.len(),
{
    if kept.len() > 0 {
        assert(catalog_records_of(kept.drop_last(), cat.drop_last())) by {
            assert forall|k: int| 0 <= k < kept.drop_last().len() implies (#[trigger] kept.drop_last()[k]).len() >= 18
                && record_parsed(kept.drop_last()[k], cat.drop_last()[k]) by {
                assert(kept.drop_last()[k] == kept[k]);
                assert(kept[k].len() >= 18 && record_parsed(kept[k], cat[k]));
            }
        }
        lemma_record_position(kept.drop_last(), cat.drop_last(), name);
        assert(kept[kept.len() - 1].len() >= 18 && record_parsed(kept[kept.len() - 1], cat[cat.len() - 1]));
    }
}

/// Each record reads as the recipe at the same place.
pub open spec fn catalog_records_of(kept: Seq<Seq<Seq<char>>>, cat: Seq<Recipe>) -> bool {
    &&& cat.len() == kept.len()
    &&& forall|k: int| 0 <= k < kept.len() ==> (#[trigger] kept[k]).len() >= 18 && record_parsed(kept[k], cat[k])
}

/// Each record kept (one that names a building) reads as the recipe at
/// the same place.
pub open spec fn catalog_records(rs: Seq<Seq<Seq<char>>>, cat: Seq<Recipe>) -> bool {
    let kept = kept_records(rs);
    &&& cat.len() == kept.len()
    &&& forall|k: int| 0 <= k < kept.len() ==> (#[trigger] kept[k]).len() >= 18 && record_parsed(kept[k], cat[k])
}

/// Corrects the catalog: the Time Crystal recipe takes 12 diamonds a minute.
pub fn apply_patches(recipes: &mut Vec<Recipe>) -> (r: Result<(), PlanError>)
    ensures
        ({
            let j = recipe_position(old(recipes)@, "Time Crystal"@);
            &&& (r is Ok) == (j >= 0 && old(recipes)@[j].in_1 is Some)
            &&& r is Err ==> final(recipes)@ == old(recipes)@ && (r->Err_0 matches PlanError::MissingPatchTarget { recipe } && recipe@ == "Time Crystal"@)
            &&& r is Ok ==> patched(old(recipes)@, final(recipes)@)
        }),
{
    let tc = match recipe_by_name_mut(recipes, "Time Crystal") {
        Some(t) => t,
        None => {
            return Err(PlanError::MissingPatchTarget { recipe: String::from_str("Time Crystal") });
        },
    };
    if tc.in_1.is_none() {
        return Err(PlanError::MissingPatchTarget { recipe: String::from_str("Time Crystal") });
    }
    let diamonds = match &tc.in_1 {
        Some(d) => Ingredient::new(d.part.clone(), Rate::from_int(12)),
        None => {
            return Err(PlanError::MissingPatchTarget { recipe: String::from_str("Time Crystal") });
        },
    };
    tc.in_1 = Some(diamonds);
    Ok(())
}

/// Adds the recipes that the exported catalog lacks: burning uranium fuel
/// rods in a nuclear power plant.
pub fn add_custom(recipes: &mut Vec<Recipe>)
    ensures
        final(recipes)@.drop_last() == old(recipes)@,
        final(recipes)@.len() == old(recipes)@.len() + 1,
        burn_uranium(final(recipes)@.last()),
{
    let r = Recipe {
        building: String::from_str("Nuclear Power Plant"),
        name: String::from_str("Burn Uranium"),
        craft_time_s: Rate::from_int(300),
        is_alt: false,
        unlocks: String::new(),
        is_unlocked: true,
        in_1: Some(Ingredient::new(String::from_str("Uranium Fuel Rod"), Rate { num: 1, den: 5 })),
        in_2: Some(Ingredient::new(String::from_str("Water"), Rate::from_int(240))),
        in_3: None,
        in_4: None,
        out_1: Some(Ingredient::new(String::from_str("Uranium Waste"), Rate::from_int(10))),
        out_2: None,
    };
    proof {
        assert(r.wf()) by {
            assert forall|k: int| 0 <= k < r.ingredients_seq().len() implies (
            #[trigger] r.ingredients_seq()[k]).wf() by {
                crate::recipe::lemma_slots_member(r, k);
            }
        }
    }
    recipes.push(r);
}

pub open spec fn catalog_wf(cat: Seq<Recipe>) -> bool {
    forall|k: int| 0 <= k < cat.len() ==> (#[trigger] cat[k]).wf()
}

/// The records that name a building.
pub open spec fn kept_records(rs: Seq<Seq<Seq<char>>>) -> Seq<Seq<Seq<char>>>
    decreases rs.len(),
{
    if rs.len() == 0 {
        Seq::empty()
    } else if rs.last().len() > 0 && rs.last()[0].len() == 0 {
        kept_records(rs.drop_last())
    } else {
        kept_records(rs.drop_last()).push(rs.last())
    }
}

proof fn lemma_record_position_range(rs: Seq<Seq<Seq<char>>>, name: Seq<char>)
    ensures
        -1 <= record_position(rs, name) < rs.len(),
    decreases rs.len(),
{
    if rs.len() > 0 {
        lemma_record_position_range(rs.drop_last(), name);
    }
}

/// The records kept from a prefix begin the records kept from the whole.
proof fn lemma_kept_prefix(rs: Seq<Seq<Seq<char>>>, k: int)
    requires
        0 <= k <= rs.len(),
    ensures
        kept_records(rs.subrange(0, k)).len() <= kept_records(rs).len(),
        kept_records(rs).subrange(0, kept_records(rs.subrange(0, k)).len() as int) == kept_records(
            rs.subrange(0, k),
        ),
    decreases rs.len() - k,
{
    if k == rs.len() {
        assert(rs.subrange(0, k) =~= rs);
        assert(kept_records(rs).subrange(0, kept_records(rs).len() as int) =~= kept_records(rs));
    } else {
        lemma_kept_prefix(rs, k + 1);
        let p = kept_records(rs.subrange(0, k));
        let q = kept_records(rs.subrange(0, k + 1));
        assert(rs.subrange(0, k + 1).drop_last() =~= rs.subrange(0, k));
        assert(q.subrange(0, p.len() as int) =~= p);
        assert(kept_records(rs).subrange(0, p.len() as int) =~= q.subrange(0, p.len() as int));
    }
}

/// Reads the catalog from its comma-separated text, then applies the
/// corrections and the additions.
pub fn get_all_recipes(text: &str) -> (r: Result<Vec<Recipe>, PlanError>)
    ensures
        r is Ok ==> catalog_wf(r->Ok_0@) && r->Ok_0@.len() == kept_records(csv_records(text@)->0).len() + 1,
        r is Ok ==> exists|parsed: Seq<Recipe>|
            #[trigger] catalog_records(csv_records(text@)->0, parsed) && patched(
                parsed,
                r->Ok_0@.drop_last(),
            ),
        r is Ok ==> burn_uranium(r->Ok_0@.last()),
        (csv_records(text@) is Some && catalog_ok(kept_records(csv_records(text@)->0))) ==> r is Ok,
        r is Err ==> (r->Err_0 is BadCatalog || r->Err_0 is BadRecord || r->Err_0 is MissingPatchTarget),
{
    let records = match read_records(text) {
        Ok(rs) => rs,
        Err(_) => {
            return Err(PlanError::BadCatalog);
        },
    };
    let ghost rs = records@.map_values(|rec: Vec<String>| views(rec@));
    let ghost good = catalog_ok(kept_records(rs));
    let mut recipes: Vec<Recipe> = Vec::new();
    let mut k: usize = 0;
    while k < records.len()
        invariant
            k <= records.len(),
            rs == records@.map_values(|rec: Vec<String>| views(rec@)),
            catalog_wf(recipes@),
            recipes@.len() == kept_records(rs.subrange(0, k as int)).len(),
            catalog_records(rs.subrange(0, k as int), recipes@),
            good == catalog_ok(kept_records(rs)),
            rs == csv_records(text@)->0,
        decreases records.len() - k,
    {
        assert(rs.subrange(0, k + 1).drop_last() =~= rs.subrange(0, k as int));
        assert(rs.subrange(0, k + 1).last() == views(records@[k as int]@));
        match parse_recipe(&records[k]) {
            Ok(Some(rec)) => {
                let ghost before = recipes@;
                recipes.push(rec);
                proof {
                    let pre = rs.subrange(0, k as int);
                    let kp = kept_records(pre);
                    let kn = kept_records(rs.subrange(0, k + 1));
                    assert(kn == kp.push(views(records@[k as int]@)));
                    assert forall|m: int| 0 <= m < kn.len() implies (#[trigger] kn[m]).len() >= 18
                        && record_parsed(kn[m], recipes@[m]) by {
                        if m < kp.len() {
                            assert(kn[m] == kp[m]);
                            assert(recipes@[m] == before[m]);
                        }
                    }
                    assert forall|m: int| 0 <= m < recipes@.len() implies (#[trigger] recipes@[m]).wf() by {
                        if m < before.len() {
                            assert(recipes@[m] == before[m]);
                        }
                    }
                }
            },
            Ok(None) => {},
            Err(e) => {
                proof {
                    if good {
                        let kp = kept_records(rs.subrange(0, k as int));
                        let kn = kept_records(rs.subrange(0, k + 1));
                        lemma_kept_prefix(rs, k + 1);
                        assert(kn == kp.push(views(records@[k as int]@)));
                        assert(kept_records(rs)[kp.len() as int] == kn[kp.len() as int]);
                    }
                }
                return Err(e);
            },
        }
        k = k + 1;
    }
    assert(rs.subrange(0, rs.len() as int) =~= rs);
    let ghost before = recipes@;
    assert(catalog_records(csv_records(text@)->0, before));
    proof {
        if good {
            lemma_record_position(kept_records(rs), before, "Time Crystal"@);
            lemma_record_position_range(kept_records(rs), "Time Crystal"@);
            let j = record_position(kept_records(rs), "Time Crystal"@);
            assert(kept_records(rs)[j].len() >= 18 && record_parsed(kept_records(rs)[j], before[j]));
        }
    }
    match apply_patches(&mut recipes) {
        Ok(()) => {},
        Err(e) => {
            return Err(e);
        },
    }
    proof {
        let j = recipe_position(before, "Time Crystal"@);
        assert forall|m: int| 0 <= m < recipes@.len() implies (#[trigger] recipes@[m]).wf() by {
            if m != j {
                assert(recipes@[m] == before[m]);
            } else {
                let a = before[j];
                let b = recipes@[j];
                assert(a.wf());
                assert forall|t: int| 0 <= t < b.ingredients_seq().len() implies (
                #[trigger] b.ingredients_seq()[t]).wf() by {
                    crate::recipe::lemma_slots_member(b, t);
                    assert(a.in_2 is Some ==> a.ingredients_seq().contains(a.in_2->0)) by {
                        crate::recipe::lemma_slot_in(a);
                    }
                    crate::recipe::lemma_slot_in(a);
                }
            }
        }
    }
    add_custom(&mut recipes);
    proof {
        assert forall|m: int| 0 <= m < recipes@.len() implies (#[trigger] recipes@[m]).wf() by {
            if m < recipes@.len() - 1 {
                assert(recipes@[m] == recipes@.drop_last()[m]);
            }
        }
    }
    Ok(recipes)
}

} // verus!
