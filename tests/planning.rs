use factory_plan::blueprint::{base_power_mw, power_base_mw, State};
use factory_plan::chain::ChainState;
use factory_plan::dsl::{parse_chain, parse_line, process_chain, run_actions, Action, ChainFailure, Directive};
use factory_plan::error::PlanError;
use factory_plan::import::{add_custom, apply_patches, get_all_recipes, parse_recipe, recipe_file};
use factory_plan::ingredient::{Ingredient, Transport};
use factory_plan::ledger::Group;
use factory_plan::lookup::{
    best_match, find_ingredient_in_recipe, find_ingredient_name, find_recipe, material_names,
};
use factory_plan::rate::Rate;
use factory_plan::recipe::{recipe_by_name_mut, Recipe};
use factory_plan::text::{parse_decimal, parse_number, split_words};

fn r(n: i64, d: i64) -> Rate {
    Rate::ratio(n, d)
}

fn val(x: &Rate) -> f64 {
    x.num as f64 / x.den as f64
}

fn ing(part: &str, q: i64) -> Ingredient {
    Ingredient::new(part.to_string(), Rate::from_int(q))
}

fn recipe(building: &str, name: &str, ins: Vec<Ingredient>, outs: Vec<Ingredient>) -> Recipe {
    let mut ins = ins.into_iter();
    let mut outs = outs.into_iter();
    Recipe {
        building: building.to_string(),
        name: name.to_string(),
        craft_time_s: Rate::from_int(2),
        is_alt: false,
        unlocks: String::new(),
        is_unlocked: true,
        in_1: ins.next(),
        in_2: ins.next(),
        in_3: ins.next(),
        in_4: ins.next(),
        out_1: outs.next(),
        out_2: outs.next(),
    }
}

fn catalog() -> Vec<Recipe> {
    vec![
        recipe("Smelter", "Iron Ingot", vec![ing("Iron Ore", 30)], vec![ing("Iron Ingot", 30)]),
        recipe("Constructor", "Iron Plate", vec![ing("Iron Ingot", 30)], vec![ing("Iron Plate", 20)]),
        recipe("Refinery", "Plastic", vec![ing("Crude Oil", 30)], vec![ing("Plastic", 20), ing("Heavy Oil Residue", 10)]),
    ]
}

fn lines(ls: &[&str]) -> Vec<String> {
    ls.iter().map(|s| s.to_string()).collect()
}

fn balance_of(g: &Group, part: &str) -> Option<Rate> {
    let b = g.balances().expect("balance fits");
    b.iter().find(|i| i.part == part).map(|i| i.quantity)
}

fn run(ls: &[&str]) -> Result<ChainState, ChainFailure> {
    let cat = catalog();
    let mats = material_names(&cat);
    process_chain(&lines(ls), &cat, &mats)
}

fn only_group(st: &ChainState) -> &Group {
    assert_eq!(st.groups.len(), 1);
    &st.groups[0]
}

// scenario: 60/min belt input, 45/min belt output, belts of 780, machines by three
#[test]
fn blueprint_sizing_scenario() {
    let rec = recipe("Constructor", "Test", vec![ing("Iron Ingot", 60)], vec![ing("Iron Rod", 45)]);
    let (mb, mp) = rec.max_outputs();
    assert_eq!((mb.num, mb.den), (60, 1));
    assert_eq!(mp.num, 0);
    let bp = rec.suggest_blueprint(&State::default()).unwrap();
    assert!(bp.use_belt);
    assert!(!bp.use_pipe);
    let m = bp.m_per_belt.unwrap();
    assert_eq!((m.num, m.den), (13, 1));
    assert!(bp.m_per_pipe.is_none());
    assert_eq!((bp.n_boxes.num, bp.n_boxes.den), (5, 1));
    assert_eq!((bp.pref_mult.num, bp.pref_mult.den), (3, 1));
    assert_eq!((bp.clock.num, bp.clock.den), (13, 15));
    assert!((val(&bp.clock) - 0.8667).abs() < 1e-4);
    assert_eq!(bp.base_power_mw, 4);
    assert_eq!((bp.full_clock_power_mw.num, bp.full_clock_power_mw.den), (60, 1));
}

// scenario: mine 100 Iron Ore, all of it into Iron Ingot (30 ore per run)
#[test]
fn all_into_scenario() {
    let st = run(&["group G", "mine 100 Iron Ore", "all Iron Ore into Iron Ingot"]).unwrap();
    let g = only_group(&st);
    assert_eq!(g.name, "G");
    assert_eq!(g.recipes.len(), 1);
    let (scale, rec) = &g.recipes[0];
    assert_eq!(rec.name, "Iron Ingot");
    assert_eq!((scale.num, scale.den), (10, 3));
    assert!((val(scale) - 3.3333).abs() < 1e-3);
    let ore = balance_of(g, "Iron Ore").unwrap();
    assert_eq!(ore.num, 0);
    let ingot = balance_of(g, "Iron Ingot").unwrap();
    assert_eq!((ingot.num, ingot.den), (100, 1));
}

// scenario: use half of the same 100 units
#[test]
fn use_fraction_scenario() {
    let st = run(&["group G", "mine 100 Iron Ore", "use 0.5 Iron Ore into Iron Ingot"]).unwrap();
    let g = only_group(&st);
    let (scale, _) = &g.recipes[0];
    assert_eq!((scale.num, scale.den), (5, 3));
    assert!((val(scale) - 1.6667).abs() < 1e-3);
    let ore = balance_of(g, "Iron Ore").unwrap();
    assert_eq!((ore.num, ore.den), (50, 1));
}

#[test]
fn use_fraction_lowers_balance_by_fraction() {
    let st = run(&["group G", "mine 90 Iron Ore", "use 0.25 Iron Ore into Iron Ingot"]).unwrap();
    let ore = balance_of(only_group(&st), "Iron Ore").unwrap();
    assert_eq!((ore.num, ore.den), (135, 2));
}

#[test]
fn chained_allocations_balance() {
    let st = run(&[
        "# iron",
        "",
        "group Iron",
        "mine 60 Iron Ore",
        "all Iron Ore into Iron Ingot",
        "all Iron Ingot into Iron Plate",
    ])
    .unwrap();
    let g = only_group(&st);
    assert_eq!(g.recipes.len(), 2);
    assert_eq!(balance_of(g, "Iron Ore").unwrap().num, 0);
    assert_eq!(balance_of(g, "Iron Ingot").unwrap().num, 0);
    let plate = balance_of(g, "Iron Plate").unwrap();
    assert_eq!((plate.num, plate.den), (40, 1));
}

#[test]
fn merge_conservation_concrete() {
    let mut list: Vec<Ingredient> = Vec::new();
    for q in [r(1, 2), r(1, 3), r(-1, 6), Rate::from_int(4)] {
        Ingredient::new("Coal".to_string(), q).merge_with(&mut list).unwrap();
    }
    assert_eq!(list.len(), 1);
    assert_eq!(list[0].part, "Coal");
    assert_eq!((list[0].quantity.num, list[0].quantity.den), (14, 3));
}

#[test]
fn merge_with_appends_new_material() {
    let mut list = vec![ing("Coal", 1)];
    ing("Water", 2).merge_with(&mut list).unwrap();
    ing("Coal", 3).merge_with(&mut list).unwrap();
    assert_eq!(list.len(), 2);
    assert_eq!(list[0].part, "Coal");
    assert_eq!(list[0].quantity.num, 4);
    assert_eq!(list[1].part, "Water");
    assert_eq!(list[1].quantity.num, 2);
}

#[test]
fn merge_same_part() {
    let mut a = ing("Coal", 5);
    a.merge(&ing("Coal", -7)).unwrap();
    assert_eq!(a.quantity.num, -2);
    assert!(a.is_negative());
}

#[test]
fn merge_overflow_is_reported() {
    let mut list = vec![Ingredient::new("Coal".to_string(), Rate::from_int(i64::MAX))];
    let e = ing("Coal", 1).merge_with(&mut list).unwrap_err();
    assert_eq!(e, PlanError::Overflow);
    assert_eq!(list[0].quantity.num, i64::MAX);
}

#[test]
fn empty_group_balance_concrete() {
    let mut g = Group::new("G".to_string());
    g.inputs = vec![ing("Coal", 10), ing("Water", 5)];
    g.outputs = vec![ing("Water", 8), ing("Steel", 2)];
    let b = g.balances().unwrap();
    let parts: Vec<&str> = b.iter().map(|i| i.part.as_str()).collect();
    assert_eq!(parts, vec!["Coal", "Water", "Steel"]);
    assert_eq!(b[0].quantity.num, 10);
    assert_eq!(b[1].quantity.num, -3);
    assert_eq!(b[2].quantity.num, -2);
}

#[test]
fn empty_group_has_empty_balance() {
    let g = Group::new("G".to_string());
    assert!(g.balances().unwrap().is_empty());
}

#[test]
fn balance_counts_recipe_outputs_then_inputs() {
    let mut g = Group::new("G".to_string());
    g.inputs = vec![ing("Crude Oil", 60)];
    g.recipes.push((Rate::from_int(2), catalog()[2].clone()));
    let b = g.balances().unwrap();
    let parts: Vec<&str> = b.iter().map(|i| i.part.as_str()).collect();
    assert_eq!(parts, vec!["Crude Oil", "Plastic", "Heavy Oil Residue"]);
    assert_eq!(b[0].quantity.num, 0);
    assert_eq!(b[1].quantity.num, 40);
    assert_eq!(b[2].quantity.num, 20);
}

#[test]
fn neg_and_scale() {
    let i = Ingredient::new("Coal".to_string(), r(3, 2));
    let n = i.neg();
    assert_eq!((n.quantity.num, n.quantity.den), (-3, 2));
    let s = i.scale(&r(4, 9)).unwrap();
    assert_eq!((s.quantity.num, s.quantity.den), (2, 3));
    assert_eq!(s.part, "Coal");
}

#[test]
fn transport_classification() {
    assert_eq!(ing("Water", 1).transport(), Transport::Pipe);
    assert_eq!(ing("Crude Oil", 1).transport(), Transport::Pipe);
    assert_eq!(ing("Iron Ore", 1).transport(), Transport::Belt);
    assert_eq!(Transport::Pipe.name(), "Pipe");
}

#[test]
fn same_type_ignores_case() {
    let i = ing("Iron Ore", 1);
    assert!(i.same_type("iron ORE"));
    assert!(!i.same_type("iron ingot"));
    assert!(i.same_type_as(&ing("Iron Ore", 5)));
    assert!(!i.same_type_as(&ing("iron ore", 5)));
}

#[test]
fn rate_arithmetic() {
    let a = r(1, 2);
    let b = r(1, 3);
    let s = a.add(&b).unwrap();
    assert_eq!((s.num, s.den), (5, 6));
    let d = a.sub(&b).unwrap();
    assert_eq!((d.num, d.den), (1, 6));
    let p = a.mul(&b).unwrap();
    assert_eq!((p.num, p.den), (1, 6));
    let q = a.div(&r(-1, 4)).unwrap();
    assert_eq!((q.num, q.den), (-2, 1));
    assert!(b.lt(&a));
    assert!(a.le(&a));
    assert!(Rate::from_int(i64::MAX).add(&Rate::from_int(1)).is_none());
}

#[test]
fn parse_decimal_values() {
    let x = parse_decimal("0.5").unwrap();
    assert_eq!((x.num, x.den), (1, 2));
    let y = parse_decimal("100").unwrap();
    assert_eq!((y.num, y.den), (100, 1));
    let z = parse_decimal(".25").unwrap();
    assert_eq!((z.num, z.den), (1, 4));
    assert!(parse_decimal(".").is_none());
    assert!(parse_decimal("1.2.3").is_none());
    assert!(parse_decimal("1|2").is_none());
    assert!(parse_decimal("").is_none());
}

#[test]
fn split_words_collapses_whitespace() {
    let w = split_words("  all  Iron Ore\tinto   Iron Ingot ");
    assert_eq!(w, vec!["all", "Iron", "Ore", "into", "Iron", "Ingot"]);
}

#[test]
fn parse_line_forms() {
    match parse_line("group Iron Chain").unwrap() {
        Directive::Group { name } => assert_eq!(name, "Iron Chain"),
        d => panic!("{:?}", d),
    }
    match parse_line("mine 12.5 Iron Ore").unwrap() {
        Directive::Mine { quantity, name } => {
            assert_eq!((quantity.num, quantity.den), (25, 2));
            assert_eq!(name, "Iron Ore");
        },
        d => panic!("{:?}", d),
    }
    match parse_line("all Ore into Ore into Bar").unwrap() {
        Directive::AllInto { ingredient, recipe } => {
            assert_eq!(ingredient, "Ore into Ore");
            assert_eq!(recipe, "Bar");
        },
        d => panic!("{:?}", d),
    }
    match parse_line("use 0.5 Iron Ore into Iron Ingot").unwrap() {
        Directive::Use { fraction, ingredient, recipe } => {
            assert_eq!((fraction.num, fraction.den), (1, 2));
            assert_eq!(ingredient, "Iron Ore");
            assert_eq!(recipe, "Iron Ingot");
        },
        d => panic!("{:?}", d),
    }
    assert!(matches!(parse_line("# a note").unwrap(), Directive::Comment { .. }));
}

#[test]
fn parse_line_rejects() {
    for bad in ["#", "group", "mine x Iron Ore", "mine 5", "all Iron Ore", "all into Bar", "use 0.5 Ore", "dig 5 Ore", ""] {
        assert!(matches!(parse_line(bad), Err(PlanError::Parse { .. })), "{bad}");
    }
}

#[test]
fn chain_parse_errors_are_all_reported() {
    match run(&["group G", "mine x Iron Ore", "mine 5 Iron Ore", "bogus line"]) {
        Err(ChainFailure::Parse(errs)) => assert_eq!(errs.len(), 2),
        other => panic!("{:?}", other),
    }
}

#[test]
fn chain_without_group_fails() {
    match run(&["mine 100 Iron Ore"]) {
        Err(ChainFailure::Run(e)) => assert_eq!(e, PlanError::NoCurrentGroup),
        other => panic!("{:?}", other),
    }
}

#[test]
fn allocation_needs_balance_entry() {
    match run(&["group G", "all Iron Ore into Iron Ingot"]) {
        Err(ChainFailure::Run(PlanError::NotInBalance { part })) => assert_eq!(part, "Iron Ore"),
        other => panic!("{:?}", other),
    }
}

#[test]
fn allocation_needs_positive_balance() {
    match run(&["group G", "mine 0 Iron Ore", "all Iron Ore into Iron Ingot"]) {
        Err(ChainFailure::Run(PlanError::NonPositiveBalance { part })) => assert_eq!(part, "Iron Ore"),
        other => panic!("{:?}", other),
    }
}

#[test]
fn add_recipe_rejects_non_input() {
    let mut st = ChainState::new();
    st.set_or_make_group("G");
    ing("Plastic", 10).merge_with(&mut st.group().inputs).unwrap();
    let e = st.add_recipe(&ing("Plastic", 0), &catalog()[2], &Rate::from_int(1)).unwrap_err();
    assert!(matches!(e, PlanError::NotARecipeInput { .. }));
    assert!(st.groups[0].recipes.is_empty());
}

#[test]
fn add_recipe_without_group() {
    let mut st = ChainState::new();
    let e = st.add_recipe(&ing("Iron Ore", 0), &catalog()[0], &Rate::from_int(1)).unwrap_err();
    assert_eq!(e, PlanError::NoCurrentGroup);
}

#[test]
fn add_recipe_zero_input() {
    let mut st = ChainState::new();
    st.set_or_make_group("G");
    ing("Iron Ore", 10).merge_with(&mut st.group().inputs).unwrap();
    let rec = recipe("Smelter", "Odd", vec![ing("Iron Ore", 0)], vec![ing("Iron Ingot", 1)]);
    let e = st.add_recipe(&ing("Iron Ore", 0), &rec, &Rate::from_int(1)).unwrap_err();
    assert!(matches!(e, PlanError::ZeroRecipeInput { .. }));
}

#[test]
fn regrouping_keeps_contents() {
    let st = run(&["group A", "mine 10 Iron Ore", "group B", "mine 5 Crude Oil", "group A", "mine 1 Iron Ore"]).unwrap();
    assert_eq!(st.groups.len(), 2);
    assert_eq!(st.current_group.as_deref(), Some("A"));
    assert_eq!(st.groups[0].inputs[0].quantity.num, 11);
    assert_eq!(st.groups[1].inputs[0].part, "Crude Oil");
}

#[test]
fn apply_and_run_actions() {
    let cat = catalog();
    let mats = material_names(&cat);
    let acts = parse_chain(&lines(&["group G", "mine 30 Iron Ore"]), &cat, &mats).unwrap();
    assert_eq!(acts.len(), 2);
    let st = run_actions(&acts).unwrap();
    assert_eq!(st.groups[0].inputs[0].quantity.num, 30);
    let mut st2 = ChainState::new();
    st2.apply(&Action::Group { name: "H".to_string() }).unwrap();
    st2.apply(&Action::Comment("# x".to_string())).unwrap();
    assert_eq!(st2.groups.len(), 1);
}

#[test]
fn names_resolve_exactly_then_fuzzily() {
    let cat = catalog();
    assert_eq!(find_recipe(&cat, "Iron Plate").unwrap().name, "Iron Plate");
    assert_eq!(find_recipe(&cat, "plastc").unwrap().name, "Plastic");
    assert!(matches!(find_recipe(&cat, "zzzz"), Err(PlanError::UnknownRecipe { .. })));
    let mats = material_names(&cat);
    assert_eq!(mats, vec!["Iron Ore", "Iron Ingot", "Iron Plate", "Crude Oil", "Plastic", "Heavy Oil Residue"]);
    assert_eq!(find_ingredient_name(&mats, "crude").unwrap(), "Crude Oil");
    assert!(matches!(find_ingredient_name(&mats, "qqq"), Err(PlanError::UnknownIngredient { .. })));
    let i = find_ingredient_in_recipe(&cat[1], "ingot").unwrap();
    assert_eq!(i.part, "Iron Ingot");
    assert!(matches!(find_ingredient_in_recipe(&cat[1], "plate"), Err(PlanError::NotARecipeInput { .. })));
}

#[test]
fn fuzzy_names_in_a_chain() {
    let st = run(&["group G", "mine 100 iron ore", "all ore into ingot"]).unwrap();
    let g = only_group(&st);
    assert_eq!(g.inputs[0].part, "Iron Ore");
    assert_eq!(g.recipes[0].1.name, "Iron Ingot");
}

#[test]
fn best_match_prefers_last_of_equal() {
    assert_eq!(best_match(&vec![Some(3), None, Some(7), Some(7), Some(1)]), Some(3));
    assert_eq!(best_match(&vec![None, None]), None);
    assert_eq!(best_match(&vec![]), None);
}

#[test]
fn sizing_with_pipes_and_whole_counts() {
    // 30 crude oil by pipe, 20 plastic and 10 residue; pipes of 600 bind at 20 per pipe
    let bp = catalog()[2].suggest_blueprint(&State::default()).unwrap();
    assert!(bp.use_belt && bp.use_pipe);
    let mb = bp.m_per_belt.unwrap();
    assert_eq!((mb.num, mb.den), (39, 1));
    let mp = bp.m_per_pipe.unwrap();
    assert_eq!((mp.num, mp.den), (20, 1));
    assert_eq!((bp.n_boxes.num, bp.n_boxes.den), (5, 1));
    assert_eq!((bp.clock.num, bp.clock.den), (1, 1));
}

#[test]
fn sizing_errors() {
    let none = recipe("Constructor", "Nothing", vec![], vec![]);
    assert_eq!(none.suggest_blueprint(&State::default()).unwrap_err(), PlanError::NothingToTransport);
    let odd = recipe("Workbench", "Odd", vec![ing("Iron Ore", 1)], vec![]);
    assert!(matches!(odd.suggest_blueprint(&State::default()), Err(PlanError::UnknownBuilding { .. })));
}

#[test]
fn state_defaults_and_power() {
    let st = State::default();
    assert_eq!(st.belt_ipm.num, 780);
    assert_eq!(st.pipe_ipm.num, 600);
    assert_eq!(st.prefered_building_multiple("Smelter").unwrap().num, 4);
    assert!(st.prefered_building_multiple("Workbench").is_none());
    assert_eq!(base_power_mw("Blender"), Some(75));
    assert_eq!(base_power_mw("Nuclear Power Plant"), Some(-2500));
    assert_eq!(power_base_mw("Assembler", &r(1, 2)), Ok(15));
    assert_eq!(power_base_mw("Assembler", &r(5, 2)), Err(PlanError::ClockOutOfRange));
    assert_eq!(power_base_mw("Assembler", &Rate::zero()), Err(PlanError::ClockOutOfRange));
    assert!(matches!(power_base_mw("Workbench", &r(1, 2)), Err(PlanError::NoBasePower { .. })));
}

#[test]
fn recipe_views() {
    let rec = &catalog()[2];
    assert_eq!(rec.inputs().len(), 1);
    assert_eq!(rec.outputs().len(), 2);
    let all: Vec<String> = rec.ingredients().into_iter().map(|i| i.part).collect();
    assert_eq!(all, vec!["Crude Oil", "Plastic", "Heavy Oil Residue"]);
}

#[test]
fn recipe_lookup_for_editing() {
    let mut cat = catalog();
    recipe_by_name_mut(&mut cat, "Iron Plate").unwrap().is_alt = true;
    assert!(cat[1].is_alt);
    assert!(recipe_by_name_mut(&mut cat, "Missing").is_none());
}

fn record(fields: &[&str]) -> Vec<String> {
    fields.iter().map(|s| s.to_string()).collect()
}

#[test]
fn catalog_records() {
    let rec = parse_recipe(&record(&[
        "Smelter", "Iron Ingot", "2", "FALSE", "Onboarding", "TRUE", "Iron Ore", "30", "", "", "", "", "", "",
        "Iron Ingot", "30", "", "",
    ]))
    .unwrap()
    .unwrap();
    assert_eq!(rec.name, "Iron Ingot");
    assert!(!rec.is_alt && rec.is_unlocked);
    assert_eq!(rec.in_1.as_ref().unwrap().quantity.num, 30);
    assert!(rec.in_2.is_none());
    assert!(parse_recipe(&record(&["", "x"])).unwrap().is_none());
    assert!(matches!(parse_recipe(&record(&["Smelter", "Short"])), Err(PlanError::BadRecord { .. })));
}

#[test]
fn catalog_from_text() {
    let text = "Smelter,Iron Ingot,2,FALSE,,TRUE,Iron Ore,30,,,,,,,Iron Ingot,30,,\n\
                ,,,,,,,,,,,,,,,,,\n\
                Assembler,Time Crystal,10,FALSE,,TRUE,Diamonds,6,,,,,,,Time Crystal,3,,\n";
    let cat = get_all_recipes(text).unwrap();
    assert_eq!(cat.len(), 3);
    assert_eq!(cat[1].in_1.as_ref().unwrap().quantity.num, 12);
    assert_eq!(cat[2].name, "Burn Uranium");
    let rod = cat[2].in_1.as_ref().unwrap();
    assert_eq!((rod.quantity.num, rod.quantity.den), (1, 5));
    assert_eq!(recipe_file(), "recipes.csv");
}

#[test]
fn catalog_needs_time_crystal() {
    let mut cat = catalog();
    assert!(matches!(apply_patches(&mut cat), Err(PlanError::MissingPatchTarget { .. })));
    add_custom(&mut cat);
    assert_eq!(cat.len(), 4);
    assert!(matches!(get_all_recipes("Smelter,Bad,x,FALSE,,TRUE,,,,,,,,,,,,\n"), Err(PlanError::BadRecord { .. })));
}

#[test]
fn fractional_balance_after_allocation() {
    let mut g = Group::new("G".to_string());
    g.inputs = vec![ing("Iron Ore", 100)];
    g.recipes.push((r(10, 3), catalog()[0].clone()));
    g.recipes.push((r(1, 7), catalog()[1].clone()));
    let b = g.balances().unwrap();
    let parts: Vec<&str> = b.iter().map(|i| i.part.as_str()).collect();
    assert_eq!(parts, vec!["Iron Ore", "Iron Ingot", "Iron Plate"]);
    assert_eq!(b[0].quantity.num, 0);
    assert_eq!((b[1].quantity.num, b[1].quantity.den), (670, 7));
    assert_eq!((b[2].quantity.num, b[2].quantity.den), (20, 7));
}

#[test]
fn comment_needs_text() {
    assert!(matches!(parse_line("#"), Err(PlanError::Parse { .. })));
    assert!(matches!(parse_line("#note").unwrap(), Directive::Comment { .. }));
}

#[test]
fn catalog_signed_numbers() {
    let rec = parse_recipe(&record(&[
        "Nuclear Power Plant", "Odd", "60", "FALSE", "", "TRUE", "Water", "-2.5", "", "", "", "", "", "",
        "", "", "", "",
    ]))
    .unwrap()
    .unwrap();
    let q = rec.in_1.unwrap().quantity;
    assert_eq!((q.num, q.den), (-5, 2));
    let rec = parse_recipe(&record(&[
        "Smelter", "Exp", "1e3", "FALSE", "", "TRUE", "", "", "", "", "", "", "", "", "", "", "", "",
    ]))
    .unwrap()
    .unwrap();
    assert_eq!(rec.craft_time_s.num, 1000);
    assert!(matches!(parse_recipe(&record(&[
        "Smelter", "Bad", "1x", "FALSE", "", "TRUE", "", "", "", "", "", "", "", "", "", "", "", "",
    ])), Err(PlanError::BadRecord { .. })));
}

fn exact(x: &Rate) -> (i64, i64) {
    (x.num, x.den)
}

#[test]
fn sizing_keeps_a_near_whole_need() {
    // one converter per blueprint, one item a minute, belts of 80001/20000: a need of 4.00005
    let rec = recipe("Converter", "Near", vec![ing("Iron Ore", 1)], vec![]);
    let mut st = State::default();
    st.belt_ipm = r(80001, 20000);
    let bp = rec.suggest_blueprint(&st).unwrap();
    assert_eq!(exact(&bp.n_boxes), (80001, 20000));
    assert_eq!(exact(&bp.clock), (1, 1));
    // and just below a whole number
    st.belt_ipm = r(79999, 20000);
    let bp = rec.suggest_blueprint(&st).unwrap();
    assert_eq!(exact(&bp.n_boxes), (79999, 20000));
    assert_eq!(exact(&bp.clock), (1, 1));
}

#[test]
fn sizing_keeps_throughput() {
    let rec = recipe("Constructor", "Test", vec![ing("Iron Ingot", 60)], vec![ing("Iron Rod", 45)]);
    let bp = rec.suggest_blueprint(&State::default()).unwrap();
    let carried = bp.n_boxes.mul(&bp.pref_mult).unwrap().mul(&bp.clock).unwrap();
    assert_eq!(exact(&carried), exact(&bp.m_per_belt.unwrap()));
}

#[test]
fn sizing_reports_small_flows_per_transport() {
    // a pipe flow under the carrying threshold still has its instances per pipe
    let rec = recipe("Refinery", "Tiny", vec![ing("Iron Ore", 30), Ingredient::new("Water".to_string(), r(1, 1000000))], vec![]);
    let bp = rec.suggest_blueprint(&State::default()).unwrap();
    assert!(bp.use_belt && !bp.use_pipe);
    assert_eq!(exact(&bp.m_per_pipe.unwrap()), (600000000, 1));
}

#[test]
fn sizing_checks_the_building_first() {
    let odd = recipe("Workbench", "Nothing", vec![], vec![]);
    assert!(matches!(odd.suggest_blueprint(&State::default()), Err(PlanError::UnknownBuilding { .. })));
}

#[test]
fn catalog_number_forms() {
    assert_eq!(exact(&parse_number("+5").unwrap()), (5, 1));
    assert_eq!(exact(&parse_number("1e3").unwrap()), (1000, 1));
    assert_eq!(exact(&parse_number("2.5E-1").unwrap()), (1, 4));
    assert_eq!(exact(&parse_number("-0.2").unwrap()), (-1, 5));
    assert!(parse_number("1e").is_none());
    assert!(parse_number("e3").is_none());
    assert!(parse_number("1e1.5").is_none());
    assert!(parse_number("inf").is_none());
}

#[test]
fn parse_errors_follow_their_lines() {
    let cat = catalog();
    let mats = material_names(&cat);
    let errs = parse_chain(&lines(&["group G", "bogus", "mine 5 qqqqq", "mine x Iron Ore"]), &cat, &mats).unwrap_err();
    assert_eq!(errs.len(), 3);
    assert!(matches!(&errs[0], PlanError::Parse { line } if line == "bogus"));
    assert!(matches!(&errs[1], PlanError::UnknownIngredient { .. }));
    assert!(matches!(&errs[2], PlanError::Parse { line } if line == "mine x Iron Ore"));
}
