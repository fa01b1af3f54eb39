use poketype::error::MatchupError;
use poketype::matchup::{Group, TypeMatchup};
use poketype::model::{DamageRelations, LocalizedName, TypeRecord};
use poketype::multiplier::Multiplier;

fn lname(language: &str, name: &str) -> LocalizedName {
    LocalizedName { language: language.to_string(), name: name.to_string() }
}

fn record(id: i64, name: &str) -> TypeRecord {
    TypeRecord { id, names: vec![lname("en", name)] }
}

fn fire_water_grass() -> TypeMatchup {
    let catalog = vec![record(10, "Fire"), record(11, "Water"), record(12, "Grass")];
    TypeMatchup::new(&catalog).unwrap()
}

fn relations(no: Vec<i64>, double: Vec<i64>, half: Vec<i64>) -> DamageRelations {
    DamageRelations { no_damage_from: no, double_damage_from: double, half_damage_from: half }
}

fn group(hundredths: u16, names: Vec<&str>) -> Group {
    Group { hundredths, names: names.into_iter().map(|n| n.to_string()).collect() }
}

#[test]
fn new_initializes_base_types_at_one() {
    let catalog = vec![
        record(1, "Normal"),
        record(2, "Fighting"),
        record(3, "Flying"),
        record(19, "Stellar"),
        record(10001, "Unknown"),
    ];
    let mut matchup = TypeMatchup::new(&catalog).unwrap();
    assert_eq!(matchup.multiplier_of(1), Some(Multiplier::Pow2 { exp: 0 }));
    assert_eq!(matchup.multiplier_of(2), Some(Multiplier::Pow2 { exp: 0 }));
    assert_eq!(matchup.multiplier_of(3), Some(Multiplier::Pow2 { exp: 0 }));
    assert_eq!(matchup.multiplier_of(19), None);
    assert_eq!(matchup.multiplier_of(10001), None);
    let report = matchup.get();
    assert_eq!(report, vec![group(100, vec!["Fighting", "Flying", "Normal"])]);
}

#[test]
fn new_fails_on_record_without_names() {
    let catalog = vec![record(1, "Normal"), TypeRecord { id: 2, names: vec![] }];
    assert_eq!(TypeMatchup::new(&catalog).unwrap_err(), MatchupError::NoSuitableValue);
}

#[test]
fn new_ignores_nameless_records_beyond_cutoff() {
    let catalog = vec![record(1, "Normal"), TypeRecord { id: 30, names: vec![] }];
    let mut matchup = TypeMatchup::new(&catalog).unwrap();
    assert_eq!(matchup.get(), vec![group(100, vec!["Normal"])]);
}

#[test]
fn new_prefers_english_names() {
    let catalog = vec![TypeRecord {
        id: 1,
        names: vec![lname("de", "Feuer"), lname("en", "Fire"), lname("fr", "Feu")],
    }];
    let mut matchup = TypeMatchup::new(&catalog).unwrap();
    assert_eq!(matchup.get(), vec![group(100, vec!["Fire"])]);
}

#[test]
fn new_falls_back_to_first_name() {
    let catalog = vec![TypeRecord {
        id: 1,
        names: vec![lname("de", "Feuer"), lname("fr", "Feu")],
    }];
    let mut matchup = TypeMatchup::new(&catalog).unwrap();
    assert_eq!(matchup.get(), vec![group(100, vec!["Feuer"])]);
}

#[test]
fn no_damage_forces_exact_zero_whatever_came_before() {
    let mut matchup = fire_water_grass();
    matchup.double_damage_from(10);
    matchup.double_damage_from(10);
    assert_eq!(matchup.multiplier_of(10), Some(Multiplier::Pow2 { exp: 2 }));
    matchup.no_damage_from(10);
    assert_eq!(matchup.multiplier_of(10), Some(Multiplier::Zero));
    matchup.half_damage_from(11);
    matchup.no_damage_from(11);
    assert_eq!(matchup.multiplier_of(11), Some(Multiplier::Zero));
}

#[test]
fn double_then_half_restores_prior_value() {
    let mut matchup = fire_water_grass();
    matchup.apply_relations(&relations(vec![], vec![10], vec![]));
    matchup.apply_relations(&relations(vec![], vec![], vec![10]));
    assert_eq!(matchup.multiplier_of(10), Some(Multiplier::Pow2 { exp: 0 }));
}

#[test]
fn zero_then_double_stays_zero() {
    let mut matchup = fire_water_grass();
    matchup.apply_relations(&relations(vec![10], vec![], vec![]));
    matchup.apply_relations(&relations(vec![], vec![10], vec![]));
    assert_eq!(matchup.multiplier_of(10), Some(Multiplier::Zero));
    let report = matchup.get();
    assert_eq!(
        report,
        vec![group(100, vec!["Grass", "Water"]), group(0, vec!["Fire"])]
    );
}

#[test]
fn one_call_applies_no_damage_before_double() {
    let mut matchup = fire_water_grass();
    matchup.apply_relations(&relations(vec![10], vec![10], vec![]));
    assert_eq!(matchup.multiplier_of(10), Some(Multiplier::Zero));
}

#[test]
fn one_call_double_and_half_cancel() {
    let mut matchup = fire_water_grass();
    matchup.apply_relations(&relations(vec![], vec![10], vec![10]));
    assert_eq!(matchup.multiplier_of(10), Some(Multiplier::Pow2 { exp: 0 }));
}

#[test]
fn get_twice_without_mutation_is_identical() {
    let mut matchup = fire_water_grass();
    matchup.apply_relations(&relations(vec![12], vec![11], vec![]));
    let first = matchup.get();
    let second = matchup.get();
    assert_eq!(first, second);
}

#[test]
fn get_recomputes_after_mutation() {
    let mut matchup = fire_water_grass();
    let before = matchup.get();
    matchup.double_damage_from(11);
    let after = matchup.get();
    assert_ne!(before, after);
    assert_eq!(
        after,
        vec![group(200, vec!["Water"]), group(100, vec!["Fire", "Grass"])]
    );
}

#[test]
fn same_display_name_collapses_in_a_group() {
    let catalog = vec![record(1, "Fairy"), record(2, "Fairy"), record(3, "Dragon")];
    let mut matchup = TypeMatchup::new(&catalog).unwrap();
    assert_eq!(matchup.get(), vec![group(100, vec!["Dragon", "Fairy"])]);
    matchup.double_damage_from(1);
    matchup.double_damage_from(2);
    assert_eq!(
        matchup.get(),
        vec![group(200, vec!["Fairy"]), group(100, vec!["Dragon"])]
    );
}

#[test]
fn groups_descend_and_names_ascend() {
    let catalog = vec![
        record(1, "Steel"),
        record(2, "Bug"),
        record(3, "Rock"),
        record(4, "Ghost"),
    ];
    let mut matchup = TypeMatchup::new(&catalog).unwrap();
    matchup.double_damage_from(3);
    matchup.double_damage_from(4);
    matchup.half_damage_from(2);
    let report = matchup.get();
    assert_eq!(
        report,
        vec![
            group(200, vec!["Ghost", "Rock"]),
            group(100, vec!["Steel"]),
            group(50, vec!["Bug"]),
        ]
    );
    let keys: Vec<u16> = report.iter().map(|g| g.hundredths).collect();
    let mut sorted = keys.clone();
    sorted.sort_unstable_by(|a, b| b.cmp(a));
    assert_eq!(keys, sorted);
    for g in &report {
        let mut names = g.names.clone();
        names.sort_unstable();
        names.dedup();
        assert_eq!(g.names, names);
    }
}

#[test]
fn fire_relations_scenario() {
    let mut matchup = fire_water_grass();
    matchup.apply_relations(&relations(vec![12], vec![11], vec![]));
    assert_eq!(matchup.multiplier_of(10), Some(Multiplier::Pow2 { exp: 0 }));
    assert_eq!(matchup.multiplier_of(11), Some(Multiplier::Pow2 { exp: 1 }));
    assert_eq!(matchup.multiplier_of(12), Some(Multiplier::Zero));
    assert_eq!(
        matchup.get(),
        vec![
            group(200, vec!["Water"]),
            group(100, vec!["Fire"]),
            group(0, vec!["Grass"]),
        ]
    );
}

#[test]
fn unknown_type_reference_is_ignored() {
    let mut matchup = fire_water_grass();
    matchup.apply_relations(&relations(vec![999], vec![77], vec![-5]));
    assert_eq!(matchup.multiplier_of(999), None);
    assert_eq!(matchup.multiplier_of(77), None);
    assert_eq!(
        matchup.get(),
        vec![group(100, vec!["Fire", "Grass", "Water"])]
    );
}

#[test]
fn empty_relations_leave_everything_at_one() {
    let mut matchup = fire_water_grass();
    matchup.apply_relations(&relations(vec![], vec![], vec![]));
    matchup.apply_relations(&relations(vec![], vec![], vec![]));
    assert_eq!(
        matchup.get(),
        vec![group(100, vec!["Fire", "Grass", "Water"])]
    );
}

#[test]
fn dual_type_relations_compound() {
    let mut matchup = fire_water_grass();
    matchup.apply_relations(&relations(vec![], vec![11], vec![12]));
    matchup.apply_relations(&relations(vec![], vec![11], vec![10]));
    assert_eq!(matchup.multiplier_of(11), Some(Multiplier::Pow2 { exp: 2 }));
    assert_eq!(matchup.multiplier_of(10), Some(Multiplier::Pow2 { exp: -1 }));
    assert_eq!(matchup.multiplier_of(12), Some(Multiplier::Pow2 { exp: -1 }));
    assert_eq!(
        matchup.get(),
        vec![group(400, vec!["Water"]), group(50, vec!["Fire", "Grass"])]
    );
}

#[test]
fn duplicate_identifier_keeps_last_name() {
    let catalog = vec![record(1, "Old"), record(1, "New")];
    let mut matchup = TypeMatchup::new(&catalog).unwrap();
    assert_eq!(matchup.get(), vec![group(100, vec!["New"])]);
}
