use poketype::matchup::{Group, TypeMatchup};
use poketype::model::{DamageRelations, LocalizedName, TypeRecord};
use poketype::multiplier::Multiplier;
use poketype::text::{format_group, format_multiplier, normalize_query};

#[test]
fn multiplier_rounds_to_hundredths() {
    assert_eq!(Multiplier::Zero.hundredths(), 0);
    assert_eq!(Multiplier::Pow2 { exp: 0 }.hundredths(), 100);
    assert_eq!(Multiplier::Pow2 { exp: 1 }.hundredths(), 200);
    assert_eq!(Multiplier::Pow2 { exp: 2 }.hundredths(), 400);
    assert_eq!(Multiplier::Pow2 { exp: -1 }.hundredths(), 50);
    assert_eq!(Multiplier::Pow2 { exp: -2 }.hundredths(), 25);
    assert_eq!(Multiplier::Pow2 { exp: -3 }.hundredths(), 13);
    assert_eq!(Multiplier::Pow2 { exp: -4 }.hundredths(), 6);
    assert_eq!(Multiplier::Pow2 { exp: -5 }.hundredths(), 3);
    assert_eq!(Multiplier::Pow2 { exp: -6 }.hundredths(), 2);
    assert_eq!(Multiplier::Pow2 { exp: -7 }.hundredths(), 1);
    assert_eq!(Multiplier::Pow2 { exp: -8 }.hundredths(), 0);
    assert_eq!(Multiplier::Pow2 { exp: -60 }.hundredths(), 0);
    assert_eq!(Multiplier::Pow2 { exp: 9 }.hundredths(), 51200);
    assert_eq!(Multiplier::Pow2 { exp: 10 }.hundredths(), 65535);
    assert_eq!(Multiplier::Pow2 { exp: 60 }.hundredths(), 65535);
}

#[test]
fn doubling_and_halving_are_exact() {
    let one = Multiplier::one();
    assert_eq!(one, Multiplier::Pow2 { exp: 0 });
    assert_eq!(one.doubled(), Multiplier::Pow2 { exp: 1 });
    assert_eq!(one.halved(), Multiplier::Pow2 { exp: -1 });
    assert_eq!(one.doubled().halved(), one);
    assert_eq!(one.halved().doubled(), one);
    assert_eq!(Multiplier::Zero.doubled(), Multiplier::Zero);
    assert_eq!(Multiplier::Zero.halved(), Multiplier::Zero);
}

#[test]
fn multiplier_text_drops_trailing_zeros() {
    assert_eq!(format_multiplier(0), "0");
    assert_eq!(format_multiplier(100), "1");
    assert_eq!(format_multiplier(200), "2");
    assert_eq!(format_multiplier(50), "0.5");
    assert_eq!(format_multiplier(25), "0.25");
    assert_eq!(format_multiplier(13), "0.13");
    assert_eq!(format_multiplier(6), "0.06");
    assert_eq!(format_multiplier(150), "1.5");
    assert_eq!(format_multiplier(400), "4");
    assert_eq!(format_multiplier(51200), "512");
    assert_eq!(format_multiplier(65535), "655.35");
}

#[test]
fn group_lines_join_names() {
    let g = Group { hundredths: 200, names: vec!["Fire".to_string(), "Water".to_string()] };
    assert_eq!(format_group(&g), "×2\tFire, Water");
    let g = Group { hundredths: 50, names: vec!["Bug".to_string()] };
    assert_eq!(format_group(&g), "×0.5\tBug");
    let g = Group { hundredths: 0, names: vec!["Grass".to_string()] };
    assert_eq!(format_group(&g), "×0\tGrass");
}

#[test]
fn rendered_report_lines() {
    let catalog = vec![
        TypeRecord { id: 10, names: vec![LocalizedName { language: "en".to_string(), name: "Fire".to_string() }] },
        TypeRecord { id: 11, names: vec![LocalizedName { language: "en".to_string(), name: "Water".to_string() }] },
        TypeRecord { id: 12, names: vec![LocalizedName { language: "en".to_string(), name: "Grass".to_string() }] },
    ];
    let mut matchup = TypeMatchup::new(&catalog).unwrap();
    matchup.apply_relations(&DamageRelations {
        no_damage_from: vec![12],
        double_damage_from: vec![11],
        half_damage_from: vec![],
    });
    let lines = matchup.render_lines();
    assert_eq!(lines, vec!["×2\tWater", "×1\tFire", "×0\tGrass"]);
}

#[test]
fn query_normalization_dashes_and_lowercases() {
    assert_eq!(normalize_query("Tapu Koko"), "tapu-koko");
    assert_eq!(normalize_query("MR. MIME"), "mr.-mime");
    assert_eq!(normalize_query("pikachu"), "pikachu");
    assert_eq!(normalize_query(""), "");
    assert_eq!(normalize_query("Great Tusk"), "great-tusk");
}
