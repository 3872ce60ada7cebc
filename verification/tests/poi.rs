use gmaps_optimal_placement::poi::{after_page, classify, compile_rules, MatchSpec, RuleError, RulesError, Step, CAP, DEPTH};
use gmaps_optimal_placement::poi::plan;
use gmaps_optimal_placement::poi::{inventory, Answer, Malformed};

fn spec(pattern: Option<&str>, types: &[&str]) -> MatchSpec {
    MatchSpec { pattern: pattern.map(str::to_owned), types: types.iter().map(|t| t.to_string()).collect() }
}

#[test]
fn a_rule_needs_a_pattern_or_types() {
    assert!(matches!(spec(None, &[]).compile(), Err(RuleError::Empty)));
    assert!(matches!(spec(Some("(oops"), &[]).compile(), Err(RuleError::BadPattern)));
    assert!(spec(None, &["car_wash"]).compile().is_ok());
}

#[test]
fn rules_compile_drop_first_then_tiers() {
    let tiers = vec![spec(Some("detail"), &[]), spec(None, &[])];
    assert!(matches!(compile_rules(&Some(spec(None, &[])), &tiers), Err(RulesError::Drop(RuleError::Empty))));
    assert!(matches!(compile_rules(&None, &tiers), Err(RulesError::Tier(1, RuleError::Empty))));
    assert!(matches!(compile_rules(&None, &vec![]), Err(RulesError::NoTier)));
}

#[test]
fn the_first_tier_that_hits_takes_the_result() {
    let (drop, tiers) = compile_rules(
        &Some(spec(Some("station"), &["supermarket"])),
        &vec![spec(Some("detail|esthétique"), &[]), spec(Some("lavage"), &["car_wash"])],
    )
    .unwrap();
    let none: Vec<&str> = vec![];
    assert_eq!(classify(None, "EDEO DETAILING", "", &none, &drop, &tiers), Some(0));
    assert_eq!(classify(Some("OPERATIONAL"), "Lavage Auto", "", &none, &drop, &tiers), Some(1));
    // any category counts for a tier, the primary one included
    assert_eq!(classify(None, "Total", "gas_station", &vec!["car_wash"], &drop, &tiers), Some(1));
    assert_eq!(classify(None, "Wash Co", "car_wash", &none, &drop, &tiers), Some(1));
    // closed businesses are gone
    assert_eq!(classify(Some("CLOSED_PERMANENTLY"), "EDEO DETAILING", "", &none, &drop, &tiers), None);
    // the drop rule reads the name and only the primary category
    assert_eq!(classify(None, "Station lavage", "", &none, &drop, &tiers), None);
    assert_eq!(classify(None, "Lavage Auto", "supermarket", &none, &drop, &tiers), None);
    assert_eq!(classify(None, "Lavage Auto", "car_repair", &vec!["supermarket"], &drop, &tiers), Some(1));
    // matching none of the tiers is not a competitor
    assert_eq!(classify(None, "Boulangerie", "bakery", &none, &drop, &tiers), None);
}

#[test]
fn a_saturated_tile_is_quartered_down_to_the_floor() {
    assert_eq!(after_page(0, 0), Step::Nothing);
    assert_eq!(after_page(CAP - 1, 0), Step::Whole);
    assert_eq!(after_page(CAP, 0), Step::Quarter);
    assert_eq!(after_page(CAP, DEPTH), Step::Censored);
}

#[test]
fn the_probe_asks_every_term_from_every_node() {
    let nodes = vec![[45.7, 3.0], [45.8, 3.1]];
    let terms = vec!["lavage auto".to_owned(), "detailing".to_owned()];
    let p = plan(&nodes, &terms);
    let got: Vec<([f64; 2], &str)> = p.iter().map(|(n, t)| (*n, t.as_str())).collect();
    assert_eq!(got, [([45.7, 3.0], "lavage auto"), ([45.7, 3.0], "detailing"), ([45.8, 3.1], "lavage auto"), ([45.8, 3.1], "detailing")]);
}

fn answer(id: &str, name: Option<&str>, status: Option<&str>, reviews: u64) -> Answer {
    Answer {
        id: id.to_owned(),
        status: status.map(str::to_owned),
        name: name.map(str::to_owned),
        primary: "car_wash".to_owned(),
        types: vec![],
        located: true,
        reviews,
    }
}

#[test]
fn the_first_answer_for_a_place_is_kept_most_reviewed_first() {
    let (drop, tiers) = compile_rules(&None, &vec![spec(Some("detail"), &[]), spec(None, &["car_wash"])]).unwrap();
    let answers = vec![
        answer("a", Some("Lavage Nord"), None, 10),
        answer("b", Some("Detailing Pro"), Some("OPERATIONAL"), 40),
        answer("a", Some("Detail again"), None, 999),
        answer("c", None, Some("CLOSED_PERMANENTLY"), 5),
        answer("d", Some("Lavage Sud"), None, 40),
    ];
    // "a" is its first answer, "c" is closed and never read, and the tie at 40 keeps the order got
    assert_eq!(inventory(&answers, &drop, &tiers), Ok(vec![(1, 0), (4, 1), (0, 1)]));
}

#[test]
fn an_open_place_without_a_name_or_a_location_is_refused() {
    let (drop, tiers) = compile_rules(&None, &vec![spec(None, &["car_wash"])]).unwrap();
    let mut nameless = vec![answer("a", Some("Lavage"), None, 1), answer("b", None, None, 1)];
    assert_eq!(inventory(&nameless, &drop, &tiers), Err(Malformed::Name(1)));
    nameless[1].name = Some("Lavage 2".to_owned());
    nameless[0].located = false;
    assert_eq!(inventory(&nameless, &drop, &tiers), Err(Malformed::Location(0)));
}
