use gmaps_optimal_placement::config::{empty_tier, first_repeat, stem, study_name, try_stem, Layer};
use gmaps_optimal_placement::model::Scale;
use gmaps_optimal_placement::config::serve_title;

#[test]
fn a_pairing_names_itself_off_the_two_stems() {
    let (t, l) = (stem("examples/trades/car_detailing.nix"), stem("examples/locations/Clermont-Ferrand.nix"));
    assert_eq!(study_name(&t, &l), "car_detailing_-_Clermont-Ferrand");
    assert_eq!(try_stem("/"), None);
    assert_eq!(try_stem("a/.hidden").as_deref(), Some(".hidden"));
}

#[test]
fn a_layer_without_a_note_is_captioned_by_its_expression() {
    let mut l = Layer { name: "Cars".to_owned(), expr: "men * 1.2".to_owned(), scale: Scale::Percentile, note: None };
    assert_eq!(l.caption(), "men * 1.2");
    l.note = Some("estimated".to_owned());
    assert_eq!(l.caption(), "estimated");
}

#[test]
fn repeated_names_and_empty_tiers() {
    let names: Vec<String> = ["VifNet", "Riom", "VifNet", "Riom"].iter().map(|s| s.to_string()).collect();
    assert_eq!(first_repeat(&names), Some(2));
    assert_eq!(first_repeat(&names[..2].to_vec()), None);
    let tiers = vec!["detail".to_owned(), "wash".to_owned(), "garage".to_owned()];
    assert_eq!(empty_tier(&tiers, &vec!["wash".to_owned(), "detail".to_owned()]), Some(2));
    assert_eq!(empty_tier(&tiers[..2].to_vec(), &vec!["wash".to_owned(), "detail".to_owned()]), None);
}

#[test]
fn the_served_page_names_what_it_serves() {
    let one = |s: &str| vec![s.to_owned()];
    assert_eq!(serve_title(&one("car_detailing"), &one("Lyon")), "car_detailing in Lyon");
    assert_eq!(serve_title(&vec!["a".to_owned(), "b".to_owned()], &one("Lyon")), "2 trades over 1 locations");
}
