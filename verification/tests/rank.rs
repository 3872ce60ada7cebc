use gmaps_optimal_placement::rank::{carries_place, feature, fold, grams, place_words, scramble, words, Linear, N};

#[test]
fn folding_lowercases_and_strips_french_accents() {
    assert_eq!(fold("Esthétique Automobile À Clermont"), "esthetique automobile a clermont");
    assert_eq!(fold("Garage Ñuñez Çà"), "garage nunez ca");
}

#[test]
fn words_are_runs_of_alphanumerics() {
    assert_eq!(words("American Car Wash - Clermont-Ferrand Aubière"), ["American", "Car", "Wash", "Clermont", "Ferrand", "Aubière"]);
    assert_eq!(words("  --  "), Vec::<String>::new());
    assert_eq!(words("a1b2"), ["a1b2"]);
}

#[test]
fn trigrams_of_a_word() {
    assert_eq!(grams("lavage"), ["lav", "ava", "vag", "age"]);
    assert_eq!(grams("la"), ["la"]);
    assert_eq!(grams("éte"), ["éte"]);
}

#[test]
fn place_tokens_are_long_sorted_and_once() {
    let places = vec!["Clermont-Ferrand".to_owned(), "Aubière".to_owned(), "Le Cendre".to_owned(), "Clermont-Ferrand".to_owned()];
    assert_eq!(place_words(&places), ["aubiere", "cendre", "clermont", "ferrand"]);
}

#[test]
fn a_name_carrying_a_place_token() {
    let places = place_words(&vec!["Clermont-Ferrand".to_owned()]);
    assert!(carries_place(&fold("Nettoyage Auto Clermont"), &places));
    assert!(!carries_place(&fold("EDEO DETAILING"), &places));
}

#[test]
fn the_ladder_runs_flat_reviews_fitted_then_each_dropped() {
    let l = Linear::ladder();
    assert_eq!(l.len(), 3 + N);
    let names: Vec<&str> = l.iter().map(|e| e.name()).collect();
    assert_eq!(
        names,
        [
            "FLAT",
            "REVIEWS",
            "FITTED",
            "FITTED −log1p_reviews",
            "FITTED −rating_dev",
            "FITTED −name_match",
            "FITTED −place_token",
            "FITTED −distance_km"
        ]
    );
    assert_eq!(l[0].on(), [false; 5]);
    assert_eq!(l[1].on(), [true, false, false, false, true]);
    assert_eq!(l[2].on(), [true; 5]);
    assert_eq!(l[5].on(), [true, true, false, true, true]);
    assert_eq!(Linear::without(4).name(), "FITTED −distance_km");
    assert_eq!(feature(3), "place_token");
}

#[test]
fn the_scramble_is_a_fixed_multiplication() {
    assert_eq!(scramble(0), 0);
    assert_eq!(scramble(1), 2_654_435_761);
    assert_eq!(scramble(2), 2_654_435_761u32.wrapping_mul(2));
    assert_ne!(scramble(3), scramble(4));
}
