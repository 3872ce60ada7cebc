use gmaps_optimal_placement::grid::GridSource;
use gmaps_optimal_placement::tally::{after_try, cadastre_url, compiled_name, Country, Fetch, Retry, Tally, TRIES};

#[test]
fn france_reads_the_filosofi_grid_of_2021() {
    assert_eq!(Country::France.grid(), (GridSource::InseeFilosofi200m, 2021));
}

#[test]
fn each_tally_reads_one_layer() {
    assert_eq!(Tally::Pool.layer(), "tsurf");
    assert_eq!(Tally::Building.layer(), "batiment");
    assert_eq!(Tally::Parcel.layer(), "parcelle");
    assert_eq!(Tally::Building.label(), "buildings");
}

#[test]
fn a_pool_is_symbol_65() {
    assert!(Tally::Pool.keeps(Some("65")));
    assert!(!Tally::Pool.keeps(Some("66")));
    assert!(!Tally::Pool.keeps(None));
    assert!(Tally::Parcel.keeps(None));
}

#[test]
fn names_and_urls() {
    assert_eq!(compiled_name(Country::France, Tally::Pool, "Ind"), "france-pool-per-ind");
    assert_eq!(
        cadastre_url(Tally::Pool, "63113"),
        "https://cadastre.data.gouv.fr/data/etalab-cadastre/2026-06-01/geojson/communes/63/63113/raw/pci-63113-tsurf.json.gz"
    );
}

#[test]
fn a_404_is_believed_only_on_the_last_try() {
    assert_eq!(after_try(1, Fetch::Body), Retry::Read);
    assert_eq!(after_try(1, Fetch::NotFound), Retry::Wait(2));
    assert_eq!(after_try(3, Fetch::Failed), Retry::Wait(6));
    assert_eq!(after_try(TRIES, Fetch::NotFound), Retry::Absent);
    assert_eq!(after_try(TRIES, Fetch::Failed), Retry::GiveUp);
    assert_eq!(after_try(TRIES, Fetch::Body), Retry::Read);
}
