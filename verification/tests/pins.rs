use gmaps_optimal_placement::pins::{diff, seed, Candidate, Pin, PinFile};
use gmaps_optimal_placement::pins::{promote_name, promoted_pin, Promote};

fn cand(name: &str, at: [f64; 2]) -> Candidate<[f64; 2]> {
    Candidate { name: name.to_owned(), at }
}

fn study() -> Vec<Candidate<[f64; 2]>> {
    vec![cand("VifNet", [45.78, 3.08]), cand("Riom", [45.89, 3.11]), cand("Cournon", [45.73, 3.19])]
}

fn names(v: &[Pin<[f64; 2]>]) -> Vec<&str> {
    v.iter().map(|p| p.name.as_str()).collect()
}

#[test]
fn the_seed_minus_hidden_plus_added() {
    let file = PinFile { added: vec![cand("Aubière", [45.75, 3.11])], hidden: vec!["Riom".to_owned()] };
    let pins = seed(&study(), &file);
    assert_eq!(names(&pins), ["VifNet", "Cournon", "Aubière"]);
    assert!(pins[0].from_study && pins[1].from_study && !pins[2].from_study);
    assert!(pins.iter().all(|p| p.green && p.label.is_none() && p.id == p.name));
    assert_eq!(pins[2].at, [45.75, 3.11]);
}

#[test]
fn no_file_is_the_study_as_it_stands() {
    let pins = seed(&study(), &PinFile { added: vec![], hidden: vec![] });
    assert_eq!(names(&pins), ["VifNet", "Riom", "Cournon"]);
}

#[test]
fn the_file_a_green_set_writes_seeds_it_back() {
    let file = PinFile { added: vec![cand("Aubière", [45.75, 3.11])], hidden: vec!["Riom".to_owned()] };
    let mut core = seed(&study(), &file);
    // drop a study pin, promote another one
    core.retain(|p| p.name != "VifNet");
    core.push(Pin { id: "Lempdes".to_owned(), name: "Lempdes".to_owned(), at: [45.77, 3.19], label: None, green: true, from_study: false });
    let written = diff(&study(), &core);
    assert_eq!(written.hidden, ["VifNet", "Riom"]);
    assert_eq!(written.added.iter().map(|c| c.name.as_str()).collect::<Vec<_>>(), ["Aubière", "Lempdes"]);
    let back = seed(&study(), &written);
    assert_eq!(names(&back), names(&core));
    assert_eq!(back.iter().map(|p| (p.from_study, p.at)).collect::<Vec<_>>(), core.iter().map(|p| (p.from_study, p.at)).collect::<Vec<_>>());
}

#[test]
fn a_promoted_pin_is_named_trimmed_and_once() {
    let core = seed(&study(), &PinFile { added: vec![], hidden: vec![] });
    assert!(matches!(promote_name(None, &core), Promote::Cancelled));
    assert!(matches!(promote_name(Some("   "), &core), Promote::Cancelled));
    match promote_name(Some("  Riom \n"), &core) {
        Promote::Taken(n) => assert_eq!(n, "Riom"),
        other => panic!("{other:?}"),
    }
    match promote_name(Some(" Lempdes "), &core) {
        Promote::Named(n) => {
            let p = promoted_pin(n, [45.77, 3.19]);
            assert_eq!((p.id.as_str(), p.name.as_str(), p.green, p.from_study), ("Lempdes", "Lempdes", true, false));
        }
        other => panic!("{other:?}"),
    }
}
