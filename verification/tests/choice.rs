use gmaps_optimal_placement::choice::{choices, known_of, on_page, pool};

fn ids(v: &[&str]) -> Vec<String> {
    v.iter().map(|s| s.to_string()).collect()
}

#[test]
fn results_join_the_inventory_by_id() {
    let inventory = ids(&["a", "b", "c", "b"]);
    // an id listed twice in the inventory is its later listing; a result the inventory dropped leaves
    assert_eq!(known_of(&ids(&["c", "x", "b", "c", "a"]), &inventory), vec![2, 3, 0]);
    assert_eq!(known_of(&ids(&[]), &inventory), Vec::<usize>::new());
}

#[test]
fn a_term_pools_what_it_returned_anywhere() {
    let inventory = ids(&["a", "b", "c", "d"]);
    let searches = vec![
        ("lavage auto".to_owned(), ids(&["b", "a"])),
        ("detailing".to_owned(), ids(&["d"])),
        ("lavage auto".to_owned(), ids(&["c", "a", "zz"])),
    ];
    let p = pool(&searches, &inventory);
    assert_eq!(p.len(), 2);
    assert_eq!(p[0], ("lavage auto".to_owned(), vec![1, 0, 2]));
    assert_eq!(p[1], ("detailing".to_owned(), vec![3]));
}

#[test]
fn a_choice_set_is_the_returned_then_the_reachable_rest() {
    let seen = vec![2, 0];
    let pooled = vec![1, 0, 2, 3];
    assert_eq!(choices(&seen, &pooled, &vec![true, true, true, false]), vec![2, 0, 1]);
    assert_eq!(choices(&seen, &pooled, &vec![false; 4]), vec![2, 0]);
}

#[test]
fn only_the_page_is_credited() {
    let inventory = ids(&["a", "b", "c"]);
    // places count from the top; past the cap nothing is seen, and an unknown id is skipped but
    // still takes its place on the page
    assert_eq!(on_page(&ids(&["b", "x", "a", "c"]), &inventory, 3), vec![(1, 0), (0, 2)]);
    assert_eq!(on_page(&ids(&["c", "c"]), &inventory, 20), vec![(2, 0), (2, 1)]);
    assert_eq!(on_page(&ids(&["a"]), &inventory, 0), Vec::<(usize, usize)>::new());
}
