use gmaps_optimal_placement::ui::{after_close, cursor_step, decide_key, letter, subsequence, Binding, KeyAction, KeyPress, Keymap, Pool};
use gmaps_optimal_placement::ui::{hits, no_trade_row, picker_rows};
use gmaps_optimal_placement::ui::{cross, picker_key, PickerKey};
use gmaps_optimal_placement::ui::{card_label, pairing, tab_of, tier_color, tier_counts};

fn press(key: &str, tabs: usize, active: usize) -> KeyPress {
    KeyPress {
        key: key.to_owned(),
        modified: false,
        settings_open: false,
        arming: None,
        picker_open: false,
        in_field: false,
        yellow_selected: false,
        tabs,
        active,
    }
}

#[test]
fn digits_jump_by_position_and_zero_to_the_last() {
    let m = Keymap::standard();
    assert!(matches!(decide_key(&press("1", 3, 2), &m), KeyAction::Activate(0)));
    assert!(matches!(decide_key(&press("3", 3, 0), &m), KeyAction::Activate(2)));
    assert!(matches!(decide_key(&press("4", 3, 0), &m), KeyAction::Ignore));
    assert!(matches!(decide_key(&press("0", 3, 0), &m), KeyAction::Activate(2)));
    assert!(matches!(decide_key(&press("0", 0, 0), &m), KeyAction::Ignore));
}

#[test]
fn brackets_cycle_and_w_closes() {
    let m = Keymap::standard();
    assert!(matches!(decide_key(&press("]", 3, 2), &m), KeyAction::Activate(0)));
    assert!(matches!(decide_key(&press("[", 3, 0), &m), KeyAction::Activate(2)));
    assert!(matches!(decide_key(&press("w", 3, 1), &m), KeyAction::CloseTab(1)));
    assert!(matches!(decide_key(&press("w", 0, 0), &m), KeyAction::Ignore));
    assert!(matches!(decide_key(&press("t", 0, 0), &m), KeyAction::OpenPicker(Pool::Study)));
    assert!(matches!(decide_key(&press("f", 2, 0), &m), KeyAction::OpenPicker(Pool::Open)));
}

#[test]
fn the_page_keeps_its_keys_out_of_fields_and_chords() {
    let m = Keymap::standard();
    let mut p = press("]", 3, 0);
    p.modified = true;
    assert!(matches!(decide_key(&p, &m), KeyAction::Ignore));
    let mut p = press("]", 3, 0);
    p.in_field = true;
    assert!(matches!(decide_key(&p, &m), KeyAction::Ignore));
    let mut p = press("Escape", 3, 0);
    p.in_field = true;
    assert!(matches!(decide_key(&p, &m), KeyAction::Dismiss));
    let mut p = press("Backspace", 3, 0);
    p.yellow_selected = true;
    assert!(matches!(decide_key(&p, &m), KeyAction::ForgetPin));
}

#[test]
fn an_armed_binding_takes_the_next_single_key() {
    let mut m = Keymap::standard();
    let mut p = press("n", 3, 0);
    p.settings_open = true;
    p.arming = Some(Binding::Next);
    match decide_key(&p, &m) {
        KeyAction::Rebind(Binding::Next, k) => {
            assert_eq!(k, "n");
            m.set("next tab", k);
        }
        other => panic!("{other:?}"),
    }
    assert_eq!(m.next, "n");
    assert!(matches!(decide_key(&press("n", 3, 0), &m), KeyAction::Activate(1)));
    p.key = "Shift".to_owned();
    assert!(matches!(decide_key(&p, &m), KeyAction::Ignore));
    assert_eq!(m.rows()[1], ("next tab", "n"));
}

#[test]
fn closing_a_tab_keeps_the_active_one_in_range() {
    assert_eq!(after_close(0, 2, 2), Some(1));
    assert_eq!(after_close(2, 1, 2), Some(1));
    assert_eq!(after_close(1, 1, 3), Some(1));
    assert_eq!(after_close(0, 0, 0), None);
}

#[test]
fn the_picker_cursor_clamps() {
    assert_eq!(cursor_step(0, 3, true), 1);
    assert_eq!(cursor_step(2, 3, true), 2);
    assert_eq!(cursor_step(0, 3, false), 0);
    assert_eq!(cursor_step(5, 0, true), 0);
}

#[test]
fn the_picker_filters_by_subsequence() {
    assert!(subsequence("cfd", "Clermont-Ferrand"));
    assert!(subsequence("", "x"));
    assert!(!subsequence("dfc", "Clermont-Ferrand"));
    assert_eq!(Pool::Study.cols(), 2);
    assert_eq!(Pool::Study.prompt(1), "and where");
}

#[test]
fn pins_are_lettered_from_a() {
    assert_eq!(letter(0), "A");
    assert_eq!(letter(25), "Z");
    assert_eq!(letter(26), "[");
    // U+D7BF is a character; U+D800 is not, and takes the number instead
    assert_eq!(letter(0xD800 - 65), (0xD800 - 65 + 1).to_string());
}

#[test]
fn a_picker_box_keeps_the_rows_its_query_threads() {
    let trades = vec!["car_detailing".to_owned(), "cleaning".to_owned()];
    let locations = vec!["Lyon".to_owned(), "Clermont-Ferrand".to_owned()];
    let rows = picker_rows(Pool::Study, 0, &trades, &locations, &vec![]);
    assert_eq!(rows, ["car_detailing", "cleaning", no_trade_row()]);
    // "cl" threads "car_detailing" too: a subsequence, not a prefix
    assert_eq!(hits("cl", &rows), vec![(0, "car_detailing".to_owned()), (1, "cleaning".to_owned())]);
    assert_eq!(hits("cle", &rows), vec![(1, "cleaning".to_owned())]);
    assert_eq!(hits("cd", &rows), vec![(0, "car_detailing".to_owned())]);
    let rows = picker_rows(Pool::Study, 1, &trades, &locations, &vec![]);
    assert_eq!(hits("FER", &rows), vec![(1, "Clermont-Ferrand".to_owned())]);
    assert_eq!(picker_rows(Pool::Open, 0, &trades, &locations, &vec!["a_-_b".to_owned()]), ["a_-_b"]);
}

#[test]
fn picker_keys() {
    assert_eq!(picker_key("ArrowDown", false, false, false), PickerKey::Down);
    assert_eq!(picker_key("n", true, false, false), PickerKey::Down);
    assert_eq!(picker_key("p", true, false, false), PickerKey::Up);
    assert_eq!(picker_key("Enter", true, false, false), PickerKey::Take);
    assert_eq!(picker_key("Enter", false, false, false), PickerKey::Choose);
    assert_eq!(picker_key("Tab", false, false, false), PickerKey::Cross);
    assert_eq!(picker_key("Tab", false, true, false), PickerKey::Nothing);
    assert_eq!(picker_key("x", false, false, false), PickerKey::Nothing);
    assert_eq!(cross(1, 2), 0);
    assert_eq!(cross(0, 1), 0);
}

#[test]
fn tabs_tiers_and_cards() {
    let tabs = vec![("a".to_owned(), "b".to_owned()), ("a".to_owned(), "c".to_owned())];
    assert_eq!(tab_of(&tabs, "a", "c"), Some(1));
    assert_eq!(tab_of(&tabs, "c", "a"), None);
    assert_eq!(tier_color(0), "#ff2d55");
    assert_eq!(tier_color(6), "#00d0ff");
    let tiers = vec!["detail".to_owned(), "wash".to_owned()];
    let members: Vec<String> = ["wash", "detail", "wash"].iter().map(|s| s.to_string()).collect();
    assert_eq!(tier_counts(&tiers, &members), vec![1, 2]);
    assert_eq!(card_label(Some(1), "Riom", None).as_deref(), Some("B · Riom"));
    assert_eq!(card_label(None, "", Some("3".to_owned())).as_deref(), Some("3"));
    assert_eq!(pairing(2, 2, "x".to_owned(), "Lyon".to_owned()), (None, "Lyon".to_owned()));
    assert_eq!(pairing(1, 2, "x".to_owned(), "Lyon".to_owned()), (Some("x".to_owned()), "Lyon".to_owned()));
}
