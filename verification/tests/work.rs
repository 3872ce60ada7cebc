use gmaps_optimal_placement::work::{cache_key, hex, Age, Kind, Ledger, Need, Served, DAY, WINDOW_PHASE};
use gmaps_optimal_placement::work::archive_name;

#[test]
fn a_refusal_closes_the_window_it_names() {
    // what a spent window's 429 names: its start, and a limit of 100
    let now: u64 = 1_789_369_200 + 3 * DAY + 5_000;
    let l = Ledger::fresh(now).exhausted(Some(1_789_369_200), 100);
    // rolled forward by whole days, so the boundary a 429 taught it survives
    assert_eq!(l.rolled(now).window_start % DAY, WINDOW_PHASE);

    let l = Ledger { window_start: now, spent: 98 };
    assert!(l.preflight(100, Need::Exact(2)).is_ok());
    let refused = l.preflight(100, Need::AtLeast(3)).unwrap_err().message("a study");
    assert!(refused.contains("at least 3"), "{refused}");
    assert!(refused.contains("2 of today's 100"), "{refused}");
}

#[test]
fn a_fresh_ledger_starts_at_the_standard_phase() {
    let l = Ledger::fresh(1_700_000_000);
    assert_eq!(l.window_start % DAY, WINDOW_PHASE);
    assert!(l.window_start <= 1_700_000_000 && 1_700_000_000 - l.window_start < DAY);
    assert_eq!(l.spent, 0);
}

#[test]
fn the_refusal_reads_the_reset_time() {
    let l = Ledger { window_start: 1_789_369_200, spent: 100 };
    let r = l.preflight(100, Need::Exact(1)).unwrap_err();
    assert_eq!((r.reset_hour, r.reset_minute), (7, 0));
    assert_eq!(
        r.message("Lyon"),
        "refusing to start: Lyon needs 1 more searches,\nand 0 of today's 100 remain (window resets 07:00 UTC).\nraise SearchTextRequestPerDayPerProject, or rerun after the reset —\nnothing already answered is re-asked."
    );
}

#[test]
fn spending_counts_one_and_a_new_day_forgets() {
    let l = Ledger { window_start: 1_000_000, spent: 5 }.spend();
    assert_eq!(l.spent, 6);
    let later = l.rolled(1_000_000 + DAY + 10);
    assert_eq!(later, Ledger { window_start: 1_000_000 + DAY, spent: 0 });
    assert_eq!(l.rolled(1_000_000 + 10), l);
}

#[test]
fn the_served_log_ages_per_kind() {
    let mut s = Served::new();
    s.record(Kind::Inventory, 3);
    s.record(Kind::Communes, 7);
    s.record(Kind::Inventory, 9);
    assert_eq!(s.calls(Kind::Inventory), 2);
    assert_eq!(s.ages(Kind::Inventory), vec![3, 9]);
    s.forget(Kind::Inventory);
    assert_eq!(s.calls(Kind::Inventory), 0);
    assert_eq!(s.calls(Kind::Communes), 1);
    assert!(s.age(Kind::Inventory, &Age::standard()).is_none());
}

#[test]
fn hex_is_two_lowercase_digits_a_byte() {
    assert_eq!(hex(&[0x00, 0x0f, 0xa5, 0xff]), "000fa5ff");
    assert_eq!(hex(&[]), "");
}

#[test]
fn the_cache_key_is_the_digest_of_url_and_body() {
    // sha256 of "u\nb"
    let k = cache_key("u", "b");
    assert_eq!(k.len(), 64);
    assert_eq!(k, cache_key("u", "b"));
    assert_ne!(k, cache_key("u", "c"));
    assert_eq!(cache_key("", ""), "01ba4719c80b6fe911b091a7c05124b64eeece964e09c058ef8f9805daca546b");
}

#[test]
fn an_archive_is_kept_under_the_url_s_last_segment() {
    assert_eq!(
        archive_name("https://www.insee.fr/fr/statistiques/fichier/8735162/Filosofi2021_carreaux_200m_csv.zip").as_deref(),
        Some("Filosofi2021_carreaux_200m_csv.zip")
    );
    assert_eq!(archive_name("https://example.org/data/"), None);
    assert_eq!(archive_name("plain").as_deref(), Some("plain"));
}
