use gmaps_optimal_placement::search::{fold, FoldError, Group, Keyword, Month};
use gmaps_optimal_placement::search::{Chart, ChartError};
use gmaps_optimal_placement::search::{fits_in_sums, try_fold};

fn series(from: (u16, u8), values: &[u64]) -> Vec<Month> {
    let (mut year, mut month) = from;
    let mut out = Vec::new();
    for &searches in values {
        out.push(Month { year, month, searches });
        month += 1;
        if month > 12 {
            month = 1;
            year += 1;
        }
    }
    out
}

/// A canned expansion around "car detailing", twelve months from September 2024.
fn ideas() -> Vec<Keyword> {
    vec![
        Keyword { text: "car detailing".to_owned(), monthly: Some(series((2024, 9), &[30, 20, 10, 5, 20, 30, 50, 60, 80, 60, 50, 30])) },
        Keyword { text: "esthétique automobile".to_owned(), monthly: Some(series((2024, 9), &[10, 10, 10, 5, 10, 10, 20, 30, 40, 30, 20, 20])) },
        Keyword { text: "formation detailing".to_owned(), monthly: Some(series((2024, 9), &[500; 12])) },
        Keyword { text: "polissage céramique".to_owned(), monthly: None },
        Keyword { text: "lavage voiture".to_owned(), monthly: Some(series((2024, 9), &[900; 12])) },
    ]
}

fn group() -> Group {
    Group {
        name: "detailing".to_owned(),
        seed: vec!["car detailing".to_owned()],
        pattern: Some("detail|esthetique|esthétique|polissage|céramique".to_owned()),
        drop: Some("emploi|formation|stage".to_owned()),
    }
}

#[test]
fn filter_and_sum() {
    let (months, g) = fold(&group(), ideas()).unwrap();
    assert_eq!(months.len(), 12);
    assert_eq!(months[0], "2024-09");

    let kept: Vec<&str> = g.members.iter().map(|m| m.text.as_str()).collect();
    assert_eq!(kept, ["car detailing", "esthétique automobile"], "`drop` beats `match`, and a non-matching keyword stays out");
    assert_eq!(g.no_data, ["polissage céramique"]);

    // the sum is exactly the members, so the 500/mo formation keyword and the no-data one are absent
    assert_eq!(g.total, [40, 30, 20, 10, 30, 40, 70, 90, 120, 90, 70, 50]);
}

#[test]
fn a_disagreeing_month_axis_is_an_error() {
    let mut ideas = ideas();
    ideas[1].monthly.as_mut().unwrap()[0] = Month { year: 2023, month: 9, searches: 10 };
    match fold(&group(), ideas).unwrap_err() {
        FoldError::AxisMismatch { keyword, axis, .. } => {
            assert_eq!(keyword, "esthétique automobile");
            assert!(axis.iter().any(|m| m == "2023-09"), "{axis:?}");
        }
        other => panic!("{other:?}"),
    }
}

#[test]
fn a_group_that_keeps_nothing_is_an_error() {
    let g = Group { pattern: Some("nothing whatsoever".to_owned()), ..group() };
    assert!(fold(&g, ideas()).is_err());
}

#[test]
fn the_labels_run_across_the_new_year() {
    let (months, _) = fold(&group(), ideas()).unwrap();
    assert_eq!(months[3], "2024-12");
    assert_eq!(months[4], "2025-01");
    assert_eq!(months[11], "2025-08");
}

#[test]
fn members_carry_their_mean_in_tenths() {
    let (_, g) = fold(&group(), ideas()).unwrap();
    // 445 over 12 months is 37.08..., 215 over 12 is 17.91...
    assert_eq!(g.members[0].avg_tenths, 371);
    assert_eq!(g.members[1].avg_tenths, 179);
    assert_eq!(g.members[0].monthly[8], 80);
}

#[test]
fn a_pattern_the_regex_crate_refuses_is_named() {
    let g = Group { pattern: Some("(unclosed".to_owned()), ..group() };
    match fold(&g, ideas()).unwrap_err() {
        FoldError::BadPattern(p) => assert_eq!(p, "(unclosed"),
        other => panic!("{other:?}"),
    }
}

#[test]
fn a_kept_keyword_with_an_empty_series_is_an_error() {
    let mut ideas = ideas();
    ideas[0].monthly = Some(Vec::new());
    match fold(&group(), ideas).unwrap_err() {
        FoldError::EmptySeries(k) => assert_eq!(k, "car detailing"),
        other => panic!("{other:?}"),
    }
}

#[test]
fn nothing_kept_counts_what_matched_without_data() {
    let g = Group { pattern: Some("polissage".to_owned()), ..group() };
    match fold(&g, ideas()).unwrap_err() {
        FoldError::NothingKept(n) => assert_eq!(n, 1),
        other => panic!("{other:?}"),
    }
}

#[test]
fn a_chart_holds_groups_over_one_axis() {
    assert!(matches!(Chart::start("s".to_owned(), "p".to_owned(), 0), Err(ChartError::NoGroup)));
    let mut c = Chart::start("car_detailing_-_Clermont-Ferrand".to_owned(), "Clermont-Ferrand,France".to_owned(), 2).unwrap();
    assert!(c.admits("detailing"));
    c.add(&group(), ideas()).unwrap();
    assert!(!c.admits("detailing"));
    assert_eq!(c.months.len(), 12);
    let other = Group { name: "wash".to_owned(), pattern: Some("lavage".to_owned()), drop: None, seed: vec![] };
    let mut shifted = ideas();
    for k in &mut shifted {
        if let Some(m) = k.monthly.as_mut() {
            m.remove(0);
        }
    }
    match c.add(&other, shifted) {
        Err(ChartError::Axis { group, axis, months }) => {
            assert_eq!(group, "wash");
            assert_eq!(axis.len(), 11);
            assert_eq!(months.len(), 12);
        }
        other => panic!("{other:?}"),
    }
    c.add(&other, ideas()).unwrap();
    assert_eq!(c.groups.len(), 2);
    assert_eq!(c.groups[1].total, [900; 12]);
}

#[test]
fn only_what_is_kept_has_to_fit_in_the_sums() {
    let huge = vec![
        Keyword { text: "lavage".to_owned(), monthly: Some(series((2024, 9), &[u64::MAX, u64::MAX])) },
        Keyword { text: "detailing".to_owned(), monthly: Some(series((2024, 9), &[1, 2])) },
    ];
    let narrow = Group { name: "d".to_owned(), seed: vec![], pattern: Some("detail".to_owned()), drop: None };
    let wide = Group { name: "all".to_owned(), seed: vec![], pattern: None, drop: None };
    assert!(fits_in_sums(&narrow, &huge));
    assert!(!fits_in_sums(&wide, &huge));
    assert!(try_fold(&wide, huge.clone()).is_none());
    let (months, out) = try_fold(&narrow, huge.clone()).unwrap().unwrap();
    assert_eq!(months, vec!["2024-09".to_owned(), "2024-10".to_owned()]);
    assert_eq!(out.total, vec![1, 2]);
    let mut chart = Chart::start("s".to_owned(), "p".to_owned(), 1).unwrap();
    assert!(chart.try_add(&wide, huge).is_none());
    assert!(chart.groups.is_empty());
}
