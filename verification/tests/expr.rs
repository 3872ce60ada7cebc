use gmaps_optimal_placement::expr::{BindError, Expr};

fn names(v: &[&str]) -> Vec<String> {
    v.iter().map(|s| s.to_string()).collect()
}

fn parse(src: &str) -> Expr {
    Expr::parse(src).expect("the expression parses")
}

#[test]
fn an_expression_reads_each_name_once_in_order() {
    let e = parse("(men_mais * 1.55 + men_coll * 0.85) * (max(nv, 4000) / 22000) ^ 1.6 + men_mais");
    assert_eq!(e.vars(), &names(&["men_coll", "men_mais", "nv"]));
    assert!(e.src().starts_with("(men_mais"));
}

#[test]
fn unknown_column_is_an_error_naming_what_exists() {
    let e = parse("popultaion * 2");
    let columns = names(&["population"]);
    match e.bind(&columns, &vec![3], 3) {
        Err(BindError::Unknown(n)) => {
            assert_eq!(n, "popultaion");
            assert_eq!(columns.join(", "), "population");
        }
        other => panic!("{other:?}"),
    }
}

#[test]
fn every_name_is_bound_to_a_full_column() {
    let e = parse("b + a");
    let columns = names(&["x", "a", "b"]);
    assert_eq!(e.bind(&columns, &vec![4, 4, 4], 4).unwrap(), vec![1, 2]);
    match e.bind(&columns, &vec![4, 4, 3], 4) {
        Err(BindError::Length { name, values, rows }) => assert_eq!((name.as_str(), values, rows), ("b", 3, 4)),
        other => panic!("{other:?}"),
    }
}

#[test]
fn text_that_is_not_an_expression_does_not_parse() {
    assert!(Expr::parse("(a + ").is_none());
    assert!(Expr::parse("a + b").is_some());
}
