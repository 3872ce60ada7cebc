use gmaps_optimal_placement::template::{fill, fill_once};

#[test]
fn every_occurrence_of_a_placeholder_is_filled() {
    let t = "<title>__TITLE__</title><h1>__TITLE__</h1><script>const D = /*__DATA__*/null;</script>";
    let html = fill(t, &[("/*__DATA__*/null", "[1,2]"), ("__TITLE__", "Lyon")]).unwrap();
    assert_eq!(html, "<title>Lyon</title><h1>Lyon</h1><script>const D = [1,2];</script>");
}

#[test]
fn the_older_template_fills_the_first_only() {
    let t = "<title>__TITLE__</title><h1>__TITLE__</h1>";
    assert_eq!(fill_once(t, &[("__TITLE__", "Lyon")]).unwrap(), "<title>Lyon</title><h1>__TITLE__</h1>");
}

#[test]
fn a_missing_placeholder_is_named_by_position() {
    assert_eq!(fill("<h1>__TITLE__</h1>", &[("__TITLE__", "x"), ("__KEY__", "k")]), Err(1));
    assert_eq!(fill("", &[("__TITLE__", "x")]), Err(0));
    // a value is not looked for placeholders before it is placed, but the next one is looked for in the result
    assert_eq!(fill("__A__", &[("__A__", "__B__"), ("__B__", "z")]), Ok("z".to_owned()));
}

#[test]
fn replacement_does_not_overlap() {
    assert_eq!(fill("aaaa", &[("aa", "b")]).unwrap(), "bb");
    assert_eq!(fill("aaa", &[("aa", "b")]).unwrap(), "ba");
    assert_eq!(fill("ab", &[("", "-")]).unwrap(), "-a-b-");
    assert_eq!(fill_once("ab", &[("", "-")]).unwrap(), "-ab");
}
