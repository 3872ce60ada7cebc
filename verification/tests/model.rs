use gmaps_optimal_placement::model::{
    check_shape, heading, layers, row, titled, LayerRef, PayloadShape, PoiShape, Scale, ShapeError, StudyLayer, TradeLayer,
    TradeShape,
};

fn study() -> Vec<StudyLayer> {
    vec![
        StudyLayer { name: "Population".to_owned(), note: "ind".to_owned(), scale: Scale::Percentile, values: 4 },
        StudyLayer { name: "Standard of living (€/yr)".to_owned(), note: "nv".to_owned(), scale: Scale::Linear, values: 4 },
    ]
}

#[test]
fn a_location_alone_offers_only_its_own_layers() {
    let l = layers(None, &study());
    assert_eq!(l.len(), 2);
    assert_eq!(l[0].name, "Population");
    assert_eq!(l[0].source, LayerRef::Study(0));
    assert!(!l[0].linear);
    assert!(l[1].linear);
    assert_eq!(l[1].source, LayerRef::Study(1));
}

#[test]
fn a_trade_puts_its_layers_first() {
    let l = layers(Some(("households × 1.55", 0)), &study());
    let names: Vec<&str> = l.iter().map(|x| x.name.as_str()).collect();
    assert_eq!(names, ["Underserved demand  ★", "Competitor pressure", "Demand", "Coverage · modelled", "Population", "Standard of living (€/yr)"]);
    assert_eq!(l[2].note, "households × 1.55");
    assert_eq!(l[3].source, LayerRef::Trade(TradeLayer::Share));
    assert_eq!(l[5].source, LayerRef::Study(1));
}

#[test]
fn a_probed_study_offers_the_observed_coverage() {
    let l = layers(Some(("d", 32)), &study());
    assert_eq!(l.len(), 7);
    assert_eq!(l[4].name, "Coverage · observed  ★");
    assert_eq!(l[4].source, LayerRef::Trade(TradeLayer::Seen));
    assert!(l[4].note.starts_with("What the probe saw of the highlighted competitor at each of 32 nodes, interpolated"));
}

#[test]
fn rows_and_headings() {
    let r = row("Coordinates".to_owned(), "45.77970, 3.08630".to_owned());
    assert_eq!((r.label.as_str(), r.sub, r.value.as_str()), ("Coordinates", None, "45.77970, 3.08630"));
    let h = heading("Capture score".to_owned());
    assert_eq!(h.value, "");
    assert_eq!(titled(Some("A"), "Riom"), "A — Riom");
    assert_eq!(titled(None, "Riom"), "Riom");
}

fn poi(name: &str, tier: &str, seen: usize, rated: bool) -> PoiShape {
    PoiShape { name: name.to_owned(), tier: tier.to_owned(), seen, rated }
}

fn shape() -> PayloadShape {
    PayloadShape {
        cells: 4,
        ring: 32,
        imputed: 4,
        layers: study(),
        trade: Some(TradeShape {
            demand: 4,
            nodes: 2,
            tiers: vec!["detail".to_owned(), "wash".to_owned()],
            pois: vec![poi("a", "wash", 2, false), poi("b", "detail", 2, true), poi("c", "wash", 2, true)],
        }),
    }
}

#[test]
fn an_agreeing_payload_places_each_competitor_in_its_tier() {
    assert_eq!(check_shape(&shape()).unwrap(), vec![1, 0, 1]);
    let mut s = shape();
    s.trade = None;
    assert_eq!(check_shape(&s).unwrap(), Vec::<usize>::new());
}

#[test]
fn each_disagreement_is_named_in_order() {
    let mut s = shape();
    s.cells = 0;
    assert!(matches!(check_shape(&s), Err(ShapeError::NoCells)));
    let mut s = shape();
    s.ring = 31;
    assert!(matches!(check_shape(&s), Err(ShapeError::RingCount { ring: 31, cells: 4 })));
    let mut s = shape();
    s.imputed = 3;
    assert!(matches!(check_shape(&s), Err(ShapeError::CellsDisagree)));
    let mut s = shape();
    s.layers[1].values = 5;
    assert!(matches!(check_shape(&s), Err(ShapeError::LayerCount { layer: 1, values: 5, cells: 4 })));
    let mut s = shape();
    s.trade.as_mut().unwrap().demand = 2;
    assert!(matches!(check_shape(&s), Err(ShapeError::DemandCount { demand: 2, cells: 4 })));
    let mut s = shape();
    s.trade.as_mut().unwrap().pois[2].seen = 1;
    assert!(matches!(check_shape(&s), Err(ShapeError::SeenCount { poi: 2, seen: 1, nodes: 2 })));
    let mut s = shape();
    s.trade.as_mut().unwrap().pois[1].tier = "garage".to_owned();
    assert!(matches!(check_shape(&s), Err(ShapeError::UndeclaredTier { poi: 1 })));
    let mut s = shape();
    for p in &mut s.trade.as_mut().unwrap().pois {
        p.rated = false;
    }
    assert!(matches!(check_shape(&s), Err(ShapeError::NoRating)));
    let mut s = shape();
    s.trade.as_mut().unwrap().pois[1].tier = "wash".to_owned();
    assert!(matches!(check_shape(&s), Err(ShapeError::EmptyFirstTier)));
}
