use gmaps_optimal_placement::grid::{columns, flag, place_code, read_id, Archive, CellId, CellIdError, GridSource, NoArchive, RowError};

#[test]
fn ids_at_both_resolutions() {
    assert_eq!(
        CellId::parse("CRS3035RES200mN2029400E4259000").unwrap(),
        CellId { res_m: 200, north: 2029400, east: 4259000 }
    );
    assert_eq!(
        CellId::parse("CRS3035RES1000mN2683000E4285000").unwrap(),
        CellId { res_m: 1000, north: 2683000, east: 4285000 }
    );
    assert_eq!(
        CellId::parse("CRS3035RES32000mN2016000E4256000").unwrap(),
        CellId { res_m: 32000, north: 2016000, east: 4256000 }
    );
    for bad in ["CRS3035RES200mN2029400", "1kmN123E456", "CRS3035RES200mNxxxE4259000"] {
        assert!(CellId::parse(bad).is_err(), "{bad} parsed");
    }
}

#[test]
fn each_malformed_id_says_which_part_failed() {
    assert_eq!(CellId::parse("1kmN123E456"), Err(CellIdError::NotCrs3035));
    assert_eq!(CellId::parse("CRS3035RES200N1E2"), Err(CellIdError::NoResolution));
    assert_eq!(CellId::parse("CRS3035RES200m1E2"), Err(CellIdError::NoNorthing));
    assert_eq!(CellId::parse("CRS3035RES200mN2029400"), Err(CellIdError::NoEasting));
    assert_eq!(CellId::parse("CRS3035RESxmN1E2"), Err(CellIdError::BadResolution));
    assert_eq!(CellId::parse("CRS3035RES200mNxxxE4259000"), Err(CellIdError::BadNorthing));
    assert_eq!(CellId::parse("CRS3035RES200mN1E"), Err(CellIdError::BadEasting));
    assert_eq!(CellId::parse("CRS3035RES200mN-5E+7"), Ok(CellId { res_m: 200, north: -5, east: 7 }));
}

/// A vintage with no archive behind it is an error, not an empty map.
#[test]
fn unknown_vintage() {
    let e = GridSource::Geostat1km.archive(2011).unwrap_err();
    assert_eq!(e, NoArchive { source: GridSource::Geostat1km, vintage: 2011 });
    assert_eq!(e.vintage, 2011);
}

#[test]
fn both_sources_are_catalogued_for_2021() {
    let a = GridSource::InseeFilosofi200m.archive(2021).unwrap();
    assert_eq!(a.res_m, 200);
    assert_eq!(a.id_col, "idcar_200m");
    assert_eq!(a.imputed_col, Some("i_est_200"));
    assert_eq!(a.text_cols, &["idcar_200m", "idcar_1km", "idcar_nat", "lcog_geo"]);
    let g = GridSource::Geostat1km.archive(2021).unwrap();
    assert_eq!(g.res_m, 1000);
    assert_eq!(g.place_col, "CNTR_ID");
    assert_eq!(g.imputed_col, None);
}

fn header(cols: &[&str]) -> Vec<String> {
    cols.iter().map(|c| c.to_string()).collect()
}

#[test]
fn text_columns_are_not_numeric() {
    let a: Archive = GridSource::Geostat1km.archive(2021).unwrap();
    let h = header(&["GRD_ID", "T", "M", "CNTR_ID", "LAND_SURFACE"]);
    let c = columns(&a, &h).unwrap();
    assert_eq!(c.id, 0);
    assert_eq!(c.place, 3);
    assert_eq!(c.imputed, None);
    assert_eq!(c.numeric, vec![1, 2, 4]);
}

#[test]
fn a_missing_column_is_named() {
    let a = GridSource::InseeFilosofi200m.archive(2021).unwrap();
    let h = header(&["idcar_200m", "lcog_geo", "ind"]);
    assert_eq!(columns(&a, &h).unwrap_err(), "i_est_200");
    let h = header(&["idcar_200m", "lcog_geo", "i_est_200", "idcar_1km", "idcar_nat", "ind"]);
    let c = columns(&a, &h).unwrap();
    assert_eq!(c.imputed, Some(2));
    // the provenance flag is a number like any other
    assert_eq!(c.numeric, vec![2, 5]);
    let h = header(&["lcog_geo"]);
    assert_eq!(columns(&a, &h).unwrap_err(), "idcar_200m");
}

#[test]
fn provenance_flags_and_place_codes() {
    assert_eq!(flag("1"), Some(true));
    assert_eq!(flag("0"), Some(false));
    assert_eq!(flag("2"), None);
    assert_eq!(place_code("63113,63178"), "63113");
    assert_eq!(place_code("63113"), "63113");
    assert_eq!(place_code(""), "");
}

#[test]
fn a_row_of_another_resolution_is_refused() {
    let a = GridSource::Geostat1km.archive(2021).unwrap();
    assert_eq!(read_id("CRS3035RES1000mN2683000E4285000", &a), Ok(CellId { res_m: 1000, north: 2683000, east: 4285000 }));
    assert_eq!(read_id("CRS3035RES200mN2683000E4285000", &a), Err(RowError::Resolution { got: 200, want: 1000 }));
    assert_eq!(read_id("nope", &a), Err(RowError::Id(CellIdError::NotCrs3035)));
}

#[test]
fn parsing_undoes_the_id_text() {
    for c in [
        CellId { res_m: 200, north: 2_094_400, east: 3_760_600 },
        CellId { res_m: 1000, north: -5, east: 0 },
        CellId { res_m: u32::MAX, north: i64::MIN, east: i64::MAX },
    ] {
        assert_eq!(CellId::parse(&format!("CRS3035RES{}mN{}E{}", c.res_m, c.north, c.east)), Ok(c));
    }
}
