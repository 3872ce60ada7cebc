//! Statistical grid cells: the EPSG:3035 id every catalogued source encodes its cell corner in,
//! and the table of archives the grids are read from.
use vstd::prelude::*;

use crate::find::{first_true, index_of, lemma_first_true_step, lemma_first_true_whole, position};
use crate::text::{
    decimal, lemma_decimal_digits, lemma_find_char_after, lemma_parse_decimal, lemma_parse_signed_decimal,
    signed_decimal, is_digit, chars_of, find_char, find_in, has_prefix_at, i64_of, owned, parse_i64, parse_u32, same_text, string_of, u32_of,
};

verus! {

/// SW corner of an EPSG:3035 cell, as encoded in `CRS3035RES{res}mN{north}E{east}`.
#[derive(Clone, Copy, Debug, PartialEq, Eq, Structural)]
pub struct CellId {
    pub res_m: u32,
    pub north: i64,
    pub east: i64,
}

/// Why a string is not a cell id, in the order the parts are read.
#[derive(Clone, Copy, Debug, PartialEq, Eq, Structural)]
pub enum CellIdError {
    NotCrs3035,
    NoResolution,
    NoNorthing,
    NoEasting,
    BadResolution,
    BadNorthing,
    BadEasting,
}

pub open spec fn crs_prefix() -> Seq<char> {
    seq!['C', 'R', 'S', '3', '0', '3', '5', 'R', 'E', 'S']
}

/// The id grammar, part by part: the `CRS3035RES` prefix, the resolution up to the first `m`, an
/// `N`, the northing up to the first `E`, and the easting to the end.
pub open spec fn spec_parse_cell_id(s: Seq<char>) -> Result<CellId, CellIdError> {
    if !(s.len() >= 10 && s.take(10) == crs_prefix()) {
        Err(CellIdError::NotCrs3035)
    } else {
        let rest = s.skip(10);
        match find_char(rest, 'm') {
            None => Err(CellIdError::NoResolution),
            Some(i) => {
                let res = rest.take(i);
                let after = rest.skip(i + 1);
                if !(after.len() > 0 && after[0] == 'N') {
                    Err(CellIdError::NoNorthing)
                } else {
                    let ne = after.drop_first();
                    match find_char(ne, 'E') {
                        None => Err(CellIdError::NoEasting),
                        Some(j) => {
                            let north = ne.take(j);
                            let east = ne.skip(j + 1);
                            match (u32_of(res), i64_of(north), i64_of(east)) {
                                (None, _, _) => Err(CellIdError::BadResolution),
                                (Some(_), None, _) => Err(CellIdError::BadNorthing),
                                (Some(_), Some(_), None) => Err(CellIdError::BadEasting),
                                (Some(r), Some(n), Some(e)) => Ok(CellId { res_m: r, north: n, east: e }),
                            }
                        },
                    }
                }
            },
        }
    }
}

/// A cell's id as the sources write it: `CRS3035RES{res}mN{north}E{east}`.
pub open spec fn cell_id_text(c: CellId) -> Seq<char> {
    crs_prefix() + decimal(c.res_m as nat) + seq!['m', 'N'] + signed_decimal(c.north as int) + seq!['E']
        + signed_decimal(c.east as int)
}

/// Reading a cell's id gives the cell back: parsing undoes the encoding.
pub proof fn parsing_undoes_the_id(c: CellId)
    ensures
        spec_parse_cell_id(cell_id_text(c)) == Ok::<CellId, CellIdError>(c),
{
    let r = decimal(c.res_m as nat);
    let n = signed_decimal(c.north as int);
    let e = signed_decimal(c.east as int);
    lemma_decimal_digits(c.res_m as nat);
    lemma_parse_decimal(c.res_m as nat);
    lemma_parse_signed_decimal(c.north as int);
    lemma_parse_signed_decimal(c.east as int);
    let s = cell_id_text(c);
    assert(s.take(10) =~= crs_prefix());
    let rest = s.skip(10);
    let tail = seq!['N'] + n + seq!['E'] + e;
    assert(rest =~= r + seq!['m'] + tail);
    assert forall|i: int| 0 <= i < r.len() implies r[i] != 'm' by {
        assert(is_digit(r[i]));
    }
    lemma_find_char_after(r, 'm', tail);
    assert(rest.take(r.len() as int) =~= r);
    let after = rest.skip(r.len() as int + 1);
    assert(after =~= tail);
    let ne = after.drop_first();
    assert(ne =~= n + seq!['E'] + e);
    assert forall|i: int| 0 <= i < n.len() implies n[i] != 'E' by {
        assert(is_digit(n[i]) || n[i] == '-');
    }
    lemma_find_char_after(n, 'E', e);
    assert(ne.take(n.len() as int) =~= n);
    assert(ne.skip(n.len() as int + 1) =~= e);
}

impl CellId {
    pub fn parse(s: &str) -> (r: Result<CellId, CellIdError>)
        ensures
            r == spec_parse_cell_id(s@),
    {
        let v = chars_of(s);
        let ghost t = v@;
        let prefix: [char; 10] = ['C', 'R', 'S', '3', '0', '3', '5', 'R', 'E', 'S'];
        assert(prefix@ == crs_prefix());
        if !has_prefix_at(&v, 0, prefix.as_slice()) {
            proof {
                if t.len() >= 10 {
                    assert(t.subrange(0, 10) == t.take(10));
                }
            }
            return Err(CellIdError::NotCrs3035);
        }
        assert(t.subrange(0, 10) == t.take(10));
        let ghost rest = t.skip(10);
        let n = v.len();
        assert(t.subrange(10, n as int) =~= rest);
        let m = match find_in(&v, 10, n, 'm') {
            None => {
                return Err(CellIdError::NoResolution);
            },
            Some(m) => m,
        };
        let ghost i = m - 10;
        proof {
            crate::text::lemma_find_char_found(rest, 'm');
        }
        assert(find_char(rest, 'm') == Some(i));
        assert(rest.take(i) =~= t.subrange(10, m as int));
        let ghost after = rest.skip(i + 1);
        assert(after =~= t.subrange(m + 1, n as int));
        assert(after.len() == n - m - 1);
        if m + 1 < n {
            assert(after[0] == t[m + 1]);
        }
        if !(m + 1 < n && v[m + 1] == 'N') {
            assert(!(after.len() > 0 && after[0] == 'N'));
            return Err(CellIdError::NoNorthing);
        }
        let ghost ne = after.drop_first();
        assert(ne =~= t.subrange(m + 2, n as int));
        let e = match find_in(&v, m + 2, n, 'E') {
            None => {
                return Err(CellIdError::NoEasting);
            },
            Some(e) => e,
        };
        let ghost j = e - (m + 2);
        proof {
            crate::text::lemma_find_char_found(ne, 'E');
        }
        assert(find_char(ne, 'E') == Some(j));
        assert(ne.take(j) =~= t.subrange(m + 2, e as int));
        assert(ne.skip(j + 1) =~= t.subrange(e + 1, n as int));
        let res_m = match parse_u32(&v, 10, m) {
            None => {
                return Err(CellIdError::BadResolution);
            },
            Some(r) => r,
        };
        let north = match parse_i64(&v, m + 2, e) {
            None => {
                return Err(CellIdError::BadNorthing);
            },
            Some(x) => x,
        };
        let east = match parse_i64(&v, e + 1, n) {
            None => {
                return Err(CellIdError::BadEasting);
            },
            Some(x) => x,
        };
        Ok(CellId { res_m, north, east })
    }
}

/// The statistical grids the tool can read.
#[derive(Clone, Copy, Debug, PartialEq, Eq, Structural)]
pub enum GridSource {
    /// INSEE Filosofi: France, 200 m, households, housing type, standard of living.
    InseeFilosofi200m,
    /// Eurostat census grid: EU, 1 km, head counts by age, sex, employment and origin.
    Geostat1km,
}

/// Where one vintage of a grid is and how its CSV is laid out: the whole difference between two
/// sources.
#[derive(Clone, Copy, Debug)]
pub struct Archive {
    pub url: &'static str,
    pub member: &'static str,
    pub id_col: &'static str,
    pub place_col: &'static str,
    /// 1 where the row is modelled rather than observed.
    pub imputed_col: Option<&'static str>,
    /// Everything else in the header must parse as a number, for every cell.
    pub text_cols: &'static [&'static str],
    pub res_m: u32,
}

/// No archive is catalogued for this source and vintage.
#[derive(Clone, Copy, Debug, PartialEq, Eq, Structural)]
pub struct NoArchive {
    pub source: GridSource,
    pub vintage: u16,
}

pub open spec fn insee_text_cols() -> Seq<Seq<char>> {
    seq!["idcar_200m"@, "idcar_1km"@, "idcar_nat"@, "lcog_geo"@]
}

pub open spec fn geostat_text_cols() -> Seq<Seq<char>> {
    seq!["GRD_ID"@, "CNTR_ID"@]
}

pub open spec fn text_cols_view(a: Archive) -> Seq<Seq<char>> {
    a.text_cols@.map_values(|t: &str| t@)
}

/// The catalogue, as what each archive holds: url, member, id and place columns, provenance
/// column, text columns, resolution.
pub open spec fn catalogued(a: Archive, source: GridSource) -> bool {
    match source {
        GridSource::InseeFilosofi200m => {
            &&& a.url@ == "https://www.insee.fr/fr/statistiques/fichier/8735162/Filosofi2021_carreaux_200m_csv.zip"@
            &&& a.member@ == "carreaux_200m_met.csv"@
            &&& a.id_col@ == "idcar_200m"@
            &&& a.place_col@ == "lcog_geo"@
            &&& a.imputed_col matches Some(c) && c@ == "i_est_200"@
            &&& text_cols_view(a) == insee_text_cols()
            &&& a.res_m == 200
        },
        GridSource::Geostat1km => {
            &&& a.url@ == "https://gisco-services.ec.europa.eu/census/2021/Eurostat_Census-GRID_2021_V3.zip"@
            &&& a.member@ == "Eurostat_Census-GRID_2021_V3/ESTAT_Census_2021_V3.csv"@
            &&& a.id_col@ == "GRD_ID"@
            &&& a.place_col@ == "CNTR_ID"@
            &&& a.imputed_col is None
            &&& text_cols_view(a) == geostat_text_cols()
            &&& a.res_m == 1000
        },
    }
}

impl GridSource {
    /// Both sources are catalogued for 2021 only.
    pub fn archive(self, vintage: u16) -> (r: Result<Archive, NoArchive>)
        ensures
            vintage == 2021 <==> r is Ok,
            r matches Ok(a) ==> catalogued(a, self),
            r matches Err(e) ==> e == (NoArchive { source: self, vintage }),
    {
        if vintage != 2021 {
            return Err(NoArchive { source: self, vintage });
        }
        match self {
            GridSource::InseeFilosofi200m => {
                let a = Archive {
                    url: "https://www.insee.fr/fr/statistiques/fichier/8735162/Filosofi2021_carreaux_200m_csv.zip",
                    member: "carreaux_200m_met.csv",
                    id_col: "idcar_200m",
                    place_col: "lcog_geo",
                    imputed_col: Some("i_est_200"),
                    text_cols: &["idcar_200m", "idcar_1km", "idcar_nat", "lcog_geo"],
                    res_m: 200,
                };
                assert(text_cols_view(a) =~= insee_text_cols());
                Ok(a)
            },
            GridSource::Geostat1km => {
                let a = Archive {
                    url: "https://gisco-services.ec.europa.eu/census/2021/Eurostat_Census-GRID_2021_V3.zip",
                    member: "Eurostat_Census-GRID_2021_V3/ESTAT_Census_2021_V3.csv",
                    id_col: "GRD_ID",
                    place_col: "CNTR_ID",
                    imputed_col: None,
                    text_cols: &["GRD_ID", "CNTR_ID"],
                    res_m: 1000,
                };
                assert(text_cols_view(a) =~= geostat_text_cols());
                Ok(a)
            },
        }
    }
}

/// Where the columns a scan reads stand in an archive's header.
#[derive(Clone, Debug)]
pub struct Columns {
    pub id: usize,
    pub place: usize,
    pub imputed: Option<usize>,
    /// Every column that is not text, in header order.
    pub numeric: Vec<usize>,
}

pub open spec fn text_missing(a: Archive, header: Seq<String>) -> Seq<bool> {
    text_cols_view(a).map_values(|t: Seq<char>| index_of(header, t) is None)
}

/// The first column the archive needs that the header lacks: id, place, provenance, then each text
/// column in turn.
pub open spec fn missing_column(a: Archive, header: Seq<String>) -> Option<Seq<char>> {
    if index_of(header, a.id_col@) is None {
        Some(a.id_col@)
    } else if index_of(header, a.place_col@) is None {
        Some(a.place_col@)
    } else if a.imputed_col matches Some(c) && index_of(header, c@) is None {
        Some(a.imputed_col->0@)
    } else if first_true(text_missing(a, header)) is Some {
        Some(text_cols_view(a)[first_true(text_missing(a, header))->0])
    } else {
        None
    }
}

pub open spec fn is_text(a: Archive, h: Seq<char>) -> bool {
    text_cols_view(a).contains(h)
}

fn among(list: &[&str], s: &str) -> (r: bool)
    ensures
        r == list@.map_values(|t: &str| t@).contains(s@),
{
    let ghost l = list@.map_values(|t: &str| t@);
    let mut k: usize = 0;
    while k < list.len()
        invariant
            k <= list@.len(),
            l == list@.map_values(|t: &str| t@),
            forall|m: int| 0 <= m < k ==> l[m] != s@,
        decreases list@.len() - k,
    {
        if same_text(list[k], s) {
            assert(l[k as int] == s@);
            return true;
        }
        k += 1;
    }
    assert forall|m: int| 0 <= m < l.len() implies l[m] != s@ by {}
    false
}

/// Where the archive's columns stand in `header`. `Err`: the first one it lacks.
pub fn columns(a: &Archive, header: &Vec<String>) -> (r: Result<Columns, String>)
    ensures
        r is Err <==> missing_column(*a, header@) is Some,
        r matches Err(n) ==> missing_column(*a, header@) == Some(n@),
        r matches Ok(c) ==> {
            &&& index_of(header@, a.id_col@) == Some(c.id as int)
            &&& index_of(header@, a.place_col@) == Some(c.place as int)
            &&& c.imputed == (match a.imputed_col {
                Some(n) => Some(index_of(header@, n@)->0 as usize),
                None => None,
            })
            &&& forall|i: int, j: int| 0 <= i < j < c.numeric@.len() ==> c.numeric@[i] < c.numeric@[j]
            &&& forall|i: usize| c.numeric@.contains(i) <==> (i < header@.len() && !is_text(*a, header@[i as int]@))
        },
{
    let id = match position(header, a.id_col) {
        Some(i) => i,
        None => {
            return Err(owned(a.id_col));
        },
    };
    let place = match position(header, a.place_col) {
        Some(i) => i,
        None => {
            return Err(owned(a.place_col));
        },
    };
    let imputed = match a.imputed_col {
        Some(c) => match position(header, c) {
            Some(i) => Some(i),
            None => {
                return Err(owned(c));
            },
        },
        None => None,
    };
    let texts = a.text_cols;
    let ghost b = text_missing(*a, header@);
    let mut k: usize = 0;
    assert(b.take(0) =~= Seq::<bool>::empty());
    while k < texts.len()
        invariant
            k <= texts@.len(),
            texts == a.text_cols,
            b == text_missing(*a, header@),
            index_of(header@, a.id_col@) == Some(id as int),
            index_of(header@, a.place_col@) == Some(place as int),
            imputed == (match a.imputed_col {
                Some(n) => Some(index_of(header@, n@)->0 as usize),
                None => None,
            }),
            a.imputed_col matches Some(c) ==> index_of(header@, c@) is Some,
            first_true(b.take(k as int)) is None,
        decreases texts@.len() - k,
    {
        proof {
            lemma_first_true_step(b, k as int);
        }
        assert(text_cols_view(*a)[k as int] == texts@[k as int]@);
        assert(b[k as int] == (index_of(header@, texts@[k as int]@) is None));
        if position(header, texts[k]).is_none() {
            assert(b[k as int]);
            return Err(owned(texts[k]));
        }
        k += 1;
    }
    proof {
        lemma_first_true_whole(b);
    }
    let mut numeric: Vec<usize> = Vec::new();
    let mut i: usize = 0;
    while i < header.len()
        invariant
            i <= header@.len(),
            texts == a.text_cols,
            index_of(header@, a.id_col@) == Some(id as int),
            index_of(header@, a.place_col@) == Some(place as int),
            imputed == (match a.imputed_col {
                Some(n) => Some(index_of(header@, n@)->0 as usize),
                None => None,
            }),
            a.imputed_col matches Some(c) ==> index_of(header@, c@) is Some,
            forall|x: int, y: int| 0 <= x < y < numeric@.len() ==> numeric@[x] < numeric@[y],
            forall|x: int| 0 <= x < numeric@.len() ==> numeric@[x] < i,
            forall|x: usize| numeric@.contains(x) <==> (x < i && !is_text(*a, header@[x as int]@)),
        decreases header@.len() - i,
    {
        let ghost before = numeric@;
        if !among(texts, header[i].as_str()) {
            numeric.push(i);
        }
        assert forall|x: usize| numeric@.contains(x) <==> (x < i + 1 && !is_text(*a, header@[x as int]@)) by {
            if numeric@.contains(x) {
                let m = choose|m: int| 0 <= m < numeric@.len() && numeric@[m] == x;
                if m < before.len() {
                    assert(before[m] == x);
                    assert(before.contains(x));
                }
            }
            if x < i && !is_text(*a, header@[x as int]@) {
                assert(before.contains(x));
                let m = choose|m: int| 0 <= m < before.len() && before[m] == x;
                assert(numeric@[m] == x);
            }
            if x == i && !is_text(*a, header@[x as int]@) {
                assert(numeric@[before.len() as int] == x);
            }
        }
        i += 1;
    }
    Ok(Columns { id, place, imputed, numeric })
}

/// A provenance flag: `1` modelled, `0` observed, anything else refused.
pub fn flag(raw: &str) -> (r: Option<bool>)
    ensures
        r == (if raw@ == "1"@ {
            Some(true)
        } else if raw@ == "0"@ {
            Some(false)
        } else {
            None
        }),
{
    if same_text(raw, "1") {
        Some(true)
    } else if same_text(raw, "0") {
        Some(false)
    } else {
        None
    }
}

/// A cell straddling a border lists every unit it touches, comma-separated; the first is the
/// dominant one.
pub open spec fn first_code(raw: Seq<char>) -> Seq<char> {
    match find_char(raw, ',') {
        Some(i) => raw.take(i),
        None => raw,
    }
}

pub fn place_code(raw: &str) -> (s: String)
    ensures
        s@ == first_code(raw@),
{
    let v = chars_of(raw);
    let n = v.len();
    assert(v@.subrange(0, n as int) =~= v@);
    let end = match find_in(&v, 0, n, ',') {
        Some(i) => i,
        None => n,
    };
    proof {
        crate::text::lemma_find_char_found(v@, ',');
    }
    let mut out: Vec<char> = Vec::new();
    let mut k: usize = 0;
    while k < end
        invariant
            k <= end <= v@.len(),
            out@ == v@.take(k as int),
        decreases end - k,
    {
        out.push(v[k]);
        k += 1;
        assert(v@.take(k as int) =~= v@.take(k - 1).push(v@[k - 1]));
    }
    proof {
        if end == n {
            assert(v@.take(n as int) =~= v@);
        }
    }
    string_of(&out)
}

/// Why a row's id is not a cell of this archive.
#[derive(Clone, Copy, Debug, PartialEq, Eq, Structural)]
pub enum RowError {
    Id(CellIdError),
    /// A cell of another resolution than the archive's.
    Resolution { got: u32, want: u32 },
}

/// A row's cell id, read and held to the archive's resolution.
pub fn read_id(id: &str, a: &Archive) -> (r: Result<CellId, RowError>)
    ensures
        r == (match spec_parse_cell_id(id@) {
            Err(e) => Err(RowError::Id(e)),
            Ok(c) => if c.res_m == a.res_m {
                Ok(c)
            } else {
                Err(RowError::Resolution { got: c.res_m, want: a.res_m })
            },
        }),
{
    match CellId::parse(id) {
        Err(e) => Err(RowError::Id(e)),
        Ok(c) => if c.res_m == a.res_m {
            Ok(c)
        } else {
            Err(RowError::Resolution { got: c.res_m, want: a.res_m })
        },
    }
}

/// The department of a commune code: its first two characters.
pub open spec fn department(code: Seq<char>) -> Seq<char> {
    code.take(2)
}

/// The departments a set of commune codes falls in, sorted, each once: one commune list is asked
/// per department. Each code starts with two one-byte characters, which is what cutting it at its
/// second byte needs.
pub fn departments(codes: &Vec<String>) -> (out: Vec<String>)
    requires
        forall|i: int|
            0 <= i < codes@.len() ==> (#[trigger] codes@[i])@.len() >= 2 && (codes@[i]@[0] as u32) < 0x80 && (
            codes@[i]@[1] as u32) < 0x80,
    ensures
        crate::rank::ascending(crate::rank::views(out@)),
        forall|x: Seq<char>|
            crate::rank::views(out@).contains(x) <==> exists|i: int|
                0 <= i < codes@.len() && #[trigger] department(codes@[i]@) == x,
{
    let mut out: Vec<String> = Vec::new();
    let mut i: usize = 0;
    while i < codes.len()
        invariant
            i <= codes@.len(),
            forall|k: int|
                0 <= k < codes@.len() ==> (#[trigger] codes@[k])@.len() >= 2,
            crate::rank::ascending(crate::rank::views(out@)),
            forall|x: Seq<char>|
                crate::rank::views(out@).contains(x) <==> exists|k: int|
                    0 <= k < i && #[trigger] department(codes@[k]@) == x,
        decreases codes@.len() - i,
    {
        let c = chars_of(codes[i].as_str());
        let mut d: Vec<char> = Vec::new();
        d.push(c[0]);
        d.push(c[1]);
        let dep = string_of(&d);
        assert(dep@ =~= department(codes@[i as int]@));
        let ghost before = crate::rank::views(out@);
        crate::rank::insert_sorted(&mut out, dep);
        assert forall|x: Seq<char>|
            crate::rank::views(out@).contains(x) <==> exists|k: int| 0 <= k < i + 1 && #[trigger] department(codes@[k]@) == x by {
            if x == dep@ {
                assert(department(codes@[i as int]@) == x);
            }
            if exists|k: int| 0 <= k < i + 1 && #[trigger] department(codes@[k]@) == x {
                let k = choose|k: int| 0 <= k < i + 1 && #[trigger] department(codes@[k]@) == x;
                if k < i {
                    assert(before.contains(x));
                }
            }
            if before.contains(x) {
                let k = choose|k: int| 0 <= k < i && #[trigger] department(codes@[k]@) == x;
                assert(0 <= k < i + 1);
            }
        }
        i += 1;
    }
    out
}

} // verus!
