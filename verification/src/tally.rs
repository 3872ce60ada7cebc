//! Counting what a cadastre draws, per administrative unit: which country publishes which grid,
//! which cadastral layer a tally reads, and where each commune's layer is fetched from.
use vstd::prelude::*;

use crate::grid::GridSource;
use crate::rank::lowercase;
use crate::text::{push_str, string_of};

verus! {

/// Who publishes the grid and the cadastre: one row per country.
#[derive(Clone, Copy, Debug, PartialEq, Eq, Structural)]
pub enum Country {
    France,
}

/// What to count. Everything here is something an official cadastre already draws, so a variant is
/// a layer name and a filter, never a detection of our own.
#[derive(Clone, Copy, Debug, PartialEq, Eq, Structural)]
pub enum Tally {
    /// In-ground swimming pool. The one variant checked against a published count.
    Pool,
    /// Every building footprint.
    Building,
    /// Every cadastral parcel.
    Parcel,
}

/// The dated cadastre snapshot, not `latest`: a vintage that moved under us would move the counts.
pub open spec fn vintage() -> Seq<char> {
    "2026-06-01"@
}

impl Country {
    /// The grid the cadastre snapshot is paired with, and its vintage: the country's, not a choice.
    pub fn grid(self) -> (r: (GridSource, u16))
        ensures
            r == (GridSource::InseeFilosofi200m, 2021u16),
    {
        match self {
            Country::France => (GridSource::InseeFilosofi200m, 2021),
        }
    }

    pub open spec fn debug(self) -> Seq<char> {
        "France"@
    }
}

impl Tally {
    pub open spec fn layer_name(self) -> Seq<char> {
        match self {
            Tally::Pool => "tsurf"@,
            Tally::Building => "batiment"@,
            Tally::Parcel => "parcelle"@,
        }
    }

    /// The cadastral layer, which is also the cache directory under the work dir.
    pub fn layer(self) -> (s: &'static str)
        ensures
            s@ == self.layer_name(),
    {
        match self {
            Tally::Pool => "tsurf",
            Tally::Building => "batiment",
            Tally::Parcel => "parcelle",
        }
    }

    /// Whether a feature of the layer counts. The surface layer draws more than pools, and symbol
    /// `65` is the one every published French pool count is built on. `sym` is the feature's `SYM`
    /// property where it is a string.
    pub fn keeps(self, sym: Option<&str>) -> (r: bool)
        ensures
            r == (match self {
                Tally::Pool => sym matches Some(s) && s@ == "65"@,
                _ => true,
            }),
    {
        match self {
            Tally::Pool => match sym {
                Some(s) => crate::text::same_text(s, "65"),
                None => false,
            },
            Tally::Building | Tally::Parcel => true,
        }
    }

    pub open spec fn debug(self) -> Seq<char> {
        match self {
            Tally::Pool => "Pool"@,
            Tally::Building => "Building"@,
            Tally::Parcel => "Parcel"@,
        }
    }

    fn debug_str(self) -> (s: &'static str)
        ensures
            s@ == self.debug(),
    {
        match self {
            Tally::Pool => "Pool",
            Tally::Building => "Building",
            Tally::Parcel => "Parcel",
        }
    }

    /// What the tally counts, plural and lowercase.
    pub fn label(self) -> (s: String)
        ensures
            s@ == lowercase(self.debug() + "s"@),
    {
        let mut v: Vec<char> = Vec::new();
        push_str(&mut v, self.debug_str());
        push_str(&mut v, "s");
        crate::rank::lower(string_of(&v).as_str())
    }
}

/// The file a compiled tally is written under: country, tally and denominator, lowercase.
pub fn compiled_name(country: Country, tally: Tally, per: &str) -> (s: String)
    ensures
        s@ == lowercase(country.debug() + "-"@ + tally.debug() + "-per-"@ + per@),
{
    let mut v: Vec<char> = Vec::new();
    match country {
        Country::France => push_str(&mut v, "France"),
    }
    push_str(&mut v, "-");
    push_str(&mut v, tally.debug_str());
    push_str(&mut v, "-per-");
    push_str(&mut v, per);
    crate::rank::lower(string_of(&v).as_str())
}

/// Where Etalab republishes one commune's layer: one gzipped GeoJSON per commune per layer, under
/// the commune's department, which is the first two characters of its code.
pub open spec fn layer_url(tally: Tally, code: Seq<char>) -> Seq<char> {
    "https://cadastre.data.gouv.fr/data/etalab-cadastre/"@ + vintage() + "/geojson/communes/"@ + code.take(2)
        + "/"@ + code + "/raw/pci-"@ + code + "-"@ + tally.layer_name() + ".json.gz"@
}

/// The department is cut off the code by byte, so the code must start with two one-byte
/// characters.
pub fn cadastre_url(tally: Tally, code: &str) -> (s: String)
    requires
        code@.len() >= 2,
        (code@[0] as u32) < 0x80,
        (code@[1] as u32) < 0x80,
    ensures
        s@ == layer_url(tally, code@),
{
    let c = crate::text::chars_of(code);
    let mut v: Vec<char> = Vec::new();
    push_str(&mut v, "https://cadastre.data.gouv.fr/data/etalab-cadastre/");
    push_str(&mut v, "2026-06-01");
    push_str(&mut v, "/geojson/communes/");
    v.push(c[0]);
    v.push(c[1]);
    push_str(&mut v, "/");
    push_str(&mut v, code);
    push_str(&mut v, "/raw/pci-");
    push_str(&mut v, code);
    push_str(&mut v, "-");
    push_str(&mut v, tally.layer());
    push_str(&mut v, ".json.gz");
    assert(code@.take(2) =~= seq![c@[0], c@[1]]);
    let s = string_of(&v);
    assert(s@ =~= layer_url(tally, code@));
    s
}

/// How often one commune's layer is asked for before an answer is believed: the mirror answers
/// `404` to requests that are not real absences, so a `404` is believed only on the last try.
pub const TRIES: u32 = 4;

/// How one request for a commune's layer went.
#[derive(Clone, Copy, Debug, PartialEq, Eq, Structural)]
pub enum Fetch {
    /// The layer came back.
    Body,
    /// The mirror answered `404`.
    NotFound,
    /// Anything else went wrong.
    Failed,
}

/// What follows a request.
#[derive(Clone, Copy, Debug, PartialEq, Eq, Structural)]
pub enum Retry {
    /// Read what came back.
    Read,
    /// The commune has no layer: remember that, and count nothing for it.
    Absent,
    /// Give up with the request's error.
    GiveUp,
    /// Wait this many seconds and ask again.
    Wait(u64),
}

/// After try number `attempt` (from one) went as `outcome`: a body is read, and until the last try
/// a failure of either kind waits twice the try's number in seconds; on the last, a `404` marks the
/// commune absent and any other failure gives up.
pub fn after_try(attempt: u32, outcome: Fetch) -> (r: Retry)
    requires
        1 <= attempt <= TRIES,
    ensures
        r == (match outcome {
            Fetch::Body => Retry::Read,
            Fetch::NotFound => if attempt == TRIES {
                Retry::Absent
            } else {
                Retry::Wait((2 * attempt) as u64)
            },
            Fetch::Failed => if attempt == TRIES {
                Retry::GiveUp
            } else {
                Retry::Wait((2 * attempt) as u64)
            },
        }),
{
    match outcome {
        Fetch::Body => Retry::Read,
        _ => {
            if attempt == TRIES {
                match outcome {
                    Fetch::NotFound => Retry::Absent,
                    _ => Retry::GiveUp,
                }
            } else {
                Retry::Wait((2 * attempt) as u64)
            }
        },
    }
}

} // verus!
