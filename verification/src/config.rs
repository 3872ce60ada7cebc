//! The study document's parts that the library reads, and the checks a study must pass before
//! anything is bought: a name for the pairing, one pin per candidate name, someone in every tier.
use vstd::prelude::*;

use crate::find::{first_true, index_of, lemma_first_true_step, lemma_first_true_whole, position};
use crate::grid::GridSource;
use crate::model::Scale;
use crate::search::Group;
use crate::text::{owned, push_str, string_of};

verus! {

/// Which statistical grid, and which vintage of it.
#[derive(Clone, Copy, Debug)]
pub struct GridSpec {
    pub source: GridSource,
    pub vintage: u16,
}

/// A column the source does not publish, evaluated over the ones it does.
#[derive(Clone, Debug)]
pub struct Column {
    pub name: String,
    pub expr: String,
}

/// A layer the map paints, from an expression over the grid's columns.
#[derive(Clone, Debug)]
pub struct Layer {
    pub name: String,
    pub expr: String,
    pub scale: Scale,
    pub note: Option<String>,
}

impl Layer {
    /// What the map captions the layer with: its note, or the expression itself where it has none.
    pub fn caption(&self) -> (s: String)
        ensures
            s@ == (match self.note {
                Some(n) => n@,
                None => self.expr@,
            }),
    {
        match &self.note {
            Some(n) => n.clone(),
            None => self.expr.clone(),
        }
    }
}

/// The search-volume half of a study: which provider, which Google canonical place, which
/// language, and the groups charted.
#[derive(Clone, Debug)]
pub struct Searches {
    pub provider: String,
    pub place: String,
    pub language: String,
    pub groups: Vec<Group>,
}

/// A study names the pairing it was made from: `<trade>_-_<location>`, from the two file stems.
pub open spec fn pairing(trade: Seq<char>, location: Seq<char>) -> Seq<char> {
    trade + "_-_"@ + location
}

pub fn study_name(trade: &str, location: &str) -> (s: String)
    ensures
        s@ == pairing(trade@, location@),
{
    let mut v: Vec<char> = Vec::new();
    push_str(&mut v, trade);
    push_str(&mut v, "_-_");
    push_str(&mut v, location);
    string_of(&v)
}

/// `Path::file_stem` of a path given as text, as a function of that text: the file name without
/// its last extension. `None` where the path has no file name.
pub uninterp spec fn path_stem(p: Seq<char>) -> Option<Seq<char>>;

/// `std::path::Path::file_stem`, on a path that is UTF-8 text and so has a UTF-8 stem.
#[verifier::external_body]
fn file_stem(p: &str) -> (r: Option<String>)
    ensures
        r is Some <==> path_stem(p@) is Some,
        r matches Some(s) ==> Some(s@) == path_stem(p@),
{
    std::path::Path::new(p).file_stem().and_then(|s| s.to_str()).map(|s| s.to_owned())
}

/// The stem of a study path, which is half a study's name and the whole of what a picker shows.
/// A study path has one.
pub fn stem(p: &str) -> (s: String)
    requires
        path_stem(p@) is Some,
    ensures
        Some(s@) == path_stem(p@),
{
    match file_stem(p) {
        Some(s) => s,
        None => owned(""),
    }
}

/// The stem where the path has one.
pub fn try_stem(p: &str) -> (r: Option<String>)
    ensures
        r is Some <==> path_stem(p@) is Some,
        r matches Some(s) ==> Some(s@) == path_stem(p@),
{
    match file_stem(p) {
        Some(_) => Some(stem(p)),
        None => None,
    }
}

/// Whether the name at `i` was already used before it.
pub open spec fn repeats(names: Seq<String>, i: int) -> bool {
    exists|j: int| 0 <= j < i && names[j]@ == names[i]@
}

pub open spec fn repeated(names: Seq<String>) -> Seq<bool> {
    Seq::new(names.len(), |i: int| repeats(names, i))
}

/// The first name that repeats an earlier one. Candidates are hidden by name on the map, so two of
/// one name would hide two pins at once; two chart groups of one name would be one line.
pub fn first_repeat(names: &Vec<String>) -> (r: Option<usize>)
    ensures
        r is None <==> first_true(repeated(names@)) is None,
        r matches Some(i) ==> first_true(repeated(names@)) == Some(i as int),
{
    let ghost b = repeated(names@);
    let mut i: usize = 0;
    assert(b.take(0) =~= Seq::<bool>::empty());
    while i < names.len()
        invariant
            i <= names@.len(),
            b == repeated(names@),
            first_true(b.take(i as int)) is None,
        decreases names@.len() - i,
    {
        proof {
            lemma_first_true_step(b, i as int);
        }
        let mut j: usize = 0;
        while j < i
            invariant
                j <= i < names@.len(),
                forall|k: int| 0 <= k < j ==> names@[k]@ != names@[i as int]@,
                b == repeated(names@),
                b[i as int] ==> first_true(b) == Some(i as int),
            decreases i - j,
        {
            if crate::text::same_text(names[j].as_str(), names[i].as_str()) {
                assert(repeats(names@, i as int));
                assert(b[i as int]);
                return Some(i);
            }
            j += 1;
        }
        assert(!repeats(names@, i as int));
        i += 1;
    }
    proof {
        lemma_first_true_whole(b);
    }
    None
}

pub open spec fn unpopulated(tiers: Seq<String>, members: Seq<String>) -> Seq<bool> {
    tiers.map_values(|t: String| index_of(members, t@) is None)
}

/// The first declared tier no competitor fell into: a tier nobody is in is a rule that matched
/// nothing, and the study should say so rather than paint a map without it.
pub fn empty_tier(tiers: &Vec<String>, members: &Vec<String>) -> (r: Option<usize>)
    ensures
        r is None <==> first_true(unpopulated(tiers@, members@)) is None,
        r matches Some(i) ==> first_true(unpopulated(tiers@, members@)) == Some(i as int),
{
    let ghost b = unpopulated(tiers@, members@);
    let mut i: usize = 0;
    assert(b.take(0) =~= Seq::<bool>::empty());
    while i < tiers.len()
        invariant
            i <= tiers@.len(),
            b == unpopulated(tiers@, members@),
            first_true(b.take(i as int)) is None,
        decreases tiers@.len() - i,
    {
        proof {
            lemma_first_true_step(b, i as int);
        }
        if position(members, tiers[i].as_str()).is_none() {
            return Some(i);
        }
        i += 1;
    }
    proof {
        lemma_first_true_whole(b);
    }
    None
}

/// What the served page is titled: the one pairing, or how many trades over how many locations.
pub open spec fn spec_serve_title(trades: Seq<Seq<char>>, locations: Seq<Seq<char>>) -> Seq<char> {
    if trades.len() == 1 && locations.len() == 1 {
        trades[0] + " in "@ + locations[0]
    } else {
        crate::text::decimal(trades.len()) + " trades over "@ + crate::text::decimal(locations.len()) + " locations"@
    }
}

pub fn serve_title(trades: &Vec<String>, locations: &Vec<String>) -> (s: String)
    ensures
        s@ == spec_serve_title(trades@.map_values(|t: String| t@), locations@.map_values(|l: String| l@)),
{
    let mut v: Vec<char> = Vec::new();
    if trades.len() == 1 && locations.len() == 1 {
        push_str(&mut v, trades[0].as_str());
        push_str(&mut v, " in ");
        push_str(&mut v, locations[0].as_str());
    } else {
        crate::text::push_decimal(&mut v, trades.len() as u64);
        push_str(&mut v, " trades over ");
        crate::text::push_decimal(&mut v, locations.len() as u64);
        push_str(&mut v, " locations");
    }
    string_of(&v)
}

} // verus!
