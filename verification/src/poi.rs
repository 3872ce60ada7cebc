//! Competitor inventory rules: which Places results are competitors, in which tier, and when a
//! saturated tile is quartered. The searches themselves are network calls and stay outside.
use vstd::prelude::*;

use crate::find::{first_true, lemma_first_true_step, lemma_first_true_whole};
use crate::pattern::{insensitive, regex_compiles, regex_matches, Pattern};
use crate::order::{is_desc_order, order_desc};
use crate::text::same_text;

verus! {

#[derive(Clone, Copy, Debug, PartialEq, Eq, Structural)]
pub enum PoiSource {
    GooglePlaces,
}

/// A name pattern, a set of source-native categories, or both: either one hits.
#[derive(Clone, Debug)]
pub struct MatchSpec {
    /// Case-insensitive regex over the display name.
    pub pattern: Option<String>,
    pub types: Vec<String>,
}

/// A rule, compiled.
pub struct Matcher {
    pattern: Option<Pattern>,
    types: Vec<String>,
}

pub open spec fn str_views(v: Seq<&str>) -> Seq<Seq<char>> {
    v.map_values(|x: &str| x@)
}

pub open spec fn string_views(v: Seq<String>) -> Seq<Seq<char>> {
    v.map_values(|x: String| x@)
}

/// Whether a rule hits a result: its pattern matches the name, or one of the result's categories
/// is one of the rule's.
pub open spec fn rule_hits(pattern: Option<Seq<char>>, types: Seq<Seq<char>>, name: Seq<char>, kinds: Seq<Seq<char>>) -> bool {
    ||| (pattern matches Some(p) && regex_matches(p, name))
    ||| exists|i: int, j: int| 0 <= i < kinds.len() && 0 <= j < types.len() && kinds[i] == types[j]
}

impl Matcher {
    /// The compiled pattern's text, and the categories.
    pub closed spec fn pattern_src(&self) -> Option<Seq<char>> {
        match self.pattern {
            Some(p) => Some(p.source()),
            None => None,
        }
    }

    pub closed spec fn types_view(&self) -> Seq<Seq<char>> {
        string_views(self.types@)
    }

    pub open spec fn spec_hits(&self, name: Seq<char>, kinds: Seq<Seq<char>>) -> bool {
        rule_hits(self.pattern_src(), self.types_view(), name, kinds)
    }

    pub fn hits(&self, name: &str, kinds: &[&str]) -> (r: bool)
        ensures
            r == self.spec_hits(name@, str_views(kinds@)),
    {
        let named = match &self.pattern {
            Some(p) => p.is_match(name),
            None => false,
        };
        if named {
            return true;
        }
        let ghost ks = str_views(kinds@);
        let ghost ts = string_views(self.types@);
        let mut i: usize = 0;
        while i < kinds.len()
            invariant
                i <= kinds@.len(),
                ks == str_views(kinds@),
                ts == string_views(self.types@),
                forall|a: int, b: int| 0 <= a < i && 0 <= b < ts.len() ==> ks[a] != ts[b],
            decreases kinds@.len() - i,
        {
            let mut j: usize = 0;
            while j < self.types.len()
                invariant
                    i < kinds@.len(),
                    j <= self.types@.len(),
                    ks == str_views(kinds@),
                    ts == string_views(self.types@),
                    forall|a: int, b: int| 0 <= a < i && 0 <= b < ts.len() ==> ks[a] != ts[b],
                    forall|b: int| 0 <= b < j ==> ks[i as int] != ts[b],
                decreases self.types@.len() - j,
            {
                if same_text(self.types[j].as_str(), kinds[i]) {
                    assert(ks[i as int] == ts[j as int]);
                    return true;
                }
                j += 1;
            }
            i += 1;
        }
        false
    }
}

/// Why a rule does not compile.
#[derive(Clone, Copy, Debug, PartialEq, Eq, Structural)]
pub enum RuleError {
    /// A rule needs `match`, `types`, or both.
    Empty,
    /// Its pattern is not one the regex crate accepts.
    BadPattern,
}

pub open spec fn compile_verdict(m: MatchSpec) -> Result<(Option<Seq<char>>, Seq<Seq<char>>), RuleError> {
    if m.pattern is None && m.types@.len() == 0 {
        Err(RuleError::Empty)
    } else if m.pattern matches Some(p) && !regex_compiles(insensitive(p@)) {
        Err(RuleError::BadPattern)
    } else {
        Ok(
            (
                match m.pattern {
                    Some(p) => Some(insensitive(p@)),
                    None => None,
                },
                string_views(m.types@),
            ),
        )
    }
}

/// `m` is what `spec` compiles to.
pub open spec fn compiled_as(m: Matcher, spec: MatchSpec) -> bool {
    compile_verdict(spec) == Ok::<(Option<Seq<char>>, Seq<Seq<char>>), RuleError>((m.pattern_src(), m.types_view()))
}

impl MatchSpec {
    pub fn compile(&self) -> (r: Result<Matcher, RuleError>)
        ensures
            compile_verdict(*self) == (match r {
                Ok(m) => Ok((m.pattern_src(), m.types_view())),
                Err(e) => Err(e),
            }),
    {
        if self.pattern.is_none() && self.types.len() == 0 {
            return Err(RuleError::Empty);
        }
        let pattern = match &self.pattern {
            Some(p) => match Pattern::case_insensitive(p.as_str()) {
                Some(c) => Some(c),
                None => {
                    return Err(RuleError::BadPattern);
                },
            },
            None => None,
        };
        let m = Matcher { pattern, types: self.types.clone() };
        proof {
            assert(m.types@ == self.types@);
        }
        Ok(m)
    }
}

/// Why a study's competitor rules do not compile: the drop rule, a tier's rule, or no tier at all.
#[derive(Clone, Copy, Debug, PartialEq, Eq, Structural)]
pub enum RulesError {
    Drop(RuleError),
    Tier(usize, RuleError),
    NoTier,
}

pub open spec fn tier_fails(tiers: Seq<MatchSpec>) -> Seq<bool> {
    tiers.map_values(|m: MatchSpec| compile_verdict(m) is Err)
}

/// The drop rule first, then each tier's in order, then that there is a tier at all.
pub open spec fn rules_verdict(drop: Option<MatchSpec>, tiers: Seq<MatchSpec>) -> Option<RulesError> {
    if drop matches Some(d) && compile_verdict(d) is Err {
        Some(RulesError::Drop(compile_verdict(drop->0)->Err_0))
    } else if first_true(tier_fails(tiers)) is Some {
        let k = first_true(tier_fails(tiers))->0;
        Some(RulesError::Tier(k as usize, compile_verdict(tiers[k])->Err_0))
    } else if tiers.len() == 0 {
        Some(RulesError::NoTier)
    } else {
        None
    }
}

/// A study's competitor rules, compiled: what to drop, and the tiers in order.
pub fn compile_rules(drop: &Option<MatchSpec>, tiers: &Vec<MatchSpec>) -> (r: Result<(Option<Matcher>, Vec<Matcher>), RulesError>)
    ensures
        rules_verdict(*drop, tiers@) == (match r {
            Ok(_) => None,
            Err(e) => Some(e),
        }),
        r matches Ok((d, ts)) ==> {
            &&& (d is Some <==> drop is Some)
            &&& (d matches Some(m) ==> compiled_as(m, drop->0))
            &&& ts@.len() == tiers@.len()
            &&& forall|k: int| 0 <= k < ts@.len() ==> compiled_as(#[trigger] ts@[k], tiers@[k])
        },
{
    let d = match drop {
        Some(m) => match m.compile() {
            Ok(c) => Some(c),
            Err(e) => {
                return Err(RulesError::Drop(e));
            },
        },
        None => None,
    };
    let ghost b = tier_fails(tiers@);
    let mut out: Vec<Matcher> = Vec::new();
    let mut k: usize = 0;
    assert(b.take(0) =~= Seq::<bool>::empty());
    while k < tiers.len()
        invariant
            k <= tiers@.len(),
            b == tier_fails(tiers@),
            first_true(b.take(k as int)) is None,
            out@.len() == k,
            forall|j: int| 0 <= j < k ==> compiled_as(#[trigger] out@[j], tiers@[j]),
            d is Some <==> drop is Some,
            d matches Some(m) ==> compiled_as(m, drop->0),
        decreases tiers@.len() - k,
    {
        proof {
            lemma_first_true_step(b, k as int);
        }
        match tiers[k].compile() {
            Ok(c) => {
                out.push(c);
            },
            Err(e) => {
                return Err(RulesError::Tier(k, e));
            },
        }
        k += 1;
    }
    proof {
        lemma_first_true_whole(b);
    }
    if tiers.len() == 0 {
        return Err(RulesError::NoTier);
    }
    Ok((d, out))
}

/// The tier a result falls in: the first whose rule hits.
pub open spec fn tier_hits(tiers: Seq<Matcher>, name: Seq<char>, kinds: Seq<Seq<char>>) -> Seq<bool> {
    tiers.map_values(|m: Matcher| m.spec_hits(name, kinds))
}

/// Whether a result is a competitor, and in which tier. A business Places marks as anything but
/// operational is gone; the drop rule is checked first and reads only the primary category; then
/// the first tier whose rule hits the name or any category, the primary one included.
pub open spec fn spec_classify(
    status: Option<Seq<char>>,
    name: Seq<char>,
    primary: Seq<char>,
    types: Seq<Seq<char>>,
    drop: Option<Matcher>,
    tiers: Seq<Matcher>,
) -> Option<int> {
    if status matches Some(s) && s != "OPERATIONAL"@ {
        None
    } else if drop matches Some(d) && d.spec_hits(name, seq![primary]) {
        None
    } else {
        first_true(tier_hits(tiers, name, types.push(primary)))
    }
}

pub fn classify(
    status: Option<&str>,
    name: &str,
    primary: &str,
    types: &Vec<&str>,
    drop: &Option<Matcher>,
    tiers: &Vec<Matcher>,
) -> (r: Option<usize>)
    ensures
        spec_classify(
            match status {
                Some(s) => Some(s@),
                None => None,
            },
            name@,
            primary@,
            str_views(types@),
            *drop,
            tiers@,
        ) == (match r {
            Some(k) => Some(k as int),
            None => None,
        }),
{
    proof {
        reveal_strlit("OPERATIONAL");
    }
    if let Some(s) = status {
        if !same_text(s, "OPERATIONAL") {
            return None;
        }
    }
    let only: [&str; 1] = [primary];
    assert(str_views(only@) =~= seq![primary@]);
    if let Some(d) = drop {
        if d.hits(name, only.as_slice()) {
            return None;
        }
    }
    let mut kinds: Vec<&str> = types.clone();
    kinds.push(primary);
    assert(str_views(kinds@) =~= str_views(types@).push(primary@));
    let ghost b = tier_hits(tiers@, name@, str_views(kinds@));
    let mut k: usize = 0;
    assert(b.take(0) =~= Seq::<bool>::empty());
    while k < tiers.len()
        invariant
            k <= tiers@.len(),
            b == tier_hits(tiers@, name@, str_views(kinds@)),
            first_true(b.take(k as int)) is None,
            str_views(kinds@) == str_views(types@).push(primary@),
            status matches Some(s) ==> s@ == "OPERATIONAL"@,
            drop matches Some(d) ==> !d.spec_hits(name@, seq![primary@]),
        decreases tiers@.len() - k,
    {
        proof {
            lemma_first_true_step(b, k as int);
        }
        if tiers[k].hits(name, kinds.as_slice()) {
            return Some(k);
        }
        k += 1;
    }
    proof {
        lemma_first_true_whole(b);
    }
    None
}

/// One result as the sweep got it: the fields the rules read, whether it carries a location, and
/// its review count (absent is none).
#[derive(Clone, Debug)]
pub struct Answer {
    pub id: String,
    pub status: Option<String>,
    pub name: Option<String>,
    pub primary: String,
    pub types: Vec<String>,
    pub located: bool,
    pub reviews: u64,
}

/// A kept result the inventory cannot be built from: the position of the answer, and what it lacks.
#[derive(Clone, Copy, Debug, PartialEq, Eq, Structural)]
pub enum Malformed {
    /// An operational result without a display name.
    Name(usize),
    /// A competitor without a location.
    Location(usize),
}

pub open spec fn answer_ids(answers: Seq<Answer>) -> Seq<Seq<char>> {
    answers.map_values(|a: Answer| a.id@)
}

/// The positions at which an id is met for the first time, in order: the first answer for a
/// place is the one kept.
pub open spec fn firsts(ids: Seq<Seq<char>>) -> Seq<int>
    decreases ids.len(),
{
    if ids.len() == 0 {
        Seq::empty()
    } else {
        let r = firsts(ids.drop_last());
        if ids.drop_last().contains(ids.last()) {
            r
        } else {
            r.push(ids.len() - 1)
        }
    }
}

pub open spec fn status_view(a: Answer) -> Option<Seq<char>> {
    match a.status {
        Some(s) => Some(s@),
        None => None,
    }
}

pub open spec fn gone(a: Answer) -> bool {
    status_view(a) matches Some(s) && s != "OPERATIONAL"@
}

/// Over the first answers at `at`, in order: the competitors as (answer, tier), or the first answer
/// the inventory cannot be built from. A closed business is passed over before its name is read.
pub open spec fn shortlist(answers: Seq<Answer>, at: Seq<int>, drop: Option<Matcher>, tiers: Seq<Matcher>) -> Result<
    Seq<(int, int)>,
    Malformed,
>
    decreases at.len(),
{
    if at.len() == 0 {
        Ok(Seq::empty())
    } else {
        match shortlist(answers, at.drop_last(), drop, tiers) {
            Err(e) => Err(e),
            Ok(kept) => {
                let p = at.last();
                let a = answers[p];
                if gone(a) {
                    Ok(kept)
                } else {
                    match a.name {
                        None => Err(Malformed::Name(p as usize)),
                        Some(n) => match spec_classify(status_view(a), n@, a.primary@, string_views(a.types@), drop, tiers) {
                            None => Ok(kept),
                            Some(t) => if a.located {
                                Ok(kept.push((p, t)))
                            } else {
                                Err(Malformed::Location(p as usize))
                            },
                        },
                    }
                }
            },
        }
    }
}

pub open spec fn review_keys(answers: Seq<Answer>, kept: Seq<(int, int)>) -> Seq<u128> {
    kept.map_values(|k: (int, int)| answers[k.0].reviews as u128)
}

pub open spec fn pair_views(v: Seq<(usize, usize)>) -> Seq<(int, int)> {
    v.map_values(|k: (usize, usize)| (k.0 as int, k.1 as int))
}

/// `v` is `kept` as a stable sort by descending review count orders it.
pub open spec fn by_reviews(answers: Seq<Answer>, kept: Seq<(int, int)>, v: Seq<(int, int)>) -> bool {
    exists|order: Seq<usize>| {
        &&& #[trigger] is_desc_order(review_keys(answers, kept), order)
        &&& v.len() == kept.len()
        &&& forall|i: int| 0 <= i < v.len() ==> v[i] == kept[order[i] as int]
    }
}

/// Each position in `firsts` is where its id is first met.
proof fn lemma_firsts(ids: Seq<Seq<char>>)
    ensures
        forall|i: int| 0 <= i < firsts(ids).len() ==> 0 <= #[trigger] firsts(ids)[i] < ids.len()
            && !ids.take(firsts(ids)[i]).contains(ids[firsts(ids)[i]]),
        forall|i: int, j: int| 0 <= i < j < firsts(ids).len() ==> firsts(ids)[i] < firsts(ids)[j],
    decreases ids.len(),
{
    if ids.len() > 0 {
        let d = ids.drop_last();
        lemma_firsts(d);
        assert forall|i: int| 0 <= i < firsts(d).len() implies ids.take(#[trigger] firsts(d)[i]) == d.take(firsts(d)[i]) by {
            assert(ids.take(firsts(d)[i]) =~= d.take(firsts(d)[i]));
        }
        assert(ids.take(ids.len() - 1) =~= d);
    }
}

/// What the shortlist keeps is a subsequence of the positions it reads.
proof fn lemma_shortlist_from(answers: Seq<Answer>, at: Seq<int>, drop: Option<Matcher>, tiers: Seq<Matcher>)
    requires
        forall|i: int, j: int| 0 <= i < j < at.len() ==> at[i] < at[j],
    ensures
        shortlist(answers, at, drop, tiers) matches Ok(kept) ==> {
            &&& forall|i: int| 0 <= i < kept.len() ==> #[trigger] at.contains(kept[i].0)
            &&& forall|i: int, j: int| 0 <= i < j < kept.len() ==> kept[i].0 < kept[j].0
            &&& forall|i: int| 0 <= i < kept.len() && at.len() > 0 ==> #[trigger] kept[i].0 <= at.last()
        },
    decreases at.len(),
{
    if at.len() > 0 {
        let d = at.drop_last();
        lemma_shortlist_from(answers, d, drop, tiers);
        if let Ok(kept) = shortlist(answers, d, drop, tiers) {
            assert forall|i: int| 0 <= i < kept.len() implies at.contains(#[trigger] kept[i].0) && kept[i].0 < at.last() by {
                assert(d.contains(kept[i].0));
                assert(at[at.len() - 2] < at[at.len() - 1]);
                let k = choose|k: int| 0 <= k < d.len() && d[k] == kept[i].0;
                assert(at[k] == d[k]);
            }
            assert(at[at.len() - 1] == at.last());
        }
    }
}

/// A place answered more than once is listed once: the inventory's ids are distinct.
pub proof fn a_place_is_listed_once(answers: Seq<Answer>, drop: Option<Matcher>, tiers: Seq<Matcher>)
    ensures
        shortlist(answers, firsts(answer_ids(answers)), drop, tiers) matches Ok(kept) ==> forall|i: int, j: int|
            0 <= i < j < kept.len() ==> answers[kept[i].0].id@ != answers[kept[j].0].id@,
{
    let ids = answer_ids(answers);
    let f = firsts(ids);
    lemma_firsts(ids);
    lemma_shortlist_from(answers, f, drop, tiers);
    if let Ok(kept) = shortlist(answers, f, drop, tiers) {
        assert forall|i: int, j: int| 0 <= i < j < kept.len() implies answers[kept[i].0].id@ != answers[kept[j].0].id@ by {
            let q = kept[j].0;
            assert(f.contains(q));
            let k = choose|k: int| 0 <= k < f.len() && f[k] == q;
            assert(f.contains(kept[i].0));
            let k2 = choose|k2: int| 0 <= k2 < f.len() && f[k2] == kept[i].0;
            assert(0 <= kept[i].0 < q);
            assert(ids.take(q)[kept[i].0] == ids[kept[i].0]);
            assert(ids[q] == answers[q].id@);
            assert(ids[kept[i].0] == answers[kept[i].0].id@);
        }
    }
}

/// The first answers of a prefix lead the first answers of the whole.
proof fn lemma_firsts_prefix(ids: Seq<Seq<char>>, n: int)
    requires
        0 <= n <= ids.len(),
    ensures
        firsts(ids.take(n)).len() <= firsts(ids).len(),
        firsts(ids).take(firsts(ids.take(n)).len() as int) == firsts(ids.take(n)),
    decreases ids.len(),
{
    if n == ids.len() {
        assert(ids.take(n) =~= ids);
        assert(firsts(ids).take(firsts(ids).len() as int) =~= firsts(ids));
    } else {
        let d = ids.drop_last();
        assert(d.take(n) =~= ids.take(n));
        lemma_firsts_prefix(d, n);
        let f = firsts(d);
        let g = firsts(ids.take(n));
        assert(firsts(ids).take(g.len() as int) =~= f.take(g.len() as int)) by {
            if !d.contains(ids.last()) {
                assert(firsts(ids) == f.push(ids.len() - 1));
            }
        }
    }
}

/// An answer that stops the shortlist stops it for every later answer too.
proof fn lemma_shortlist_sticky(answers: Seq<Answer>, at: Seq<int>, m: int, drop: Option<Matcher>, tiers: Seq<Matcher>)
    requires
        0 <= m <= at.len(),
        shortlist(answers, at.take(m), drop, tiers) is Err,
    ensures
        shortlist(answers, at, drop, tiers) == shortlist(answers, at.take(m), drop, tiers),
    decreases at.len(),
{
    if m == at.len() {
        assert(at.take(m) =~= at);
    } else {
        assert(at.drop_last().take(m) =~= at.take(m));
        lemma_shortlist_sticky(answers, at.drop_last(), m, drop, tiers);
    }
}

/// Where the shortlist over the first `n` answers fails, the whole fails the same way.
proof fn lemma_err_sticks(answers: Seq<Answer>, ids: Seq<Seq<char>>, n: int, drop: Option<Matcher>, tiers: Seq<Matcher>)
    requires
        0 <= n <= ids.len(),
        shortlist(answers, firsts(ids.take(n)), drop, tiers) is Err,
    ensures
        shortlist(answers, firsts(ids), drop, tiers) == shortlist(answers, firsts(ids.take(n)), drop, tiers),
{
    lemma_firsts_prefix(ids, n);
    lemma_shortlist_sticky(answers, firsts(ids), firsts(ids.take(n)).len() as int, drop, tiers);
}

/// The inventory out of every answer the sweep got, in the order got: the first answer for each
/// place, kept where it is an operational competitor, as (answer, tier), most reviewed first and
/// otherwise in the order got. `Err`: the first kept answer that lacks a name or a location.
pub fn inventory(answers: &Vec<Answer>, drop: &Option<Matcher>, tiers: &Vec<Matcher>) -> (r: Result<
    Vec<(usize, usize)>,
    Malformed,
>)
    ensures
        r is Err <==> shortlist(answers@, firsts(answer_ids(answers@)), *drop, tiers@) is Err,
        r matches Err(e) ==> shortlist(answers@, firsts(answer_ids(answers@)), *drop, tiers@) == Err::<
            Seq<(int, int)>,
            Malformed,
        >(e),
        r matches Ok(v) ==> by_reviews(
            answers@,
            shortlist(answers@, firsts(answer_ids(answers@)), *drop, tiers@)->Ok_0,
            pair_views(v@),
        ),
{
    let ghost ids = answer_ids(answers@);
    let mut kept: Vec<(usize, usize)> = Vec::new();
    let mut i: usize = 0;
    assert(ids.take(0) =~= Seq::<Seq<char>>::empty());
    assert(firsts(ids.take(0)) =~= Seq::<int>::empty());
    assert(pair_views(kept@) =~= Seq::<(int, int)>::empty());
    while i < answers.len()
        invariant
            i <= answers@.len(),
            ids == answer_ids(answers@),
            shortlist(answers@, firsts(ids.take(i as int)), *drop, tiers@) == Ok::<Seq<(int, int)>, Malformed>(
                pair_views(kept@),
            ),
            forall|k: int| 0 <= k < kept@.len() ==> #[trigger] kept@[k].0 < answers@.len(),
        decreases answers@.len() - i,
    {
        let ghost t = ids.take(i + 1);
        assert(t.drop_last() =~= ids.take(i as int));
        assert(t.last() == answers@[i as int].id@);
        let a = &answers[i];
        // met before?
        let mut j: usize = 0;
        let mut met = false;
        while j < i
            invariant
                j <= i < answers@.len(),
                ids == answer_ids(answers@),
                !met ==> forall|k: int| 0 <= k < j ==> ids[k] != ids[i as int],
                met ==> ids.take(i as int).contains(ids[i as int]),
            ensures
                !met ==> forall|k: int| 0 <= k < i ==> ids[k] != ids[i as int],
                met ==> ids.take(i as int).contains(ids[i as int]),
            decreases i - j,
        {
            assert(ids[j as int] == answers@[j as int].id@);
            assert(ids[i as int] == answers@[i as int].id@);
            if same_text(answers[j].id.as_str(), answers[i].id.as_str()) {
                assert(ids.take(i as int)[j as int] == ids[i as int]);
                met = true;
                break;
            }
            j += 1;
        }
        proof {
            if !met {
                assert forall|k: int| 0 <= k < ids.take(i as int).len() implies ids.take(i as int)[k] != ids[i as int] by {
                    assert(ids.take(i as int)[k] == ids[k]);
                }
            }
        }
        if !met {
            assert(firsts(t) == firsts(ids.take(i as int)).push(i as int));
            assert(firsts(t).last() == i as int);
            assert(firsts(t).drop_last() =~= firsts(ids.take(i as int)));
            let status: Option<&str> = match &a.status {
                Some(s) => Some(s.as_str()),
                None => None,
            };
            proof {
                reveal_strlit("OPERATIONAL");
            }
            let closed = match status {
                Some(s) => !same_text(s, "OPERATIONAL"),
                None => false,
            };
            if !closed {
                let name = match &a.name {
                    Some(n) => n.as_str(),
                    None => {
                        proof {
                            lemma_err_sticks(answers@, ids, (i + 1) as int, *drop, tiers@);
                        }
                        return Err(Malformed::Name(i));
                    },
                };
                let mut kinds: Vec<&str> = Vec::new();
                let mut k: usize = 0;
                while k < a.types.len()
                    invariant
                        k <= a.types@.len(),
                        str_views(kinds@) == string_views(a.types@).take(k as int),
                    decreases a.types@.len() - k,
                {
                    let ghost before = kinds@;
                    kinds.push(a.types[k].as_str());
                    assert(str_views(kinds@) =~= str_views(before).push(a.types@[k as int]@));
                    assert(string_views(a.types@).take(k + 1) =~= string_views(a.types@).take(k as int).push(a.types@[k as int]@));
                    k += 1;
                }
                assert(string_views(a.types@).take(k as int) =~= string_views(a.types@));
                match classify(status, name, a.primary.as_str(), &kinds, drop, tiers) {
                    None => {},
                    Some(tier) => {
                        if !a.located {
                            proof {
                                lemma_err_sticks(answers@, ids, (i + 1) as int, *drop, tiers@);
                            }
                            return Err(Malformed::Location(i));
                        }
                        let ghost before = kept@;
                        kept.push((i, tier));
                        assert(pair_views(kept@) =~= pair_views(before).push((i as int, tier as int)));
                    },
                }
            }
        } else {
            assert(firsts(t) == firsts(ids.take(i as int)));
        }
        i += 1;
    }
    assert(ids.take(i as int) =~= ids);
    let mut keys: Vec<u128> = Vec::new();
    let mut k: usize = 0;
    while k < kept.len()
        invariant
            k <= kept@.len(),
            keys@.len() == k,
            forall|m: int| 0 <= m < kept@.len() ==> #[trigger] kept@[m].0 < answers@.len(),
            forall|m: int| 0 <= m < k ==> keys@[m] == review_keys(answers@, pair_views(kept@))[m],
        decreases kept@.len() - k,
    {
        keys.push(answers[kept[k].0].reviews as u128);
        k += 1;
    }
    assert(keys@ =~= review_keys(answers@, pair_views(kept@)));
    let order = order_desc(&keys);
    let mut out: Vec<(usize, usize)> = Vec::new();
    let mut m: usize = 0;
    while m < order.len()
        invariant
            m <= order@.len(),
            is_desc_order(keys@, order@),
            keys@.len() == kept@.len(),
            out@.len() == m,
            forall|q: int| 0 <= q < m ==> out@[q] == kept@[order@[q] as int],
        decreases order@.len() - m,
    {
        out.push(kept[order[m]]);
        m += 1;
    }
    assert(is_desc_order(review_keys(answers@, pair_views(kept@)), order@));
    assert forall|q: int| 0 <= q < pair_views(out@).len() implies pair_views(out@)[q] == pair_views(kept@)[order@[q] as int] by {}
    Ok(out)
}

/// One text search hands back three pages of twenty at most, so a tile that comes back at this has
/// more in it than it said.
pub const CAP: usize = 60;

/// How far a saturated tile may be quartered.
pub const DEPTH: u32 = 3;

/// What a tile's answer leads to.
#[derive(Clone, Copy, Debug, PartialEq, Eq, Structural)]
pub enum Step {
    /// Nothing came back: an ordering of nothing identifies nothing.
    Nothing,
    /// Under the cap: the tile's answer is whole.
    Whole,
    /// At the cap at the depth floor: the inventory under it is partial, and is reported so.
    Censored,
    /// At the cap above the floor: ask the four quarters.
    Quarter,
}

pub fn after_page(found: usize, depth: u32) -> (s: Step)
    ensures
        s == (if found == 0 {
            Step::Nothing
        } else if found < CAP {
            Step::Whole
        } else if depth == DEPTH {
            Step::Censored
        } else {
            Step::Quarter
        }),
{
    if found == 0 {
        Step::Nothing
    } else if found < CAP {
        Step::Whole
    } else if depth == DEPTH {
        Step::Censored
    } else {
        Step::Quarter
    }
}

/// The probe's request plan: one search per node and term, nodes outer, in order.
pub fn plan<L: Copy>(nodes: &Vec<L>, terms: &Vec<String>) -> (out: Vec<(L, String)>)
    requires
        nodes@.len() * terms@.len() <= usize::MAX,
    ensures
        out@.len() == nodes@.len() * terms@.len(),
        forall|i: int, j: int|
            0 <= i < nodes@.len() && 0 <= j < terms@.len() ==> {
                let e = #[trigger] out@[i * terms@.len() + j];
                e.0 == nodes@[i] && e.1@ == terms@[j]@
            },
{
    let mut out: Vec<(L, String)> = Vec::new();
    let t = terms.len();
    let mut i: usize = 0;
    while i < nodes.len()
        invariant
            i <= nodes@.len(),
            t == terms@.len(),
            nodes@.len() * t <= usize::MAX,
            out@.len() == i * t,
            forall|a: int, b: int|
                0 <= a < i && 0 <= b < t ==> {
                    let e = #[trigger] out@[a * t + b];
                    e.0 == nodes@[a] && e.1@ == terms@[b]@
                },
        decreases nodes@.len() - i,
    {
        let mut j: usize = 0;
        while j < t
            invariant
                i < nodes@.len(),
                j <= t,
                t == terms@.len(),
                nodes@.len() * t <= usize::MAX,
                out@.len() == i * t + j,
                forall|a: int, b: int|
                    0 <= a < i && 0 <= b < t ==> {
                        let e = #[trigger] out@[a * t + b];
                        e.0 == nodes@[a] && e.1@ == terms@[b]@
                    },
                forall|b: int|
                    0 <= b < j ==> {
                        let e = #[trigger] out@[i * t + b];
                        e.0 == nodes@[i as int] && e.1@ == terms@[b]@
                    },
            decreases t - j,
        {
            proof {
                assert(i * t + j < nodes@.len() * t) by (nonlinear_arith)
                    requires i < nodes@.len(), j < t;
            }
            let ghost before = out@;
            out.push((nodes[i], terms[j].clone()));
            proof {
                assert forall|a: int, b: int| 0 <= a < i && 0 <= b < t implies {
                    let e = #[trigger] out@[a * t + b];
                    e.0 == nodes@[a] && e.1@ == terms@[b]@
                } by {
                    assert(a * t + b < i * t) by (nonlinear_arith)
                        requires a < i, b < t, 0 <= a, 0 <= b;
                    assert(out@[a * t + b] == before[a * t + b]);
                }
                assert forall|b: int| 0 <= b < j + 1 implies {
                    let e = #[trigger] out@[i * t + b];
                    e.0 == nodes@[i as int] && e.1@ == terms@[b]@
                } by {
                    if b < j {
                        assert(out@[i * t + b] == before[i * t + b]);
                    }
                }
            }
            j += 1;
        }
        proof {
            assert((i + 1) * t == i * t + t) by (nonlinear_arith);
            assert forall|a: int, b: int| 0 <= a < i + 1 && 0 <= b < t implies {
                let e = #[trigger] out@[a * t + b];
                e.0 == nodes@[a] && e.1@ == terms@[b]@
            } by {
                if a == i {
                    assert(out@[i * t + b].0 == nodes@[i as int]);
                }
            }
        }
        i += 1;
    }
    out
}

} // verus!
