//! How many people ask for the thing: keyword expansions from a volume provider, filtered into a
//! study's query groups and summed month by month.
use vstd::prelude::*;

use crate::order::{is_desc_order, order_desc};
use crate::pattern::{insensitive, regex_compiles, regex_matches, Pattern};
use crate::text::{padded, push_padded, same_text, string_of};

verus! {

/// One month of one keyword's series.
#[derive(Clone, Copy, Debug, PartialEq, Eq, Structural)]
pub struct Month {
    pub year: u16,
    pub month: u8,
    pub searches: u64,
}

/// A keyword a provider suggested. `monthly` is absent when the provider has no data for it at
/// this place — distinct from zero, and never summed as zero.
#[derive(Clone, Debug)]
pub struct Keyword {
    pub text: String,
    pub monthly: Option<Vec<Month>>,
}

/// One line on the chart: an intent, asked for in however many words people ask for it in.
#[derive(Clone, Debug)]
pub struct Group {
    pub name: String,
    /// What the provider expands semantically around.
    pub seed: Vec<String>,
    /// Case-insensitive regex over the expansion. Omitted keeps all of it.
    pub pattern: Option<String>,
    /// Checked before `pattern` — expansion drags in intent that is not demand.
    pub drop: Option<String>,
}

/// A kept keyword and its own series. `avg_tenths` is its monthly mean in tenths, rounded half up.
#[derive(Clone, Debug)]
pub struct MemberOut {
    pub text: String,
    pub avg_tenths: u128,
    pub monthly: Vec<u64>,
}

#[derive(Clone, Debug)]
pub struct GroupOut {
    pub name: String,
    /// Per month, summed over `members`.
    pub total: Vec<u64>,
    pub members: Vec<MemberOut>,
    /// Kept by the filter, but the provider has no volume for them. Never zero-filled into `total`.
    pub no_data: Vec<String>,
}

#[derive(Clone, Debug)]
pub enum FoldError {
    /// The group's `match` or `drop` is not a pattern the regex crate accepts.
    BadPattern(String),
    /// A kept keyword carries a series with no month in it.
    EmptySeries(String),
    /// A kept keyword covers other months than the keywords kept before it.
    AxisMismatch { keyword: String, axis: Vec<String>, group: Vec<String> },
    /// Nothing kept has volume; the count is of what matched without data.
    NothingKept(usize),
}

pub open spec fn searches_of(series: Seq<Month>) -> Seq<u64> {
    series.map_values(|m: Month| m.searches)
}

pub open spec fn axis_of(series: Seq<Month>) -> Seq<(u16, u8)> {
    series.map_values(|m: Month| (m.year, m.month))
}

/// `YYYY-MM`, as `{:04}-{:02}` writes a month.
pub open spec fn month_label(m: (u16, u8)) -> Seq<char> {
    padded(m.0 as nat, 4) + seq!['-'] + padded(m.1 as nat, 2)
}

pub open spec fn labels(axis: Seq<(u16, u8)>) -> Seq<Seq<char>> {
    axis.map_values(|m: (u16, u8)| month_label(m))
}

pub open spec fn strings(v: Seq<String>) -> Seq<Seq<char>> {
    v.map_values(|s: String| s@)
}

pub open spec fn sum(s: Seq<u64>) -> int
    decreases s.len(),
{
    if s.len() == 0 {
        0
    } else {
        sum(s.drop_last()) + s.last()
    }
}

/// A series' monthly mean in tenths, rounded half up.
pub open spec fn avg_tenths(s: Seq<u64>) -> int {
    (20 * sum(s) + s.len() as int) / (2 * s.len() as int)
}

/// Whether a keyword survives the group's filter: `drop` beats `match`, and no `match` keeps all.
pub open spec fn passes(keep: Option<Seq<char>>, drop: Option<Seq<char>>, text: Seq<char>) -> bool {
    &&& !(drop is Some && regex_matches(insensitive(drop->0), text))
    &&& (keep is None || regex_matches(insensitive(keep->0), text))
}

/// Where a scan over the suggestions stands.
pub enum Scan {
    Going { axis: Seq<(u16, u8)>, members: Seq<(Seq<char>, Seq<u64>)>, no_data: Seq<Seq<char>> },
    EmptySeries { keyword: Seq<char> },
    Mismatch { keyword: Seq<char>, axis: Seq<(u16, u8)>, group: Seq<(u16, u8)> },
}

/// One keyword, read against the scan so far.
pub open spec fn step(s: Scan, keep: Option<Seq<char>>, drop: Option<Seq<char>>, k: Keyword) -> Scan {
    match s {
        Scan::Going { axis, members, no_data } => {
            if !passes(keep, drop, k.text@) {
                s
            } else {
                match k.monthly {
                    None => Scan::Going { axis, members, no_data: no_data.push(k.text@) },
                    Some(v) => {
                        if v@.len() == 0 {
                            Scan::EmptySeries { keyword: k.text@ }
                        } else if axis.len() == 0 || axis == axis_of(v@) {
                            Scan::Going {
                                axis: axis_of(v@),
                                members: members.push((k.text@, searches_of(v@))),
                                no_data,
                            }
                        } else {
                            Scan::Mismatch { keyword: k.text@, axis: axis_of(v@), group: axis }
                        }
                    },
                }
            }
        },
        _ => s,
    }
}

/// The suggestions in the order the provider gave them, stopping at the first that is an error.
pub open spec fn scan(keep: Option<Seq<char>>, drop: Option<Seq<char>>, ideas: Seq<Keyword>) -> Scan
    decreases ideas.len(),
{
    if ideas.len() == 0 {
        Scan::Going { axis: Seq::empty(), members: Seq::empty(), no_data: Seq::empty() }
    } else {
        step(scan(keep, drop, ideas.drop_last()), keep, drop, ideas.last())
    }
}

/// The suggestions that pass the group's filter and carry no volume, by text, in the order given.
pub open spec fn kept_no_data(keep: Option<Seq<char>>, drop: Option<Seq<char>>, ideas: Seq<Keyword>) -> Seq<Seq<char>>
    decreases ideas.len(),
{
    if ideas.len() == 0 {
        Seq::empty()
    } else {
        let r = kept_no_data(keep, drop, ideas.drop_last());
        let k = ideas.last();
        if passes(keep, drop, k.text@) && k.monthly is None {
            r.push(k.text@)
        } else {
            r
        }
    }
}

/// The suggestions that pass the group's filter and carry volume, with their series, in the order
/// given.
pub open spec fn kept_series(keep: Option<Seq<char>>, drop: Option<Seq<char>>, ideas: Seq<Keyword>) -> Seq<
    (Seq<char>, Seq<u64>),
>
    decreases ideas.len(),
{
    if ideas.len() == 0 {
        Seq::empty()
    } else {
        let r = kept_series(keep, drop, ideas.drop_last());
        let k = ideas.last();
        match k.monthly {
            Some(v) => if passes(keep, drop, k.text@) {
                r.push((k.text@, searches_of(v@)))
            } else {
                r
            },
            None => r,
        }
    }
}

/// A scan still going has kept exactly what passes the filter, each kept series covering its axis.
proof fn lemma_scan_going(keep: Option<Seq<char>>, drop: Option<Seq<char>>, ideas: Seq<Keyword>)
    ensures
        scan(keep, drop, ideas) matches Scan::Going { axis, members, no_data } ==> {
            &&& members == kept_series(keep, drop, ideas)
            &&& no_data == kept_no_data(keep, drop, ideas)
            &&& forall|i: int| 0 <= i < members.len() ==> (#[trigger] members[i]).1.len() == axis.len()
            &&& (members.len() > 0 ==> axis.len() > 0)
            &&& forall|j: int|
                0 <= j < ideas.len() && passes(keep, drop, ideas[j].text@) && (#[trigger] ideas[j]).monthly is Some
                    ==> ideas[j].monthly->0@.len() > 0 && axis_of(ideas[j].monthly->0@) == axis
        },
    decreases ideas.len(),
{
    if ideas.len() > 0 {
        let d = ideas.drop_last();
        lemma_scan_going(keep, drop, d);
        let k = ideas.last();
        if let Scan::Going { axis, members, no_data } = scan(keep, drop, ideas) {
            assert(scan(keep, drop, d) is Going);
            if let Scan::Going { axis: a0, members: m0, no_data: n0 } = scan(keep, drop, d) {
                assert forall|j: int|
                    0 <= j < ideas.len() && passes(keep, drop, ideas[j].text@) && (#[trigger] ideas[j]).monthly is Some
                        implies ideas[j].monthly->0@.len() > 0 && axis_of(ideas[j].monthly->0@) == axis by {
                    if j < d.len() {
                        assert(ideas[j] == d[j]);
                        if a0.len() == 0 {
                            assert(axis_of(d[j].monthly->0@).len() == d[j].monthly->0@.len());
                        }
                    }
                }
                if a0.len() == 0 {
                }
                match k.monthly {
                    Some(v) => {
                        if passes(keep, drop, k.text@) {
                            assert(axis == axis_of(v@));
                            assert(axis_of(v@).len() == v@.len());
                            assert(searches_of(v@).len() == v@.len());
                        }
                    },
                    None => {},
                }
            }
        }
    }
}

/// What a summed group says of the suggestions: those the filter drops (`drop` beats `match`) are
/// gone; those it keeps without volume are the group's no-data list, in the order given, never
/// summed as zero; those it keeps with volume are its members, each once, ranked by monthly mean
/// with ties in the order given, each covering the group's months; and the totals are their sums
/// month by month.
pub proof fn a_group_partitions_its_suggestions(group: Group, ideas: Seq<Keyword>, months: Vec<String>, out: GroupOut)
    requires
        fold_answers(group, ideas, Ok((months, out))),
    ensures
        ({
            let keep = opt_view(group.pattern);
            let drop = opt_view(group.drop);
            let kept = kept_series(keep, drop, ideas);
            &&& strings(out.no_data@) == kept_no_data(keep, drop, ideas)
            &&& out.members@.len() == kept.len()
            &&& exists|order: Seq<usize>| {
                &&& #[trigger] is_desc_order(avg_keys(kept), order)
                &&& forall|i: int| 0 <= i < order.len() ==> member_is(#[trigger] out.members@[i], kept[order[i] as int])
            }
            &&& forall|i: int| 0 <= i < out.members@.len() ==> (#[trigger] out.members@[i]).monthly@.len() == months@.len()
            &&& forall|j: int|
                0 <= j < ideas.len() && passes(keep, drop, ideas[j].text@) && (#[trigger] ideas[j]).monthly is Some
                    ==> labels(axis_of(ideas[j].monthly->0@)) == strings(months@)
            &&& out.total@.len() == months@.len()
            &&& forall|t: int| 0 <= t < months@.len() ==> out.total@[t] == column(kept, t)
        }),
{
    let keep = opt_view(group.pattern);
    let drop = opt_view(group.drop);
    lemma_scan_going(keep, drop, ideas);
    if let Scan::Going { axis, members, no_data } = scan(keep, drop, ideas) {
        assert(exists|order: Seq<usize>| {
            &&& #[trigger] is_desc_order(avg_keys(members), order)
            &&& forall|i: int| 0 <= i < order.len() ==> member_is(#[trigger] out.members@[i], members[order[i] as int])
        });
        let order = choose|order: Seq<usize>| {
            &&& #[trigger] is_desc_order(avg_keys(members), order)
            &&& forall|i: int| 0 <= i < order.len() ==> member_is(#[trigger] out.members@[i], members[order[i] as int])
        };
        assert(order.len() == members.len());
        assert(strings(months@).len() == months@.len());
        assert(labels(axis).len() == axis.len());
        assert forall|i: int| 0 <= i < out.members@.len() implies (#[trigger] out.members@[i]).monthly@.len() == months@.len() by {
            assert(order[i] < avg_keys(members).len());
            assert(member_is(out.members@[i], members[order[i] as int]));
        }
    }
}

/// Whether both of the group's patterns compile.
pub open spec fn patterns_compile(group: Group) -> bool {
    let keep = opt_view(group.pattern);
    let drop = opt_view(group.drop);
    &&& !(keep is Some && !regex_compiles(insensitive(keep->0)))
    &&& !(drop is Some && !regex_compiles(insensitive(drop->0)))
}

/// Every search the suggestions the filter keeps carry: what a group's sums can reach at most.
pub open spec fn kept_volume(group: Group, ideas: Seq<Keyword>) -> int {
    members_total(kept_series(opt_view(group.pattern), opt_view(group.drop), ideas))
}

/// A group whose sums fit in 64 bits, where its patterns compile; one whose patterns do not
/// compile sums nothing.
pub open spec fn fold_bounded(group: Group, ideas: Seq<Keyword>) -> bool {
    patterns_compile(group) ==> kept_volume(group, ideas) <= u64::MAX
}

/// What the filter keeps of a prefix carries no more than what it keeps of the whole.
proof fn lemma_kept_volume_prefix(keep: Option<Seq<char>>, drop: Option<Seq<char>>, ideas: Seq<Keyword>, i: int)
    requires
        0 <= i <= ideas.len(),
    ensures
        members_total(kept_series(keep, drop, ideas.take(i))) <= members_total(kept_series(keep, drop, ideas)),
    decreases ideas.len(),
{
    if i < ideas.len() {
        assert(ideas.drop_last().take(i) =~= ideas.take(i));
        lemma_kept_volume_prefix(keep, drop, ideas.drop_last(), i);
        let r = kept_series(keep, drop, ideas.drop_last());
        if let Some(v) = ideas.last().monthly {
            if passes(keep, drop, ideas.last().text@) {
                assert(r.push((ideas.last().text@, searches_of(v@))).drop_last() =~= r);
                lemma_sum_nonneg(searches_of(v@));
            }
        }
    } else {
        assert(ideas.take(i) =~= ideas);
    }
}

/// Per month, over every member.
pub open spec fn column(members: Seq<(Seq<char>, Seq<u64>)>, t: int) -> int
    decreases members.len(),
{
    if members.len() == 0 {
        0
    } else {
        column(members.drop_last(), t) + members.last().1[t]
    }
}

pub open spec fn members_total(members: Seq<(Seq<char>, Seq<u64>)>) -> int
    decreases members.len(),
{
    if members.len() == 0 {
        0
    } else {
        members_total(members.drop_last()) + sum(members.last().1)
    }
}

pub open spec fn opt_view(o: Option<String>) -> Option<Seq<char>> {
    match o {
        Some(s) => Some(s@),
        None => None,
    }
}

/// A member of the output is the kept keyword it was made of.
pub open spec fn member_is(m: MemberOut, kept: (Seq<char>, Seq<u64>)) -> bool {
    &&& m.text@ == kept.0
    &&& m.monthly@ == kept.1
    &&& m.avg_tenths == avg_tenths(kept.1)
}

/// Each member's rounded monthly mean, the key the members are ranked by.
pub open spec fn avg_keys(members: Seq<(Seq<char>, Seq<u64>)>) -> Seq<u128> {
    members.map_values(|m: (Seq<char>, Seq<u64>)| avg_tenths(m.1) as u128)
}

/// What `fold` answers for a group and the provider's suggestions.
pub open spec fn fold_answers(group: Group, ideas: Seq<Keyword>, r: Result<(Vec<String>, GroupOut), FoldError>) -> bool {
    let keep = opt_view(group.pattern);
    let drop = opt_view(group.drop);
    if keep is Some && !regex_compiles(insensitive(keep->0)) {
        match r {
            Err(FoldError::BadPattern(p)) => p@ == keep->0,
            _ => false,
        }
    } else if drop is Some && !regex_compiles(insensitive(drop->0)) {
        match r {
            Err(FoldError::BadPattern(p)) => p@ == drop->0,
            _ => false,
        }
    } else {
        match scan(keep, drop, ideas) {
            Scan::EmptySeries { keyword } => match r {
                Err(FoldError::EmptySeries(k)) => k@ == keyword,
                _ => false,
            },
            Scan::Mismatch { keyword, axis, group: g } => match r {
                Err(FoldError::AxisMismatch { keyword: k, axis: a, group: b }) => k@ == keyword && strings(a@) == labels(axis)
                    && strings(b@) == labels(g),
                _ => false,
            },
            Scan::Going { axis, members, no_data } => {
                if members.len() == 0 {
                    match r {
                        Err(FoldError::NothingKept(n)) => n == no_data.len(),
                        _ => false,
                    }
                } else {
                    match r {
                        Ok((months, out)) => {
                            &&& strings(months@) == labels(axis)
                            &&& out.name@ == group.name@
                            &&& strings(out.no_data@) == no_data
                            &&& out.total@.len() == axis.len()
                            &&& forall|t: int| 0 <= t < axis.len() ==> out.total@[t] == column(members, t)
                            &&& out.members@.len() == members.len()
                            &&& exists|order: Seq<usize>| {
                                &&& #[trigger] is_desc_order(avg_keys(members), order)
                                &&& forall|i: int| 0 <= i < order.len() ==> member_is(#[trigger] out.members@[i], members[order[i] as int])
                            }
                        },
                        _ => false,
                    }
                }
            },
        }
    }
}

/// Whether `fold` sums a group: both patterns compile and something kept has volume.
pub open spec fn fold_succeeds(group: Group, ideas: Seq<Keyword>) -> bool {
    let keep = opt_view(group.pattern);
    let drop = opt_view(group.drop);
    &&& !(keep is Some && !regex_compiles(insensitive(keep->0)))
    &&& !(drop is Some && !regex_compiles(insensitive(drop->0)))
    &&& kept_some(scan(keep, drop, ideas))
}

pub open spec fn kept_some(s: Scan) -> bool {
    match s {
        Scan::Going { members, .. } => members.len() > 0,
        _ => false,
    }
}

/// The month labels a summed group covers.
pub open spec fn fold_axis(group: Group, ideas: Seq<Keyword>) -> Seq<Seq<char>> {
    match scan(opt_view(group.pattern), opt_view(group.drop), ideas) {
        Scan::Going { axis, .. } => labels(axis),
        _ => Seq::empty(),
    }
}

/// The line a summed group draws: its name, what matched without data, its monthly totals, and its
/// members ranked by their monthly mean.
pub open spec fn group_answers(group: Group, ideas: Seq<Keyword>, out: GroupOut) -> bool {
    match scan(opt_view(group.pattern), opt_view(group.drop), ideas) {
        Scan::Going { axis, members, no_data } => {
            &&& out.name@ == group.name@
            &&& strings(out.no_data@) == no_data
            &&& out.total@.len() == axis.len()
            &&& forall|t: int| 0 <= t < axis.len() ==> out.total@[t] == column(members, t)
            &&& out.members@.len() == members.len()
            &&& exists|order: Seq<usize>| {
                &&& #[trigger] is_desc_order(avg_keys(members), order)
                &&& forall|i: int| 0 <= i < order.len() ==> member_is(#[trigger] out.members@[i], members[order[i] as int])
            }
        },
        _ => false,
    }
}

proof fn lemma_sum_nonneg(s: Seq<u64>)
    ensures
        sum(s) >= 0,
    decreases s.len(),
{
    if s.len() > 0 {
        lemma_sum_nonneg(s.drop_last());
    }
}

proof fn lemma_elem_le_sum(s: Seq<u64>, t: int)
    requires
        0 <= t < s.len(),
    ensures
        s[t] <= sum(s),
    decreases s.len(),
{
    lemma_sum_nonneg(s.drop_last());
    if t < s.len() - 1 {
        lemma_elem_le_sum(s.drop_last(), t);
    }
}

proof fn lemma_column_le_total(members: Seq<(Seq<char>, Seq<u64>)>, t: int)
    requires
        forall|j: int| 0 <= j < members.len() ==> 0 <= t < (#[trigger] members[j]).1.len(),
    ensures
        0 <= column(members, t) <= members_total(members),
    decreases members.len(),
{
    if members.len() > 0 {
        let last = members.last();
        assert(0 <= t < last.1.len());
        lemma_column_le_total(members.drop_last(), t);
        lemma_elem_le_sum(last.1, t);
    }
}

/// `sum` over a series, with the bound the caller vouches for.
fn series_sum(s: &Vec<u64>) -> (r: u128)
    ensures
        r == sum(s@),
{
    let mut acc: u128 = 0;
    let mut i: usize = 0;
    while i < s.len()
        invariant
            0 <= i <= s@.len(),
            acc == sum(s@.take(i as int)),
            acc <= i * 0xffff_ffff_ffff_ffff,
        decreases s@.len() - i,
    {
        assert(s@.take(i + 1).drop_last() =~= s@.take(i as int));
        assert(acc + s@[i as int] <= (i + 1) * 0xffff_ffff_ffff_ffff) by (nonlinear_arith)
            requires acc <= i * 0xffff_ffff_ffff_ffff, s[i as int] <= 0xffff_ffff_ffff_ffffu64;
        acc = acc + s[i] as u128;
        i += 1;
    }
    assert(s@.take(i as int) =~= s@);
    acc
}

fn same_axis(axis: &Vec<(u16, u8)>, series: &Vec<Month>) -> (r: bool)
    ensures
        r == (axis@ == axis_of(series@)),
{
    if axis.len() != series.len() {
        return false;
    }
    let mut i: usize = 0;
    while i < axis.len()
        invariant
            axis@.len() == series@.len(),
            0 <= i <= axis@.len(),
            forall|k: int| 0 <= k < i ==> axis@[k] == axis_of(series@)[k],
        decreases axis@.len() - i,
    {
        if axis[i].0 != series[i].year || axis[i].1 != series[i].month {
            assert(axis@[i as int] != axis_of(series@)[i as int]);
            return false;
        }
        i += 1;
    }
    assert(axis@ =~= axis_of(series@));
    true
}

/// `{:04}-{:02}` of each month.
fn month_labels(axis: &Vec<(u16, u8)>) -> (out: Vec<String>)
    ensures
        strings(out@) == labels(axis@),
{
    let mut out: Vec<String> = Vec::new();
    let mut i: usize = 0;
    while i < axis.len()
        invariant
            0 <= i <= axis@.len(),
            strings(out@) == labels(axis@.take(i as int)),
        decreases axis@.len() - i,
    {
        let mut v: Vec<char> = Vec::new();
        push_padded(&mut v, axis[i].0 as u64, 4);
        v.push('-');
        push_padded(&mut v, axis[i].1 as u64, 2);
        let s = string_of(&v);
        assert(s@ =~= month_label(axis@[i as int]));
        out.push(s);
        assert(labels(axis@.take(i + 1)) =~= labels(axis@.take(i as int)).push(month_label(axis@[i as int])));
        i += 1;
    }
    assert(axis@.take(i as int) =~= axis@);
    out
}

proof fn lemma_column_prefix(members: Seq<(Seq<char>, Seq<u64>)>, j: int, t: int)
    requires
        0 <= j <= members.len(),
        forall|k: int| 0 <= k < members.len() ==> 0 <= t < (#[trigger] members[k]).1.len(),
    ensures
        column(members.take(j), t) <= column(members, t),
    decreases members.len(),
{
    if j < members.len() {
        let x = members[members.len() - 1];
        assert(0 <= t < x.1.len());
        let d = members.drop_last();
        assert(d.take(j) =~= members.take(j));
        assert forall|k: int| 0 <= k < d.len() implies 0 <= t < (#[trigger] d[k]).1.len() by {
            assert(d[k] == members[k]);
        }
        lemma_column_prefix(d, j, t);
        assert(0 <= t < members.last().1.len());
    } else {
        assert(members.take(j) =~= members);
    }
}

proof fn lemma_member_le_total(members: Seq<(Seq<char>, Seq<u64>)>, q: int)
    requires
        0 <= q < members.len(),
    ensures
        sum(members[q].1) <= members_total(members),
        0 <= members_total(members),
    decreases members.len(),
{
    lemma_members_total_nonneg(members.drop_last());
    lemma_sum_nonneg(members.last().1);
    if q < members.len() - 1 {
        lemma_member_le_total(members.drop_last(), q);
    }
}

proof fn lemma_members_total_nonneg(members: Seq<(Seq<char>, Seq<u64>)>)
    ensures
        0 <= members_total(members),
    decreases members.len(),
{
    if members.len() > 0 {
        lemma_members_total_nonneg(members.drop_last());
        lemma_sum_nonneg(members.last().1);
    }
}

/// An error stops the scan: what the prefix found is what the whole finds.
proof fn lemma_scan_sticky(keep: Option<Seq<char>>, drop: Option<Seq<char>>, ideas: Seq<Keyword>, j: int)
    requires
        0 <= j <= ideas.len(),
        !(scan(keep, drop, ideas.take(j)) is Going),
    ensures
        scan(keep, drop, ideas) == scan(keep, drop, ideas.take(j)),
    decreases ideas.len(),
{
    if j < ideas.len() {
        assert(ideas.drop_last().take(j) =~= ideas.take(j));
        lemma_scan_sticky(keep, drop, ideas.drop_last(), j);
    } else {
        assert(ideas.take(j) =~= ideas);
    }
}

/// The group filter and its sum. Kept out of the provider so a canned response can drive it.
pub fn fold(group: &Group, ideas: Vec<Keyword>) -> (r: Result<(Vec<String>, GroupOut), FoldError>)
    requires
        fold_bounded(*group, ideas@),
    ensures
        fold_answers(*group, ideas@, r),
{
    let ghost keep_v = opt_view(group.pattern);
    let ghost drop_v = opt_view(group.drop);
    let keep = match &group.pattern {
        Some(p) => match Pattern::case_insensitive(p.as_str()) {
            Some(c) => Some(c),
            None => {
                return Err(FoldError::BadPattern(p.clone()));
            },
        },
        None => None,
    };
    let drop = match &group.drop {
        Some(p) => match Pattern::case_insensitive(p.as_str()) {
            Some(c) => Some(c),
            None => {
                return Err(FoldError::BadPattern(p.clone()));
            },
        },
        None => None,
    };
    let mut axis: Vec<(u16, u8)> = Vec::new();
    let mut texts: Vec<String> = Vec::new();
    let mut series: Vec<Vec<u64>> = Vec::new();
    let mut sums: Vec<u128> = Vec::new();
    let mut no_data: Vec<String> = Vec::new();
    let ghost mut members: Seq<(Seq<char>, Seq<u64>)> = Seq::empty();
    let mut i: usize = 0;
    assert(ideas@.take(0) =~= Seq::<Keyword>::empty());
    assert(strings(no_data@) =~= Seq::<Seq<char>>::empty());
    while i < ideas.len()
        invariant
            0 <= i <= ideas@.len(),
            fold_bounded(*group, ideas@),
            keep_v == opt_view(group.pattern),
            drop_v == opt_view(group.drop),
            keep matches Some(c) ==> keep_v is Some && c.source() == insensitive(keep_v->0),
            keep is None ==> keep_v is None,
            drop matches Some(c) ==> drop_v is Some && c.source() == insensitive(drop_v->0),
            drop is None ==> drop_v is None,
            keep_v is Some ==> regex_compiles(insensitive(keep_v->0)),
            drop_v is Some ==> regex_compiles(insensitive(drop_v->0)),
            scan(keep_v, drop_v, ideas@.take(i as int)) == (Scan::Going { axis: axis@, members, no_data: strings(no_data@) }),
            members.len() == texts@.len(),
            members.len() == series@.len(),
            members.len() == sums@.len(),
            forall|j: int| 0 <= j < members.len() ==> {
                &&& (#[trigger] members[j]).0 == texts@[j]@
                &&& members[j].1 == series@[j]@
                &&& members[j].1.len() == axis@.len()
                &&& sums@[j] == sum(members[j].1)
            },
            members.len() > 0 ==> axis@.len() > 0,
        decreases ideas@.len() - i,
    {
        let ghost before = scan(keep_v, drop_v, ideas@.take(i as int));
        assert(ideas@.take(i + 1).drop_last() =~= ideas@.take(i as int));
        assert(ideas@.take(i + 1).last() == ideas@[i as int]);
        let k = &ideas[i];
        let dropped = match &drop {
            Some(c) => c.is_match(k.text.as_str()),
            None => false,
        };
        let wanted = match &keep {
            Some(c) => c.is_match(k.text.as_str()),
            None => true,
        };
        if dropped || !wanted {
            assert(!passes(keep_v, drop_v, k.text@));
            i += 1;
            continue;
        }
        match &k.monthly {
            None => {
                no_data.push(k.text.clone());
                assert(strings(no_data@) =~= before->no_data.push(k.text@));
            },
            Some(v) => {
                assert(passes(keep_v, drop_v, k.text@));
                if v.len() == 0 {
                    assert(scan(keep_v, drop_v, ideas@.take(i + 1)) == (Scan::EmptySeries { keyword: k.text@ }));
                    proof {
                        lemma_scan_sticky(keep_v, drop_v, ideas@, i + 1);
                    }
                    return Err(FoldError::EmptySeries(k.text.clone()));
                }
                if axis.len() != 0 && !same_axis(&axis, v) {
                    let mut here: Vec<(u16, u8)> = Vec::new();
                    let mut m: usize = 0;
                    while m < v.len()
                        invariant
                            0 <= m <= v@.len(),
                            here@ == axis_of(v@).take(m as int),
                        decreases v@.len() - m,
                    {
                        here.push((v[m].year, v[m].month));
                        assert(axis_of(v@).take(m + 1) =~= axis_of(v@).take(m as int).push((v@[m as int].year, v@[m as int].month)));
                        m += 1;
                    }
                    assert(axis_of(v@).take(m as int) =~= axis_of(v@));
                    assert(scan(keep_v, drop_v, ideas@.take(i + 1)) == (Scan::Mismatch { keyword: k.text@, axis: axis_of(v@), group: axis@ }));
                    proof {
                        lemma_scan_sticky(keep_v, drop_v, ideas@, i + 1);
                    }
                    let a = month_labels(&here);
                    let b = month_labels(&axis);
                    return Err(FoldError::AxisMismatch { keyword: k.text.clone(), axis: a, group: b });
                }
                if axis.len() == 0 {
                    let mut m: usize = 0;
                    while m < v.len()
                        invariant
                            0 <= m <= v@.len(),
                            axis@ == axis_of(v@).take(m as int),
                        decreases v@.len() - m,
                    {
                        axis.push((v[m].year, v[m].month));
                        assert(axis_of(v@).take(m + 1) =~= axis_of(v@).take(m as int).push((v@[m as int].year, v@[m as int].month)));
                        m += 1;
                    }
                    assert(axis_of(v@).take(m as int) =~= axis_of(v@));
                }
                let mut monthly: Vec<u64> = Vec::new();
                let mut m: usize = 0;
                while m < v.len()
                    invariant
                        0 <= m <= v@.len(),
                        monthly@ == searches_of(v@).take(m as int),
                    decreases v@.len() - m,
                {
                    monthly.push(v[m].searches);
                    assert(searches_of(v@).take(m + 1) =~= searches_of(v@).take(m as int).push(v@[m as int].searches));
                    m += 1;
                }
                assert(searches_of(v@).take(m as int) =~= searches_of(v@));
                let total = series_sum(&monthly);
                texts.push(k.text.clone());
                series.push(monthly);
                sums.push(total);
                proof {
                    let old_members = members;
                    members = members.push((k.text@, searches_of(v@)));
                    assert(members.drop_last() =~= old_members);
                    assert(forall|j: int| 0 <= j < old_members.len() ==> members[j] == old_members[j]);
                }
            },
        }
        i += 1;
    }
    assert(ideas@.take(i as int) =~= ideas@);
    proof {
        lemma_scan_going(keep_v, drop_v, ideas@);
        assert(patterns_compile(*group));
        assert(members_total(members) <= u64::MAX);
    }
    if texts.len() == 0 {
        return Err(FoldError::NothingKept(no_data.len()));
    }
    let months = month_labels(&axis);
    let mut total: Vec<u64> = Vec::new();
    let mut t: usize = 0;
    while t < axis.len()
        invariant
            0 <= t <= axis@.len(),
            total@.len() == t,
            members.len() == series@.len(),
            forall|j: int| 0 <= j < members.len() ==> {
                &&& (#[trigger] members[j]).1 == series@[j]@
                &&& members[j].1.len() == axis@.len()
            },
            members_total(members) <= u64::MAX,
            forall|q: int| 0 <= q < t ==> total@[q] == column(members, q),
        decreases axis@.len() - t,
    {
        let mut acc: u128 = 0;
        let mut j: usize = 0;
        proof {
            lemma_column_le_total(members, t as int);
        }
        while j < series.len()
            invariant
                0 <= j <= series@.len(),
                0 <= t < axis@.len(),
                members.len() == series@.len(),
                forall|q: int| 0 <= q < members.len() ==> {
                    &&& (#[trigger] members[q]).1 == series@[q]@
                    &&& members[q].1.len() == axis@.len()
                },
                column(members, t as int) <= u64::MAX,
                acc == column(members.take(j as int), t as int),
            decreases series@.len() - j,
        {
            assert(members.take(j + 1).drop_last() =~= members.take(j as int));
            proof {
                lemma_column_prefix(members, j + 1, t as int);
                assert(forall|q: int| 0 <= q < members.take(j + 1).len() ==> members.take(j + 1)[q] == members[q]);
                lemma_column_le_total(members.take(j + 1), t as int);
            }
            acc = acc + series[j][t] as u128;
            j += 1;
        }
        assert(members.take(j as int) =~= members);
        total.push(acc as u64);
        t += 1;
    }
    let mut keys: Vec<u128> = Vec::new();
    let mut j: usize = 0;
    while j < sums.len()
        invariant
            0 <= j <= sums@.len(),
            members.len() == sums@.len(),
            members.len() == series@.len(),
            forall|q: int| 0 <= q < members.len() ==> {
                &&& sums@[q] == sum((#[trigger] members[q]).1)
                &&& members[q].1 == series@[q]@
                &&& members[q].1.len() == axis@.len()
            },
            axis@.len() > 0,
            members_total(members) <= u64::MAX,
            keys@.len() == j,
            forall|q: int| 0 <= q < j ==> keys@[q] == avg_tenths(members[q].1),
        decreases sums@.len() - j,
    {
        let n = series[j].len() as u128;
        proof {
            lemma_member_le_total(members, j as int);
            lemma_sum_nonneg(members[j as int].1);
        }
        assert(n > 0);
        assert(20 * sums@[j as int] + n <= 20 * 0xffff_ffff_ffff_ffffu128 + 0xffff_ffff_ffff_ffffu128);
        keys.push((20 * sums[j] + n) / (2 * n));
        j += 1;
    }
    let order = order_desc(&keys);
    let mut out: Vec<MemberOut> = Vec::new();
    let mut i: usize = 0;
    while i < order.len()
        invariant
            0 <= i <= order@.len(),
            is_desc_order(keys@, order@),
            members.len() == keys@.len(),
            members.len() == texts@.len(),
            members.len() == series@.len(),
            forall|q: int| 0 <= q < members.len() ==> {
                &&& (#[trigger] members[q]).0 == texts@[q]@
                &&& members[q].1 == series@[q]@
                &&& keys@[q] == avg_tenths(members[q].1)
            },
            out@.len() == i,
            forall|q: int| 0 <= q < i ==> member_is(#[trigger] out@[q], members[order@[q] as int]),
        decreases order@.len() - i,
    {
        let j = order[i];
        out.push(MemberOut { text: texts[j].clone(), avg_tenths: keys[j], monthly: series[j].clone() });
        i += 1;
    }
    assert(keys@ =~= avg_keys(members));
    Ok((months, GroupOut { name: group.name.clone(), total, members: out, no_data }))
}

/// A series' volume, with what it can reach at most.
fn month_sum(v: &Vec<Month>) -> (r: u128)
    ensures
        r == sum(searches_of(v@)),
        r <= v@.len() * 0xffff_ffff_ffff_ffff,
{
    let ghost s = searches_of(v@);
    let mut acc: u128 = 0;
    let mut i: usize = 0;
    while i < v.len()
        invariant
            0 <= i <= v@.len(),
            s == searches_of(v@),
            acc == sum(s.take(i as int)),
            acc <= i * 0xffff_ffff_ffff_ffff,
        decreases v@.len() - i,
    {
        assert(s.take(i + 1).drop_last() =~= s.take(i as int));
        assert(s[i as int] == v@[i as int].searches);
        assert(acc + s[i as int] <= (i + 1) * 0xffff_ffff_ffff_ffff) by (nonlinear_arith)
            requires
                acc <= i * 0xffff_ffff_ffff_ffff,
                s[i as int] <= 0xffff_ffff_ffff_ffffu64,
        ;
        acc = acc + v[i].searches as u128;
        i += 1;
    }
    assert(s.take(i as int) =~= s);
    acc
}

/// Whether a group's sums over these suggestions fit in 64 bits: `fold_bounded`, decided.
pub fn fits_in_sums(group: &Group, ideas: &Vec<Keyword>) -> (r: bool)
    ensures
        r == fold_bounded(*group, ideas@),
{
    let ghost keep_v = opt_view(group.pattern);
    let ghost drop_v = opt_view(group.drop);
    let keep = match &group.pattern {
        Some(p) => match Pattern::case_insensitive(p.as_str()) {
            Some(c) => Some(c),
            None => {
                return true;
            },
        },
        None => None,
    };
    let drop = match &group.drop {
        Some(p) => match Pattern::case_insensitive(p.as_str()) {
            Some(c) => Some(c),
            None => {
                return true;
            },
        },
        None => None,
    };
    assert(patterns_compile(*group));
    let mut acc: u128 = 0;
    let mut i: usize = 0;
    assert(ideas@.take(0) =~= Seq::<Keyword>::empty());
    while i < ideas.len()
        invariant
            0 <= i <= ideas@.len(),
            keep_v == opt_view(group.pattern),
            drop_v == opt_view(group.drop),
            patterns_compile(*group),
            keep matches Some(c) ==> keep_v is Some && c.source() == insensitive(keep_v->0),
            keep is None ==> keep_v is None,
            drop matches Some(c) ==> drop_v is Some && c.source() == insensitive(drop_v->0),
            drop is None ==> drop_v is None,
            acc == members_total(kept_series(keep_v, drop_v, ideas@.take(i as int))),
            acc <= u64::MAX,
        decreases ideas@.len() - i,
    {
        assert(ideas@.take(i + 1).drop_last() =~= ideas@.take(i as int));
        assert(ideas@.take(i + 1).last() == ideas@[i as int]);
        let k = &ideas[i];
        let dropped = match &drop {
            Some(c) => c.is_match(k.text.as_str()),
            None => false,
        };
        let wanted = match &keep {
            Some(c) => c.is_match(k.text.as_str()),
            None => true,
        };
        if !dropped && wanted {
            assert(passes(keep_v, drop_v, k.text@));
            match &k.monthly {
                Some(v) => {
                    let s = month_sum(v);
                    let n = v.len();
                    assert(v@.len() == n as nat);
                    assert(acc + s < 0x1_0000_0000_0000_0000_0000_0000_0000_0000) by (nonlinear_arith)
                        requires
                            acc <= 0xffff_ffff_ffff_ffff,
                            s <= v@.len() * 0xffff_ffff_ffff_ffff,
                            v@.len() <= 0xffff_ffff_ffff_ffff,
                    ;
                    let ghost r = kept_series(keep_v, drop_v, ideas@.take(i as int));
                    assert(kept_series(keep_v, drop_v, ideas@.take(i + 1)) == r.push((k.text@, searches_of(v@))));
                    assert(r.push((k.text@, searches_of(v@))).drop_last() =~= r);
                    acc = acc + s;
                    if acc > 0xffff_ffff_ffff_ffff {
                        proof {
                            lemma_kept_volume_prefix(keep_v, drop_v, ideas@, i + 1);
                        }
                        return false;
                    }
                },
                None => {},
            }
        } else {
            assert(!passes(keep_v, drop_v, k.text@));
        }
        i += 1;
    }
    assert(ideas@.take(i as int) =~= ideas@);
    true
}

/// `fold`, for suggestions whose kept volumes may not fit in 64 bits: `None` where they do not.
pub fn try_fold(group: &Group, ideas: Vec<Keyword>) -> (r: Option<Result<(Vec<String>, GroupOut), FoldError>>)
    ensures
        r is None <==> !fold_bounded(*group, ideas@),
        r matches Some(x) ==> fold_answers(*group, ideas@, x),
{
    if fits_in_sums(group, &ideas) {
        Some(fold(group, ideas))
    } else {
        None
    }
}

/// One chart's worth of demand-side numbers: every group over one shared month axis.
#[derive(Clone, Debug)]
pub struct Chart {
    pub name: String,
    pub place: String,
    /// `YYYY-MM`, shared by every group.
    pub months: Vec<String>,
    pub groups: Vec<GroupOut>,
}

#[derive(Clone, Debug)]
pub enum ChartError {
    /// The study declares no group.
    NoGroup,
    /// A group's own filter or sum failed.
    Group(FoldError),
    /// A group covers other months than the groups before it.
    Axis { group: String, axis: Vec<String>, months: Vec<String> },
}

pub open spec fn group_names(groups: Seq<GroupOut>) -> Seq<Seq<char>> {
    groups.map_values(|g: GroupOut| g.name@)
}

/// What adding a group to a chart does, as `Chart::add` states it.
pub open spec fn add_answers(before: Chart, after: Chart, group: Group, ideas: Seq<Keyword>, r: Result<(), ChartError>) -> bool {
    &&& after.well_formed()
    &&& after.name == before.name
    &&& after.place == before.place
    &&& (r is Ok <==> fold_succeeds(group, ideas) && (before.groups@.len() == 0 || strings(before.months@) == fold_axis(group, ideas)))
    &&& (r is Ok ==> {
        &&& after.groups@.len() == before.groups@.len() + 1
        &&& after.groups@.drop_last() == before.groups@
        &&& group_answers(group, ideas, after.groups@.last())
        &&& strings(after.months@) == fold_axis(group, ideas)
    })
    &&& (r matches Err(ChartError::Group(e)) ==> fold_answers(group, ideas, Err(e)))
    &&& (r matches Err(ChartError::Axis { group: g, axis, months }) ==> {
        &&& g@ == group.name@
        &&& strings(axis@) == fold_axis(group, ideas)
        &&& months@ == before.months@
    })
    &&& !(r matches Err(ChartError::NoGroup))
    &&& (r is Err ==> after.groups@ == before.groups@ && after.months@ == before.months@)
}

impl Chart {
    /// Every group is summed over the chart's months, and no two groups share a name.
    pub open spec fn well_formed(&self) -> bool {
        &&& forall|i: int| 0 <= i < self.groups@.len() ==> (#[trigger] self.groups@[i]).total@.len() == self.months@.len()
        &&& forall|i: int, j: int|
            0 <= i < j < self.groups@.len() ==> (#[trigger] self.groups@[i]).name@ != (#[trigger] self.groups@[j]).name@
    }

    /// An empty chart for a study that declares `declared` groups; a study that declares none has
    /// nothing to chart.
    pub fn start(name: String, place: String, declared: usize) -> (r: Result<Chart, ChartError>)
        ensures
            declared == 0 <==> r is Err,
            r matches Err(e) ==> e is NoGroup,
            r matches Ok(c) ==> c.well_formed() && c.name == name && c.place == place && c.months@.len() == 0
                && c.groups@.len() == 0,
    {
        if declared == 0 {
            return Err(ChartError::NoGroup);
        }
        Ok(Chart { name, place, months: Vec::new(), groups: Vec::new() })
    }

    /// Whether a group of this name may still be asked for: two groups of one name would be one line.
    pub fn admits(&self, name: &str) -> (r: bool)
        ensures
            r == !group_names(self.groups@).contains(name@),
    {
        let ghost names = group_names(self.groups@);
        let mut i: usize = 0;
        while i < self.groups.len()
            invariant
                i <= self.groups@.len(),
                names == group_names(self.groups@),
                forall|k: int| 0 <= k < i ==> names[k] != name@,
            decreases self.groups@.len() - i,
        {
            if same_text(self.groups[i].name.as_str(), name) {
                assert(names[i as int] == name@);
                return false;
            }
            i += 1;
        }
        true
    }

    /// `add`, for suggestions whose kept volumes may not fit in 64 bits: `None`, and the chart
    /// untouched, where they do not.
    pub fn try_add(&mut self, group: &Group, ideas: Vec<Keyword>) -> (r: Option<Result<(), ChartError>>)
        requires
            old(self).well_formed(),
            !group_names(old(self).groups@).contains(group.name@),
        ensures
            r is None <==> !fold_bounded(*group, ideas@),
            r is None ==> *final(self) == *old(self),
            r matches Some(x) ==> add_answers(*old(self), *final(self), *group, ideas@, x),
    {
        if fits_in_sums(group, &ideas) {
            Some(self.add(group, ideas))
        } else {
            None
        }
    }

    /// A group's suggestions, filtered and summed onto the chart. The first group sets the months;
    /// every later one must cover the same.
    pub fn add(&mut self, group: &Group, ideas: Vec<Keyword>) -> (r: Result<(), ChartError>)
        requires
            old(self).well_formed(),
            !group_names(old(self).groups@).contains(group.name@),
            fold_bounded(*group, ideas@),
        ensures
            final(self).well_formed(),
            final(self).name == old(self).name,
            final(self).place == old(self).place,
            r is Ok <==> fold_succeeds(*group, ideas@) && (old(self).groups@.len() == 0 || strings(old(self).months@)
                == fold_axis(*group, ideas@)),
            r is Ok ==> {
                &&& final(self).groups@.len() == old(self).groups@.len() + 1
                &&& final(self).groups@.drop_last() == old(self).groups@
                &&& group_answers(*group, ideas@, final(self).groups@.last())
                &&& strings(final(self).months@) == fold_axis(*group, ideas@)
            },
            r matches Err(ChartError::Group(e)) ==> fold_answers(*group, ideas@, Err(e)),
            r matches Err(ChartError::Axis { group: g, axis, months }) ==> {
                &&& g@ == group.name@
                &&& strings(axis@) == fold_axis(*group, ideas@)
                &&& months@ == old(self).months@
            },
            !(r matches Err(ChartError::NoGroup)),
            r is Err ==> final(self).groups@ == old(self).groups@ && final(self).months@ == old(self).months@,
    {
        let ghost ideas_v = ideas@;
        let (axis, out) = match fold(group, ideas) {
            Ok(x) => x,
            Err(e) => {
                assert(!fold_succeeds(*group, ideas_v));
                return Err(ChartError::Group(e));
            },
        };
        proof {
            let keep = opt_view(group.pattern);
            let drop = opt_view(group.drop);
            match scan(keep, drop, ideas_v) {
                Scan::Going { axis: ax, members, no_data } => {
                    assert(strings(axis@).len() == labels(ax).len());
                    assert(out.total@.len() == ax.len());
                },
                _ => {},
            }
            assert(axis@.len() == out.total@.len());
            assert(fold_succeeds(*group, ideas_v));
            assert(strings(axis@) == fold_axis(*group, ideas_v));
            assert(group_answers(*group, ideas_v, out));
        }
        if self.groups.len() == 0 {
            self.months = axis;
        } else if !same_labels(&self.months, &axis) {
            return Err(ChartError::Axis { group: group.name.clone(), axis, months: self.months.clone() });
        } else {
            assert(strings(self.months@).len() == strings(axis@).len());
        }
        let ghost before = self.groups@;
        self.groups.push(out);
        assert(self.groups@.drop_last() =~= before);
        assert forall|i: int, j: int|
            0 <= i < j < self.groups@.len() implies (#[trigger] self.groups@[i]).name@ != (
            #[trigger] self.groups@[j]).name@ by {
            if j == before.len() {
                assert(group_names(before)[i] == before[i].name@);
            }
        }
        Ok(())
    }
}

fn same_labels(a: &Vec<String>, b: &Vec<String>) -> (r: bool)
    ensures
        r == (strings(a@) == strings(b@)),
{
    if a.len() != b.len() {
        assert(strings(a@).len() != strings(b@).len());
        return false;
    }
    let mut i: usize = 0;
    while i < a.len()
        invariant
            a@.len() == b@.len(),
            i <= a@.len(),
            forall|k: int| 0 <= k < i ==> a@[k]@ == b@[k]@,
        decreases a@.len() - i,
    {
        if !same_text(a[i].as_str(), b[i].as_str()) {
            assert(strings(a@)[i as int] != strings(b@)[i as int]);
            return false;
        }
        i += 1;
    }
    assert(strings(a@) =~= strings(b@));
    true
}

} // verus!
