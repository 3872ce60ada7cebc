//! Pins and their file. The study's own candidates are the committed seed; the pin file on this
//! machine is a diff over it, `hidden` names and `added` candidates, and the green set the map
//! opens with is the seed minus `hidden` plus `added`. The file is recomputed from the pins rather
//! than patched, so it cannot disagree with what is on screen: seeding from the diff of a green set
//! gives that set back.
use vstd::prelude::*;

use crate::text::same_text;

verus! {

/// An address a study is about. `L` is where it is.
#[derive(Clone, Debug)]
pub struct Candidate<L> {
    pub name: String,
    pub at: L,
}

/// The diff over a study's own candidate list.
#[derive(Clone, Debug)]
pub struct PinFile<L> {
    pub added: Vec<Candidate<L>>,
    /// Candidate names the study declares and this machine does not want to see.
    pub hidden: Vec<String>,
}

#[derive(Clone, Debug)]
pub struct Pin<L> {
    /// A green pin is keyed by its name, a yellow one by a counter.
    pub id: String,
    pub name: String,
    pub at: L,
    /// Yellow only: the sweep's rank, or nothing for a free click.
    pub label: Option<String>,
    pub green: bool,
    /// Named by the study file, rather than promoted here.
    pub from_study: bool,
}

/// A pin as its parts.
pub struct PinView<L> {
    pub id: Seq<char>,
    pub name: Seq<char>,
    pub at: L,
    pub label: Option<Seq<char>>,
    pub green: bool,
    pub from_study: bool,
}

pub open spec fn pin_view<L>(p: Pin<L>) -> PinView<L> {
    PinView {
        id: p.id@,
        name: p.name@,
        at: p.at,
        label: match p.label {
            Some(l) => Some(l@),
            None => None,
        },
        green: p.green,
        from_study: p.from_study,
    }
}

pub open spec fn pin_views<L>(v: Seq<Pin<L>>) -> Seq<PinView<L>> {
    v.map_values(|p: Pin<L>| pin_view(p))
}

pub open spec fn cand_views<L>(v: Seq<Candidate<L>>) -> Seq<(Seq<char>, L)> {
    v.map_values(|c: Candidate<L>| (c.name@, c.at))
}

pub open spec fn name_views(v: Seq<String>) -> Seq<Seq<char>> {
    v.map_values(|s: String| s@)
}

/// A candidate as a green pin: keyed by its name, unlabelled.
pub open spec fn green<L>(c: (Seq<char>, L), from_study: bool) -> PinView<L> {
    PinView { id: c.0, name: c.0, at: c.1, label: None, green: true, from_study }
}

/// The study's candidates that are not hidden, in the study's order, as green pins.
pub open spec fn shown<L>(cands: Seq<(Seq<char>, L)>, hidden: Seq<Seq<char>>) -> Seq<PinView<L>>
    decreases cands.len(),
{
    if cands.len() == 0 {
        Seq::empty()
    } else if hidden.contains(cands.last().0) {
        shown(cands.drop_last(), hidden)
    } else {
        shown(cands.drop_last(), hidden).push(green(cands.last(), true))
    }
}

pub open spec fn promoted<L>(added: Seq<(Seq<char>, L)>) -> Seq<PinView<L>> {
    added.map_values(|a: (Seq<char>, L)| green(a, false))
}

/// The green set a map opens with: the study's seed, minus `hidden`, plus `added`.
pub open spec fn seeded<L>(cands: Seq<(Seq<char>, L)>, added: Seq<(Seq<char>, L)>, hidden: Seq<Seq<char>>) -> Seq<
    PinView<L>,
> {
    shown(cands, hidden) + promoted(added)
}

/// The pins promoted here rather than named by the study, as candidates.
pub open spec fn added_of<L>(core: Seq<PinView<L>>) -> Seq<(Seq<char>, L)>
    decreases core.len(),
{
    if core.len() == 0 {
        Seq::empty()
    } else if core.last().from_study {
        added_of(core.drop_last())
    } else {
        added_of(core.drop_last()).push((core.last().name, core.last().at))
    }
}

pub open spec fn named_in<L>(core: Seq<PinView<L>>, n: Seq<char>) -> bool {
    exists|k: int| 0 <= k < core.len() && core[k].name == n
}

/// The study's candidates that no pin carries the name of.
pub open spec fn hidden_of<L>(cands: Seq<(Seq<char>, L)>, core: Seq<PinView<L>>) -> Seq<Seq<char>>
    decreases cands.len(),
{
    if cands.len() == 0 {
        Seq::empty()
    } else if named_in(core, cands.last().0) {
        hidden_of(cands.drop_last(), core)
    } else {
        hidden_of(cands.drop_last(), core).push(cands.last().0)
    }
}

fn green_pin<L: Copy>(c: &Candidate<L>, from_study: bool) -> (p: Pin<L>)
    ensures
        pin_view(p) == green((c.name@, c.at), from_study),
{
    Pin { id: c.name.clone(), name: c.name.clone(), at: c.at, label: None, green: true, from_study }
}

fn hides(hidden: &Vec<String>, name: &String) -> (r: bool)
    ensures
        r == name_views(hidden@).contains(name@),
{
    let ghost h = name_views(hidden@);
    let mut k: usize = 0;
    while k < hidden.len()
        invariant
            k <= hidden@.len(),
            h == name_views(hidden@),
            forall|m: int| 0 <= m < k ==> h[m] != name@,
        decreases hidden@.len() - k,
    {
        if same_text(hidden[k].as_str(), name.as_str()) {
            assert(h[k as int] == name@);
            return true;
        }
        k += 1;
    }
    false
}

/// The green set the map opens with, from the study's candidates and the pin file this machine
/// holds for it (an empty one where it holds none).
pub fn seed<L: Copy>(cands: &Vec<Candidate<L>>, file: &PinFile<L>) -> (out: Vec<Pin<L>>)
    ensures
        pin_views(out@) == seeded(cand_views(cands@), cand_views(file.added@), name_views(file.hidden@)),
{
    let ghost hv = name_views(file.hidden@);
    let mut out: Vec<Pin<L>> = Vec::new();
    let mut i: usize = 0;
    while i < cands.len()
        invariant
            i <= cands@.len(),
            hv == name_views(file.hidden@),
            pin_views(out@) == shown(cand_views(cands@).take(i as int), hv),
        decreases cands@.len() - i,
    {
        let ghost before = out@;
        let ghost cv = cand_views(cands@);
        assert(cv.take(i + 1).drop_last() =~= cv.take(i as int));
        assert(cv.take(i + 1).last() == (cands@[i as int].name@, cands@[i as int].at));
        if !hides(&file.hidden, &cands[i].name) {
            let p = green_pin(&cands[i], true);
            out.push(p);
            assert(pin_views(out@) =~= pin_views(before).push(pin_view(p)));
        }
        i += 1;
    }
    assert(cand_views(cands@).take(i as int) =~= cand_views(cands@));
    let ghost head = out@;
    let mut j: usize = 0;
    while j < file.added.len()
        invariant
            j <= file.added@.len(),
            pin_views(head) == shown(cand_views(cands@), hv),
            out@.len() == head.len() + j,
            pin_views(out@) =~= pin_views(head) + promoted(cand_views(file.added@).take(j as int)),
        decreases file.added@.len() - j,
    {
        let ghost before = out@;
        let p = green_pin(&file.added[j], false);
        out.push(p);
        assert(pin_views(out@) =~= pin_views(before).push(pin_view(p)));
        j += 1;
        assert(promoted(cand_views(file.added@).take(j as int)) =~= promoted(
            cand_views(file.added@).take(j - 1),
        ).push(green(cand_views(file.added@)[j - 1], false)));
    }
    assert(cand_views(file.added@).take(j as int) =~= cand_views(file.added@));
    out
}

fn carries<L>(core: &Vec<Pin<L>>, name: &String) -> (r: bool)
    ensures
        r == named_in(pin_views(core@), name@),
{
    let ghost v = pin_views(core@);
    let mut k: usize = 0;
    while k < core.len()
        invariant
            k <= core@.len(),
            v == pin_views(core@),
            forall|m: int| 0 <= m < k ==> v[m].name != name@,
        decreases core@.len() - k,
    {
        if same_text(core[k].name.as_str(), name.as_str()) {
            assert(v[k as int].name == name@);
            return true;
        }
        k += 1;
    }
    false
}

/// What the green set implies for the file: the pins promoted here as `added`, and the study's
/// candidates no pin carries the name of as `hidden`.
pub fn diff<L: Copy>(cands: &Vec<Candidate<L>>, core: &Vec<Pin<L>>) -> (f: PinFile<L>)
    ensures
        cand_views(f.added@) == added_of(pin_views(core@)),
        name_views(f.hidden@) == hidden_of(cand_views(cands@), pin_views(core@)),
{
    let ghost cv = pin_views(core@);
    let mut added: Vec<Candidate<L>> = Vec::new();
    let mut i: usize = 0;
    while i < core.len()
        invariant
            i <= core@.len(),
            cv == pin_views(core@),
            cand_views(added@) == added_of(cv.take(i as int)),
        decreases core@.len() - i,
    {
        assert(cv.take(i + 1).drop_last() =~= cv.take(i as int));
        if !core[i].from_study {
            let ghost before = added@;
            let c = Candidate { name: core[i].name.clone(), at: core[i].at };
            added.push(c);
            assert(cand_views(added@) =~= cand_views(before).push((c.name@, c.at)));
        }
        i += 1;
    }
    assert(cv.take(i as int) =~= cv);
    let ghost kv = cand_views(cands@);
    let mut hidden: Vec<String> = Vec::new();
    let mut k: usize = 0;
    while k < cands.len()
        invariant
            k <= cands@.len(),
            cv == pin_views(core@),
            kv == cand_views(cands@),
            name_views(hidden@) == hidden_of(kv.take(k as int), cv),
        decreases cands@.len() - k,
    {
        assert(kv.take(k + 1).drop_last() =~= kv.take(k as int));
        assert(kv.take(k + 1).last() == (cands@[k as int].name@, cands@[k as int].at));
        if !carries(core, &cands[k].name) {
            let ghost before = hidden@;
            let n = cands[k].name.clone();
            hidden.push(n);
            assert(name_views(hidden@) =~= name_views(before).push(n@));
        }
        k += 1;
    }
    assert(kv.take(k as int) =~= kv);
    PinFile { added, hidden }
}

/// The study's candidates the mask keeps, in the study's order, as green pins.
pub open spec fn masked<L>(cands: Seq<(Seq<char>, L)>, m: Seq<bool>) -> Seq<PinView<L>>
    decreases cands.len(),
{
    if cands.len() == 0 || m.len() == 0 {
        Seq::empty()
    } else if m.last() {
        masked(cands.drop_last(), m.drop_last()).push(green(cands.last(), true))
    } else {
        masked(cands.drop_last(), m.drop_last())
    }
}

proof fn lemma_added_of_concat<L>(x: Seq<PinView<L>>, y: Seq<PinView<L>>)
    ensures
        added_of(x + y) == added_of(x) + added_of(y),
    decreases y.len(),
{
    if y.len() == 0 {
        assert(x + y =~= x);
        assert(added_of(x) + added_of(y) =~= added_of(x));
    } else {
        assert((x + y).drop_last() =~= x + y.drop_last());
        lemma_added_of_concat(x, y.drop_last());
        if !y.last().from_study {
            assert(added_of(x) + added_of(y) =~= (added_of(x) + added_of(y.drop_last())).push(
                (y.last().name, y.last().at),
            ));
        }
    }
}

proof fn lemma_added_of_masked<L>(cands: Seq<(Seq<char>, L)>, m: Seq<bool>)
    requires
        m.len() == cands.len(),
    ensures
        added_of(masked(cands, m)) == Seq::<(Seq<char>, L)>::empty(),
    decreases cands.len(),
{
    if cands.len() > 0 {
        lemma_added_of_masked(cands.drop_last(), m.drop_last());
        if m.last() {
            assert(masked(cands, m).drop_last() =~= masked(cands.drop_last(), m.drop_last()));
        }
    }
}

proof fn lemma_added_of_promoted<L>(added: Seq<(Seq<char>, L)>)
    ensures
        added_of(promoted(added)) == added,
    decreases added.len(),
{
    if added.len() == 0 {
        assert(added =~= Seq::<(Seq<char>, L)>::empty());
    } else {
        lemma_added_of_promoted(added.drop_last());
        assert(promoted(added).drop_last() =~= promoted(added.drop_last()));
        assert(added_of(promoted(added.drop_last())).push(added.last()) =~= added);
    }
}

proof fn lemma_named_in_concat<L>(x: Seq<PinView<L>>, y: Seq<PinView<L>>, n: Seq<char>)
    ensures
        named_in(x + y, n) <==> (named_in(x, n) || named_in(y, n)),
{
    if named_in(x + y, n) {
        let k = choose|k: int| 0 <= k < (x + y).len() && (x + y)[k].name == n;
        if k >= x.len() {
            assert(y[k - x.len()].name == n);
        }
    }
    if named_in(x, n) {
        let k = choose|k: int| 0 <= k < x.len() && x[k].name == n;
        assert((x + y)[k].name == n);
    }
    if named_in(y, n) {
        let k = choose|k: int| 0 <= k < y.len() && y[k].name == n;
        assert((x + y)[x.len() + k].name == n);
    }
}

proof fn lemma_named_in_masked<L>(cands: Seq<(Seq<char>, L)>, m: Seq<bool>, n: Seq<char>)
    requires
        m.len() == cands.len(),
    ensures
        named_in(masked(cands, m), n) <==> exists|j: int| 0 <= j < cands.len() && m[j] && cands[j].0 == n,
    decreases cands.len(),
{
    if cands.len() > 0 {
        let (c0, m0) = (cands.drop_last(), m.drop_last());
        lemma_named_in_masked(c0, m0, n);
        let r = masked(c0, m0);
        if m.last() {
            lemma_named_in_concat(r, seq![green(cands.last(), true)], n);
            assert(r.push(green(cands.last(), true)) =~= r + seq![green(cands.last(), true)]);
            if named_in(seq![green(cands.last(), true)], n) {
                assert(cands[cands.len() - 1].0 == n);
            }
            if cands.last().0 == n {
                assert(seq![green(cands.last(), true)][0].name == n);
            }
        }
        if exists|j: int| 0 <= j < cands.len() && m[j] && cands[j].0 == n {
            let j = choose|j: int| 0 <= j < cands.len() && m[j] && cands[j].0 == n;
            if j < cands.len() - 1 {
                assert(m0[j] && c0[j].0 == n);
            }
        }
        if exists|j: int| 0 <= j < c0.len() && m0[j] && c0[j].0 == n {
            let j = choose|j: int| 0 <= j < c0.len() && m0[j] && c0[j].0 == n;
            assert(m[j] && cands[j].0 == n);
        }
    }
}

proof fn lemma_named_in_promoted<L>(added: Seq<(Seq<char>, L)>, n: Seq<char>)
    ensures
        named_in(promoted(added), n) <==> exists|a: int| 0 <= a < added.len() && added[a].0 == n,
{
    if named_in(promoted(added), n) {
        let k = choose|k: int| 0 <= k < promoted(added).len() && promoted(added)[k].name == n;
        assert(added[k].0 == n);
    }
    if exists|a: int| 0 <= a < added.len() && added[a].0 == n {
        let a = choose|a: int| 0 <= a < added.len() && added[a].0 == n;
        assert(promoted(added)[a].name == n);
    }
}

proof fn lemma_hidden_of_contains<L>(cands: Seq<(Seq<char>, L)>, core: Seq<PinView<L>>, x: Seq<char>)
    ensures
        hidden_of(cands, core).contains(x) <==> (exists|i: int| 0 <= i < cands.len() && cands[i].0 == x)
            && !named_in(core, x),
    decreases cands.len(),
{
    if cands.len() > 0 {
        let c0 = cands.drop_last();
        lemma_hidden_of_contains(c0, core, x);
        let h0 = hidden_of(c0, core);
        if !named_in(core, cands.last().0) {
            let h = h0.push(cands.last().0);
            if h.contains(x) {
                let k = choose|k: int| 0 <= k < h.len() && h[k] == x;
                if k < h0.len() {
                    assert(h0[k] == x);
                    assert(h0.contains(x));
                } else {
                    assert(cands[cands.len() - 1].0 == x);
                }
            }
            if h0.contains(x) {
                let k = choose|k: int| 0 <= k < h0.len() && h0[k] == x;
                assert(h[k] == x);
            }
            if cands.last().0 == x && !named_in(core, x) {
                assert(h[h0.len() as int] == x);
            }
        }
        if exists|i: int| 0 <= i < cands.len() && cands[i].0 == x {
            let i = choose|i: int| 0 <= i < cands.len() && cands[i].0 == x;
            if i < cands.len() - 1 {
                assert(c0[i].0 == x);
            }
        }
        if exists|i: int| 0 <= i < c0.len() && c0[i].0 == x {
            let i = choose|i: int| 0 <= i < c0.len() && c0[i].0 == x;
            assert(cands[i].0 == x);
        }
    }
}

proof fn lemma_shown_masked<L>(cands: Seq<(Seq<char>, L)>, m: Seq<bool>, hidden: Seq<Seq<char>>)
    requires
        m.len() == cands.len(),
        forall|i: int| 0 <= i < cands.len() ==> (hidden.contains(#[trigger] cands[i].0) <==> !m[i]),
    ensures
        shown(cands, hidden) == masked(cands, m),
    decreases cands.len(),
{
    if cands.len() > 0 {
        let (c0, m0) = (cands.drop_last(), m.drop_last());
        assert forall|i: int| 0 <= i < c0.len() implies (hidden.contains(#[trigger] c0[i].0) <==> !m0[i]) by {
            assert(c0[i] == cands[i]);
        }
        lemma_shown_masked(c0, m0, hidden);
        assert(hidden.contains(cands[cands.len() - 1].0) <==> !m[cands.len() - 1]);
    }
}

/// Seeding from the file a green set writes gives that green set back. A green set is what the map
/// can hold: the study's candidates it still shows, in the study's order, then the ones promoted
/// here. The study's candidate names are distinct (the study is refused otherwise), and a promoted
/// name is none of them.
pub proof fn seed_undoes_diff<L>(cands: Seq<(Seq<char>, L)>, m: Seq<bool>, added: Seq<(Seq<char>, L)>)
    requires
        m.len() == cands.len(),
        forall|i: int, j: int| 0 <= i < j < cands.len() ==> cands[i].0 != cands[j].0,
        forall|a: int, c: int| 0 <= a < added.len() && 0 <= c < cands.len() ==> added[a].0 != cands[c].0,
    ensures
        seeded(
            cands,
            added_of(masked(cands, m) + promoted(added)),
            hidden_of(cands, masked(cands, m) + promoted(added)),
        ) == masked(cands, m) + promoted(added),
{
    let core = masked(cands, m) + promoted(added);
    lemma_added_of_concat(masked(cands, m), promoted(added));
    lemma_added_of_masked(cands, m);
    lemma_added_of_promoted(added);
    assert(added_of(core) =~= added);
    let h = hidden_of(cands, core);
    assert forall|i: int| 0 <= i < cands.len() implies (h.contains(#[trigger] cands[i].0) <==> !m[i]) by {
        let n = cands[i].0;
        lemma_hidden_of_contains(cands, core, n);
        lemma_named_in_concat(masked(cands, m), promoted(added), n);
        lemma_named_in_masked(cands, m, n);
        lemma_named_in_promoted(added, n);
        if named_in(promoted(added), n) {
            let a = choose|a: int| 0 <= a < added.len() && added[a].0 == n;
            assert(added[a].0 != cands[i].0);
        }
        if named_in(masked(cands, m), n) {
            let j = choose|j: int| 0 <= j < cands.len() && m[j] && cands[j].0 == n;
            if j != i {
                if j < i {
                    assert(cands[j].0 != cands[i].0);
                } else {
                    assert(cands[i].0 != cands[j].0);
                }
            }
        }
        if m[i] {
            assert(named_in(masked(cands, m), n));
        }
    }
    lemma_shown_masked(cands, m, h);
}

/// What promoting a yellow pin comes to once it has been offered a name.
#[derive(Clone, Debug)]
pub enum Promote {
    /// No name: the prompt was dismissed, or left blank.
    Cancelled,
    /// There is already a candidate of this name.
    Taken(String),
    /// The pin goes green under this name.
    Named(String),
}

/// The name typed for a promoted pin, trimmed; a blank one is no name, and one already on the
/// green set is refused rather than shadowing it.
pub fn promote_name<L>(typed: Option<&str>, core: &Vec<Pin<L>>) -> (r: Promote)
    ensures
        match typed {
            None => r is Cancelled,
            Some(t) => {
                let n = crate::text::trimmed(t@);
                if n.len() == 0 {
                    r is Cancelled
                } else if named_in(pin_views(core@), n) {
                    r matches Promote::Taken(x) && x@ == n
                } else {
                    r matches Promote::Named(x) && x@ == n
                }
            },
        },
{
    match typed {
        None => Promote::Cancelled,
        Some(t) => {
            let name = crate::text::trim(t);
            if name.as_str().is_empty() {
                Promote::Cancelled
            } else if carries(core, &name) {
                Promote::Taken(name)
            } else {
                Promote::Named(name)
            }
        },
    }
}

/// The green pin a promotion makes: keyed by its new name, unlabelled, and not the study's.
pub fn promoted_pin<L>(name: String, at: L) -> (p: Pin<L>)
    ensures
        pin_view(p) == green((name@, at), false),
{
    Pin { id: name.clone(), name, at, label: None, green: true, from_study: false }
}

} // verus!
