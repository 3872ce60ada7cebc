//! The map's model where it is discrete: which layers a payload offers and in what order, what
//! shape a payload must have before anything is projected, and the rows a report is built of.
//! The projection, the pressure surface and the colouring are arithmetic on floats and are run by
//! the page.
use vstd::prelude::*;

use crate::find::{first_true, index_of, lemma_first_true_step, lemma_first_true_whole, lemma_index_of_bounds, position};
use crate::text::{owned, push_decimal, push_str, string_of};

verus! {

/// How a layer is coloured.
#[derive(Clone, Copy, Debug, PartialEq, Eq, Structural)]
pub enum Scale {
    /// Rank, not magnitude: these quantities are heavy-tailed and a linear ramp shows one hot pixel.
    Percentile,
    Linear,
}

impl Default for Scale {
    fn default() -> (s: Scale)
        ensures
            s == Scale::Percentile,
    {
        Scale::Percentile
    }
}

/// Which array a layer paints. A study layer was evaluated at build time; the rest are functions
/// of the sliders, and of a trade.
#[derive(Clone, Copy, Debug, PartialEq, Eq, Structural)]
pub enum LayerRef {
    Study(usize),
    Trade(TradeLayer),
}

#[derive(Clone, Copy, Debug, PartialEq, Eq, Structural)]
pub enum TradeLayer {
    Unmet,
    Pressure,
    Demand,
    /// One competitor's share of the cell under the fitted model.
    Share,
    /// The same competitor's reach as the probe observed it.
    Seen,
}

#[derive(Clone, Debug)]
pub struct LayerSpec {
    pub name: String,
    pub note: String,
    /// Magnitude rather than rank.
    pub linear: bool,
    pub source: LayerRef,
}

#[derive(Clone, Debug)]
pub struct Row {
    pub label: String,
    /// Second line under the label: whatever the row measured against.
    pub sub: Option<String>,
    /// Empty makes the row a section heading.
    pub value: String,
}

#[derive(Clone, Debug)]
pub struct Report {
    pub title: String,
    pub rows: Vec<Row>,
    pub note: String,
}

/// A layer the study evaluated, as far as the layer list reads it: its caption, its scale, and how
/// many values it carries.
#[derive(Clone, Debug)]
pub struct StudyLayer {
    pub name: String,
    pub note: String,
    pub scale: Scale,
    pub values: usize,
}

pub fn row(label: String, value: String) -> (r: Row)
    ensures
        r.label == label,
        r.sub is None,
        r.value == value,
{
    Row { label, sub: None, value }
}

/// A row with no value is a section heading.
pub fn heading(label: String) -> (r: Row)
    ensures
        r.label == label,
        r.sub is None,
        r.value@ == Seq::<char>::empty(),
{
    Row { label, sub: None, value: String::new() }
}

/// What a layer spec reads as: name, note, scale, source.
pub open spec fn layer_view(l: LayerSpec) -> (Seq<char>, Seq<char>, bool, LayerRef) {
    (l.name@, l.note@, l.linear, l.source)
}

pub open spec fn seen_note(nodes: nat) -> Seq<char> {
    "What the probe saw of the highlighted competitor at each of "@ + crate::text::decimal(nodes)
        + " nodes, interpolated between them. Pure data: rank on the page, term weights applied, nothing modelled."@
}

/// The layers a trade brings, above the study's own: the three the sliders move, the modelled
/// coverage, and the observed one once the study has been probed.
pub open spec fn traded_layers(demand_note: Seq<char>, nodes: nat) -> Seq<(Seq<char>, Seq<char>, bool, LayerRef)> {
    let head = seq![
        (
            "Underserved demand  ★"@,
            "Demand in the cell, divided down by how much competition already reaches it. This is the layer to shop for locations on."@,
            false,
            LayerRef::Trade(TradeLayer::Unmet),
        ),
        (
            "Competitor pressure"@,
            "Σ over competitors of weight × exp(−distance/λ). High = already saturated."@,
            false,
            LayerRef::Trade(TradeLayer::Pressure),
        ),
        ("Demand"@, demand_note, false, LayerRef::Trade(TradeLayer::Demand)),
        (
            "Coverage · modelled"@,
            "The highlighted competitor's share of the cell: its strength against everything else reaching there. One global distance coefficient, so it is a circle — which is the control the observed layer is read against. Click a competitor to move the highlight."@,
            true,
            LayerRef::Trade(TradeLayer::Share),
        ),
    ];
    if nodes == 0 {
        head
    } else {
        head.push(("Coverage · observed  ★"@, seen_note(nodes), true, LayerRef::Trade(TradeLayer::Seen)))
    }
}

/// The study's own layers, in the order it declared them.
pub open spec fn study_layers(study: Seq<StudyLayer>) -> Seq<(Seq<char>, Seq<char>, bool, LayerRef)> {
    Seq::new(
        study.len(),
        |i: int| (study[i].name@, study[i].note@, study[i].scale == Scale::Linear, LayerRef::Study(i as usize)),
    )
}

/// The trade's layers first, where there is a trade, then the study's.
pub open spec fn all_layers(trade: Option<(Seq<char>, nat)>, study: Seq<StudyLayer>) -> Seq<
    (Seq<char>, Seq<char>, bool, LayerRef),
> {
    match trade {
        Some((note, nodes)) => traded_layers(note, nodes) + study_layers(study),
        None => study_layers(study),
    }
}

fn spec_of(name: &str, note: String, linear: bool, source: LayerRef) -> (l: LayerSpec)
    ensures
        layer_view(l) == (name@, note@, linear, source),
{
    LayerSpec { name: owned(name), note, linear, source }
}

/// The layer list a map opens with. `trade` is the demand expression's caption and how many nodes
/// the probe stood at, where the payload carries a trade.
pub fn layers(trade: Option<(&str, usize)>, study: &Vec<StudyLayer>) -> (out: Vec<LayerSpec>)
    ensures
        out@.map_values(|l: LayerSpec| layer_view(l)) == all_layers(
            match trade {
                Some((note, nodes)) => Some((note@, nodes as nat)),
                None => None,
            },
            study@,
        ),
{
    let mut out: Vec<LayerSpec> = Vec::new();
    let ghost want: Seq<(Seq<char>, Seq<char>, bool, LayerRef)> = match trade {
        Some((note, nodes)) => traded_layers(note@, nodes as nat),
        None => Seq::empty(),
    };
    proof {
        reveal_strlit("Underserved demand  ★");
        reveal_strlit("Competitor pressure");
        reveal_strlit("Demand");
        reveal_strlit("Coverage · modelled");
        reveal_strlit("Coverage · observed  ★");
    }
    if let Some((note, nodes)) = trade {
        out.push(
            spec_of(
                "Underserved demand  ★",
                owned(
                    "Demand in the cell, divided down by how much competition already reaches it. This is the layer to shop for locations on.",
                ),
                false,
                LayerRef::Trade(TradeLayer::Unmet),
            ),
        );
        out.push(
            spec_of(
                "Competitor pressure",
                owned("Σ over competitors of weight × exp(−distance/λ). High = already saturated."),
                false,
                LayerRef::Trade(TradeLayer::Pressure),
            ),
        );
        out.push(spec_of("Demand", owned(note), false, LayerRef::Trade(TradeLayer::Demand)));
        out.push(
            spec_of(
                "Coverage · modelled",
                owned(
                    "The highlighted competitor's share of the cell: its strength against everything else reaching there. One global distance coefficient, so it is a circle — which is the control the observed layer is read against. Click a competitor to move the highlight.",
                ),
                true,
                LayerRef::Trade(TradeLayer::Share),
            ),
        );
        if nodes > 0 {
            let mut v: Vec<char> = Vec::new();
            push_str(&mut v, "What the probe saw of the highlighted competitor at each of ");
            push_decimal(&mut v, nodes as u64);
            push_str(
                &mut v,
                " nodes, interpolated between them. Pure data: rank on the page, term weights applied, nothing modelled.",
            );
            out.push(spec_of("Coverage · observed  ★", string_of(&v), true, LayerRef::Trade(TradeLayer::Seen)));
        }
        assert(out@.map_values(|l: LayerSpec| layer_view(l)) =~= want);
    }
    let ghost base = out@.len();
    let mut i: usize = 0;
    while i < study.len()
        invariant
            i <= study@.len(),
            base == want.len(),
            out@.len() == base + i,
            out@.map_values(|l: LayerSpec| layer_view(l)) =~= want + study_layers(study@).take(i as int),
        decreases study@.len() - i,
    {
        let l = &study[i];
        let linear = match l.scale {
            Scale::Linear => true,
            Scale::Percentile => false,
        };
        let ghost before = out@;
        let item = LayerSpec { name: l.name.clone(), note: l.note.clone(), linear, source: LayerRef::Study(i) };
        assert(layer_view(item) == study_layers(study@)[i as int]);
        out.push(item);
        assert(out@ =~= before.push(item));
        assert(out@.map_values(|l: LayerSpec| layer_view(l)) =~= before.map_values(|l: LayerSpec| layer_view(l)).push(
            layer_view(item),
        ));
        i += 1;
        assert(study_layers(study@).take(i as int) =~= study_layers(study@).take(i - 1).push(
            study_layers(study@)[i - 1],
        ));
    }
    assert(study_layers(study@).take(i as int) =~= study_layers(study@));
    out
}

/// A card's title: the pin's label, where it has one, then the place of the cell it stands in.
pub fn titled(label: Option<&str>, place: &str) -> (s: String)
    ensures
        s@ == (match label {
            Some(l) => l@ + " — "@ + place@,
            None => place@,
        }),
{
    match label {
        Some(l) => {
            let mut v: Vec<char> = Vec::new();
            push_str(&mut v, l);
            push_str(&mut v, " — ");
            push_str(&mut v, place);
            string_of(&v)
        },
        None => owned(place),
    }
}

/// What a competitor brings to the payload's shape: its name and tier, how many node observations
/// it carries, and whether it has a rating.
#[derive(Clone, Debug)]
pub struct PoiShape {
    pub name: String,
    pub tier: String,
    pub seen: usize,
    pub rated: bool,
}

/// The trade half of a payload, as counts and names.
#[derive(Clone, Debug)]
pub struct TradeShape {
    pub demand: usize,
    pub nodes: usize,
    pub tiers: Vec<String>,
    pub pois: Vec<PoiShape>,
}

/// A payload as its arrays' lengths: what must agree before a single corner is projected.
#[derive(Clone, Debug)]
pub struct PayloadShape {
    pub cells: usize,
    pub ring: usize,
    pub imputed: usize,
    pub layers: Vec<StudyLayer>,
    pub trade: Option<TradeShape>,
}

/// Why a payload cannot be drawn.
#[derive(Clone, Debug)]
pub enum ShapeError {
    NoCells,
    /// Eight ring numbers per cell.
    RingCount { ring: usize, cells: usize },
    /// The imputed flags do not come one per cell.
    CellsDisagree,
    /// The layer at this position carries the wrong number of values.
    LayerCount { layer: usize, values: usize, cells: usize },
    DemandCount { demand: usize, cells: usize },
    /// The competitor at this position was not observed from every node.
    SeenCount { poi: usize, seen: usize, nodes: usize },
    /// The competitor at this position is in a tier the payload does not declare.
    UndeclaredTier { poi: usize },
    /// No competitor carries a rating, so there is nothing to shrink towards.
    NoRating,
    NoTier,
    /// The first tier is the scale everything else is read against, and nobody is in it.
    EmptyFirstTier,
}

pub open spec fn layer_short(layers: Seq<StudyLayer>, n: int) -> Seq<bool> {
    layers.map_values(|l: StudyLayer| l.values != n)
}

pub open spec fn seen_short(pois: Seq<PoiShape>, nodes: int) -> Seq<bool> {
    pois.map_values(|p: PoiShape| p.seen != nodes)
}

pub open spec fn undeclared(pois: Seq<PoiShape>, tiers: Seq<String>) -> Seq<bool> {
    pois.map_values(|p: PoiShape| index_of(tiers, p.tier@) is None)
}

pub open spec fn rated(pois: Seq<PoiShape>) -> Seq<bool> {
    pois.map_values(|p: PoiShape| p.rated)
}

pub open spec fn in_tier(pois: Seq<PoiShape>, t: Seq<char>) -> Seq<bool> {
    pois.map_values(|p: PoiShape| p.tier@ == t)
}

pub open spec fn trade_verdict(t: TradeShape, cells: usize) -> Result<Seq<int>, ShapeError> {
    let pois = t.pois@;
    if t.demand != cells {
        Err(ShapeError::DemandCount { demand: t.demand, cells })
    } else if first_true(seen_short(pois, t.nodes as int)) is Some {
        let i = first_true(seen_short(pois, t.nodes as int))->0;
        Err(ShapeError::SeenCount { poi: i as usize, seen: pois[i].seen, nodes: t.nodes })
    } else if first_true(undeclared(pois, t.tiers@)) is Some {
        Err(ShapeError::UndeclaredTier { poi: first_true(undeclared(pois, t.tiers@))->0 as usize })
    } else if first_true(rated(pois)) is None {
        Err(ShapeError::NoRating)
    } else if t.tiers@.len() == 0 {
        Err(ShapeError::NoTier)
    } else if first_true(in_tier(pois, t.tiers@[0]@)) is None {
        Err(ShapeError::EmptyFirstTier)
    } else {
        Ok(pois.map_values(|p: PoiShape| index_of(t.tiers@, p.tier@)->0))
    }
}

/// The payload's verdict, checks in order: cells, ring, imputed flags, each layer, then the trade:
/// demand, each competitor's observations, each competitor's tier, a rating somewhere, a first
/// tier with someone in it. Accepted, it is each competitor's tier position.
pub open spec fn shape_verdict(s: PayloadShape) -> Result<Seq<int>, ShapeError> {
    let n = s.cells as int;
    if n == 0 {
        Err(ShapeError::NoCells)
    } else if s.ring != n * 8 {
        Err(ShapeError::RingCount { ring: s.ring, cells: s.cells })
    } else if s.imputed != n {
        Err(ShapeError::CellsDisagree)
    } else if first_true(layer_short(s.layers@, n)) is Some {
        let i = first_true(layer_short(s.layers@, n))->0;
        Err(ShapeError::LayerCount { layer: i as usize, values: s.layers@[i].values, cells: s.cells })
    } else {
        match s.trade {
            None => Ok(Seq::empty()),
            Some(t) => trade_verdict(t, s.cells),
        }
    }
}

fn check_trade(t: &TradeShape, cells: usize) -> (r: Result<Vec<usize>, ShapeError>)
    ensures
        trade_verdict(*t, cells) == (match r {
            Ok(v) => Ok(v@.map_values(|x: usize| x as int)),
            Err(e) => Err(e),
        }),
{
    let pois = &t.pois;
    if t.demand != cells {
        return Err(ShapeError::DemandCount { demand: t.demand, cells });
    }
    let ghost b = seen_short(pois@, t.nodes as int);
    let mut i: usize = 0;
    assert(b.take(0) =~= Seq::<bool>::empty());
    while i < pois.len()
        invariant
            i <= pois@.len(),
            b == seen_short(pois@, t.nodes as int),
            first_true(b.take(i as int)) is None,
            *pois == t.pois,
            t.demand == cells,
        decreases pois@.len() - i,
    {
        proof {
            lemma_first_true_step(b, i as int);
            assert(b[i as int] == (pois@[i as int].seen != t.nodes));
        }
        if pois[i].seen != t.nodes {
            return Err(ShapeError::SeenCount { poi: i, seen: pois[i].seen, nodes: t.nodes });
        }
        i += 1;
    }
    proof {
        lemma_first_true_whole(b);
    }
    let ghost u = undeclared(pois@, t.tiers@);
    let mut at: Vec<usize> = Vec::new();
    let mut i: usize = 0;
    assert(u.take(0) =~= Seq::<bool>::empty());
    while i < pois.len()
        invariant
            i <= pois@.len(),
            u == undeclared(pois@, t.tiers@),
            t.demand == cells,
            first_true(seen_short(pois@, t.nodes as int)) is None,
            first_true(u.take(i as int)) is None,
            at@.len() == i,
            forall|k: int|
                0 <= k < i ==> index_of(t.tiers@, #[trigger] pois@[k].tier@) == Some(at@[k] as int),
            *pois == t.pois,
        decreases pois@.len() - i,
    {
        proof {
            lemma_first_true_step(u, i as int);
            assert(u[i as int] == (index_of(t.tiers@, pois@[i as int].tier@) is None));
        }
        match position(&t.tiers, pois[i].tier.as_str()) {
            Some(j) => {
                proof {
                    lemma_index_of_bounds(t.tiers@, pois@[i as int].tier@);
                }
                let ghost before = at@;
                at.push(j);
                assert forall|k: int| 0 <= k < i + 1 implies index_of(t.tiers@, #[trigger] pois@[k].tier@) == Some(
                    at@[k] as int,
                ) by {
                    if k < i {
                        assert(at@[k] == before[k]);
                    } else {
                        assert(at@[k] == j);
                        assert(index_of(t.tiers@, pois@[i as int].tier@) == Some(j as int));
                    }
                }
            },
            None => {
                return Err(ShapeError::UndeclaredTier { poi: i });
            },
        }
        i += 1;
    }
    proof {
        lemma_first_true_whole(u);
    }
    let ghost q = rated(pois@);
    let mut any = false;
    let mut i: usize = 0;
    assert(q.take(0) =~= Seq::<bool>::empty());
    while i < pois.len()
        invariant
            i <= pois@.len(),
            q == rated(pois@),
            *pois == t.pois,
            t.demand == cells,
            first_true(seen_short(pois@, t.nodes as int)) is None,
            first_true(undeclared(pois@, t.tiers@)) is None,
            at@.len() == pois@.len(),
            forall|k: int|
                0 <= k < pois@.len() ==> index_of(t.tiers@, #[trigger] pois@[k].tier@) == Some(at@[k] as int),
            !any ==> first_true(q.take(i as int)) is None,
            any ==> first_true(q) is Some,
        decreases pois@.len() - i,
    {
        if !any {
            proof {
                lemma_first_true_step(q, i as int);
            }
            assert(q[i as int] == pois@[i as int].rated);
            if pois[i].rated {
                any = true;
            }
        }
        i += 1;
    }
    proof {
        lemma_first_true_whole(q);
    }
    if !any {
        return Err(ShapeError::NoRating);
    }
    if t.tiers.len() == 0 {
        return Err(ShapeError::NoTier);
    }
    let first = &t.tiers[0];
    let ghost f = in_tier(pois@, first@);
    let mut some = false;
    let mut i: usize = 0;
    assert(f.take(0) =~= Seq::<bool>::empty());
    while i < pois.len()
        invariant
            i <= pois@.len(),
            t.tiers@.len() > 0,
            first == t.tiers@[0],
            *pois == t.pois,
            f == in_tier(pois@, first@),
            t.demand == cells,
            first_true(seen_short(pois@, t.nodes as int)) is None,
            first_true(undeclared(pois@, t.tiers@)) is None,
            first_true(rated(pois@)) is Some,
            at@.len() == pois@.len(),
            forall|k: int|
                0 <= k < pois@.len() ==> index_of(t.tiers@, #[trigger] pois@[k].tier@) == Some(at@[k] as int),
            !some ==> first_true(f.take(i as int)) is None,
            some ==> first_true(f) is Some,
        decreases pois@.len() - i,
    {
        if !some {
            proof {
                lemma_first_true_step(f, i as int);
            }
            assert(f[i as int] == (pois@[i as int].tier@ == first@));
            if pois[i].tier == *first {
                some = true;
            }
        }
        i += 1;
    }
    proof {
        lemma_first_true_whole(f);
    }
    if !some {
        return Err(ShapeError::EmptyFirstTier);
    }
    assert(at@.map_values(|x: usize| x as int) =~= pois@.map_values(
        |p: PoiShape| index_of(t.tiers@, p.tier@)->0,
    ));
    Ok(at)
}

/// Whether a payload can be drawn, before anything is projected: every array agrees on the cell
/// count, every competitor was observed from every node and sits in a declared tier, someone is
/// rated, and the first tier is populated. Accepted, it is each competitor's tier position.
pub fn check_shape(s: &PayloadShape) -> (r: Result<Vec<usize>, ShapeError>)
    ensures
        shape_verdict(*s) == (match r {
            Ok(v) => Ok(v@.map_values(|x: usize| x as int)),
            Err(e) => Err(e),
        }),
{
    let n = s.cells;
    if n == 0 {
        return Err(ShapeError::NoCells);
    }
    if n > usize::MAX / 8 || s.ring != n * 8 {
        return Err(ShapeError::RingCount { ring: s.ring, cells: n });
    }
    if s.imputed != n {
        return Err(ShapeError::CellsDisagree);
    }
    let layers = &s.layers;
    let ghost b = layer_short(layers@, n as int);
    let mut i: usize = 0;
    assert(b.take(0) =~= Seq::<bool>::empty());
    while i < layers.len()
        invariant
            i <= layers@.len(),
            b == layer_short(layers@, n as int),
            first_true(b.take(i as int)) is None,
            *layers == s.layers,
            n == s.cells,
            n != 0,
            s.ring == n * 8,
            s.imputed == n,
        decreases layers@.len() - i,
    {
        proof {
            lemma_first_true_step(b, i as int);
            assert(b[i as int] == (layers@[i as int].values != n));
        }
        if layers[i].values != n {
            return Err(ShapeError::LayerCount { layer: i, values: layers[i].values, cells: n });
        }
        i += 1;
    }
    proof {
        lemma_first_true_whole(b);
    }
    match &s.trade {
        None => {
            let v: Vec<usize> = Vec::new();
            assert(v@.map_values(|x: usize| x as int) =~= Seq::<int>::empty());
            Ok(v)
        },
        Some(t) => check_trade(t, n),
    }
}

/// A payload that is accepted places every competitor in a tier it declares: the position is one of
/// the declared tiers, and that tier carries the competitor's tier name.
pub proof fn accepted_competitors_are_in_declared_tiers(s: PayloadShape)
    requires
        shape_verdict(s) is Ok,
        s.trade is Some,
    ensures
        ({
            let t = s.trade->0;
            let at = shape_verdict(s)->Ok_0;
            &&& at.len() == t.pois@.len()
            &&& forall|k: int|
                0 <= k < at.len() ==> 0 <= #[trigger] at[k] < t.tiers@.len() && t.tiers@[at[k]]@ == t.pois@[k].tier@
        }),
{
    let t = s.trade->0;
    let at = shape_verdict(s)->Ok_0;
    assert forall|k: int| 0 <= k < at.len() implies 0 <= #[trigger] at[k] < t.tiers@.len() && t.tiers@[at[k]]@
        == t.pois@[k].tier@ by {
        let name = t.pois@[k].tier@;
        assert(crate::find::first_true(undeclared(t.pois@, t.tiers@)) is None);
        crate::find::lemma_first_true_found(crate::find::hits(t.tiers@, name));
        if index_of(t.tiers@, name) is None {
            assert(undeclared(t.pois@, t.tiers@)[k]);
            lemma_none_is_none(undeclared(t.pois@, t.tiers@), k);
        }
    }
}

proof fn lemma_none_is_none(b: Seq<bool>, k: int)
    requires
        0 <= k < b.len(),
        b[k],
    ensures
        first_true(b) is Some,
    decreases b.len(),
{
    if k < b.len() - 1 {
        lemma_none_is_none(b.drop_last(), k);
    }
}

/// A location opened without a trade is the grid and nothing a trade decides: every layer it offers
/// is one of the study's own, in the study's order.
pub proof fn a_location_alone_shows_only_its_grid(study: Seq<StudyLayer>)
    ensures
        all_layers(None, study).len() == study.len(),
        forall|i: int| 0 <= i < study.len() ==> (#[trigger] all_layers(None, study)[i]).3 == LayerRef::Study(i as usize),
{
}

/// With a trade, its layers come first and the study's follow unchanged: the trade adds, it never
/// reorders or drops what the grid shows.
pub proof fn a_trade_only_adds_layers(note: Seq<char>, nodes: nat, study: Seq<StudyLayer>)
    ensures
        all_layers(Some((note, nodes)), study).len() == traded_layers(note, nodes).len() + study.len(),
        forall|i: int|
            0 <= i < study.len() ==> #[trigger] all_layers(Some((note, nodes)), study)[traded_layers(note, nodes).len() + i]
                == all_layers(None, study)[i],
        forall|i: int|
            0 <= i < traded_layers(note, nodes).len() ==> (#[trigger] all_layers(Some((note, nodes)), study)[i]).3 is Trade,
{
}

/// The name a layer must carry for what it paints: each trade quantity its own caption, a study
/// layer the study's own name and note.
pub open spec fn named_for_its_source(l: (Seq<char>, Seq<char>, bool, LayerRef), demand_note: Seq<char>, study: Seq<StudyLayer>) -> bool {
    match l.3 {
        LayerRef::Trade(TradeLayer::Unmet) => l.0 == "Underserved demand  ★"@ && !l.2,
        LayerRef::Trade(TradeLayer::Pressure) => l.0 == "Competitor pressure"@ && !l.2,
        LayerRef::Trade(TradeLayer::Demand) => l.0 == "Demand"@ && l.1 == demand_note && !l.2,
        LayerRef::Trade(TradeLayer::Share) => l.0 == "Coverage · modelled"@ && l.2,
        LayerRef::Trade(TradeLayer::Seen) => l.0 == "Coverage · observed  ★"@ && l.2,
        LayerRef::Study(i) => i < study.len() && l.0 == study[i as int].name@ && l.1 == study[i as int].note@
            && l.2 == (study[i as int].scale == Scale::Linear),
    }
}

/// Every layer on the map paints what its name says: the starred underserved-demand layer paints
/// unmet demand, "Competitor pressure" paints pressure, "Demand" paints the demand surface under
/// the study's own expression, the coverage layers paint the modelled share and the observed
/// reach; a study layer paints the study's values under the study's name. With a trade the map
/// opens on unmet demand, and the observed coverage is offered exactly when the study was probed.
pub proof fn each_layer_paints_what_it_names(trade: Option<(Seq<char>, nat)>, study: Seq<StudyLayer>)
    requires
        study.len() <= usize::MAX,
    ensures
        forall|k: int|
            0 <= k < all_layers(trade, study).len() ==> named_for_its_source(
                #[trigger] all_layers(trade, study)[k],
                match trade {
                    Some((note, _)) => note,
                    None => Seq::empty(),
                },
                study,
            ),
        trade is Some ==> all_layers(trade, study)[0].3 == LayerRef::Trade(TradeLayer::Unmet),
        trade matches Some((_, nodes)) ==> (nodes > 0 <==> exists|k: int|
            0 <= k < all_layers(trade, study).len() && #[trigger] all_layers(trade, study)[k].3
                == LayerRef::Trade(TradeLayer::Seen)),
{
    let l = all_layers(trade, study);
    match trade {
        Some((note, nodes)) => {
            let t = traded_layers(note, nodes);
            let s = study_layers(study);
            assert forall|k: int| 0 <= k < l.len() implies named_for_its_source(#[trigger] l[k], note, study) by {
                if k >= t.len() {
                    let j = k - t.len();
                    assert(l[k] == s[j]);
                    assert(s[j].3 == LayerRef::Study(j as usize));
                    assert((j as usize) as int == j);
                } else {
                    assert(l[k] == t[k]);
                    if k == 0 {
                        assert(t[0].3 == LayerRef::Trade(TradeLayer::Unmet));
                    } else if k == 1 {
                        assert(t[1].3 == LayerRef::Trade(TradeLayer::Pressure));
                    } else if k == 2 {
                        assert(t[2].3 == LayerRef::Trade(TradeLayer::Demand));
                    } else if k == 3 {
                        assert(t[3].3 == LayerRef::Trade(TradeLayer::Share));
                    } else {
                        assert(t[4].3 == LayerRef::Trade(TradeLayer::Seen));
                    }
                }
            }
            if nodes > 0 {
                assert(l[4].3 == LayerRef::Trade(TradeLayer::Seen));
            } else {
                assert forall|k: int| 0 <= k < l.len() implies l[k].3 != LayerRef::Trade(TradeLayer::Seen) by {
                    if k >= t.len() {
                        assert(l[k] == s[k - t.len()]);
                    } else {
                        assert(l[k] == t[k]);
                    }
                }
            }
        },
        None => {
            assert forall|k: int| 0 <= k < l.len() implies named_for_its_source(#[trigger] l[k], Seq::empty(), study) by {
                assert(l[k].3 == LayerRef::Study(k as usize));
                assert((k as usize) as int == k);
            }
        },
    }
}

} // verus!
