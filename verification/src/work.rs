//! The work dir's bookkeeping: what an answer is about, how old the answers a run served are, and
//! the daily search quota a sweep must fit in before it spends anything.
//!
//! Nothing here expires. An answer past the age its kind allows is still served and its age is
//! reported; what the ledger buys is a refusal before a sweep starts rather than a third of the
//! way through it.
use sha2::Digest;
use vstd::prelude::*;

use crate::order::{is_desc_order, lemma_desc_order_first_is_max, order_desc};
use crate::text::{decimal, padded, push_decimal, push_padded, push_str, string_of};

verus! {

/// What an answer is about, which is what says how old it may get before the map says so.
#[derive(Clone, Copy, Debug, PartialEq, Eq, Structural)]
pub enum Kind {
    /// Shop names, ratings, addresses. Shops open and close.
    Inventory,
    /// Who ranks where from each stratum.
    Ranking,
    /// The commune list. Drifts only on mergers.
    Communes,
}

/// How many searches something is about to need. A sweep cannot say exactly — a tile at the result
/// cap opens four more — and a lower bound announced as an exact number is a lie the refusal would
/// be built on.
#[derive(Clone, Copy, Debug, PartialEq, Eq, Structural)]
pub enum Need {
    Exact(usize),
    AtLeast(usize),
}

impl Need {
    pub open spec fn spec_count(self) -> nat {
        match self {
            Need::Exact(n) | Need::AtLeast(n) => n as nat,
        }
    }

    pub fn count(self) -> (n: usize)
        ensures
            n == self.spec_count(),
    {
        match self {
            Need::Exact(n) | Need::AtLeast(n) => n,
        }
    }

    /// `{need}` as the refusal writes it: the number, or `at least` and the number.
    pub open spec fn spec_text(self) -> Seq<char> {
        match self {
            Need::Exact(n) => decimal(n as nat),
            Need::AtLeast(n) => at_least() + decimal(n as nat),
        }
    }

    pub fn text(self) -> (s: String)
        ensures
            s@ == self.spec_text(),
    {
        let mut v: Vec<char> = Vec::new();
        match self {
            Need::Exact(n) => push_decimal(&mut v, n as u64),
            Need::AtLeast(n) => {
                push_str(&mut v, "at least ");
                proof {
                    reveal_strlit("at least ");
                }
                push_decimal(&mut v, n as u64);
            },
        }
        assert(v@ =~= self.spec_text());
        string_of(&v)
    }
}

pub open spec fn at_least() -> Seq<char> {
    "at least "@
}

/// Oldest and median age of the answers one run served for a kind, in nanoseconds.
#[derive(Clone, Copy, Debug, PartialEq, Eq, Structural)]
pub struct Aged {
    pub oldest: u128,
    pub median: u128,
    /// The oldest is past what the config allows. Reported, never acted on.
    pub stale: bool,
}

/// How old an answer of each kind may get before it is reported as old, in nanoseconds.
#[derive(Clone, Copy, Debug, PartialEq, Eq, Structural)]
pub struct Age {
    pub inventory: u128,
    pub ordering: u128,
    pub communes: u128,
}

pub const DAY: u64 = 86_400;

/// Seconds past midnight UTC at which the daily search quota resets — midnight US/Pacific.
/// Corrected from any refusal, which carries the window's own start.
pub const WINDOW_PHASE: u64 = 25_200;

/// Nanoseconds in a second.
pub const NANOS: u128 = 1_000_000_000;

impl Age {
    /// A week for the inventory, a year for orderings and for the commune list.
    pub fn standard() -> (a: Age)
        ensures
            a.inventory == 7 * 86_400 * NANOS,
            a.ordering == 365 * 86_400 * NANOS,
            a.communes == 365 * 86_400 * NANOS,
    {
        Age { inventory: 7 * 86_400 * NANOS, ordering: 365 * 86_400 * NANOS, communes: 365 * 86_400 * NANOS }
    }

    pub open spec fn spec_of(self, kind: Kind) -> u128 {
        match kind {
            Kind::Inventory => self.inventory,
            Kind::Ranking => self.ordering,
            Kind::Communes => self.communes,
        }
    }

    pub fn of(&self, kind: Kind) -> (d: u128)
        ensures
            d == self.spec_of(kind),
    {
        match kind {
            Kind::Inventory => self.inventory,
            Kind::Ranking => self.ordering,
            Kind::Communes => self.communes,
        }
    }
}

/// The quota window the ledger believes in: when it started, in Unix seconds, and how many billed
/// searches it has counted since.
#[derive(Clone, Copy, Debug, PartialEq, Eq, Structural)]
pub struct Ledger {
    pub window_start: u64,
    pub spent: u32,
}

impl Ledger {
    /// No ledger on disk: the window that holds `now`, at the standard phase, with nothing spent.
    pub fn fresh(now: u64) -> (l: Ledger)
        requires
            now >= WINDOW_PHASE,
        ensures
            l.window_start == now - (now - WINDOW_PHASE) % (DAY as int),
            l.spent == 0,
    {
        Ledger { window_start: now - (now - WINDOW_PHASE) % DAY, spent: 0 }
    }

    /// Rolled forward to `now` by whole days, so the boundary keeps the phase a refusal taught it.
    pub open spec fn spec_rolled(self, now: u64) -> Ledger {
        let elapsed = if now >= self.window_start { now - self.window_start } else { 0 };
        if elapsed >= DAY {
            Ledger { window_start: (self.window_start + elapsed / (DAY as int) * (DAY as int)) as u64, spent: 0 }
        } else {
            self
        }
    }

    pub fn rolled(self, now: u64) -> (l: Ledger)
        ensures
            l == self.spec_rolled(now),
    {
        let elapsed = now.saturating_sub(self.window_start);
        if elapsed >= DAY {
            assert(elapsed / DAY * DAY <= elapsed) by (nonlinear_arith)
                requires elapsed >= 0;
            Ledger { window_start: self.window_start + elapsed / DAY * DAY, spent: 0 }
        } else {
            self
        }
    }

    /// One more billed search.
    pub fn spend(self) -> (l: Ledger)
        requires
            self.spent < u32::MAX,
        ensures
            l.window_start == self.window_start,
            l.spent == self.spent + 1,
    {
        Ledger { window_start: self.window_start, spent: self.spent + 1 }
    }

    /// A refusal that names the daily quota says what the ledger was guessing at: the window's
    /// start, where it gave one, and that the window is spent.
    pub open spec fn spec_exhausted(self, window_start: Option<u64>, per_day: u32) -> Ledger {
        Ledger {
            window_start: match window_start {
                Some(w) => w,
                None => self.window_start,
            },
            spent: per_day,
        }
    }

    pub fn exhausted(self, window_start: Option<u64>, per_day: u32) -> (l: Ledger)
        ensures
            l == self.spec_exhausted(window_start, per_day),
    {
        let start = match window_start {
            Some(w) => w,
            None => self.window_start,
        };
        Ledger { window_start: start, spent: per_day }
    }

    /// What the window has left of a daily quota of `per_day`.
    pub open spec fn spec_left(self, per_day: u32) -> int {
        if self.spent <= per_day {
            per_day - self.spent
        } else {
            0
        }
    }

    pub open spec fn fits(self, per_day: u32, need: Need) -> bool {
        need.spec_count() <= self.spec_left(per_day)
    }

    /// Whether `need` more searches fit in what the window has left, judged before anything spends.
    pub fn preflight(self, per_day: u32, need: Need) -> (r: Result<(), Refusal>)
        requires
            self.window_start <= u64::MAX - DAY,
        ensures
            ({
                let left = self.spec_left(per_day);
                let reset = self.window_start + DAY;
                if self.fits(per_day, need) {
                    r is Ok
                } else {
                    r == Err::<(), Refusal>(Refusal {
                        need,
                        left: left as u32,
                        per_day,
                        reset_hour: (reset % (DAY as int) / 3600) as u64,
                        reset_minute: (reset % 3600 / 60) as u64,
                    })
                }
            }),
    {
        let left = per_day.saturating_sub(self.spent);
        if need.count() as u64 <= left as u64 {
            return Ok(());
        }
        let reset = self.window_start + DAY;
        Err(Refusal { need, left, per_day, reset_hour: reset % DAY / 3600, reset_minute: reset % 3600 / 60 })
    }
}

/// Rolling a ledger forward moves its window by whole days only, so the hour the window turns over
/// at, which a refusal may have taught it, survives every roll; and a roll past a day starts the
/// window that holds `now` with nothing spent.
pub proof fn rolling_keeps_the_phase(l: Ledger, now: u64)
    ensures
        l.spec_rolled(now).window_start % DAY == l.window_start % DAY,
        now >= l.window_start + DAY ==> {
            &&& l.spec_rolled(now).spent == 0
            &&& l.spec_rolled(now).window_start <= now < l.spec_rolled(now).window_start + DAY
        },
        now < l.window_start + DAY ==> l.spec_rolled(now) == l,
{
    let elapsed: int = if now >= l.window_start { now - l.window_start } else { 0 };
    if elapsed >= DAY {
        let q = elapsed / (DAY as int);
        assert(q * (DAY as int) <= elapsed < q * (DAY as int) + DAY) by (nonlinear_arith)
            requires q == elapsed / (DAY as int), elapsed >= 0;
        assert((l.window_start as int + q * (DAY as int)) % (DAY as int) == (l.window_start as int) % (DAY as int)) by (nonlinear_arith)
            requires q >= 0;
    }
}

/// Once a refusal has named the window spent, nothing that needs a search fits in it until it turns
/// over.
pub proof fn a_spent_window_fits_nothing(l: Ledger, window_start: Option<u64>, per_day: u32, need: Need)
    requires
        need.spec_count() > 0,
    ensures
        !l.spec_exhausted(window_start, per_day).fits(per_day, need),
{
}

/// Why a sweep may not start: what it needs, and what the window has left until it resets.
#[derive(Clone, Copy, Debug, PartialEq, Eq, Structural)]
pub struct Refusal {
    pub need: Need,
    pub left: u32,
    pub per_day: u32,
    /// UTC, when the window resets.
    pub reset_hour: u64,
    pub reset_minute: u64,
}

pub open spec fn refusal_text(what: Seq<char>, r: Refusal) -> Seq<char> {
    "refusing to start: "@ + what + " needs "@ + r.need.spec_text() + " more searches,\nand "@
        + decimal(r.left as nat) + " of today's "@ + decimal(r.per_day as nat) + " remain (window resets "@
        + padded(r.reset_hour as nat, 2) + ":"@ + padded(r.reset_minute as nat, 2)
        + " UTC).\nraise SearchTextRequestPerDayPerProject, or rerun after the reset —\nnothing already answered is re-asked."@
}

impl Refusal {
    /// The message the refusal is reported with. It names the shortfall rather than the call that
    /// would have failed.
    pub fn message(&self, what: &str) -> (s: String)
        ensures
            s@ == refusal_text(what@, *self),
    {
        let mut v: Vec<char> = Vec::new();
        push_str(&mut v, "refusing to start: ");
        push_str(&mut v, what);
        push_str(&mut v, " needs ");
        let need = self.need.text();
        push_str(&mut v, need.as_str());
        push_str(&mut v, " more searches,\nand ");
        push_decimal(&mut v, self.left as u64);
        push_str(&mut v, " of today's ");
        push_decimal(&mut v, self.per_day as u64);
        push_str(&mut v, " remain (window resets ");
        push_padded(&mut v, self.reset_hour, 2);
        push_str(&mut v, ":");
        push_padded(&mut v, self.reset_minute, 2);
        push_str(
            &mut v,
            " UTC).\nraise SearchTextRequestPerDayPerProject, or rerun after the reset —\nnothing already answered is re-asked.",
        );
        assert(v@ =~= refusal_text(what@, *self));
        string_of(&v)
    }
}

/// The ages, oldest last in the order served, of every answer of `kind`.
pub open spec fn ages_of(log: Seq<(Kind, u128)>, kind: Kind) -> Seq<u128>
    decreases log.len(),
{
    if log.len() == 0 {
        Seq::empty()
    } else if log.last().0 == kind {
        ages_of(log.drop_last(), kind).push(log.last().1)
    } else {
        ages_of(log.drop_last(), kind)
    }
}

/// The log with every answer of `kind` taken out.
pub open spec fn without(log: Seq<(Kind, u128)>, kind: Kind) -> Seq<(Kind, u128)>
    decreases log.len(),
{
    if log.len() == 0 {
        Seq::empty()
    } else if log.last().0 == kind {
        without(log.drop_last(), kind)
    } else {
        without(log.drop_last(), kind).push(log.last())
    }
}

/// The age of every cached answer one run served, by kind, in the order they were served.
pub struct Served {
    log: Vec<(Kind, u128)>,
}

impl View for Served {
    type V = Seq<(Kind, u128)>;

    closed spec fn view(&self) -> Seq<(Kind, u128)> {
        self.log@
    }
}

/// What a run served of one kind, summarised against the age that kind may reach.
pub open spec fn summarises(seen: Seq<u128>, limit: u128, a: Option<Aged>) -> bool {
    if seen.len() == 0 {
        a is None
    } else {
        a matches Some(x) && exists|order: Seq<usize>| {
            &&& #[trigger] is_desc_order(seen, order)
            &&& x.oldest == seen[order[0] as int]
            &&& x.median == seen[order[seen.len() - 1 - seen.len() / 2] as int]
            &&& x.stale == (x.oldest > limit)
        }
    }
}

/// The ages of a kind are exactly the ages logged for answers of that kind.
proof fn lemma_ages_of(log: Seq<(Kind, u128)>, kind: Kind)
    ensures
        forall|j: int| 0 <= j < log.len() && log[j].0 == kind ==> ages_of(log, kind).contains(#[trigger] log[j].1),
        forall|k: int|
            0 <= k < ages_of(log, kind).len() ==> exists|j: int|
                0 <= j < log.len() && log[j].0 == kind && log[j].1 == #[trigger] ages_of(log, kind)[k],
        ages_of(log, kind).len() == 0 <==> forall|j: int| 0 <= j < log.len() ==> log[j].0 != kind,
    decreases log.len(),
{
    if log.len() > 0 {
        let d = log.drop_last();
        lemma_ages_of(d, kind);
        let a = ages_of(log, kind);
        let b = ages_of(d, kind);
        assert forall|j: int| 0 <= j < log.len() && log[j].0 == kind implies a.contains(#[trigger] log[j].1) by {
            if j < d.len() {
                assert(d[j] == log[j]);
                assert(b.contains(d[j].1));
                let m = choose|m: int| 0 <= m < b.len() && b[m] == d[j].1;
                if log.last().0 == kind {
                    assert(a[m] == b[m]);
                }
            } else {
                assert(a[b.len() as int] == log[j].1);
            }
        }
        assert forall|k: int| 0 <= k < a.len() implies exists|j: int|
            0 <= j < log.len() && log[j].0 == kind && log[j].1 == #[trigger] a[k] by {
            if k < b.len() {
                assert(a[k] == b[k]);
                let j = choose|j: int| 0 <= j < d.len() && d[j].0 == kind && d[j].1 == b[k];
                assert(log[j] == d[j]);
            } else {
                assert(log[log.len() - 1].1 == a[k]);
            }
        }
        if a.len() == 0 {
            assert forall|j: int| 0 <= j < log.len() implies log[j].0 != kind by {
                if j < d.len() {
                    assert(d[j] == log[j]);
                }
            }
        } else {
            if b.len() == 0 {
                assert(log[log.len() - 1].0 == kind);
            } else {
                let j = choose|j: int| 0 <= j < d.len() && d[j].0 == kind && d[j].1 == b[0];
                assert(log[j] == d[j]);
            }
        }
    }
}

/// An answer is held to the age limit of its own kind: the inventory to the inventory's, orderings
/// to the orderings', the commune list to its own. What is reported is the oldest answer served of
/// that kind, stale exactly when that one is past the limit; with the standard limits an inventory
/// answer more than a week old makes the inventory stale. Nothing is reported of a kind the run did
/// not serve.
pub proof fn each_kind_is_held_to_its_own_age(log: Seq<(Kind, u128)>, kind: Kind, limits: Age, a: Option<Aged>)
    requires
        summarises(ages_of(log, kind), limits.spec_of(kind), a),
    ensures
        a is None <==> forall|j: int| 0 <= j < log.len() ==> log[j].0 != kind,
        a matches Some(x) ==> exists|j: int| 0 <= j < log.len() && log[j].0 == kind && log[j].1 == x.oldest,
        a matches Some(x) ==> forall|j: int| 0 <= j < log.len() && log[j].0 == kind ==> #[trigger] log[j].1 <= x.oldest,
        a matches Some(x) ==> x.stale == (x.oldest > match kind {
            Kind::Inventory => limits.inventory,
            Kind::Ranking => limits.ordering,
            Kind::Communes => limits.communes,
        }),
{
    lemma_ages_of(log, kind);
    let seen = ages_of(log, kind);
    if let Some(x) = a {
        let order = choose|order: Seq<usize>| {
            &&& #[trigger] is_desc_order(seen, order)
            &&& x.oldest == seen[order[0] as int]
            &&& x.median == seen[order[seen.len() - 1 - seen.len() / 2] as int]
            &&& x.stale == (x.oldest > limits.spec_of(kind))
        };
        assert(order[0] < seen.len());
        assert(seen[order[0] as int] == x.oldest);
        assert forall|j: int| 0 <= j < log.len() && log[j].0 == kind implies #[trigger] log[j].1 <= x.oldest by {
            assert(seen.contains(log[j].1));
            let k = choose|k: int| 0 <= k < seen.len() && seen[k] == log[j].1;
            lemma_desc_order_first_is_max(seen, order, k);
        }
    }
}

impl Served {
    pub fn new() -> (s: Served)
        ensures
            s@ == Seq::<(Kind, u128)>::empty(),
    {
        Served { log: Vec::new() }
    }

    /// An answer of `kind` was served, and it was `age` nanoseconds old.
    pub fn record(&mut self, kind: Kind, age: u128)
        ensures
            final(self)@ == old(self)@.push((kind, age)),
    {
        self.log.push((kind, age));
    }

    /// Drop what has been recorded for `kind`: a walk that read the cache to price a purchase served
    /// nothing the map is painted from.
    pub fn forget(&mut self, kind: Kind)
        ensures
            final(self)@ == without(old(self)@, kind),
    {
        let mut kept: Vec<(Kind, u128)> = Vec::new();
        let mut i: usize = 0;
        while i < self.log.len()
            invariant
                0 <= i <= self.log@.len(),
                kept@ == without(self.log@.take(i as int), kind),
            decreases self.log@.len() - i,
        {
            assert(self.log@.take(i + 1).drop_last() =~= self.log@.take(i as int));
            if self.log[i].0 != kind {
                kept.push(self.log[i]);
            }
            i += 1;
        }
        assert(self.log@.take(i as int) =~= self.log@);
        self.log = kept;
    }

    /// The ages served for `kind`, in the order served.
    pub fn ages(&self, kind: Kind) -> (v: Vec<u128>)
        ensures
            v@ == ages_of(self@, kind),
    {
        let mut v: Vec<u128> = Vec::new();
        let mut i: usize = 0;
        while i < self.log.len()
            invariant
                0 <= i <= self.log@.len(),
                v@ == ages_of(self.log@.take(i as int), kind),
            decreases self.log@.len() - i,
        {
            assert(self.log@.take(i + 1).drop_last() =~= self.log@.take(i as int));
            if self.log[i].0 == kind {
                v.push(self.log[i].1);
            }
            i += 1;
        }
        assert(self.log@.take(i as int) =~= self.log@);
        v
    }

    /// Answers served for `kind`, paid or not.
    pub fn calls(&self, kind: Kind) -> (n: usize)
        ensures
            n == ages_of(self@, kind).len(),
    {
        self.ages(kind).len()
    }

    /// Oldest and median age of what was served for `kind`, and whether the oldest is past its
    /// age. `None` when this run served nothing of that kind.
    pub fn age(&self, kind: Kind, limits: &Age) -> (a: Option<Aged>)
        ensures
            summarises(ages_of(self@, kind), limits.spec_of(kind), a),
    {
        let seen = self.ages(kind);
        if seen.len() == 0 {
            return None;
        }
        let order = order_desc(&seen);
        let n = seen.len();
        let oldest = seen[order[0]];
        let median = seen[order[n - 1 - n / 2]];
        let limit = limits.of(kind);
        let a = Aged { oldest, median, stale: oldest > limit };
        assert(is_desc_order(seen@, order@));
        Some(a)
    }
}

/// What SHA-256 makes of `data`.
pub uninterp spec fn sha256(data: Seq<u8>) -> Seq<u8>;

/// `sha2::Sha256::digest`: the 32-byte SHA-256 of `data`.
#[verifier::external_body]
fn sha256_digest(data: &[u8]) -> (r: Vec<u8>)
    ensures
        r@ == sha256(data@),
        r@.len() == 32,
{
    sha2::Sha256::digest(data).to_vec()
}

pub open spec fn hex_digit(d: u8) -> char {
    if d < 10 {
        ((d + 48) as u8) as char
    } else {
        ((d + 87) as u8) as char
    }
}

/// Two lowercase hex digits per byte, as `{:02x}` writes each.
pub open spec fn hex_of(bytes: Seq<u8>) -> Seq<char>
    decreases bytes.len(),
{
    if bytes.len() == 0 {
        Seq::empty()
    } else {
        hex_of(bytes.drop_last()) + seq![hex_digit(bytes.last() / 16), hex_digit(bytes.last() % 16)]
    }
}

pub fn hex(bytes: &[u8]) -> (s: String)
    ensures
        s@ == hex_of(bytes@),
{
    let mut v: Vec<char> = Vec::new();
    let mut i: usize = 0;
    while i < bytes.len()
        invariant
            0 <= i <= bytes@.len(),
            v@ == hex_of(bytes@.take(i as int)),
        decreases bytes@.len() - i,
    {
        let b = bytes[i];
        let hi = b / 16;
        let lo = b % 16;
        v.push(if hi < 10 { (hi + 48) as char } else { (hi + 87) as char });
        v.push(if lo < 10 { (lo + 48) as char } else { (lo + 87) as char });
        assert(bytes@.take(i + 1).drop_last() =~= bytes@.take(i as int));
        assert(v@ =~= hex_of(bytes@.take(i + 1)));
        i += 1;
    }
    assert(bytes@.take(i as int) =~= bytes@);
    string_of(&v)
}

/// The name a cached answer is kept under: the request itself, hashed, so editing a query refetches
/// and rerunning does not.
pub open spec fn spec_cache_key(url: Seq<char>, canonical: Seq<char>) -> Seq<char> {
    hex_of(sha256(vstd::utf8::encode_utf8(url + seq!['\n'] + canonical)))
}

pub fn cache_key(url: &str, canonical: &str) -> (k: String)
    ensures
        k@ == spec_cache_key(url@, canonical@),
{
    let mut v: Vec<char> = Vec::new();
    push_str(&mut v, url);
    v.push('\n');
    push_str(&mut v, canonical);
    let request = string_of(&v);
    assert(request@ =~= url@ + seq!['\n'] + canonical@);
    let digest = sha256_digest(request.as_str().as_bytes());
    hex(digest.as_slice())
}

/// The last `/`-separated segment of a URL: the name a bulk archive is kept under, so the file on
/// disk says what it is. `None` where the URL ends in `/`.
pub open spec fn last_segment(url: Seq<char>) -> Seq<char>
    decreases url.len(),
{
    if url.len() == 0 || url.last() == '/' {
        Seq::empty()
    } else {
        last_segment(url.drop_last()).push(url.last())
    }
}

pub fn archive_name(url: &str) -> (r: Option<String>)
    ensures
        r is Some <==> last_segment(url@).len() > 0,
        r matches Some(n) ==> n@ == last_segment(url@),
{
    let v = crate::text::chars_of(url);
    let mut start: usize = v.len();
    assert(v@.skip(start as int) =~= Seq::<char>::empty());
    assert(v@.take(start as int) =~= v@);
    assert(last_segment(v@.take(start as int)) + v@.skip(start as int) =~= last_segment(v@));
    while start > 0 && v[start - 1] != '/'
        invariant
            start <= v@.len(),
            v@ == url@,
            last_segment(v@) == last_segment(v@.take(start as int)) + v@.skip(start as int),
        decreases start,
    {
        let ghost t = v@.take(start as int);
        assert(t.drop_last() =~= v@.take(start - 1));
        assert(t.last() == v@[start - 1]);
        assert(v@.skip(start - 1) =~= seq![v@[start - 1]] + v@.skip(start as int));
        assert(last_segment(t.drop_last()).push(t.last()) + v@.skip(start as int) =~= last_segment(t.drop_last())
            + v@.skip(start - 1));
        start -= 1;
    }
    assert(last_segment(v@.take(start as int)).len() == 0);
    assert(last_segment(v@) =~= v@.skip(start as int));
    if start == v.len() {
        return None;
    }
    let mut out: Vec<char> = Vec::new();
    let mut k: usize = start;
    while k < v.len()
        invariant
            start <= k <= v@.len(),
            out@ == v@.subrange(start as int, k as int),
        decreases v@.len() - k,
    {
        out.push(v[k]);
        k += 1;
        assert(v@.subrange(start as int, k as int) =~= v@.subrange(start as int, k - 1).push(v@[k - 1]));
    }
    assert(v@.subrange(start as int, k as int) =~= v@.skip(start as int));
    Some(crate::text::string_of(&out))
}

} // verus!
