//! The map's control surface, as decisions: which tab a key or a close leads to, what the picker
//! keeps of a query, and how a pin is lettered. The page performs what these decide.
use vstd::prelude::*;

use crate::text::{
    ascii_lower, char_from_u32, chars_of, decimal, is_scalar, owned, push_decimal, push_str, same_text, string_of, to_ascii_lower,
};

verus! {

/// Which set the picker is filtering, and so how many boxes it puts up.
#[derive(Clone, Copy, Debug, PartialEq, Eq, Structural)]
pub enum Pool {
    /// The product served, as one box per axis. Loading the pair opens the tab.
    Study,
    /// The open tabs; loading one switches to it.
    Open,
}

impl Pool {
    /// How many boxes it puts up: one per axis being crossed.
    pub fn cols(self) -> (n: usize)
        ensures
            n == (if self == Pool::Study { 2usize } else { 1usize }),
    {
        match self {
            Pool::Study => 2,
            Pool::Open => 1,
        }
    }

    pub fn prompt(self, col: usize) -> (s: &'static str)
        ensures
            s@ == (match (self, col) {
                (Pool::Study, 0) => "what is being sold"@,
                (Pool::Study, _) => "and where"@,
                (Pool::Open, _) => "find an open tab"@,
            }),
    {
        match (self, col) {
            (Pool::Study, 0) => "what is being sold",
            (Pool::Study, _) => "and where",
            (Pool::Open, _) => "find an open tab",
        }
    }
}

/// One rebindable action.
#[derive(Clone, Copy, Debug, PartialEq, Eq, Structural)]
pub enum Binding {
    Prev,
    Next,
    Close,
    Open,
    Find,
}

/// The label the settings panel lists a binding under, and `Keymap::set` is addressed by.
pub open spec fn label_of(b: Binding) -> Seq<char> {
    match b {
        Binding::Prev => "previous tab"@,
        Binding::Next => "next tab"@,
        Binding::Close => "close the tab"@,
        Binding::Open => "open a study"@,
        Binding::Find => "find an open tab"@,
    }
}

pub open spec fn binding_for(label: Seq<char>) -> Option<Binding> {
    if label == "previous tab"@ {
        Some(Binding::Prev)
    } else if label == "next tab"@ {
        Some(Binding::Next)
    } else if label == "close the tab"@ {
        Some(Binding::Close)
    } else if label == "open a study"@ {
        Some(Binding::Open)
    } else if label == "find an open tab"@ {
        Some(Binding::Find)
    } else {
        None
    }
}

/// The bare keys, one per action. Digits jump to a tab by position and are not rebindable.
#[derive(Clone, Debug)]
pub struct Keymap {
    pub prev: String,
    pub next: String,
    pub close: String,
    pub open: String,
    pub find: String,
}

impl Keymap {
    pub open spec fn key_of(self, b: Binding) -> Seq<char> {
        match b {
            Binding::Prev => self.prev@,
            Binding::Next => self.next@,
            Binding::Close => self.close@,
            Binding::Open => self.open@,
            Binding::Find => self.find@,
        }
    }

    /// Chrome consumes `Ctrl+T`, `Ctrl+W` and `Ctrl+1..9` before a page sees them, so the defaults
    /// are bare keys.
    pub fn standard() -> (k: Keymap)
        ensures
            k.prev@ == "["@,
            k.next@ == "]"@,
            k.close@ == "w"@,
            k.open@ == "t"@,
            k.find@ == "f"@,
    {
        Keymap { prev: owned("["), next: owned("]"), close: owned("w"), open: owned("t"), find: owned("f") }
    }

    /// In the order the settings panel lists them.
    pub fn rows(&self) -> (r: [(&'static str, &str); 5])
        ensures
            r[0].0@ == label_of(Binding::Prev) && r[0].1@ == self.prev@,
            r[1].0@ == label_of(Binding::Next) && r[1].1@ == self.next@,
            r[2].0@ == label_of(Binding::Close) && r[2].1@ == self.close@,
            r[3].0@ == label_of(Binding::Open) && r[3].1@ == self.open@,
            r[4].0@ == label_of(Binding::Find) && r[4].1@ == self.find@,
    {
        [
            ("previous tab", self.prev.as_str()),
            ("next tab", self.next.as_str()),
            ("close the tab", self.close.as_str()),
            ("open a study", self.open.as_str()),
            ("find an open tab", self.find.as_str()),
        ]
    }

    /// Rebind the action the panel lists under `label`. The panel only lists `rows()`.
    pub fn set(&mut self, label: &str, key: String)
        requires
            binding_for(label@) is Some,
        ensures
            forall|b: Binding| #[trigger] final(self).key_of(b) == if Some(b) == binding_for(label@) {
                key@
            } else {
                old(self).key_of(b)
            },
    {
        if same_text(label, "previous tab") {
            self.prev = key;
        } else if same_text(label, "next tab") {
            self.next = key;
        } else if same_text(label, "close the tab") {
            self.close = key;
        } else if same_text(label, "open a study") {
            self.open = key;
        } else {
            self.find = key;
        }
    }
}

/// What the document's keypress was, and what the page looked like when it landed.
#[derive(Clone, Debug)]
pub struct KeyPress {
    pub key: String,
    /// Ctrl, Meta or Alt was held: the key was not meant for the map.
    pub modified: bool,
    pub settings_open: bool,
    /// The binding the settings panel is waiting on.
    pub arming: Option<Binding>,
    pub picker_open: bool,
    /// The press landed in an `INPUT`, `SELECT` or `TEXTAREA`.
    pub in_field: bool,
    /// The open card is a yellow pin's.
    pub yellow_selected: bool,
    pub tabs: usize,
    pub active: usize,
}

/// What the page does about a keypress.
#[derive(Clone, Debug)]
pub enum KeyAction {
    Ignore,
    /// `Escape`: disarm, and close the picker and the settings panel.
    Dismiss,
    /// The armed binding takes this one-character key.
    Rebind(Binding, String),
    /// `Backspace` over a yellow pin undoes it like the click it was.
    ForgetPin,
    Activate(usize),
    OpenPicker(Pool),
    CloseTab(usize),
}

/// What a digit key jumps to: `1`..`9` by position, `0` to the last tab.
pub open spec fn digit_target(d: int, tabs: int) -> Option<int> {
    if d == 0 {
        if tabs > 0 {
            Some(tabs - 1)
        } else {
            None
        }
    } else if d <= tabs {
        Some(d - 1)
    } else {
        None
    }
}

/// The keypress, decided. Digits jump by position; everything else is looked up in the keymap.
pub open spec fn spec_decide(p: KeyPress, m: Keymap) -> KeyAction {
    let k = p.key@;
    let n = p.tabs as int;
    let at = p.active as int;
    if p.modified {
        KeyAction::Ignore
    } else if k == "Escape"@ {
        KeyAction::Dismiss
    } else if p.settings_open {
        if p.arming is Some && k.len() == 1 {
            KeyAction::Rebind(p.arming->0, p.key)
        } else {
            KeyAction::Ignore
        }
    } else if p.picker_open || p.in_field {
        KeyAction::Ignore
    } else if k == "Backspace"@ {
        if p.yellow_selected {
            KeyAction::ForgetPin
        } else {
            KeyAction::Ignore
        }
    } else if crate::text::parse_unsigned(k) is Some && crate::text::parse_unsigned(k)->0 <= usize::MAX {
        match digit_target(crate::text::parse_unsigned(k)->0, n) {
            Some(i) => KeyAction::Activate(i as usize),
            None => KeyAction::Ignore,
        }
    } else if k == m.open@ {
        KeyAction::OpenPicker(Pool::Study)
    } else if k == m.find@ {
        KeyAction::OpenPicker(Pool::Open)
    } else if n == 0 {
        KeyAction::Ignore
    } else if k == m.prev@ {
        KeyAction::Activate(((at + n - 1) % n) as usize)
    } else if k == m.next@ {
        KeyAction::Activate(((at + 1) % n) as usize)
    } else if k == m.close@ {
        KeyAction::CloseTab(p.active)
    } else {
        KeyAction::Ignore
    }
}

/// `s.parse::<usize>()`.
fn parse_usize(s: &str) -> (r: Option<usize>)
    ensures
        r == (match crate::text::parse_unsigned(s@) {
            Some(v) => if v <= usize::MAX {
                Some(v as usize)
            } else {
                None
            },
            None => None,
        }),
{
    let v = chars_of(s);
    assert(v@.subrange(0, v@.len() as int) =~= s@);
    crate::text::parse_usize_at(&v, 0, v.len())
}

pub fn decide_key(p: &KeyPress, m: &Keymap) -> (a: KeyAction)
    requires
        p.active + p.tabs <= usize::MAX,
    ensures
        a == spec_decide(*p, *m),
{
    proof {
        reveal_strlit("Escape");
        reveal_strlit("Backspace");
    }
    if p.modified {
        return KeyAction::Ignore;
    }
    let k = p.key.as_str();
    if same_text(k, "Escape") {
        return KeyAction::Dismiss;
    }
    if p.settings_open {
        return match p.arming {
            Some(b) => {
                if chars_of(k).len() == 1 {
                    KeyAction::Rebind(b, p.key.clone())
                } else {
                    KeyAction::Ignore
                }
            },
            None => KeyAction::Ignore,
        };
    }
    if p.picker_open || p.in_field {
        return KeyAction::Ignore;
    }
    if same_text(k, "Backspace") {
        return if p.yellow_selected {
            KeyAction::ForgetPin
        } else {
            KeyAction::Ignore
        };
    }
    let n = p.tabs;
    let at = p.active;
    let parsed = parse_usize(k);
    proof {
        assert(k@ == p.key@);
    }
    if let Some(d) = parsed {
        proof {
            let v = crate::text::parse_unsigned(p.key@);
            crate::text::lemma_parse_unsigned_nonneg(p.key@);
            assert(v is Some && v->0 <= usize::MAX && v->0 == d as int);
        }
        if d == 0 {
            return if n > 0 {
                KeyAction::Activate(n - 1)
            } else {
                KeyAction::Ignore
            };
        }
        return if d <= n {
            KeyAction::Activate(d - 1)
        } else {
            KeyAction::Ignore
        };
    }
    if p.key == m.open {
        return KeyAction::OpenPicker(Pool::Study);
    }
    if p.key == m.find {
        return KeyAction::OpenPicker(Pool::Open);
    }
    if n == 0 {
        return KeyAction::Ignore;
    }
    if p.key == m.prev {
        return KeyAction::Activate((at + n - 1) % n);
    }
    if p.key == m.next {
        return KeyAction::Activate((at + 1) % n);
    }
    if p.key == m.close {
        return KeyAction::CloseTab(at);
    }
    KeyAction::Ignore
}

/// Where the active tab lands once tab `closed` of what was open is gone and `left` remain. `None`:
/// no tab is left, and the map says so.
pub open spec fn spec_after_close(closed: int, active: int, left: int) -> Option<int> {
    if left == 0 {
        None
    } else if closed < active {
        Some(active - 1)
    } else if active < left - 1 {
        Some(active)
    } else {
        Some(left - 1)
    }
}

pub fn after_close(closed: usize, active: usize, left: usize) -> (r: Option<usize>)
    ensures
        r == (match spec_after_close(closed as int, active as int, left as int) {
            Some(i) => Some(i as usize),
            None => None,
        }),
{
    if left == 0 {
        return None;
    }
    if closed < active {
        Some(active - 1)
    } else if active < left - 1 {
        Some(active)
    } else {
        Some(left - 1)
    }
}

/// The picker's cursor after an arrow: down clamps at the last hit, up at the first.
pub open spec fn spec_cursor(sel: int, hits: int, down: bool) -> int {
    if down {
        if hits == 0 {
            0
        } else if sel + 1 <= hits - 1 {
            sel + 1
        } else {
            hits - 1
        }
    } else if sel == 0 {
        0
    } else {
        sel - 1
    }
}

pub fn cursor_step(sel: usize, hits: usize, down: bool) -> (r: usize)
    requires
        sel < usize::MAX,
    ensures
        r == spec_cursor(sel as int, hits as int, down),
{
    if down {
        let last = if hits == 0 { 0 } else { hits - 1 };
        if sel + 1 <= last {
            sel + 1
        } else {
            last
        }
    } else if sel == 0 {
        0
    } else {
        sel - 1
    }
}

/// Every character of `q`, in order, somewhere in `s`, over ASCII case.
pub open spec fn is_subsequence(q: Seq<char>, s: Seq<char>) -> bool
    decreases s.len(),
{
    if q.len() == 0 {
        true
    } else if s.len() == 0 {
        false
    } else if ascii_lower(q[0]) == ascii_lower(s[0]) {
        is_subsequence(q.drop_first(), s.drop_first())
    } else {
        is_subsequence(q, s.drop_first())
    }
}

/// What the picker keeps of a list under a query. Case-insensitive over ASCII, which is what a file
/// stem is.
pub fn subsequence(q: &str, s: &str) -> (r: bool)
    ensures
        r == is_subsequence(q@, s@),
{
    let qv = chars_of(q);
    let sv = chars_of(s);
    let mut i: usize = 0;
    let mut j: usize = 0;
    assert(qv@.skip(0) =~= qv@);
    assert(sv@.skip(0) =~= sv@);
    while j < sv.len() && i < qv.len()
        invariant
            0 <= i <= qv@.len(),
            0 <= j <= sv@.len(),
            is_subsequence(qv@, sv@) == is_subsequence(qv@.skip(i as int), sv@.skip(j as int)),
        decreases sv@.len() - j,
    {
        assert(qv@.skip(i as int)[0] == qv@[i as int]);
        assert(sv@.skip(j as int)[0] == sv@[j as int]);
        assert(sv@.skip(j as int).drop_first() =~= sv@.skip(j + 1));
        if to_ascii_lower(qv[i]) == to_ascii_lower(sv[j]) {
            assert(qv@.skip(i as int).drop_first() =~= qv@.skip(i + 1));
            i += 1;
        }
        j += 1;
    }
    if i == qv.len() {
        assert(qv@.skip(i as int).len() == 0);
        true
    } else {
        assert(sv@.skip(j as int).len() == 0);
        false
    }
}

/// The letter a green pin goes by: `A` for the first, and on from there for as long as the next
/// code point is a character; its number where it is not.
pub open spec fn spec_letter(i: usize) -> Seq<char> {
    let x = (i + 65) as u32;
    if is_scalar(x) {
        seq![x as char]
    } else {
        decimal(i as nat + 1)
    }
}

pub fn letter(i: usize) -> (s: String)
    requires
        i + 65 <= u32::MAX,
    ensures
        s@ == spec_letter(i),
{
    let x = (i as u32) + 65;
    let mut v: Vec<char> = Vec::new();
    match char_from_u32(x) {
        Some(c) => {
            v.push(c);
        },
        None => {
            push_decimal(&mut v, (i + 1) as u64);
        },
    }
    assert(v@ =~= spec_letter(i));
    string_of(&v)
}

/// The last row of the trade box: a location built from the statistical archive alone.
pub open spec fn no_trade() -> Seq<char> {
    "(no trade · grid only)"@
}

pub fn no_trade_row() -> (s: &'static str)
    ensures
        s@ == no_trade(),
{
    "(no trade · grid only)"
}

/// What a picker box lists: the served trades then the archive-only row, the served locations, or
/// the open tabs' labels.
pub open spec fn box_rows(pool: Pool, col: int, trades: Seq<Seq<char>>, locations: Seq<Seq<char>>, tabs: Seq<Seq<char>>) -> Seq<
    Seq<char>,
> {
    match pool {
        Pool::Study => if col == 0 {
            trades.push(no_trade())
        } else {
            locations
        },
        Pool::Open => tabs,
    }
}

pub open spec fn texts(v: Seq<String>) -> Seq<Seq<char>> {
    v.map_values(|s: String| s@)
}

pub fn picker_rows(pool: Pool, col: usize, trades: &Vec<String>, locations: &Vec<String>, tabs: &Vec<String>) -> (out: Vec<String>)
    ensures
        texts(out@) == box_rows(pool, col as int, texts(trades@), texts(locations@), texts(tabs@)),
{
    let src = match pool {
        Pool::Study => if col == 0 {
            trades
        } else {
            locations
        },
        Pool::Open => tabs,
    };
    let mut out: Vec<String> = Vec::new();
    let mut i: usize = 0;
    while i < src.len()
        invariant
            i <= src@.len(),
            texts(out@) == texts(src@).take(i as int),
        decreases src@.len() - i,
    {
        let ghost before = out@;
        out.push(src[i].clone());
        assert(texts(out@) =~= texts(before).push(src@[i as int]@));
        i += 1;
        assert(texts(src@).take(i as int) =~= texts(src@).take(i - 1).push(src@[i - 1]@));
    }
    assert(texts(src@).take(i as int) =~= texts(src@));
    if pool == Pool::Study && col == 0 {
        let ghost before = out@;
        let row = owned(no_trade_row());
        out.push(row);
        assert(texts(out@) =~= texts(before).push(no_trade()));
    }
    out
}

/// The rows a query keeps, each with its position in the box.
pub open spec fn matching(q: Seq<char>, rows: Seq<Seq<char>>) -> Seq<(int, Seq<char>)>
    decreases rows.len(),
{
    if rows.len() == 0 {
        Seq::empty()
    } else if is_subsequence(q, rows.last()) {
        matching(q, rows.drop_last()).push((rows.len() - 1, rows.last()))
    } else {
        matching(q, rows.drop_last())
    }
}

pub open spec fn hit_views(v: Seq<(usize, String)>) -> Seq<(int, Seq<char>)> {
    v.map_values(|h: (usize, String)| (h.0 as int, h.1@))
}

/// What a box shows under a query: the rows it is a subsequence of, in order, with their positions.
pub fn hits(q: &str, rows: &Vec<String>) -> (out: Vec<(usize, String)>)
    ensures
        hit_views(out@) == matching(q@, texts(rows@)),
{
    let mut out: Vec<(usize, String)> = Vec::new();
    let mut i: usize = 0;
    while i < rows.len()
        invariant
            i <= rows@.len(),
            hit_views(out@) == matching(q@, texts(rows@).take(i as int)),
        decreases rows@.len() - i,
    {
        let ghost t = texts(rows@);
        assert(t.take(i + 1).drop_last() =~= t.take(i as int));
        assert(t.take(i + 1).last() == rows@[i as int]@);
        if subsequence(q, rows[i].as_str()) {
            let ghost before = out@;
            let h = (i, rows[i].clone());
            out.push(h);
            assert(hit_views(out@) =~= hit_views(before).push((i as int, rows@[i as int]@)));
        }
        i += 1;
    }
    assert(texts(rows@).take(i as int) =~= texts(rows@));
    out
}

/// What a key does in a picker box.
#[derive(Clone, Copy, Debug, PartialEq, Eq, Structural)]
pub enum PickerKey {
    Down,
    Up,
    /// `Ctrl-Enter`: load what the boxes hold.
    Take,
    /// `Enter`: pick the row under the cursor.
    Choose,
    /// `Tab`: the other box.
    Cross,
    Nothing,
}

pub open spec fn spec_picker_key(key: Seq<char>, ctrl: bool, meta: bool, alt: bool) -> PickerKey {
    if key == "ArrowDown"@ || (ctrl && key == "n"@) {
        PickerKey::Down
    } else if key == "ArrowUp"@ || (ctrl && key == "p"@) {
        PickerKey::Up
    } else if key == "Enter"@ {
        if ctrl {
            PickerKey::Take
        } else {
            PickerKey::Choose
        }
    } else if ctrl || meta || alt {
        PickerKey::Nothing
    } else if key == "Tab"@ {
        PickerKey::Cross
    } else {
        PickerKey::Nothing
    }
}

pub fn picker_key(key: &str, ctrl: bool, meta: bool, alt: bool) -> (r: PickerKey)
    ensures
        r == spec_picker_key(key@, ctrl, meta, alt),
{
    if same_text(key, "ArrowDown") || (ctrl && same_text(key, "n")) {
        PickerKey::Down
    } else if same_text(key, "ArrowUp") || (ctrl && same_text(key, "p")) {
        PickerKey::Up
    } else if same_text(key, "Enter") {
        if ctrl {
            PickerKey::Take
        } else {
            PickerKey::Choose
        }
    } else if ctrl || meta || alt {
        PickerKey::Nothing
    } else if same_text(key, "Tab") {
        PickerKey::Cross
    } else {
        PickerKey::Nothing
    }
}

/// The box `Tab` moves to.
pub fn cross(col: usize, cols: usize) -> (r: usize)
    requires
        cols > 0,
        col < usize::MAX,
    ensures
        r == (col + 1) % (cols as int),
{
    (col + 1) % cols
}

/// The pairing a full picker opens: the picked trade, or none for the archive-only row past the
/// served trades, and the picked location.
pub fn pairing(row: usize, served: usize, trade: String, location: String) -> (r: (Option<String>, String))
    ensures
        r.0 == (if row < served {
            Some(trade)
        } else {
            None
        }),
        r.1 == location,
{
    if row < served {
        (Some(trade), location)
    } else {
        (None, location)
    }
}

/// The open tab of this pairing, where there is one: it is switched to rather than fetched twice.
pub open spec fn tab_hits(tabs: Seq<(String, String)>, at: (Seq<char>, Seq<char>)) -> Seq<bool> {
    tabs.map_values(|t: (String, String)| t.0@ == at.0 && t.1@ == at.1)
}

pub fn tab_of(tabs: &Vec<(String, String)>, trade: &str, location: &str) -> (r: Option<usize>)
    ensures
        r is None <==> crate::find::first_true(tab_hits(tabs@, (trade@, location@))) is None,
        r matches Some(i) ==> crate::find::first_true(tab_hits(tabs@, (trade@, location@))) == Some(i as int),
{
    let ghost b = tab_hits(tabs@, (trade@, location@));
    let mut i: usize = 0;
    assert(b.take(0) =~= Seq::<bool>::empty());
    while i < tabs.len()
        invariant
            i <= tabs@.len(),
            b == tab_hits(tabs@, (trade@, location@)),
            crate::find::first_true(b.take(i as int)) is None,
        decreases tabs@.len() - i,
    {
        proof {
            crate::find::lemma_first_true_step(b, i as int);
        }
        if same_text(tabs[i].0.as_str(), trade) && same_text(tabs[i].1.as_str(), location) {
            return Some(i);
        }
        i += 1;
    }
    proof {
        crate::find::lemma_first_true_whole(b);
    }
    None
}

/// One colour per tier, in the study's own order; the sixth and beyond wrap.
pub open spec fn tier_colors() -> Seq<Seq<char>> {
    seq!["#ff2d55"@, "#00d0ff"@, "#ffb020"@, "#7ae77a"@, "#c78bff"@]
}

pub fn tier_color(i: usize) -> (s: &'static str)
    ensures
        s@ == tier_colors()[i as int % 5],
{
    match i % 5 {
        0 => "#ff2d55",
        1 => "#00d0ff",
        2 => "#ffb020",
        3 => "#7ae77a",
        _ => "#c78bff",
    }
}

/// How many competitors are in a tier.
pub open spec fn count_in(members: Seq<String>, tier: Seq<char>) -> nat
    decreases members.len(),
{
    if members.len() == 0 {
        0
    } else {
        count_in(members.drop_last(), tier) + if members.last()@ == tier {
            1nat
        } else {
            0nat
        }
    }
}

/// Per declared tier, how many competitors fell into it: what the tier rows show beside their names.
pub fn tier_counts(tiers: &Vec<String>, members: &Vec<String>) -> (out: Vec<usize>)
    ensures
        out@.len() == tiers@.len(),
        forall|i: int| 0 <= i < tiers@.len() ==> out@[i] == count_in(members@, tiers@[i]@),
{
    let mut out: Vec<usize> = Vec::new();
    let mut i: usize = 0;
    while i < tiers.len()
        invariant
            i <= tiers@.len(),
            out@.len() == i,
            forall|k: int| 0 <= k < i ==> out@[k] == count_in(members@, tiers@[k]@),
        decreases tiers@.len() - i,
    {
        let mut n: usize = 0;
        let mut j: usize = 0;
        while j < members.len()
            invariant
                j <= members@.len(),
                i < tiers@.len(),
                n == count_in(members@.take(j as int), tiers@[i as int]@),
                n <= j,
            decreases members@.len() - j,
        {
            assert(members@.take(j + 1).drop_last() =~= members@.take(j as int));
            if same_text(members[j].as_str(), tiers[i].as_str()) {
                n += 1;
            }
            j += 1;
        }
        assert(members@.take(j as int) =~= members@);
        out.push(n);
        i += 1;
    }
    out
}

/// Closing a tab never leaves the active one past the end: with tabs left, the active one is one
/// of them, and with none left there is no active tab.
pub proof fn closing_keeps_the_active_tab_open(closed: int, active: int, left: int)
    requires
        0 <= closed <= left,
        0 <= active <= left,
    ensures
        spec_after_close(closed, active, left) is Some <==> left > 0,
        spec_after_close(closed, active, left) matches Some(i) ==> 0 <= i < left,
{
}

/// The picker's cursor never leaves the hits: from a row, an arrow lands on a row.
pub proof fn the_cursor_stays_on_a_hit(sel: int, hits: int, down: bool)
    requires
        0 <= sel < hits,
    ensures
        0 <= spec_cursor(sel, hits, down) < hits,
{
}

/// The keys that cycle tabs stay on the open tabs.
pub proof fn cycling_stays_on_an_open_tab(active: int, tabs: int)
    requires
        0 <= active < tabs,
    ensures
        0 <= (active + tabs - 1) % tabs < tabs,
        0 <= (active + 1) % tabs < tabs,
{
}

/// What a pin's card is titled by: a green pin's letter and name, or a yellow pin's own label.
pub fn card_label(green_at: Option<usize>, name: &str, label: Option<String>) -> (r: Option<String>)
    requires
        green_at matches Some(i) ==> i + 65 <= u32::MAX,
    ensures
        green_at is None ==> r == label,
        green_at matches Some(i) ==> r is Some && r->0@ == spec_letter(i) + " · "@ + name@,
{
    match green_at {
        Some(i) => {
            let mut v: Vec<char> = Vec::new();
            push_str(&mut v, letter(i).as_str());
            push_str(&mut v, " · ");
            push_str(&mut v, name);
            Some(string_of(&v))
        },
        None => label,
    }
}

} // verus!
