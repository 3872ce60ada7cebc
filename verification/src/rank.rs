//! The text features the ranking model reads off a business name, and the ladder of entrants it is
//! cross-validated with. The fitting itself is floating point and runs outside.
use vstd::prelude::*;

use crate::text::{chars_of, owned, push_str, string_of};

verus! {

/// `str::to_lowercase`, as a function of the text.
pub uninterp spec fn lowercase(s: Seq<char>) -> Seq<char>;

/// `char::is_alphanumeric`: alphabetic or numeric in Unicode's tables.
pub uninterp spec fn alphanumeric(c: char) -> bool;

/// `str::to_lowercase`. Its result is named, not stated: Unicode's case tables are pages long.
#[verifier::external_body]
pub(crate) fn lower(s: &str) -> (r: String)
    ensures
        r@ == lowercase(s@),
{
    s.to_lowercase()
}

/// `char::is_alphanumeric`, named for the same reason.
#[verifier::external_body]
fn is_alphanumeric(c: char) -> (r: bool)
    ensures
        r == alphanumeric(c),
{
    c.is_alphanumeric()
}

/// The accents a French shop name and a French query disagree about, taken off one character.
pub open spec fn unaccent(c: char) -> char {
    if c == 'à' || c == 'â' || c == 'ä' || c == 'á' || c == 'ã' || c == 'å' {
        'a'
    } else if c == 'é' || c == 'è' || c == 'ê' || c == 'ë' {
        'e'
    } else if c == 'î' || c == 'ï' || c == 'í' || c == 'ì' {
        'i'
    } else if c == 'ô' || c == 'ö' || c == 'ó' || c == 'ò' || c == 'õ' {
        'o'
    } else if c == 'ù' || c == 'û' || c == 'ü' || c == 'ú' {
        'u'
    } else if c == 'ÿ' || c == 'ý' {
        'y'
    } else if c == 'ç' {
        'c'
    } else if c == 'ñ' {
        'n'
    } else {
        c
    }
}

pub open spec fn folded(s: Seq<char>) -> Seq<char> {
    lowercase(s).map_values(|c: char| unaccent(c))
}

fn unaccent_char(c: char) -> (r: char)
    ensures
        r == unaccent(c),
{
    match c {
        'à' | 'â' | 'ä' | 'á' | 'ã' | 'å' => 'a',
        'é' | 'è' | 'ê' | 'ë' => 'e',
        'î' | 'ï' | 'í' | 'ì' => 'i',
        'ô' | 'ö' | 'ó' | 'ò' | 'õ' => 'o',
        'ù' | 'û' | 'ü' | 'ú' => 'u',
        'ÿ' | 'ý' => 'y',
        'ç' => 'c',
        'ñ' => 'n',
        other => other,
    }
}

/// Folding lowercases and strips accents, character by character: every accented vowel of the
/// table, and `ç` and `ñ`, come out as their bare ASCII letter ("Côte" reads as "cote"), and an
/// ASCII character is left as it is.
pub proof fn folding_strips_accents(s: Seq<char>)
    ensures
        folded(s).len() == lowercase(s).len(),
        forall|i: int|
            0 <= i < folded(s).len() ==> {
                &&& (lowercase(s)[i] == 'à' || lowercase(s)[i] == 'â' || lowercase(s)[i] == 'ä' || lowercase(s)[i] == 'á'
                    || lowercase(s)[i] == 'ã' || lowercase(s)[i] == 'å') ==> #[trigger] folded(s)[i] == 'a'
                &&& (lowercase(s)[i] == 'é' || lowercase(s)[i] == 'è' || lowercase(s)[i] == 'ê' || lowercase(s)[i] == 'ë')
                    ==> folded(s)[i] == 'e'
                &&& (lowercase(s)[i] == 'î' || lowercase(s)[i] == 'ï' || lowercase(s)[i] == 'í' || lowercase(s)[i] == 'ì')
                    ==> folded(s)[i] == 'i'
                &&& (lowercase(s)[i] == 'ô' || lowercase(s)[i] == 'ö' || lowercase(s)[i] == 'ó' || lowercase(s)[i] == 'ò'
                    || lowercase(s)[i] == 'õ') ==> folded(s)[i] == 'o'
                &&& (lowercase(s)[i] == 'ù' || lowercase(s)[i] == 'û' || lowercase(s)[i] == 'ü' || lowercase(s)[i] == 'ú')
                    ==> folded(s)[i] == 'u'
                &&& (lowercase(s)[i] == 'ÿ' || lowercase(s)[i] == 'ý') ==> folded(s)[i] == 'y'
                &&& lowercase(s)[i] == 'ç' ==> folded(s)[i] == 'c'
                &&& lowercase(s)[i] == 'ñ' ==> folded(s)[i] == 'n'
                &&& (lowercase(s)[i] as u32) < 0x80 ==> folded(s)[i] == lowercase(s)[i]
            },
{
}

/// Lowercase and strip the accents.
pub fn fold(s: &str) -> (r: String)
    ensures
        r@ == folded(s@),
{
    let low = chars_of(lower(s).as_str());
    let mut out: Vec<char> = Vec::new();
    let mut i: usize = 0;
    while i < low.len()
        invariant
            i <= low@.len(),
            out@ == low@.take(i as int).map_values(|c: char| unaccent(c)),
        decreases low@.len() - i,
    {
        out.push(unaccent_char(low[i]));
        i += 1;
        assert(low@.take(i as int).map_values(|c: char| unaccent(c)) =~= low@.take(i - 1).map_values(
            |c: char| unaccent(c),
        ).push(unaccent(low@[i - 1])));
    }
    assert(low@.take(i as int) =~= low@);
    string_of(&out)
}

/// The words of `s` read so far, and the one being read: maximal runs of alphanumeric characters.
pub open spec fn scan(s: Seq<char>) -> (Seq<Seq<char>>, Seq<char>)
    decreases s.len(),
{
    if s.len() == 0 {
        (Seq::empty(), Seq::empty())
    } else {
        let (done, cur) = scan(s.drop_last());
        if alphanumeric(s.last()) {
            (done, cur.push(s.last()))
        } else if cur.len() > 0 {
            (done.push(cur), Seq::empty())
        } else {
            (done, Seq::empty())
        }
    }
}

/// The words of `s`: its maximal runs of alphanumeric characters, in order, none empty.
pub open spec fn words_of(s: Seq<char>) -> Seq<Seq<char>> {
    let (done, cur) = scan(s);
    if cur.len() > 0 {
        done.push(cur)
    } else {
        done
    }
}

pub open spec fn views(v: Seq<String>) -> Seq<Seq<char>> {
    v.map_values(|x: String| x@)
}

/// Split on every character that is not alphanumeric, and drop the empty pieces.
pub fn words(s: &str) -> (out: Vec<String>)
    ensures
        views(out@) == words_of(s@),
{
    let v = chars_of(s);
    let mut out: Vec<String> = Vec::new();
    let mut cur: Vec<char> = Vec::new();
    let mut i: usize = 0;
    while i < v.len()
        invariant
            i <= v@.len(),
            (views(out@), cur@) == scan(v@.take(i as int)),
        decreases v@.len() - i,
    {
        let c = v[i];
        assert(v@.take(i + 1).drop_last() =~= v@.take(i as int));
        if is_alphanumeric(c) {
            cur.push(c);
        } else if cur.len() > 0 {
            let w = string_of(&cur);
            let ghost before = out@;
            out.push(w);
            assert(views(out@) =~= views(before).push(w@));
            cur = Vec::new();
        }
        i += 1;
    }
    assert(v@.take(i as int) =~= v@);
    if cur.len() > 0 {
        let w = string_of(&cur);
        let ghost before = out@;
        out.push(w);
        assert(views(out@) =~= views(before).push(w@));
    }
    out
}

/// The trigrams of a word, in order; a word under three characters is its own only gram.
pub open spec fn trigrams(w: Seq<char>) -> Seq<Seq<char>> {
    if w.len() < 3 {
        seq![w]
    } else {
        Seq::new((w.len() - 2) as nat, |i: int| w.subrange(i, i + 3))
    }
}

pub fn grams(w: &str) -> (out: Vec<String>)
    ensures
        views(out@) == trigrams(w@),
{
    let c = chars_of(w);
    if c.len() < 3 {
        let mut out: Vec<String> = Vec::new();
        out.push(owned(w));
        assert(views(out@) =~= trigrams(w@));
        return out;
    }
    let mut out: Vec<String> = Vec::new();
    let mut i: usize = 0;
    while i < c.len() - 2
        invariant
            c@ == w@,
            c@.len() >= 3,
            i + 2 <= c@.len(),
            views(out@) =~= Seq::new(i as nat, |k: int| c@.subrange(k, k + 3)),
        decreases c@.len() - i,
    {
        let mut g: Vec<char> = Vec::new();
        g.push(c[i]);
        g.push(c[i + 1]);
        g.push(c[i + 2]);
        assert(g@ =~= c@.subrange(i as int, i + 3));
        let s = string_of(&g);
        let ghost before = out@;
        out.push(s);
        assert(views(out@) =~= views(before).push(s@));
        i += 1;
    }
    out
}

/// Lexicographic order over characters, which is the order `String`'s bytes sort in: UTF-8 keeps
/// code point order.
pub open spec fn lex_lt(a: Seq<char>, b: Seq<char>) -> bool
    decreases a.len(),
{
    if a.len() == 0 {
        b.len() > 0
    } else if b.len() == 0 {
        false
    } else if a[0] != b[0] {
        a[0] < b[0]
    } else {
        lex_lt(a.drop_first(), b.drop_first())
    }
}

pub proof fn lemma_lex_transitive(a: Seq<char>, b: Seq<char>, c: Seq<char>)
    requires
        lex_lt(a, b),
        lex_lt(b, c),
    ensures
        lex_lt(a, c),
    decreases a.len(),
{
    if a.len() > 0 && b.len() > 0 && c.len() > 0 && a[0] == b[0] && b[0] == c[0] {
        lemma_lex_transitive(a.drop_first(), b.drop_first(), c.drop_first());
    }
}

pub proof fn lemma_lex_total(a: Seq<char>, b: Seq<char>)
    ensures
        a == b || lex_lt(a, b) || lex_lt(b, a),
    decreases a.len(),
{
    if a.len() > 0 && b.len() > 0 && a[0] == b[0] {
        lemma_lex_total(a.drop_first(), b.drop_first());
        if a.drop_first() == b.drop_first() {
            assert(a =~= seq![a[0]] + a.drop_first());
            assert(b =~= seq![b[0]] + b.drop_first());
        }
    } else if a.len() == 0 && b.len() == 0 {
        assert(a =~= b);
    }
}

fn lex_less(a: &Vec<char>, b: &Vec<char>) -> (r: bool)
    ensures
        r == lex_lt(a@, b@),
{
    let mut i: usize = 0;
    assert(a@.skip(0) =~= a@);
    assert(b@.skip(0) =~= b@);
    while i < a.len() && i < b.len()
        invariant
            i <= a@.len(),
            i <= b@.len(),
            lex_lt(a@, b@) == lex_lt(a@.skip(i as int), b@.skip(i as int)),
        decreases a@.len() - i,
    {
        assert(a@.skip(i as int)[0] == a@[i as int]);
        assert(b@.skip(i as int)[0] == b@[i as int]);
        if a[i] != b[i] {
            return a[i] < b[i];
        }
        assert(a@.skip(i as int).drop_first() =~= a@.skip(i + 1));
        assert(b@.skip(i as int).drop_first() =~= b@.skip(i + 1));
        i += 1;
    }
    i == a.len() && i < b.len()
}

/// Strictly increasing: sorted, and nothing twice.
pub open spec fn ascending(v: Seq<Seq<char>>) -> bool {
    forall|i: int, j: int| 0 <= i < j < v.len() ==> lex_lt(v[i], v[j])
}

/// Insert `w` into a strictly increasing list, unless it is already there.
pub(crate) fn insert_sorted(out: &mut Vec<String>, w: String)
    requires
        ascending(views(old(out)@)),
    ensures
        ascending(views(final(out)@)),
        forall|x: Seq<char>| views(final(out)@).contains(x) <==> (views(old(out)@).contains(x) || x == w@),
{
    let wc = chars_of(w.as_str());
    let mut pos: usize = 0;
    while pos < out.len()
        invariant
            pos <= out@.len(),
            wc@ == w@,
            forall|k: int| 0 <= k < pos ==> lex_lt(#[trigger] out@[k]@, w@),
        ensures
            pos <= out@.len(),
            forall|k: int| 0 <= k < pos ==> lex_lt(#[trigger] out@[k]@, w@),
            pos < out@.len() ==> !lex_lt(out@[pos as int]@, w@),
        decreases out@.len() - pos,
    {
        let oc = chars_of(out[pos].as_str());
        if !lex_less(&oc, &wc) {
            break;
        }
        pos += 1;
    }
    let ghost v = views(out@);
    assert(forall|k: int| 0 <= k < pos ==> lex_lt(#[trigger] v[k], w@));
    if pos < out.len() {
        let oc = chars_of(out[pos].as_str());
        proof {
            lemma_lex_total(oc@, wc@);
        }
        if !lex_less(&oc, &wc) && !lex_less(&wc, &oc) {
            assert(v[pos as int] == w@);
            assert forall|x: Seq<char>| v.contains(x) <==> (v.contains(x) || x == w@) by {
                if x == w@ {
                    assert(v[pos as int] == x);
                }
            }
            return;
        }
    }
    proof {
        if pos < v.len() {
            lemma_lex_total(v[pos as int], w@);
        }
        assert forall|k: int| pos <= k < v.len() implies lex_lt(w@, #[trigger] v[k]) by {
            if k > pos {
                lemma_lex_transitive(w@, v[pos as int], v[k]);
            }
        }
    }
    out.insert(pos, w);
    let ghost nv = views(out@);
    assert(nv =~= v.insert(pos as int, wc@));
    assert forall|i: int, j: int| 0 <= i < j < nv.len() implies lex_lt(nv[i], nv[j]) by {
        if j < pos {
        } else if j == pos {
        } else if i < pos {
            lemma_lex_transitive(nv[i], wc@, nv[j]);
        } else if i == pos {
        } else {
        }
    }
    assert forall|x: Seq<char>| nv.contains(x) <==> (v.contains(x) || x == w@) by {
        if nv.contains(x) {
            let k = choose|k: int| 0 <= k < nv.len() && nv[k] == x;
            if k < pos {
                assert(v[k] == x);
            } else if k > pos {
                assert(v[k - 1] == x);
            }
        }
        if v.contains(x) {
            let k = choose|k: int| 0 <= k < v.len() && v[k] == x;
            if k < pos {
                assert(nv[k] == x);
            } else {
                assert(nv[k + 1] == x);
            }
        }
        if x == w@ {
            assert(nv[pos as int] == x);
        }
    }
}

/// How many bytes UTF-8 spends on `c`.
pub open spec fn utf8_width(c: char) -> nat {
    if (c as u32) < 0x80 {
        1
    } else if (c as u32) < 0x800 {
        2
    } else if (c as u32) < 0x10000 {
        3
    } else {
        4
    }
}

/// The length of `w` in UTF-8 bytes, which is what `str::len` counts.
pub open spec fn utf8_len(w: Seq<char>) -> nat
    decreases w.len(),
{
    if w.len() == 0 {
        0
    } else {
        utf8_len(w.drop_last()) + utf8_width(w.last())
    }
}

/// A place token is at least four bytes long: shorter ones ("le", "st") name nothing.
pub open spec fn long_enough(w: Seq<char>) -> bool {
    utf8_len(w) >= 4
}

fn width(c: char) -> (n: usize)
    ensures
        n == utf8_width(c),
{
    let x = c as u32;
    if x < 0x80 {
        1
    } else if x < 0x800 {
        2
    } else if x < 0x10000 {
        3
    } else {
        4
    }
}

proof fn lemma_utf8_len_grows(w: Seq<char>, i: int)
    requires
        0 <= i <= w.len(),
    ensures
        utf8_len(w.take(i)) <= utf8_len(w),
    decreases w.len() - i,
{
    if i < w.len() {
        lemma_utf8_len_grows(w, i + 1);
        assert(w.take(i + 1).drop_last() =~= w.take(i));
    } else {
        assert(w.take(i) =~= w);
    }
}

proof fn lemma_utf8_len_bounds(w: Seq<char>)
    ensures
        w.len() <= utf8_len(w) <= 4 * w.len(),
        (forall|i: int| 0 <= i < w.len() ==> (w[i] as u32) < 0x80) ==> utf8_len(w) == w.len(),
    decreases w.len(),
{
    if w.len() > 0 {
        lemma_utf8_len_bounds(w.drop_last());
        if forall|i: int| 0 <= i < w.len() ==> (w[i] as u32) < 0x80 {
            assert forall|i: int| 0 <= i < w.drop_last().len() implies (w.drop_last()[i] as u32) < 0x80 by {
                assert(w.drop_last()[i] == w[i]);
            }
            assert((w[w.len() - 1] as u32) < 0x80);
        }
    }
}

proof fn lemma_kept(ws: Seq<Seq<char>>)
    ensures
        forall|x: Seq<char>|
            #![trigger kept(ws).contains(x)]
            #![trigger ws.contains(x)]
            kept(ws).contains(x) <==> ws.contains(x) && long_enough(x),
    decreases ws.len(),
{
    if ws.len() > 0 {
        let d = ws.drop_last();
        lemma_kept(d);
        let last = ws.last();
        assert forall|x: Seq<char>| kept(ws).contains(x) <==> ws.contains(x) && long_enough(x) by {
            if long_enough(last) {
                assert(kept(ws) == kept(d).push(last));
            } else {
                assert(kept(ws) == kept(d));
            }
            if ws.contains(x) && long_enough(x) {
                let k = choose|k: int| 0 <= k < ws.len() && ws[k] == x;
                if k < d.len() {
                    assert(d[k] == x);
                    assert(d.contains(x));
                    let m = choose|m: int| 0 <= m < kept(d).len() && kept(d)[m] == x;
                    if long_enough(last) {
                        assert(kept(ws)[m] == x);
                    }
                } else {
                    assert(x == last);
                    assert(kept(ws)[kept(d).len() as int] == x);
                }
            }
            if kept(ws).contains(x) {
                let k = choose|k: int| 0 <= k < kept(ws).len() && kept(ws)[k] == x;
                if long_enough(last) && k == kept(d).len() {
                    assert(ws[ws.len() - 1] == x);
                } else {
                    assert(kept(d)[k] == x);
                    assert(kept(d).contains(x));
                    let j = choose|j: int| 0 <= j < d.len() && d[j] == x;
                    assert(ws[j] == x);
                }
            }
        }
    }
}

/// A word is long enough to name a place when it takes four bytes or more in UTF-8: every word of
/// four characters or more is ("lyon", "riom", "nice"), an ASCII word of three or fewer is not
/// ("le", "st"), and what is kept of a label's words is exactly its long enough ones.
pub proof fn four_bytes_name_a_place(w: Seq<char>, ws: Seq<Seq<char>>)
    ensures
        w.len() <= utf8_len(w) <= 4 * w.len(),
        w.len() >= 4 ==> long_enough(w),
        w.len() == 0 ==> !long_enough(w),
        (forall|i: int| 0 <= i < w.len() ==> (w[i] as u32) < 0x80) ==> (long_enough(w) <==> w.len() >= 4),
        forall|x: Seq<char>|
            #![trigger kept(ws).contains(x)]
            #![trigger ws.contains(x)]
            kept(ws).contains(x) <==> ws.contains(x) && long_enough(x),
{
    lemma_utf8_len_bounds(w);
    lemma_kept(ws);
}

fn four_bytes(w: &str) -> (r: bool)
    ensures
        r == long_enough(w@),
{
    let v = chars_of(w);
    let mut n: usize = 0;
    let mut i: usize = 0;
    while i < v.len()
        invariant
            i <= v@.len(),
            v@ == w@,
            n == utf8_len(v@.take(i as int)),
            n < 4,
        decreases v@.len() - i,
    {
        assert(v@.take(i + 1).drop_last() =~= v@.take(i as int));
        n = n + width(v[i]);
        i += 1;
        if n >= 4 {
            proof {
                lemma_utf8_len_grows(v@, i as int);
            }
            return true;
        }
    }
    assert(v@.take(i as int) =~= v@);
    false
}

pub open spec fn kept(ws: Seq<Seq<char>>) -> Seq<Seq<char>>
    decreases ws.len(),
{
    if ws.len() == 0 {
        Seq::empty()
    } else if long_enough(ws.last()) {
        kept(ws.drop_last()).push(ws.last())
    } else {
        kept(ws.drop_last())
    }
}

/// Every long enough word of every place label, folded, in the order met.
pub open spec fn place_tokens(places: Seq<String>) -> Seq<Seq<char>>
    decreases places.len(),
{
    if places.len() == 0 {
        Seq::empty()
    } else {
        place_tokens(places.drop_last()) + kept(words_of(folded(places.last()@)))
    }
}

/// The labels of the study area as the tokens a shop name is searched for: folded, split into
/// words, short words dropped, sorted, each once.
pub fn place_words(places: &Vec<String>) -> (out: Vec<String>)
    ensures
        ascending(views(out@)),
        forall|x: Seq<char>| views(out@).contains(x) <==> place_tokens(places@).contains(x),
{
    let mut out: Vec<String> = Vec::new();
    let mut i: usize = 0;
    while i < places.len()
        invariant
            i <= places@.len(),
            ascending(views(out@)),
            forall|x: Seq<char>| views(out@).contains(x) <==> place_tokens(places@.take(i as int)).contains(x),
        decreases places@.len() - i,
    {
        let ws = words(fold(places[i].as_str()).as_str());
        let ghost base = place_tokens(places@.take(i as int));
        let mut j: usize = 0;
        while j < ws.len()
            invariant
                j <= ws@.len(),
                ascending(views(out@)),
                forall|x: Seq<char>| views(out@).contains(x) <==> (base + kept(views(ws@).take(j as int))).contains(x),
            decreases ws@.len() - j,
        {
            let ghost before = views(out@);
            let ghost k0 = kept(views(ws@).take(j as int));
            assert(views(ws@).take(j + 1).drop_last() =~= views(ws@).take(j as int));
            let w = ws[j].clone();
            assert(views(ws@).take(j + 1).last() == w@);
            if four_bytes(w.as_str()) {
                insert_sorted(&mut out, w);
                assert(kept(views(ws@).take(j + 1)) == k0.push(ws@[j as int]@));
                assert forall|x: Seq<char>| views(out@).contains(x) <==> (base + k0.push(ws@[j as int]@)).contains(x) by {
                    if (base + k0).contains(x) {
                        let k = choose|k: int| 0 <= k < (base + k0).len() && (base + k0)[k] == x;
                        assert((base + k0.push(ws@[j as int]@))[k] == x);
                    }
                    if (base + k0.push(ws@[j as int]@)).contains(x) {
                        let k = choose|k: int| 0 <= k < (base + k0.push(ws@[j as int]@)).len() && (base + k0.push(
                            ws@[j as int]@,
                        ))[k] == x;
                        if k < (base + k0).len() {
                            assert((base + k0)[k] == x);
                        }
                    }
                    if x == ws@[j as int]@ {
                        assert((base + k0.push(ws@[j as int]@))[(base + k0).len() as int] == x);
                    }
                }
            } else {
                assert(kept(views(ws@).take(j + 1)) == k0);
            }
            j += 1;
        }
        assert(views(ws@).take(j as int) =~= views(ws@));
        assert(places@.take(i + 1).drop_last() =~= places@.take(i as int));
        i += 1;
    }
    assert(places@.take(i as int) =~= places@);
    out
}

/// Whether the folded name carries one of the area's place tokens.
pub open spec fn names_a_place(name: Seq<char>, places: Seq<String>) -> bool {
    exists|k: int| 0 <= k < places.len() && #[trigger] crate::template::find_sub(name, places[k]@) is Some
}

pub fn carries_place(name: &str, places: &Vec<String>) -> (r: bool)
    ensures
        r == names_a_place(name@, places@),
{
    let v = chars_of(name);
    let mut k: usize = 0;
    while k < places.len()
        invariant
            k <= places@.len(),
            v@ == name@,
            forall|m: int| 0 <= m < k ==> #[trigger] crate::template::find_sub(name@, places@[m]@) is None,
        decreases places@.len() - k,
    {
        let p = chars_of(places[k].as_str());
        if crate::template::find(&v, &p).is_some() {
            return true;
        }
        k += 1;
    }
    false
}

/// How many features the model reads.
pub const N: usize = 5;
pub const REV: usize = 0;
pub const RATING: usize = 1;
pub const NAME: usize = 2;
pub const PLACE: usize = 3;
pub const DIST: usize = 4;

/// What each feature is called in the fit's table: `log1p(n_rev)`, the shrunk rating deviation,
/// name↔term containment, the name carrying a place label, node→business distance in km.
pub open spec fn feature_name(i: int) -> Seq<char> {
    if i == 0 {
        "log1p_reviews"@
    } else if i == 1 {
        "rating_dev"@
    } else if i == 2 {
        "name_match"@
    } else if i == 3 {
        "place_token"@
    } else {
        "distance_km"@
    }
}

pub fn feature(i: usize) -> (s: &'static str)
    requires
        i < N,
    ensures
        s@ == feature_name(i as int),
{
    match i {
        0 => "log1p_reviews",
        1 => "rating_dev",
        2 => "name_match",
        3 => "place_token",
        _ => "distance_km",
    }
}

/// A coefficient set over the five features, with a mask saying which are estimated. Masked-off
/// coefficients stay at zero, so the all-off entrant scores every competitor the same.
#[derive(Clone, Debug)]
pub struct Linear {
    name: String,
    on: [bool; 5],
}

/// An entrant on the ladder, by position: `FLAT`, `REVIEWS`, `FITTED`, then `FITTED` without each
/// feature in turn.
pub open spec fn entrant(k: int) -> (Seq<char>, Seq<bool>) {
    if k == 0 {
        ("FLAT"@, seq![false, false, false, false, false])
    } else if k == 1 {
        ("REVIEWS"@, seq![true, false, false, false, true])
    } else if k == 2 {
        ("FITTED"@, seq![true, true, true, true, true])
    } else {
        ("FITTED −"@ + feature_name(k - 3), seq![true, true, true, true, true].update(k - 3, false))
    }
}

impl Linear {
    pub closed spec fn label(self) -> Seq<char> {
        self.name@
    }

    pub closed spec fn mask(self) -> Seq<bool> {
        self.on@
    }

    pub open spec fn is(self, k: int) -> bool {
        (self.label(), self.mask()) == entrant(k)
    }

    /// Every competitor counts the same. The null every other entrant is read against.
    pub fn flat() -> (l: Self)
        ensures
            l.is(0),
    {
        let l = Linear { name: owned("FLAT"), on: [false, false, false, false, false] };
        assert(l.on@ =~= seq![false, false, false, false, false]);
        l
    }

    /// Reviews and geometry only: prominence without relevance.
    pub fn reviews() -> (l: Self)
        ensures
            l.is(1),
    {
        let l = Linear { name: owned("REVIEWS"), on: [true, false, false, false, true] };
        assert(l.on@ =~= seq![true, false, false, false, true]);
        l
    }

    /// What ships.
    pub fn fitted() -> (l: Self)
        ensures
            l.is(2),
    {
        let l = Linear { name: owned("FITTED"), on: [true, true, true, true, true] };
        assert(l.on@ =~= seq![true, true, true, true, true]);
        l
    }

    /// `FITTED` with feature `i` refitted out.
    pub fn without(i: usize) -> (l: Self)
        requires
            i < N,
        ensures
            l.is(i + 3),
    {
        let on = match i {
            0 => [false, true, true, true, true],
            1 => [true, false, true, true, true],
            2 => [true, true, false, true, true],
            3 => [true, true, true, false, true],
            _ => [true, true, true, true, false],
        };
        let mut v: Vec<char> = Vec::new();
        push_str(&mut v, "FITTED −");
        push_str(&mut v, feature(i));
        let l = Linear { name: string_of(&v), on };
        assert(l.on@ =~= seq![true, true, true, true, true].update(i as int, false));
        l
    }

    /// Every entrant, in the order the league table lists them.
    pub fn ladder() -> (out: Vec<Self>)
        ensures
            out@.len() == 3 + N,
            forall|k: int| 0 <= k < out@.len() ==> (#[trigger] out@[k]).is(k),
    {
        let mut out: Vec<Self> = Vec::new();
        out.push(Self::flat());
        out.push(Self::reviews());
        out.push(Self::fitted());
        let mut i: usize = 0;
        while i < N
            invariant
                i <= N,
                out@.len() == 3 + i,
                forall|k: int| 0 <= k < out@.len() ==> (#[trigger] out@[k]).is(k),
            decreases N - i,
        {
            out.push(Self::without(i));
            i += 1;
        }
        out
    }

    pub fn name(&self) -> (s: &str)
        ensures
            s@ == self.label(),
    {
        self.name.as_str()
    }

    /// Which coefficients the fit estimates.
    pub fn on(&self) -> (m: [bool; 5])
        ensures
            m@ == self.mask(),
    {
        self.on
    }
}

/// A fixed scramble of a position, to break ties without handing a null model the answer.
pub fn scramble(i: usize) -> (r: u32)
    ensures
        r == ((i as int % 0x1_0000_0000) * 2_654_435_761) % 0x1_0000_0000,
{
    let x = i as u32;
    assert(x == i as int % 0x1_0000_0000) by (bit_vector)
        requires
            x == i as u32,
    ;
    x.wrapping_mul(2_654_435_761)
}

/// The league table is keyed by entrant name, so no two entrants on the ladder share one.
pub proof fn ladder_names_are_distinct()
    ensures
        forall|i: int, j: int| 0 <= i < j < 3 + N ==> #[trigger] entrant(i).0 != #[trigger] entrant(j).0,
{
    reveal_strlit("FLAT");
    reveal_strlit("REVIEWS");
    reveal_strlit("FITTED");
    reveal_strlit("FITTED −");
    reveal_strlit("log1p_reviews");
    reveal_strlit("rating_dev");
    reveal_strlit("name_match");
    reveal_strlit("place_token");
    reveal_strlit("distance_km");
    assert forall|i: int, j: int| 0 <= i < j < 3 + N implies #[trigger] entrant(i).0 != #[trigger] entrant(j).0 by {
        let (a, b) = (entrant(i).0, entrant(j).0);
        if i >= 3 {
            assert(a[8] != b[8] || a.len() != b.len() || a[9] != b[9]);
        } else if j >= 3 {
            assert(a.len() != b.len() || a[1] != b[1]);
        } else {
            assert(a.len() != b.len() || a[1] != b[1]);
        }
    }
}

} // verus!
