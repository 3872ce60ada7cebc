//! Filling an HTML template's placeholders: every one named must be there, and each is replaced as
//! `str::replace` (every occurrence) or `str::replacen(.., 1)` (the first) would.
use vstd::prelude::*;

use crate::text::{chars_of, has_prefix_at, string_of};

verus! {

/// Where `p` first occurs in `s`, scanning from the left. The empty pattern occurs at 0.
pub open spec fn find_sub(s: Seq<char>, p: Seq<char>) -> Option<int>
    decreases s.len(),
{
    if p.len() > s.len() {
        None
    } else if s.take(p.len() as int) == p {
        Some(0)
    } else if s.len() == 0 {
        None
    } else {
        match find_sub(s.skip(1), p) {
            Some(j) => Some(j + 1),
            None => None,
        }
    }
}

pub proof fn lemma_find_sub(s: Seq<char>, p: Seq<char>)
    ensures
        find_sub(s, p) matches Some(i) ==> 0 <= i && i + p.len() <= s.len() && s.subrange(i, i + p.len()) == p,
    decreases s.len(),
{
    if p.len() <= s.len() && s.take(p.len() as int) != p && s.len() > 0 {
        lemma_find_sub(s.skip(1), p);
        if let Some(j) = find_sub(s.skip(1), p) {
            assert(s.subrange(j + 1, j + 1 + p.len()) =~= s.skip(1).subrange(j, j + p.len()));
        }
    }
}

/// Every occurrence of `p` in `s` replaced by `r`, left to right and without overlap. An empty
/// pattern matches before every character and at the end.
pub open spec fn replace_all(s: Seq<char>, p: Seq<char>, r: Seq<char>) -> Seq<char>
    decreases s.len(),
{
    if p.len() == 0 {
        if s.len() == 0 {
            r
        } else {
            r + seq![s[0]] + replace_all(s.skip(1), p, r)
        }
    } else if s.len() == 0 {
        Seq::empty()
    } else if p.len() <= s.len() && s.take(p.len() as int) == p {
        r + replace_all(s.skip(p.len() as int), p, r)
    } else {
        seq![s[0]] + replace_all(s.skip(1), p, r)
    }
}

/// The first occurrence of `p` in `s` replaced by `r`; `s` itself where there is none.
pub open spec fn replace_first(s: Seq<char>, p: Seq<char>, r: Seq<char>) -> Seq<char> {
    match find_sub(s, p) {
        Some(i) => s.take(i) + r + s.skip(i + p.len()),
        None => s,
    }
}

/// The template with placeholders `k..` substituted in turn, each replacing every occurrence (or
/// only the first, with `once`). `Err(k)`: placeholder `k` is not in the text it is looked for in.
pub open spec fn fill_from(t: Seq<char>, subs: Seq<(Seq<char>, Seq<char>)>, k: int, once: bool) -> Result<
    Seq<char>,
    int,
>
    decreases subs.len() - k,
{
    if k < 0 || k >= subs.len() {
        Ok(t)
    } else if find_sub(t, subs[k].0) is None {
        Err(k)
    } else {
        let next = if once {
            replace_first(t, subs[k].0, subs[k].1)
        } else {
            replace_all(t, subs[k].0, subs[k].1)
        };
        fill_from(next, subs, k + 1, once)
    }
}

pub open spec fn subs_view(subs: Seq<(&str, &str)>) -> Seq<(Seq<char>, Seq<char>)> {
    subs.map_values(|x: (&str, &str)| (x.0@, x.1@))
}

/// The leftmost occurrence of `p` in `v`.
pub fn find(v: &Vec<char>, p: &Vec<char>) -> (r: Option<usize>)
    ensures
        r == (match find_sub(v@, p@) {
            Some(i) => Some(i as usize),
            None => None,
        }),
{
    let plen = p.len();
    let mut i: usize = 0;
    assert(v@.skip(0) =~= v@);
    while i < v.len() && plen <= v.len() - i
        invariant
            i <= v@.len(),
            plen == p@.len(),
            find_sub(v@, p@) == (match find_sub(v@.skip(i as int), p@) {
                Some(j) => Some(j + i),
                None => None,
            }),
        decreases v@.len() - i,
    {
        let ghost s = v@.skip(i as int);
        if has_prefix_at(v, i, p.as_slice()) {
            assert(s.take(plen as int) =~= v@.subrange(i as int, i + plen));
            return Some(i);
        }
        assert(s.take(plen as int) =~= v@.subrange(i as int, i + plen));
        assert(s.skip(1) =~= v@.skip(i + 1));
        i += 1;
    }
    if plen == 0 {
        assert(v@.skip(i as int).take(0) =~= p@);
        return Some(i);
    }
    None
}

/// Every occurrence of `p` in `v` replaced by `r`.
pub fn replace(v: &Vec<char>, p: &Vec<char>, r: &Vec<char>) -> (out: Vec<char>)
    ensures
        out@ == replace_all(v@, p@, r@),
{
    let plen = p.len();
    let mut out: Vec<char> = Vec::new();
    let mut i: usize = 0;
    assert(v@.skip(0) =~= v@);
    while i < v.len()
        invariant
            i <= v@.len(),
            plen == p@.len(),
            out@ + replace_all(v@.skip(i as int), p@, r@) == replace_all(v@, p@, r@),
        decreases v@.len() - i,
    {
        let ghost s = v@.skip(i as int);
        let ghost before = out@;
        if plen == 0 {
            out.extend_from_slice(r.as_slice());
            out.push(v[i]);
            assert(s.skip(1) =~= v@.skip(i + 1));
            assert(out@ =~= before + r@ + seq![s[0]]);
            assert(before + (r@ + seq![s[0]] + replace_all(s.skip(1), p@, r@)) =~= out@ + replace_all(
                s.skip(1),
                p@,
                r@,
            ));
            i += 1;
        } else if has_prefix_at(v, i, p.as_slice()) {
            assert(s.take(plen as int) =~= v@.subrange(i as int, i + plen));
            out.extend_from_slice(r.as_slice());
            assert(s.skip(plen as int) =~= v@.skip(i + plen));
            assert(before + (r@ + replace_all(s.skip(plen as int), p@, r@)) =~= out@ + replace_all(
                s.skip(plen as int),
                p@,
                r@,
            ));
            i += plen;
        } else {
            assert(plen <= s.len() ==> s.take(plen as int) =~= v@.subrange(i as int, i + plen));
            out.push(v[i]);
            assert(s.skip(1) =~= v@.skip(i + 1));
            assert(before + (seq![s[0]] + replace_all(s.skip(1), p@, r@)) =~= out@ + replace_all(
                s.skip(1),
                p@,
                r@,
            ));
            i += 1;
        }
    }
    if plen == 0 {
        out.extend_from_slice(r.as_slice());
    }
    assert(v@.skip(i as int) =~= Seq::<char>::empty());
    out
}

/// The first occurrence of `p` in `v` replaced by `r`.
pub fn replace_once(v: &Vec<char>, p: &Vec<char>, r: &Vec<char>) -> (out: Vec<char>)
    ensures
        out@ == replace_first(v@, p@, r@),
{
    proof {
        lemma_find_sub(v@, p@);
    }
    match find(v, p) {
        Some(at) => {
            let n = v.len();
            let mut out: Vec<char> = Vec::new();
            let mut i: usize = 0;
            while i < at
                invariant
                    i <= at,
                    at + p@.len() <= v@.len(),
                    n == v@.len(),
                    out@ == v@.take(i as int),
                decreases at - i,
            {
                out.push(v[i]);
                i += 1;
                assert(v@.take(i as int) =~= v@.take(i - 1).push(v@[i - 1]));
            }
            out.extend_from_slice(r.as_slice());
            let mut j: usize = at + p.len();
            let ghost mid = out@;
            while j < v.len()
                invariant
                    at + p@.len() <= j <= v@.len(),
                    out@ == mid + v@.subrange(at + p@.len(), j as int),
                decreases v@.len() - j,
            {
                out.push(v[j]);
                j += 1;
                assert(v@.subrange(at + p@.len(), j as int) =~= v@.subrange(at + p@.len(), j - 1).push(
                    v@[j - 1],
                ));
            }
            assert(v@.subrange(at + p@.len(), v@.len() as int) =~= v@.skip(at + p@.len()));
            out
        },
        None => v.clone(),
    }
}

fn run(template: &str, subs: &[(&str, &str)], once: bool) -> (r: Result<String, usize>)
    ensures
        fill_from(template@, subs_view(subs@), 0, once) == (match r {
            Ok(s) => Ok(s@),
            Err(k) => Err(k as int),
        }),
{
    let mut html = chars_of(template);
    let mut k: usize = 0;
    while k < subs.len()
        invariant
            k <= subs@.len(),
            fill_from(template@, subs_view(subs@), 0, once) == fill_from(html@, subs_view(subs@), k as int, once),
        decreases subs@.len() - k,
    {
        let (tag, value) = subs[k];
        let p = chars_of(tag);
        let r = chars_of(value);
        assert(subs_view(subs@)[k as int] == (p@, r@));
        if find(&html, &p).is_none() {
            return Err(k);
        }
        html = if once {
            replace_once(&html, &p, &r)
        } else {
            replace(&html, &p, &r)
        };
        k += 1;
    }
    Ok(string_of(&html))
}

/// Substitute each placeholder, every occurrence of it: the title is in both `<title>` and `<h1>`.
/// `Err(k)`: placeholder `k` is missing from the template as it stands by then.
pub fn fill(template: &str, subs: &[(&str, &str)]) -> (r: Result<String, usize>)
    ensures
        fill_from(template@, subs_view(subs@), 0, false) == (match r {
            Ok(s) => Ok(s@),
            Err(k) => Err(k as int),
        }),
{
    run(template, subs, false)
}

/// The same, replacing only the first occurrence of each placeholder.
pub fn fill_once(template: &str, subs: &[(&str, &str)]) -> (r: Result<String, usize>)
    ensures
        fill_from(template@, subs_view(subs@), 0, true) == (match r {
            Ok(s) => Ok(s@),
            Err(k) => Err(k as int),
        }),
{
    run(template, subs, true)
}

} // verus!
