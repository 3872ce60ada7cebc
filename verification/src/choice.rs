//! Choice sets for the ranking fit. A business absent from a search is absent for four reasons and
//! only one of them is "weak", so the set a search chose from is what the same term returned
//! anywhere, restricted to what this search could reach. Attributes join by id, so a result the
//! inventory dropped cannot be scored and leaves the set. Reach is a distance, and the page decides
//! it; which businesses are in the running is decided here.
use vstd::prelude::*;

use crate::text::same_text;

verus! {

/// Where an id was last listed in the inventory: the inventory is keyed by id, and a later listing
/// of an id replaces an earlier one.
pub open spec fn last_index(inventory: Seq<Seq<char>>, id: Seq<char>) -> Option<int>
    decreases inventory.len(),
{
    if inventory.len() == 0 {
        None
    } else if inventory.last() == id {
        Some(inventory.len() - 1)
    } else {
        last_index(inventory.drop_last(), id)
    }
}

/// `new`, appended to `seen` where not already there, in order.
pub open spec fn extend_new(seen: Seq<int>, new: Seq<int>) -> Seq<int>
    decreases new.len(),
{
    if new.len() == 0 {
        seen
    } else {
        let e = extend_new(seen, new.drop_last());
        if e.contains(new.last()) {
            e
        } else {
            e.push(new.last())
        }
    }
}

/// The inventory positions of a search's results, in the order returned, each once; a result the
/// inventory does not hold is left out.
pub open spec fn known(ids: Seq<Seq<char>>, inventory: Seq<Seq<char>>) -> Seq<int>
    decreases ids.len(),
{
    if ids.len() == 0 {
        Seq::empty()
    } else {
        let k = known(ids.drop_last(), inventory);
        match last_index(inventory, ids.last()) {
            Some(j) => if k.contains(j) {
                k
            } else {
                k.push(j)
            },
            None => k,
        }
    }
}

pub open spec fn strs(v: Seq<String>) -> Seq<Seq<char>> {
    v.map_values(|s: String| s@)
}

pub open spec fn ints(v: Seq<usize>) -> Seq<int> {
    v.map_values(|x: usize| x as int)
}

proof fn lemma_last_index_bounds(inventory: Seq<Seq<char>>, id: Seq<char>)
    ensures
        last_index(inventory, id) matches Some(j) ==> 0 <= j < inventory.len(),
    decreases inventory.len(),
{
    if inventory.len() > 0 && inventory.last() != id {
        lemma_last_index_bounds(inventory.drop_last(), id);
    }
}

fn find_last(inventory: &Vec<String>, id: &str) -> (r: Option<usize>)
    ensures
        r is None <==> last_index(strs(inventory@), id@) is None,
        r matches Some(j) ==> last_index(strs(inventory@), id@) == Some(j as int),
{
    let ghost s = strs(inventory@);
    let mut n: usize = inventory.len();
    assert(s.take(n as int) =~= s);
    while n > 0
        invariant
            n <= inventory@.len(),
            s == strs(inventory@),
            last_index(s, id@) == last_index(s.take(n as int), id@),
        decreases n,
    {
        let ghost t = s.take(n as int);
        assert(t.last() == inventory@[n - 1]@);
        assert(t.drop_last() =~= s.take(n - 1));
        if same_text(inventory[n - 1].as_str(), id) {
            return Some(n - 1);
        }
        n -= 1;
    }
    None
}

fn holds(v: &Vec<usize>, x: usize) -> (r: bool)
    ensures
        r == ints(v@).contains(x as int),
{
    let mut i: usize = 0;
    while i < v.len()
        invariant
            i <= v@.len(),
            forall|k: int| 0 <= k < i ==> v@[k] != x,
        decreases v@.len() - i,
    {
        if v[i] == x {
            assert(ints(v@)[i as int] == x as int);
            return true;
        }
        i += 1;
    }
    assert forall|k: int| 0 <= k < ints(v@).len() implies ints(v@)[k] != x as int by {}
    false
}

/// A search credits each business it returned once, however often its id came back.
pub proof fn a_business_is_credited_once(ids: Seq<Seq<char>>, inventory: Seq<Seq<char>>)
    ensures
        forall|i: int, j: int|
            0 <= i < j < known(ids, inventory).len() ==> known(ids, inventory)[i] != known(ids, inventory)[j],
    decreases ids.len(),
{
    if ids.len() > 0 {
        a_business_is_credited_once(ids.drop_last(), inventory);
        let k = known(ids.drop_last(), inventory);
        match last_index(inventory, ids.last()) {
            Some(x) => {
                if !k.contains(x) {
                    assert forall|i: int, j: int| 0 <= i < j < k.push(x).len() implies k.push(x)[i] != k.push(x)[j] by {
                        if j == k.len() {
                            assert(k[i] == k.push(x)[i]);
                        }
                    }
                }
            },
            None => {},
        }
    }
}

/// The inventory positions of a search's results: attributes join by id.
pub fn known_of(ids: &Vec<String>, inventory: &Vec<String>) -> (out: Vec<usize>)
    ensures
        ints(out@) == known(strs(ids@), strs(inventory@)),
        forall|k: int| 0 <= k < out@.len() ==> out@[k] < inventory@.len(),
{
    let mut out: Vec<usize> = Vec::new();
    let mut i: usize = 0;
    while i < ids.len()
        invariant
            i <= ids@.len(),
            ints(out@) == known(strs(ids@).take(i as int), strs(inventory@)),
            forall|k: int| 0 <= k < out@.len() ==> out@[k] < inventory@.len(),
        decreases ids@.len() - i,
    {
        let ghost t = strs(ids@).take(i + 1);
        assert(t.drop_last() =~= strs(ids@).take(i as int));
        assert(t.last() == ids@[i as int]@);
        proof {
            lemma_last_index_bounds(strs(inventory@), ids@[i as int]@);
        }
        match find_last(inventory, ids[i].as_str()) {
            Some(j) => {
                if !holds(&out, j) {
                    let ghost before = out@;
                    out.push(j);
                    assert(ints(out@) =~= ints(before).push(j as int));
                }
            },
            None => {},
        }
        i += 1;
    }
    assert(strs(ids@).take(i as int) =~= strs(ids@));
    out
}

fn extend(seen: &mut Vec<usize>, new: &Vec<usize>)
    ensures
        ints(final(seen)@) == extend_new(ints(old(seen)@), ints(new@)),
{
    let ghost start = ints(seen@);
    let mut i: usize = 0;
    while i < new.len()
        invariant
            i <= new@.len(),
            ints(seen@) == extend_new(start, ints(new@).take(i as int)),
        decreases new@.len() - i,
    {
        let ghost t = ints(new@).take(i + 1);
        assert(t.drop_last() =~= ints(new@).take(i as int));
        assert(t.last() == new@[i as int] as int);
        if !holds(seen, new[i]) {
            let ghost before = seen@;
            seen.push(new[i]);
            assert(ints(seen@) =~= ints(before).push(new@[i as int] as int));
        }
        i += 1;
    }
    assert(ints(new@).take(i as int) =~= ints(new@));
}

/// What one search put on its page, as (inventory position, place on the page from the top): past
/// `cap` the search saw nothing, and a result the inventory does not hold cannot be credited.
pub open spec fn page_hits(ids: Seq<Seq<char>>, inventory: Seq<Seq<char>>, cap: int) -> Seq<(int, int)>
    decreases ids.len(),
{
    if ids.len() == 0 {
        Seq::empty()
    } else {
        let rest = page_hits(ids.drop_last(), inventory, cap);
        let place = ids.len() - 1;
        match last_index(inventory, ids.last()) {
            Some(j) => if place < cap {
                rest.push((j, place))
            } else {
                rest
            },
            None => rest,
        }
    }
}

pub open spec fn pairs(v: Seq<(usize, usize)>) -> Seq<(int, int)> {
    v.map_values(|p: (usize, usize)| (p.0 as int, p.1 as int))
}

/// Each result a search returned within its first `cap`, with its place on the page, joined to the
/// inventory by id.
pub fn on_page(ids: &Vec<String>, inventory: &Vec<String>, cap: usize) -> (out: Vec<(usize, usize)>)
    ensures
        pairs(out@) == page_hits(strs(ids@), strs(inventory@), cap as int),
        forall|k: int| 0 <= k < out@.len() ==> out@[k].0 < inventory@.len() && out@[k].1 < cap,
{
    let mut out: Vec<(usize, usize)> = Vec::new();
    let mut i: usize = 0;
    while i < ids.len()
        invariant
            i <= ids@.len(),
            pairs(out@) == page_hits(strs(ids@).take(i as int), strs(inventory@), cap as int),
            forall|k: int| 0 <= k < out@.len() ==> out@[k].0 < inventory@.len() && out@[k].1 < cap,
        decreases ids@.len() - i,
    {
        let ghost t = strs(ids@).take(i + 1);
        assert(t.drop_last() =~= strs(ids@).take(i as int));
        assert(t.last() == ids@[i as int]@);
        proof {
            lemma_last_index_bounds(strs(inventory@), ids@[i as int]@);
        }
        match find_last(inventory, ids[i].as_str()) {
            Some(j) => {
                if i < cap {
                    let ghost before = out@;
                    out.push((j, i));
                    assert(pairs(out@) =~= pairs(before).push((j as int, i as int)));
                }
            },
            None => {},
        }
        i += 1;
    }
    assert(strs(ids@).take(i as int) =~= strs(ids@));
    out
}

/// Per term, in order of first appearance, every inventory position any search for that term
/// returned, in the order first returned.
pub open spec fn pooled(searches: Seq<(Seq<char>, Seq<Seq<char>>)>, inventory: Seq<Seq<char>>) -> Seq<(Seq<char>, Seq<int>)>
    decreases searches.len(),
{
    if searches.len() == 0 {
        Seq::empty()
    } else {
        let p = pooled(searches.drop_last(), inventory);
        let (term, ids) = searches.last();
        let k = known(ids, inventory);
        match term_index(p, term) {
            Some(t) => p.update(t, (term, extend_new(p[t].1, k))),
            None => p.push((term, extend_new(Seq::empty(), k))),
        }
    }
}

/// Where a term's entry is in a pool.
pub open spec fn term_index(p: Seq<(Seq<char>, Seq<int>)>, term: Seq<char>) -> Option<int>
    decreases p.len(),
{
    if p.len() == 0 {
        None
    } else {
        match term_index(p.drop_last(), term) {
            Some(t) => Some(t),
            None => if p.last().0 == term {
                Some(p.len() - 1)
            } else {
                None
            },
        }
    }
}

proof fn lemma_term_index(p: Seq<(Seq<char>, Seq<int>)>, term: Seq<char>)
    ensures
        term_index(p, term) matches Some(t) ==> 0 <= t < p.len() && p[t].0 == term,
        term_index(p, term) is None ==> forall|k: int| 0 <= k < p.len() ==> p[k].0 != term,
    decreases p.len(),
{
    if p.len() > 0 {
        lemma_term_index(p.drop_last(), term);
        assert forall|k: int| 0 <= k < p.len() - 1 implies p[k] == p.drop_last()[k] by {}
    }
}

proof fn lemma_term_index_first(p: Seq<(Seq<char>, Seq<int>)>, term: Seq<char>, t: int)
    requires
        0 <= t < p.len(),
        p[t].0 == term,
        forall|k: int| 0 <= k < t ==> p[k].0 != term,
    ensures
        term_index(p, term) == Some(t),
    decreases p.len(),
{
    if t < p.len() - 1 {
        lemma_term_index_first(p.drop_last(), term, t);
    } else {
        lemma_term_index(p.drop_last(), term);
    }
}

pub open spec fn pool_view(v: Seq<(String, Vec<usize>)>) -> Seq<(Seq<char>, Seq<int>)> {
    v.map_values(|e: (String, Vec<usize>)| (e.0@, ints(e.1@)))
}

pub open spec fn search_views(v: Seq<(String, Vec<String>)>) -> Seq<(Seq<char>, Seq<Seq<char>>)> {
    v.map_values(|s: (String, Vec<String>)| (s.0@, strs(s.1@)))
}

/// Terms are kept once each in a pool, so the first entry of a term is its only one.
pub open spec fn terms_once(p: Seq<(Seq<char>, Seq<int>)>) -> bool {
    forall|i: int, j: int| 0 <= i < j < p.len() ==> p[i].0 != p[j].0
}

/// What each term returned anywhere: the pool a search of that term chose from.
pub fn pool(searches: &Vec<(String, Vec<String>)>, inventory: &Vec<String>) -> (out: Vec<(String, Vec<usize>)>)
    ensures
        pool_view(out@) == pooled(search_views(searches@), strs(inventory@)),
        terms_once(pool_view(out@)),
{
    let mut out: Vec<(String, Vec<usize>)> = Vec::new();
    let mut i: usize = 0;
    while i < searches.len()
        invariant
            i <= searches@.len(),
            pool_view(out@) == pooled(search_views(searches@).take(i as int), strs(inventory@)),
            terms_once(pool_view(out@)),
        decreases searches@.len() - i,
    {
        let ghost sv = search_views(searches@);
        let ghost p = pool_view(out@);
        assert(sv.take(i + 1).drop_last() =~= sv.take(i as int));
        assert(sv.take(i + 1).last() == (searches@[i as int].0@, strs(searches@[i as int].1@)));
        let term = &searches[i].0;
        let k = known_of(&searches[i].1, inventory);
        let mut t: usize = 0;
        while t < out.len()
            invariant
                t <= out@.len(),
                p == pool_view(out@),
                forall|m: int| 0 <= m < t ==> p[m].0 != term@,
            ensures
                t <= out@.len(),
                p == pool_view(out@),
                forall|m: int| 0 <= m < t ==> p[m].0 != term@,
                t < out@.len() ==> p[t as int].0 == term@,
            decreases out@.len() - t,
        {
            if same_text(out[t].0.as_str(), term.as_str()) {
                assert(p[t as int] == (out@[t as int].0@, ints(out@[t as int].1@)));
                break;
            }
            t += 1;
        }
        proof {
            lemma_term_index(p, term@);
        }
        if t < out.len() {
            assert(p[t as int].0 == term@) by {
                assert(pool_view(out@)[t as int] == (out@[t as int].0@, ints(out@[t as int].1@)));
            }
            proof {
                lemma_term_index_first(p, term@, t as int);
            }
            let mut entry = out.remove(t);
            let ghost old_entry = entry;
            extend(&mut entry.1, &k);
            out.insert(t, entry);
            assert(pool_view(out@) =~= p.update(t as int, (term@, extend_new(p[t as int].1, ints(k@)))));
        } else {
            assert(term_index(p, term@) is None);
            let mut fresh: Vec<usize> = Vec::new();
            assert(ints(fresh@) =~= Seq::<int>::empty());
            extend(&mut fresh, &k);
            let ghost before = out@;
            out.push((term.clone(), fresh));
            assert(pool_view(out@) =~= p.push((term@, extend_new(Seq::empty(), ints(k@)))));
        }
        i += 1;
    }
    assert(search_views(searches@).take(i as int) =~= search_views(searches@));
    out
}

/// A search's choice set: what it returned, in its order, then every other business its term
/// returned anywhere that this search could reach (`reachable`, one flag per pooled position).
pub open spec fn choice_set(seen: Seq<int>, pooled: Seq<int>, reachable: Seq<bool>) -> Seq<int>
    decreases pooled.len(),
{
    if pooled.len() == 0 {
        seen
    } else {
        let c = choice_set(seen, pooled.drop_last(), reachable);
        if !seen.contains(pooled.last()) && reachable[pooled.len() - 1] {
            c.push(pooled.last())
        } else {
            c
        }
    }
}

/// The businesses a search returned lead its choice set, in the order returned.
pub proof fn returned_lead_the_choice_set(seen: Seq<int>, pooled: Seq<int>, reachable: Seq<bool>)
    ensures
        choice_set(seen, pooled, reachable).len() >= seen.len(),
        choice_set(seen, pooled, reachable).take(seen.len() as int) == seen,
    decreases pooled.len(),
{
    if pooled.len() > 0 {
        let c = choice_set(seen, pooled.drop_last(), reachable);
        returned_lead_the_choice_set(seen, pooled.drop_last(), reachable);
        assert(c.push(pooled.last()).take(seen.len() as int) =~= c.take(seen.len() as int));
    } else {
        assert(seen.take(seen.len() as int) =~= seen);
    }
}

pub fn choices(seen: &Vec<usize>, pooled: &Vec<usize>, reachable: &Vec<bool>) -> (out: Vec<usize>)
    requires
        reachable@.len() == pooled@.len(),
    ensures
        ints(out@) == choice_set(ints(seen@), ints(pooled@), reachable@),
        out@.len() >= seen@.len(),
        forall|k: int| 0 <= k < seen@.len() ==> out@[k] == seen@[k],
{
    let mut out: Vec<usize> = seen.clone();
    let mut i: usize = 0;
    assert(ints(pooled@).take(0) =~= Seq::<int>::empty());
    while i < pooled.len()
        invariant
            i <= pooled@.len(),
            reachable@.len() == pooled@.len(),
            ints(out@) == choice_set(ints(seen@), ints(pooled@).take(i as int), reachable@),
        decreases pooled@.len() - i,
    {
        let ghost t = ints(pooled@).take(i + 1);
        assert(t.drop_last() =~= ints(pooled@).take(i as int));
        assert(t.last() == pooled@[i as int] as int);
        if !holds(seen, pooled[i]) && reachable[i] {
            let ghost before = out@;
            out.push(pooled[i]);
            assert(ints(out@) =~= ints(before).push(pooled@[i as int] as int));
        }
        i += 1;
    }
    assert(ints(pooled@).take(i as int) =~= ints(pooled@));
    proof {
        returned_lead_the_choice_set(ints(seen@), ints(pooled@), reachable@);
        assert forall|k: int| 0 <= k < seen@.len() implies out@[k] == seen@[k] by {
            assert(ints(out@).take(seen@.len() as int)[k] == ints(seen@)[k]);
        }
    }
    out
}

} // verus!
