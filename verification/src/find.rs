//! First matches: the first position at which a condition holds, and the first place a name
//! stands in a list of names.
use vstd::prelude::*;

verus! {

/// The first position at which `b` holds, if any.
pub open spec fn first_true(b: Seq<bool>) -> Option<int>
    decreases b.len(),
{
    if b.len() == 0 {
        None
    } else {
        match first_true(b.drop_last()) {
            Some(i) => Some(i),
            None => if b.last() {
                Some(b.len() - 1)
            } else {
                None
            },
        }
    }
}

/// Scanning `b` from the front: past a prefix where nothing holds, the next position either holds,
/// and is the first that does, or extends the prefix.
pub proof fn lemma_first_true_step(b: Seq<bool>, i: int)
    requires
        0 <= i < b.len(),
        first_true(b.take(i)) is None,
    ensures
        b[i] ==> first_true(b) == Some(i),
        !b[i] ==> first_true(b.take(i + 1)) is None,
    decreases b.len(),
{
    assert(b.take(i + 1).drop_last() =~= b.take(i));
    if b.len() == i + 1 {
        assert(b.take(i + 1) =~= b);
    } else {
        let d = b.drop_last();
        assert(d.take(i) =~= b.take(i));
        lemma_first_true_step(d, i);
    }
}

pub proof fn lemma_first_true_whole(b: Seq<bool>)
    ensures
        first_true(b.take(b.len() as int)) == first_true(b),
{
    assert(b.take(b.len() as int) =~= b);
}

pub proof fn lemma_first_true_found(b: Seq<bool>)
    ensures
        first_true(b) matches Some(i) ==> 0 <= i < b.len() && b[i],
    decreases b.len(),
{
    if b.len() > 0 {
        lemma_first_true_found(b.drop_last());
    }
}

/// Where `t` first stands among `names`.
pub open spec fn index_of(names: Seq<String>, t: Seq<char>) -> Option<int> {
    first_true(hits(names, t))
}

pub open spec fn hits(names: Seq<String>, t: Seq<char>) -> Seq<bool> {
    names.map_values(|x: String| x@ == t)
}

pub proof fn lemma_index_of_bounds(names: Seq<String>, t: Seq<char>)
    ensures
        index_of(names, t) matches Some(i) ==> 0 <= i < names.len(),
{
    lemma_first_true_found(hits(names, t));
}

pub fn position(names: &Vec<String>, t: &str) -> (r: Option<usize>)
    ensures
        r is None <==> index_of(names@, t@) is None,
        r matches Some(j) ==> index_of(names@, t@) == Some(j as int),
{
    let ghost b = hits(names@, t@);
    let mut i: usize = 0;
    assert(b.take(0) =~= Seq::<bool>::empty());
    while i < names.len()
        invariant
            i <= names@.len(),
            b == hits(names@, t@),
            first_true(b.take(i as int)) is None,
        decreases names@.len() - i,
    {
        proof {
            lemma_first_true_step(b, i as int);
        }
        if crate::text::same_text(names[i].as_str(), t) {
            return Some(i);
        }
        i += 1;
    }
    proof {
        lemma_first_true_whole(b);
    }
    None
}

} // verus!
