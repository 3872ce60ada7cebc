//! The one ordering every ranked list here uses: largest key first, and among equal keys the
//! order the items came in — what a stable sort by a descending key produces.
use vstd::prelude::*;
use vstd::set_lib::{lemma_int_range, lemma_subset_equality, set_int_range};

verus! {

/// `a` comes before `b`: a larger key, or the same key and an earlier position.
pub open spec fn desc_before(keys: Seq<u128>, a: int, b: int) -> bool {
    keys[a] > keys[b] || (keys[a] == keys[b] && a < b)
}

/// `order` lists every position of `keys` once, largest key first, ties in position order.
pub open spec fn is_desc_order(keys: Seq<u128>, order: Seq<usize>) -> bool {
    &&& order.len() == keys.len()
    &&& forall|i: int| 0 <= i < order.len() ==> #[trigger] order[i] < keys.len()
    &&& forall|i: int, j: int| 0 <= i < j < order.len() ==> desc_before(keys, order[i] as int, order[j] as int)
}

/// Positions of `keys`, ordered as a stable sort by descending key orders them.
pub fn order_desc(keys: &Vec<u128>) -> (order: Vec<usize>)
    ensures
        is_desc_order(keys@, order@),
{
    let mut order: Vec<usize> = Vec::new();
    let mut k: usize = 0;
    while k < keys.len()
        invariant
            0 <= k <= keys@.len(),
            order@.len() == k,
            forall|i: int| 0 <= i < order@.len() ==> #[trigger] order@[i] < k,
            forall|i: int, j: int| 0 <= i < j < order@.len() ==> desc_before(keys@, order@[i] as int, order@[j] as int),
        decreases keys@.len() - k,
    {
        let mut p: usize = 0;
        while p < order.len() && keys[order[p]] >= keys[k]
            invariant
                0 <= p <= order@.len(),
                k < keys@.len(),
                forall|i: int| 0 <= i < order@.len() ==> #[trigger] order@[i] < k,
                forall|i: int| 0 <= i < p ==> keys@[#[trigger] order@[i] as int] >= keys@[k as int],
            decreases order@.len() - p,
        {
            p += 1;
        }
        let ghost before = order@;
        proof {
            if p < before.len() {
                assert(keys@[before[p as int] as int] < keys@[k as int]);
                assert forall|j: int| p <= j < before.len() implies keys@[#[trigger] before[j] as int] < keys@[k as int] by {
                    if j > p {
                        assert(desc_before(keys@, before[p as int] as int, before[j] as int));
                    }
                }
            }
        }
        order.insert(p, k);
        assert forall|i: int, j: int| 0 <= i < j < order@.len() implies desc_before(keys@, order@[i] as int, order@[j] as int) by {
            if j < p {
                assert(order@[i] == before[i] && order@[j] == before[j]);
            } else if j == p {
                assert(order@[i] == before[i]);
            } else if i == p {
                assert(order@[j] == before[j - 1]);
            } else if i < p {
                assert(order@[i] == before[i] && order@[j] == before[j - 1]);
            } else {
                assert(order@[i] == before[i - 1] && order@[j] == before[j - 1]);
            }
        }
        assert forall|i: int| 0 <= i < order@.len() implies #[trigger] order@[i] < k + 1 by {
            if i < p {
                assert(order@[i] == before[i]);
            } else if i > p {
                assert(order@[i] == before[i - 1]);
            }
        }
        k += 1;
    }
    order
}

/// A descending order lists every position: none is left out.
pub proof fn lemma_desc_order_covers(keys: Seq<u128>, order: Seq<usize>, k: int)
    requires
        is_desc_order(keys, order),
        0 <= k < keys.len(),
    ensures
        exists|i: int| 0 <= i < order.len() && order[i] == k,
{
    let n = keys.len() as int;
    let o = order.map_values(|x: usize| x as int);
    assert(o.no_duplicates()) by {
        assert forall|i: int, j: int| 0 <= i < o.len() && 0 <= j < o.len() && i != j implies o[i] != o[j] by {
            if i < j {
                assert(desc_before(keys, order[i] as int, order[j] as int));
            } else {
                assert(desc_before(keys, order[j] as int, order[i] as int));
            }
        }
    }
    o.unique_seq_to_set();
    lemma_int_range(0, n);
    assert(o.to_set().subset_of(set_int_range(0, n))) by {
        assert forall|x: int| o.to_set().contains(x) implies set_int_range(0, n).contains(x) by {
            let i = choose|i: int| 0 <= i < o.len() && o[i] == x;
            assert(order[i] < keys.len());
        }
    }
    lemma_subset_equality(o.to_set(), set_int_range(0, n));
    assert(set_int_range(0, n).contains(k));
    assert(o.to_set().contains(k));
    let i = choose|i: int| 0 <= i < o.len() && o[i] == k;
    assert(order[i] == k);
}

/// The first of a descending order holds the largest key.
pub proof fn lemma_desc_order_first_is_max(keys: Seq<u128>, order: Seq<usize>, k: int)
    requires
        is_desc_order(keys, order),
        0 <= k < keys.len(),
    ensures
        keys[k] <= keys[order[0] as int],
{
    lemma_desc_order_covers(keys, order, k);
    let i = choose|i: int| 0 <= i < order.len() && order[i] == k;
    if i > 0 {
        assert(desc_before(keys, order[0] as int, order[i] as int));
    }
}

} // verus!
