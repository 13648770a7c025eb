//! Ranking the positions of a score sequence: the larger score first and,
//! among equal scores, the earlier position first.
//!
//! The ranking of a sequence is unique (`lemma_ranking_unique`), so a
//! contract that names it pins its result. It is computed by a merge sort on
//! positions, which never moves a score.

use vstd::prelude::*;
use vstd::set_lib::{lemma_int_range, lemma_subset_equality, set_int_range};
use crate::order::{spec_order_key, order_key};

verus! {

/// Position `a` comes before position `b`: its score is the larger, or the
/// scores order alike and `a` is the earlier position.
pub open spec fn precedes(scores: Seq<u64>, a: int, b: int) -> bool {
    let key_a = spec_order_key(scores[a]);
    let key_b = spec_order_key(scores[b]);
    key_a > key_b || (key_a == key_b && a < b)
}

/// `run` lists positions from `lo` up to `hi`, one for each place, every one
/// before all that follow it.
pub open spec fn is_run(scores: Seq<u64>, lo: int, hi: int, run: Seq<usize>) -> bool {
    &&& run.len() == hi - lo
    &&& forall|i: int| 0 <= i < run.len() ==> lo <= (#[trigger] run[i]) < hi
    &&& forall|i: int, j: int|
        0 <= i < j < run.len() ==> precedes(scores, (#[trigger] run[i]) as int, (#[trigger] run[j]) as int)
}

/// `order` is the ranking of `scores`: all its positions, best first.
pub open spec fn is_ranking(scores: Seq<u64>, order: Seq<usize>) -> bool {
    is_run(scores, 0, scores.len() as int, order)
}

/// The ranking of `scores`.
pub open spec fn ranking(scores: Seq<u64>) -> Seq<usize> {
    choose|order: Seq<usize>| is_ranking(scores, order)
}

/// The values of `source` at the first `count` places of `order`.
pub open spec fn pick<T>(source: Seq<T>, order: Seq<usize>, count: int) -> Seq<T> {
    Seq::new(count as nat, |k: int| source[order[k] as int])
}

/// How many entries a row of width `width` takes from `len` candidates.
pub open spec fn row_len(len: int, width: int) -> int {
    if width < len {
        width
    } else {
        len
    }
}

/// A run holds no position twice.
pub proof fn lemma_run_is_injective(scores: Seq<u64>, lo: int, hi: int, run: Seq<usize>)
    requires
        is_run(scores, lo, hi, run),
    ensures
        forall|i: int, j: int| 0 <= i < run.len() && 0 <= j < run.len() && i != j ==> run[i] != run[j],
{
    assert forall|i: int, j: int| 0 <= i < run.len() && 0 <= j < run.len() && i != j implies run[i]
        != run[j] by {
        if i < j {
            assert(precedes(scores, run[i] as int, run[j] as int));
        } else {
            assert(precedes(scores, run[j] as int, run[i] as int));
        }
    }
}

/// A ranking holds every position of its sequence.
pub proof fn lemma_ranking_is_onto(scores: Seq<u64>, order: Seq<usize>, position: int)
    requires
        is_ranking(scores, order),
        0 <= position < scores.len(),
    ensures
        exists|i: int| 0 <= i < order.len() && order[i] == position,
{
    let n = scores.len() as int;
    let places = order.map_values(|p: usize| p as int);
    lemma_run_is_injective(scores, 0, n, order);
    assert(places.no_duplicates());
    places.unique_seq_to_set();
    lemma_int_range(0, n);
    assert(places.to_set().subset_of(set_int_range(0, n))) by {
        assert forall|v: int| places.to_set().contains(v) implies set_int_range(0, n).contains(v) by {
            let i = choose|i: int| 0 <= i < places.len() && places[i] == v;
            assert(places[i] == order[i] as int);
        }
    }
    lemma_subset_equality(places.to_set(), set_int_range(0, n));
    assert(set_int_range(0, n).contains(position));
    assert(places.to_set().contains(position));
    let i = choose|i: int| 0 <= i < places.len() && places[i] == position;
    assert(order[i] == position);
}

/// Two rankings of one sequence agree on their first `upto` places.
proof fn lemma_rankings_agree_upto(scores: Seq<u64>, p: Seq<usize>, q: Seq<usize>, upto: int)
    requires
        is_ranking(scores, p),
        is_ranking(scores, q),
        0 <= upto <= scores.len(),
    ensures
        forall|i: int| 0 <= i < upto ==> p[i] == q[i],
    decreases upto,
{
    if upto > 0 {
        let k = upto - 1;
        lemma_rankings_agree_upto(scores, p, q, k);
        if p[k] != q[k] {
            let n = scores.len() as int;
            lemma_run_is_injective(scores, 0, n, p);
            lemma_run_is_injective(scores, 0, n, q);
            lemma_ranking_is_onto(scores, q, p[k] as int);
            let j = choose|j: int| 0 <= j < q.len() && q[j] == p[k];
            lemma_ranking_is_onto(scores, p, q[k] as int);
            let m = choose|m: int| 0 <= m < p.len() && p[m] == q[k];
            assert(j > k) by {
                if j < k {
                    assert(p[j] == q[j]);
                }
            }
            assert(m > k) by {
                if m < k {
                    assert(p[m] == q[m]);
                }
            }
            assert(precedes(scores, q[k] as int, q[j] as int));
            assert(precedes(scores, p[k] as int, p[m] as int));
        }
    }
}

/// A sequence has one ranking only.
pub proof fn lemma_ranking_unique(scores: Seq<u64>, p: Seq<usize>, q: Seq<usize>)
    requires
        is_ranking(scores, p),
        is_ranking(scores, q),
    ensures
        p == q,
{
    lemma_rankings_agree_upto(scores, p, q, scores.len() as int);
    assert(p =~= q);
}

/// Any ranking of `scores` is `ranking(scores)`.
pub proof fn lemma_ranking_found(scores: Seq<u64>, order: Seq<usize>)
    requires
        is_ranking(scores, order),
    ensures
        ranking(scores) == order,
        is_ranking(scores, ranking(scores)),
{
    lemma_ranking_unique(scores, ranking(scores), order);
}

/// The place at which a new last position with key `key` enters `order`:
/// behind every entry whose key is no smaller, before all the others.
proof fn lemma_insertion_place(scores: Seq<u64>, order: Seq<usize>, key: int, upto: int) -> (place: int)
    requires
        is_ranking(scores, order),
        0 <= upto <= order.len(),
    ensures
        0 <= place <= upto,
        forall|i: int| 0 <= i < place ==> spec_order_key(scores[(#[trigger] order[i]) as int]) >= key,
        forall|i: int| place <= i < upto ==> spec_order_key(scores[(#[trigger] order[i]) as int]) < key,
    decreases upto,
{
    if upto == 0 {
        0
    } else {
        let last = upto - 1;
        if spec_order_key(scores[order[last] as int]) >= key {
            assert forall|i: int| 0 <= i < upto implies spec_order_key(scores[(#[trigger] order[i]) as int])
                >= key by {
                if i < last {
                    assert(precedes(scores, order[i] as int, order[last] as int));
                }
            }
            upto
        } else {
            lemma_insertion_place(scores, order, key, last)
        }
    }
}

/// Every sequence whose positions are machine indices has a ranking.
pub proof fn lemma_ranking_exists(scores: Seq<u64>)
    requires
        scores.len() <= usize::MAX,
    ensures
        is_ranking(scores, ranking(scores)),
    decreases scores.len(),
{
    if scores.len() == 0 {
        assert(is_ranking(scores, Seq::<usize>::empty()));
    } else {
        let n = scores.len() as int;
        let shorter = scores.drop_last();
        lemma_ranking_exists(shorter);
        let before = ranking(shorter);
        let key = spec_order_key(scores[n - 1]);
        let place = lemma_insertion_place(shorter, before, key, n - 1);
        let order = before.insert(place, (n - 1) as usize);
        assert forall|i: int, j: int| 0 <= i < j < order.len() implies precedes(
            scores,
            (#[trigger] order[i]) as int,
            (#[trigger] order[j]) as int,
        ) by {
            if j < place {
                assert(precedes(shorter, before[i] as int, before[j] as int));
            } else if j == place {
                assert(spec_order_key(shorter[before[i] as int]) >= key);
            } else if i < place {
                assert(precedes(shorter, before[i] as int, before[j - 1] as int));
            } else if i == place {
                assert(spec_order_key(shorter[before[j - 1] as int]) < key);
            } else {
                assert(precedes(shorter, before[i - 1] as int, before[j - 1] as int));
            }
        }
        assert(is_ranking(scores, order));
    }
}

/// Merges the run of `lo..mid` with the run of `mid..hi`.
fn merge_runs(scores: &[u64], left: &Vec<usize>, right: &Vec<usize>, lo: usize, mid: usize, hi: usize) -> (run:
    Vec<usize>)
    requires
        lo <= mid <= hi <= scores.len(),
        is_run(scores@, lo as int, mid as int, left@),
        is_run(scores@, mid as int, hi as int, right@),
    ensures
        is_run(scores@, lo as int, hi as int, run@),
{
    let mut run: Vec<usize> = Vec::with_capacity(hi - lo);
    let mut i: usize = 0;
    let mut j: usize = 0;
    while i < left.len() || j < right.len()
        invariant
            lo <= mid <= hi <= scores.len(),
            is_run(scores@, lo as int, mid as int, left@),
            is_run(scores@, mid as int, hi as int, right@),
            i <= left.len(),
            j <= right.len(),
            run.len() == i + j,
            forall|a: int| 0 <= a < run.len() ==> lo <= (#[trigger] run[a]) < hi,
            forall|a: int, b: int|
                0 <= a < b < run.len() ==> precedes(scores@, (#[trigger] run[a]) as int, (#[trigger] run[b]) as int),
            forall|a: int, b: int|
                0 <= a < run.len() && i <= b < left.len() ==> precedes(
                    scores@,
                    (#[trigger] run[a]) as int,
                    (#[trigger] left[b]) as int,
                ),
            forall|a: int, b: int|
                0 <= a < run.len() && j <= b < right.len() ==> precedes(
                    scores@,
                    (#[trigger] run[a]) as int,
                    (#[trigger] right[b]) as int,
                ),
        decreases left.len() - i + right.len() - j,
    {
        let take_left: bool = if i == left.len() {
            false
        } else if j == right.len() {
            true
        } else {
            order_key(scores[left[i]]) >= order_key(scores[right[j]])
        };
        if take_left {
            let position: usize = left[i];
            proof {
                assert forall|b: int| j <= b < right.len() implies precedes(
                    scores@,
                    position as int,
                    (#[trigger] right[b]) as int,
                ) by {
                    if b > j {
                        assert(precedes(scores@, right[j as int] as int, right[b] as int));
                    }
                }
                assert forall|b: int| i + 1 <= b < left.len() implies precedes(
                    scores@,
                    position as int,
                    (#[trigger] left[b]) as int,
                ) by {
                    assert(precedes(scores@, left[i as int] as int, left[b] as int));
                }
            }
            run.push(position);
            i = i + 1;
        } else {
            let position: usize = right[j];
            proof {
                assert forall|b: int| i <= b < left.len() implies precedes(
                    scores@,
                    position as int,
                    (#[trigger] left[b]) as int,
                ) by {
                    if b > i {
                        assert(precedes(scores@, left[i as int] as int, left[b] as int));
                    }
                }
                assert forall|b: int| j + 1 <= b < right.len() implies precedes(
                    scores@,
                    position as int,
                    (#[trigger] right[b]) as int,
                ) by {
                    assert(precedes(scores@, right[j as int] as int, right[b] as int));
                }
            }
            run.push(position);
            j = j + 1;
        }
    }
    run
}

/// The run of the positions `lo..hi`.
fn rank_range(scores: &[u64], lo: usize, hi: usize) -> (run: Vec<usize>)
    requires
        lo <= hi <= scores.len(),
    ensures
        is_run(scores@, lo as int, hi as int, run@),
    decreases hi - lo,
{
    if hi - lo <= 1 {
        let mut run: Vec<usize> = Vec::new();
        if lo < hi {
            run.push(lo);
        }
        run
    } else {
        let mid: usize = lo + (hi - lo) / 2;
        let left = rank_range(scores, lo, mid);
        let right = rank_range(scores, mid, hi);
        merge_runs(scores, &left, &right, lo, mid, hi)
    }
}

/// Ranks the positions of `scores`: the larger score first, equal scores in
/// the order in which they stand.
pub fn rank_descending(scores: &[u64]) -> (order: Vec<usize>)
    ensures
        is_ranking(scores@, order@),
        order@ == ranking(scores@),
{
    let order = rank_range(scores, 0, scores.len());
    proof {
        lemma_ranking_found(scores@, order@);
    }
    order
}

/// The scores in descending order, equal ones in the order in which they
/// stood.
pub fn sort_descending(scores: &[u64]) -> (sorted: Vec<u64>)
    ensures
        is_ranking(scores@, ranking(scores@)),
        sorted@ == pick(scores@, ranking(scores@), scores.len() as int),
{
    let order = rank_descending(scores);
    let mut sorted: Vec<u64> = Vec::with_capacity(order.len());
    let mut k: usize = 0;
    while k < order.len()
        invariant
            is_ranking(scores@, order@),
            k <= order.len(),
            sorted.len() == k,
            forall|a: int| 0 <= a < k ==> sorted[a] == scores[order[a] as int],
        decreases order.len() - k,
    {
        sorted.push(scores[order[k]]);
        k = k + 1;
    }
    assert(sorted@ =~= pick(scores@, order@, scores.len() as int));
    sorted
}

/// The first `row_len(items.len(), top_k)` entries of `items`, taken in the
/// ranking of `scores`.
pub fn item_indices(scores: &[u64], items: &[usize], top_k: usize) -> (row: Vec<usize>)
    requires
        scores.len() == items.len(),
    ensures
        is_ranking(scores@, ranking(scores@)),
        row@ == pick(items@, ranking(scores@), row_len(items.len() as int, top_k as int)),
{
    let order = rank_descending(scores);
    let count: usize = if top_k < items.len() {
        top_k
    } else {
        items.len()
    };
    let mut row: Vec<usize> = Vec::with_capacity(count);
    let mut k: usize = 0;
    while k < count
        invariant
            is_ranking(scores@, order@),
            scores.len() == items.len(),
            count <= items.len(),
            k <= count,
            row.len() == k,
            forall|a: int| 0 <= a < k ==> row[a] == items[order[a] as int],
        decreases count - k,
    {
        row.push(items[order[k]]);
        k = k + 1;
    }
    assert(row@ =~= pick(items@, order@, count as int));
    row
}

} // verus!
