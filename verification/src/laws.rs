//! What holds of every page, proved of the transition system.

use vstd::prelude::*;
use crate::collection::{item_count, item_lists, lemma_item_count_unique, lemma_row_of_collection, CollectionView};
use crate::ranking::lemma_ranking_found;
use crate::order::spec_order_key;
use crate::page::{built, count_true, is_built, offer, ActionView, Best, EngineView, Pending, ReplyView, RowView};

verus! {

/// Clearing a set flag takes one from the count.
pub proof fn lemma_count_after_clear(flags: Seq<bool>, place: int)
    requires
        0 <= place < flags.len(),
        flags[place],
    ensures
        count_true(flags.update(place, false)) + 1 == count_true(flags),
    decreases flags.len(),
{
    let cleared = flags.update(place, false);
    if place == flags.len() - 1 {
        assert(cleared.drop_last() =~= flags.drop_last());
    } else {
        assert(cleared.drop_last() =~= flags.drop_last().update(place, false));
        lemma_count_after_clear(flags.drop_last(), place);
    }
}

/// Where no flag is set the count is zero.
pub proof fn lemma_count_of_none(flags: Seq<bool>)
    requires
        forall|i: int| 0 <= i < flags.len() ==> !flags[i],
    ensures
        count_true(flags) == 0,
    decreases flags.len(),
{
    if flags.len() > 0 {
        lemma_count_of_none(flags.drop_last());
    }
}

/// What the next place of a search is: the first available place from
/// `from` on, and one whose potential the best in hand does not reach.
/// Without a best in hand, the search stops only where nothing is available.
pub proof fn lemma_probe(engine: EngineView, from: int, best: Best)
    requires
        engine.available.len() == engine.len(),
        0 <= from,
    ensures
        match engine.probe(from, best) {
            Some(place) => {
                &&& from <= place < engine.len()
                &&& engine.available[place]
                &&& forall|i: int| from <= i < place ==> !engine.available[i]
                &&& best matches Some((_, held)) ==> spec_order_key(held) < spec_order_key(
                    engine.potentials[place],
                )
            },
            None => best is None ==> forall|i: int| from <= i < engine.len() ==> !engine.available[i],
        },
    decreases engine.len() - from,
{
    if from < engine.len() && !engine.available[from] {
        lemma_probe(engine, from + 1, best);
    }
}

/// Emitting a row keeps the engine well formed.
pub proof fn lemma_emit_keeps_wf(engine: EngineView, place: int, scores: Seq<u64>)
    requires
        engine.wf_collections(),
        engine.wf_rows(),
        engine.rows.len() < engine.rows_wanted,
        engine.rows.len() + count_true(engine.available) == engine.pool,
        0 <= place < engine.len(),
        engine.available[place],
        !engine.collections[place].is_sorted ==> scores.len() == engine.collections[place].items.len(),
    ensures
        engine.emit(place, scores).0.wf(),
{
    let next = engine.emit(place, scores).0;
    lemma_count_after_clear(engine.available, place);
    assert forall|i: int, j: int| 0 <= i < j < next.len() implies #[trigger] next.in_order(i, j) by {
        assert(engine.in_order(i, j));
    }
    assert forall|r: int| 0 <= r < next.rows.len() implies {
        let at = #[trigger] next.picked[r];
        &&& 0 <= at < next.len()
        &&& !next.available[at]
        &&& next.rows[r].0 == next.indices[at]
        &&& next.rows[r].1 == next.collections[at].row(next.ranked_by[r], next.row_width as int)
        &&& !next.collections[at].is_sorted ==> next.ranked_by[r].len() == next.collections[at].items.len()
    } by {
        if r < engine.rows.len() {
            let at = engine.picked[r];
            assert(next.picked[r] == at);
            assert(next.rows[r] == engine.rows[r]);
            assert(next.ranked_by[r] == engine.ranked_by[r]);
        }
    }
    assert forall|r: int, s: int| 0 <= r < s < next.rows.len() implies next.picked[r] != next.picked[s] by {
        if s < engine.rows.len() {
            assert(engine.picked[r] != engine.picked[s]);
        } else {
            let at = engine.picked[r];
            assert(!engine.available[at]);
        }
    }
}

/// Going on with a search keeps the engine well formed.
pub proof fn lemma_search_keeps_wf(engine: EngineView, from: int, best: Best)
    requires
        engine.wf_collections(),
        engine.wf_rows(),
        engine.rows.len() < engine.rows_wanted,
        engine.rows.len() + count_true(engine.available) == engine.pool,
        0 <= from,
        best matches Some((held, _)) ==> held < from && held < engine.len() && engine.available[held as int],
    ensures
        engine.search(from, best).0.wf(),
{
    lemma_probe(engine, from, best);
    match engine.probe(from, best) {
        Some(place) => {
            let next = engine.search(from, best).0;
            assert forall|i: int, j: int| 0 <= i < j < next.len() implies #[trigger] next.in_order(i, j) by {
                assert(engine.in_order(i, j));
            }
            assert(next.wf_rows());
        },
        None => match best {
            None => {
                let next = engine.rested();
                assert forall|i: int, j: int| 0 <= i < j < next.len() implies #[trigger] next.in_order(i, j) by {
                    assert(engine.in_order(i, j));
                }
            },
            Some((chosen, _)) => {
                if engine.collections[chosen as int].is_sorted {
                    lemma_emit_keeps_wf(engine, chosen as int, Seq::empty());
                } else {
                    let next = engine.search(from, best).0;
                    assert forall|i: int, j: int| 0 <= i < j < next.len() implies #[trigger] next.in_order(
                        i,
                        j,
                    ) by {
                        assert(engine.in_order(i, j));
                    }
                    assert(next.wf_rows());
                }
            },
        },
    }
}

/// Beginning a page keeps the engine well formed.
pub proof fn lemma_begin_keeps_wf(engine: EngineView, num_rows: usize)
    requires
        engine.wf(),
    ensures
        engine.begin(num_rows).0.wf(),
{
    let fresh = EngineView { rows_wanted: num_rows, pool: count_true(engine.available), ..engine.rested() };
    assert forall|i: int, j: int| 0 <= i < j < fresh.len() implies #[trigger] fresh.in_order(i, j) by {
        assert(engine.in_order(i, j));
    }
    if num_rows == 0 {
        let next = fresh.rested();
        assert forall|i: int, j: int| 0 <= i < j < next.len() implies #[trigger] next.in_order(i, j) by {
            assert(engine.in_order(i, j));
        }
    } else {
        lemma_search_keeps_wf(fresh, 0, None);
    }
}

/// Every accepted reply keeps the engine well formed.
pub proof fn lemma_step_keeps_wf(engine: EngineView, reply: ReplyView)
    requires
        engine.wf(),
        engine.accepts(reply),
    ensures
        engine.step(reply).0.wf(),
{
    match (engine.pending, reply) {
        (Pending::Score(place), ReplyView::Score(score)) => {
            lemma_search_keeps_wf(engine, place + 1, offer(engine.best, place, score));
        },
        (Pending::Ranks(place), ReplyView::Ranks(scores)) => {
            lemma_emit_keeps_wf(engine, place as int, scores);
        },
        (Pending::Heat, ReplyView::Heated) => {
            if engine.rows.len() >= engine.rows_wanted {
                let next = engine.rested();
                assert forall|i: int, j: int| 0 <= i < j < next.len() implies #[trigger] next.in_order(i, j) by {
                    assert(engine.in_order(i, j));
                }
            } else {
                lemma_search_keeps_wf(engine, 0, None);
            }
        },
        _ => {},
    }
}

/// A reply changes no collection, index or potential, and makes no
/// collection available again.
pub proof fn lemma_step_keeps_collections(engine: EngineView, reply: ReplyView)
    requires
        engine.wf(),
        engine.accepts(reply),
    ensures
        ({
            let next = engine.step(reply).0;
            &&& next.collections == engine.collections
            &&& next.indices == engine.indices
            &&& next.potentials == engine.potentials
            &&& next.row_width == engine.row_width
            &&& next.num_items == engine.num_items
            &&& next.available.len() == engine.available.len()
            &&& forall|i: int| 0 <= i < engine.len() && !engine.available[i] ==> !next.available[i]
        }),
{
}

/// A page that ends on a reply holds as many rows as were asked for, or as
/// many as there were collections available when it began, whichever is
/// less; and it is the rows emitted.
pub proof fn lemma_page_length(engine: EngineView, reply: ReplyView)
    requires
        engine.wf(),
        engine.accepts(reply),
        engine.step(reply).1 is Finished,
    ensures
        engine.step(reply).1 == ActionView::Finished(engine.rows),
        engine.rows.len() == if engine.rows_wanted <= engine.pool {
            engine.rows_wanted as int
        } else {
            engine.pool as int
        },
{
    match (engine.pending, reply) {
        (Pending::Score(place), ReplyView::Score(score)) => {
            lemma_probe(engine, place + 1, offer(engine.best, place, score));
        },
        (Pending::Heat, ReplyView::Heated) => {
            if engine.rows.len() < engine.rows_wanted {
                lemma_probe(engine, 0, None);
                lemma_count_of_none(engine.available);
            }
        },
        _ => {},
    }
}

/// A page that ends as it begins is empty: no row was asked for, or no
/// collection was available.
pub proof fn lemma_empty_page(engine: EngineView, num_rows: usize)
    requires
        engine.wf(),
        engine.begin(num_rows).1 is Finished,
    ensures
        engine.begin(num_rows).1 == ActionView::Finished(Seq::<RowView>::empty()),
        num_rows == 0 || count_true(engine.available) == 0,
{
    if num_rows != 0 {
        let fresh = EngineView { rows_wanted: num_rows, pool: count_true(engine.available), ..engine.rested() };
        lemma_probe(fresh, 0, None);
        lemma_count_of_none(engine.available);
    }
}

/// No two rows of a page show the same collection.
pub proof fn lemma_rows_show_distinct_collections(engine: EngineView)
    requires
        engine.wf(),
    ensures
        forall|r: int, s: int| 0 <= r < s < engine.rows.len() ==> engine.rows[r].0 != engine.rows[s].0,
{
    assert forall|r: int, s: int| 0 <= r < s < engine.rows.len() implies engine.rows[r].0 != engine.rows[s].0 by {
        let a = engine.picked[r];
        let b = engine.picked[s];
        assert(a != b);
        if a < b {
            assert(engine.indices[a] != engine.indices[b]);
        } else {
            assert(engine.indices[b] != engine.indices[a]);
        }
    }
}

/// Row `r` of a page shows the collection at `picked[r]`, under the
/// caller's index of it. The row is no longer than the row width or the
/// collection; each of its entries is an item of the collection, below the
/// size of the item universe; it holds no item twice unless the collection
/// does; and the row of a sorted collection is the head of its items.
pub proof fn lemma_row_shape(engine: EngineView, r: int)
    requires
        engine.wf(),
        0 <= r < engine.rows.len(),
    ensures
        ({
            let place = engine.picked[r];
            let collection = engine.collections[place];
            let row = engine.rows[r].1;
            &&& 0 <= place < engine.len()
            &&& engine.rows[r].0 == engine.indices[place]
            &&& row.len() <= engine.row_width
            &&& row.len() <= collection.items.len()
            &&& row.len() == collection.row_len(engine.row_width as int)
            &&& forall|k: int| 0 <= k < row.len() ==> collection.items.contains(#[trigger] row[k])
            &&& forall|k: int| 0 <= k < row.len() ==> (#[trigger] row[k]) < engine.num_items
            &&& collection.items.no_duplicates() ==> row.no_duplicates()
            &&& collection.is_sorted ==> row == collection.items.take(collection.row_len(engine.row_width as int))
        }),
{
    let place = engine.picked[r];
    let collection = engine.collections[place];
    let row = engine.rows[r].1;
    assert(collection.wf());
    lemma_row_of_collection(collection, engine.ranked_by[r], engine.row_width as int);
    assert forall|k: int| 0 <= k < row.len() implies (#[trigger] row[k]) < engine.num_items by {
        assert(collection.items.contains(row[k]));
        let j = choose|j: int| 0 <= j < collection.items.len() && collection.items[j] == row[k];
        assert(engine.collections[place].items[j] < engine.num_items);
    }
}

/// The search as the engine makes it, place by place: where `probe` names a
/// place, the search goes on behind it with the score offered; where it
/// names none, the search ends with the best in hand.
pub proof fn lemma_pruned_best_follows_probe(engine: EngineView, scores: Seq<u64>, from: int, best: Best)
    requires
        engine.available.len() == engine.len(),
        0 <= from,
    ensures
        engine.pruned_best(scores, from, best) == match engine.probe(from, best) {
            Some(place) => engine.pruned_best(scores, place + 1, offer(best, place as usize, scores[place])),
            None => best,
        },
    decreases engine.len() - from,
{
    if from < engine.len() && !engine.available[from] {
        lemma_pruned_best_follows_probe(engine, scores, from + 1, best);
    }
}

/// A best that no later score exceeds stays the best to the end.
proof fn lemma_best_stays(engine: EngineView, scores: Seq<u64>, from: int, place: usize, held: u64)
    requires
        engine.available.len() == engine.len(),
        scores.len() == engine.len(),
        0 <= from,
        forall|i: int|
            from <= i < engine.len() && #[trigger] engine.available[i] ==> spec_order_key(scores[i])
                <= spec_order_key(held),
    ensures
        engine.exhaustive_best(scores, from, Some((place, held))) == Some((place, held)),
    decreases engine.len() - from,
{
    if from < engine.len() {
        if engine.available[from] {
            assert(spec_order_key(scores[from]) <= spec_order_key(held));
        }
        lemma_best_stays(engine, scores, from + 1, place, held);
    }
}

/// Where no live score exceeds the potential of its collection, the search
/// that stops at the first potential within reach of its best ends with the
/// same best as the search that asks for every score.
pub proof fn lemma_pruning_is_exact(engine: EngineView, scores: Seq<u64>, from: int, best: Best)
    requires
        engine.wf_collections(),
        scores.len() == engine.len(),
        0 <= from,
        forall|i: int|
            0 <= i < engine.len() && #[trigger] engine.available[i] ==> spec_order_key(scores[i])
                <= spec_order_key(engine.potentials[i]),
    ensures
        engine.pruned_best(scores, from, best) == engine.exhaustive_best(scores, from, best),
    decreases engine.len() - from,
{
    if from < engine.len() {
        if !engine.available[from] {
            lemma_pruning_is_exact(engine, scores, from + 1, best);
        } else if best is Some && spec_order_key(best.unwrap().1) >= spec_order_key(engine.potentials[from]) {
            let (place, held) = best.unwrap();
            assert forall|i: int| from <= i < engine.len() && #[trigger] engine.available[i] implies spec_order_key(
                scores[i],
            ) <= spec_order_key(held) by {
                if from < i {
                    assert(engine.in_order(from, i));
                }
            }
            lemma_best_stays(engine, scores, from, place, held);
        } else {
            lemma_pruning_is_exact(engine, scores, from + 1, offer(best, from as usize, scores[from]));
        }
    }
}

/// The search that asks for every score ends, from `from` on, with the
/// first of the largest scores among what it held and what it met.
proof fn lemma_exhaustive_best_from(engine: EngineView, scores: Seq<u64>, from: int, best: Best)
    requires
        engine.len() <= usize::MAX,
        engine.available.len() == engine.len(),
        scores.len() == engine.len(),
        0 <= from <= engine.len(),
        match best {
            Some((place, held)) => {
                &&& place < from
                &&& engine.available[place as int]
                &&& held == scores[place as int]
                &&& forall|i: int|
                    0 <= i < from && #[trigger] engine.available[i] ==> spec_order_key(scores[i])
                        <= spec_order_key(held)
                &&& forall|i: int|
                    0 <= i < place && #[trigger] engine.available[i] ==> spec_order_key(scores[i])
                        < spec_order_key(held)
            },
            None => forall|i: int| 0 <= i < from ==> !engine.available[i],
        },
    ensures
        match engine.exhaustive_best(scores, from, best) {
            Some((place, held)) => held == scores[place as int] && engine.is_first_maximum(scores, place as int),
            None => forall|i: int| 0 <= i < engine.len() ==> !engine.available[i],
        },
    decreases engine.len() - from,
{
    if from < engine.len() {
        if !engine.available[from] {
            lemma_exhaustive_best_from(engine, scores, from + 1, best);
        } else {
            lemma_exhaustive_best_from(engine, scores, from + 1, offer(best, from as usize, scores[from]));
        }
    }
}

/// Where no live score exceeds the potential of its collection, the
/// engine's search picks the first of the collections that score the most,
/// and none only where none is available.
pub proof fn lemma_search_finds_first_maximum(engine: EngineView, scores: Seq<u64>)
    requires
        engine.wf_collections(),
        scores.len() == engine.len(),
        forall|i: int|
            0 <= i < engine.len() && #[trigger] engine.available[i] ==> spec_order_key(scores[i])
                <= spec_order_key(engine.potentials[i]),
    ensures
        match engine.pruned_best(scores, 0, None) {
            Some((place, held)) => held == scores[place as int] && engine.is_first_maximum(scores, place as int),
            None => forall|i: int| 0 <= i < engine.len() ==> !engine.available[i],
        },
{
    lemma_pruning_is_exact(engine, scores, 0, None);
    lemma_exhaustive_best_from(engine, scores, 0, None);
}

/// The inputs of a construction determine the engine: two engines built
/// from the same collections, potentials and row width are one and the same.
pub proof fn lemma_construction_is_determined(
    a: EngineView,
    b: EngineView,
    collections: Seq<CollectionView>,
    potentials: Seq<u64>,
    row_width: usize,
)
    requires
        is_built(a, collections, potentials, row_width),
        is_built(b, collections, potentials, row_width),
    ensures
        a == b,
        a == built(collections, potentials, row_width),
{
    lemma_ranking_found(potentials, a.indices);
    lemma_ranking_found(potentials, b.indices);
    let lists = item_lists(collections);
    lemma_item_count_unique(lists, a.num_items as int, item_count(lists));
    lemma_item_count_unique(lists, b.num_items as int, item_count(lists));
}

/// Two engines in one state, given the same replies, pass through the same
/// states and hand out the same actions: nothing but the state and the
/// replies decides a page.
pub proof fn lemma_runs_agree(a: EngineView, b: EngineView, num_rows: usize, replies: Seq<ReplyView>)
    requires
        a == b,
    ensures
        a.begin(num_rows) == b.begin(num_rows),
        a.begin(num_rows).0.run(replies) == b.begin(num_rows).0.run(replies),
{
}

} // verus!
