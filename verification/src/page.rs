//! The page assembly as a transition system.
//!
//! The engine decides; it computes no score. Whenever a decision needs a
//! number, the engine hands out an `Action` that names it and waits for
//! the `Reply`. This module states, over plain values, what state and
//! action each reply leads to, and what holds of every state on the way.

use vstd::prelude::*;
use crate::collection::{is_item_count, item_count, item_lists, CollectionView};
use crate::ranking::{is_ranking, pick, ranking};
use crate::order::spec_order_key;

verus! {

/// What the engine waits for.
#[derive(Debug, Clone, Copy, PartialEq, Eq, Structural)]
pub enum Pending {
    /// Nothing: no page is being assembled.
    Idle,
    /// The live score of the collection at this place.
    Score(usize),
    /// The penalised item scores of the collection at this place.
    Ranks(usize),
    /// Word that the temperatures have been cooled and the last row heated.
    Heat,
}

/// A row: the caller's index of a collection, and the items shown.
pub type RowView = (usize, Seq<usize>);

/// What the engine asks of its driver.
pub enum ActionView {
    /// Compute the live score of the collection at this place.
    Score(usize),
    /// Compute the penalised item scores of the collection at this place.
    Rank(usize),
    /// Cool every temperature, then heat these items by one.
    Heat(Seq<usize>),
    /// The page is complete.
    Finished(Seq<RowView>),
}

/// What the driver answers.
pub enum ReplyView {
    /// A live score, as a binary64 bit pattern.
    Score(u64),
    /// Penalised item scores, one for each item of the collection.
    Ranks(Seq<u64>),
    /// The temperatures are updated.
    Heated,
}

/// The running best of a search: a place and the live score found there.
pub type Best = Option<(usize, u64)>;

/// The state of the engine.
pub struct EngineView {
    /// The collections, by descending potential.
    pub collections: Seq<CollectionView>,
    /// Whether each collection can still be shown.
    pub available: Seq<bool>,
    /// The potential of each collection, as a binary64 bit pattern.
    pub potentials: Seq<u64>,
    /// The caller's index of each collection.
    pub indices: Seq<usize>,
    /// The number of places in a row.
    pub row_width: usize,
    /// The size of the item universe.
    pub num_items: usize,
    /// What the engine waits for.
    pub pending: Pending,
    /// The number of rows asked for.
    pub rows_wanted: usize,
    /// The rows of the page so far.
    pub rows: Seq<RowView>,
    /// The running best of the search under way.
    pub best: Best,
    /// The place of the collection behind each row.
    pub picked: Seq<int>,
    /// The item scores by which each row was ranked.
    pub ranked_by: Seq<Seq<u64>>,
    /// How many collections were available when the page began.
    pub pool: nat,
}

/// How many entries of `flags` are set.
pub open spec fn count_true(flags: Seq<bool>) -> nat
    decreases flags.len(),
{
    if flags.len() == 0 {
        0
    } else {
        count_true(flags.drop_last()) + if flags.last() {
            1nat
        } else {
            0nat
        }
    }
}

/// The running best once the collection at `place` has scored `score`: the
/// newcomer where it is the first or strictly the larger.
pub open spec fn offer(best: Best, place: usize, score: u64) -> Best {
    match best {
        Some((_, held)) => if spec_order_key(score) > spec_order_key(held) {
            Some((place, score))
        } else {
            best
        },
        None => Some((place, score)),
    }
}

/// The engine as it stands once built from `collections` with their
/// `potentials`: the collections by descending potential, those of equal
/// potential in the caller's order, all available, and no page begun.
pub open spec fn built(collections: Seq<CollectionView>, potentials: Seq<u64>, row_width: usize) -> EngineView {
    let order = ranking(potentials);
    let len = collections.len();
    EngineView {
        collections: pick(collections, order, len as int),
        available: Seq::new(len, |i: int| true),
        potentials: pick(potentials, order, len as int),
        indices: order,
        row_width,
        num_items: item_count(item_lists(collections)) as usize,
        pending: Pending::Idle,
        rows_wanted: 0,
        rows: Seq::empty(),
        best: None,
        picked: Seq::empty(),
        ranked_by: Seq::empty(),
        pool: 0,
    }
}

/// `engine` is as an engine stands once built from `collections` with their
/// `potentials`: it holds the collections by descending potential, those of
/// equal potential in the caller's order, with the caller's index of each;
/// its item universe is the least that holds every item; every collection
/// is available and no page is begun.
pub open spec fn is_built(
    engine: EngineView,
    collections: Seq<CollectionView>,
    potentials: Seq<u64>,
    row_width: usize,
) -> bool {
    let len = collections.len();
    &&& potentials.len() == len
    &&& is_ranking(potentials, engine.indices)
    &&& engine.collections == pick(collections, engine.indices, len as int)
    &&& engine.potentials == pick(potentials, engine.indices, len as int)
    &&& engine.available == Seq::new(len, |i: int| true)
    &&& is_item_count(item_lists(collections), engine.num_items as int)
    &&& engine.row_width == row_width
    &&& engine.pending == Pending::Idle
    &&& engine.rows_wanted == 0
    &&& engine.rows == Seq::<RowView>::empty()
    &&& engine.best is None
    &&& engine.picked == Seq::<int>::empty()
    &&& engine.ranked_by == Seq::<Seq<u64>>::empty()
    &&& engine.pool == 0
}

impl EngineView {
    /// The number of collections.
    pub open spec fn len(self) -> int {
        self.collections.len() as int
    }

    /// Place `a` stands before place `b`: its potential is the larger, or
    /// the potentials order alike and the caller listed it first.
    pub open spec fn in_order(self, a: int, b: int) -> bool {
        let key_a = spec_order_key(self.potentials[a]);
        let key_b = spec_order_key(self.potentials[b]);
        key_a > key_b || (key_a == key_b && self.indices[a] < self.indices[b])
    }

    /// What holds of the collections and their order from construction on.
    pub open spec fn wf_collections(self) -> bool {
        &&& self.len() <= usize::MAX
        &&& self.available.len() == self.len()
        &&& self.potentials.len() == self.len()
        &&& self.indices.len() == self.len()
        &&& forall|i: int| 0 <= i < self.len() ==> (#[trigger] self.collections[i]).wf()
        &&& forall|i: int, j: int|
            0 <= i < self.len() && 0 <= j < self.collections[i].items.len() ==> (
            #[trigger] self.collections[i].items[j]) < self.num_items
        &&& forall|i: int| 0 <= i < self.len() ==> (#[trigger] self.indices[i]) < self.len()
        &&& forall|i: int, j: int| 0 <= i < j < self.len() ==> #[trigger] self.in_order(i, j)
        &&& forall|i: int, j: int|
            0 <= i < j < self.len() ==> (#[trigger] self.indices[i]) != (#[trigger] self.indices[j])
    }

    /// What holds of the rows of the page so far.
    pub open spec fn wf_rows(self) -> bool {
        &&& self.rows.len() <= self.rows_wanted
        &&& self.picked.len() == self.rows.len()
        &&& self.ranked_by.len() == self.rows.len()
        &&& forall|r: int|
            0 <= r < self.rows.len() ==> {
                let place = #[trigger] self.picked[r];
                &&& 0 <= place < self.len()
                &&& !self.available[place]
                &&& self.rows[r].0 == self.indices[place]
                &&& self.rows[r].1 == self.collections[place].row(self.ranked_by[r], self.row_width as int)
                &&& !self.collections[place].is_sorted ==> self.ranked_by[r].len()
                    == self.collections[place].items.len()
            }
        &&& forall|r: int, s: int| 0 <= r < s < self.rows.len() ==> self.picked[r] != self.picked[s]
    }

    /// What holds of the request under way.
    pub open spec fn wf_pending(self) -> bool {
        match self.pending {
            Pending::Idle => self.rows.len() == 0 && self.best is None,
            Pending::Score(place) => {
                &&& place < self.len()
                &&& self.available[place as int]
                &&& self.rows.len() < self.rows_wanted
                &&& self.best matches Some((held, _)) ==> held < place && self.available[held as int]
            },
            Pending::Ranks(place) => {
                &&& place < self.len()
                &&& self.available[place as int]
                &&& !self.collections[place as int].is_sorted
                &&& self.rows.len() < self.rows_wanted
                &&& self.best is None
            },
            Pending::Heat => self.rows.len() >= 1 && self.best is None,
        }
    }

    /// Every state that the engine reaches is well formed.
    pub open spec fn wf(self) -> bool {
        &&& self.wf_collections()
        &&& self.wf_rows()
        &&& self.wf_pending()
        &&& self.pending != Pending::Idle ==> self.rows.len() + count_true(self.available) == self.pool
    }

    /// Where the search goes next from `from` with `best` in hand: to the
    /// first available collection, unless there is none, or the best
    /// already reaches its potential.
    pub open spec fn probe(self, from: int, best: Best) -> Option<int>
        decreases self.len() - from,
    {
        if from < 0 || from >= self.len() {
            None
        } else if !self.available[from] {
            self.probe(from + 1, best)
        } else if best matches Some((_, held)) && spec_order_key(held) >= spec_order_key(self.potentials[from]) {
            None
        } else {
            Some(from)
        }
    }

    /// The best that a search from `from` ends with when the collection at
    /// each place scores `scores` of that place.
    pub open spec fn pruned_best(self, scores: Seq<u64>, from: int, best: Best) -> Best
        decreases self.len() - from,
    {
        if from < 0 || from >= self.len() {
            best
        } else if !self.available[from] {
            self.pruned_best(scores, from + 1, best)
        } else if best matches Some((_, held)) && spec_order_key(held) >= spec_order_key(self.potentials[from]) {
            best
        } else {
            self.pruned_best(scores, from + 1, offer(best, from as usize, scores[from]))
        }
    }

    /// The best that a search from `from` would end with if it asked for the
    /// score of every available collection, whatever its potential.
    pub open spec fn exhaustive_best(self, scores: Seq<u64>, from: int, best: Best) -> Best
        decreases self.len() - from,
    {
        if from < 0 || from >= self.len() {
            best
        } else if !self.available[from] {
            self.exhaustive_best(scores, from + 1, best)
        } else {
            self.exhaustive_best(scores, from + 1, offer(best, from as usize, scores[from]))
        }
    }

    /// `place` is available and scores the most, and it is the first place
    /// to do so.
    pub open spec fn is_first_maximum(self, scores: Seq<u64>, place: int) -> bool {
        &&& 0 <= place < self.len()
        &&& self.available[place]
        &&& forall|i: int|
            0 <= i < self.len() && #[trigger] self.available[i] ==> spec_order_key(scores[i]) <= spec_order_key(
                scores[place],
            )
        &&& forall|i: int|
            0 <= i < place && #[trigger] self.available[i] ==> spec_order_key(scores[i]) < spec_order_key(
                scores[place],
            )
    }

    /// The state and the actions that a sequence of replies leads to, each
    /// reply that the engine does not accept passed over.
    pub open spec fn run(self, replies: Seq<ReplyView>) -> (EngineView, Seq<ActionView>)
        decreases replies.len(),
    {
        if replies.len() == 0 {
            (self, Seq::empty())
        } else {
            let (before, actions) = self.run(replies.drop_last());
            if before.accepts(replies.last()) {
                let (after, action) = before.step(replies.last());
                (after, actions.push(action))
            } else {
                (before, actions)
            }
        }
    }

    /// The state in which no page is being assembled.
    pub open spec fn rested(self) -> EngineView {
        EngineView {
            pending: Pending::Idle,
            rows: Seq::empty(),
            picked: Seq::empty(),
            ranked_by: Seq::empty(),
            best: None,
            ..self
        }
    }

    /// Hands out the page.
    pub open spec fn finish(self) -> (EngineView, ActionView) {
        (self.rested(), ActionView::Finished(self.rows))
    }

    /// Emits the row of the collection at `place`, ranked by `scores`.
    pub open spec fn emit(self, place: int, scores: Seq<u64>) -> (EngineView, ActionView) {
        let row = self.collections[place].row(scores, self.row_width as int);
        (
            EngineView {
                available: self.available.update(place, false),
                rows: self.rows.push((self.indices[place], row)),
                picked: self.picked.push(place),
                ranked_by: self.ranked_by.push(scores),
                pending: Pending::Heat,
                best: None,
                ..self
            },
            ActionView::Heat(row),
        )
    }

    /// Goes on with the search at `from`, with `best` in hand. Where the
    /// search ends, the best collection gives the next row; where there is
    /// none, the page ends.
    pub open spec fn search(self, from: int, best: Best) -> (EngineView, ActionView) {
        match self.probe(from, best) {
            Some(place) => (
                EngineView { pending: Pending::Score(place as usize), best, ..self },
                ActionView::Score(place as usize),
            ),
            None => match best {
                None => self.finish(),
                Some((chosen, _)) => if self.collections[chosen as int].is_sorted {
                    self.emit(chosen as int, Seq::empty())
                } else {
                    (
                        EngineView { pending: Pending::Ranks(chosen), best: None, ..self },
                        ActionView::Rank(chosen),
                    )
                },
            },
        }
    }

    /// Begins a page of up to `num_rows` rows; a page under way is dropped.
    pub open spec fn begin(self, num_rows: usize) -> (EngineView, ActionView) {
        let fresh = EngineView {
            rows_wanted: num_rows,
            pool: count_true(self.available),
            ..self.rested()
        };
        if num_rows == 0 {
            fresh.finish()
        } else {
            fresh.search(0, None)
        }
    }

    /// Whether `reply` answers what the engine waits for.
    pub open spec fn accepts(self, reply: ReplyView) -> bool {
        match (self.pending, reply) {
            (Pending::Score(_), ReplyView::Score(_)) => true,
            (Pending::Ranks(place), ReplyView::Ranks(scores)) => scores.len()
                == self.collections[place as int].items.len(),
            (Pending::Heat, ReplyView::Heated) => true,
            _ => false,
        }
    }

    /// The state and the action that `reply` leads to. A reply that the
    /// engine does not accept changes nothing.
    pub open spec fn step(self, reply: ReplyView) -> (EngineView, ActionView)
        recommends
            self.accepts(reply),
    {
        match (self.pending, reply) {
            (Pending::Score(place), ReplyView::Score(score)) => self.search(
                place + 1,
                offer(self.best, place, score),
            ),
            (Pending::Ranks(place), ReplyView::Ranks(scores)) => self.emit(place as int, scores),
            (Pending::Heat, ReplyView::Heated) => if self.rows.len() >= self.rows_wanted {
                self.finish()
            } else {
                self.search(0, None)
            },
            _ => (self, ActionView::Finished(Seq::empty())),
        }
    }
}

} // verus!
