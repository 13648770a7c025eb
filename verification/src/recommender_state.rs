//! The page-assembly engine.
//!
//! `RecommenderState` holds the collections by descending potential and
//! assembles a page row by row. It never computes a score: it asks its
//! driver for each one (`Action`) and goes on when the driver answers
//! (`Reply`). What each reply leads to is `EngineView::step`; every function
//! here is proved to do exactly that.

use vstd::prelude::*;
use vstd::slice::slice_to_vec;
use crate::collection::{
    collection_views, is_item_count, item_count, item_lists, lemma_item_count_grows, lemma_item_count_unique,
    raise_count, Collection, ConfigError,
};
use crate::laws::{lemma_begin_keeps_wf, lemma_step_keeps_wf};
use crate::order::order_key;
use crate::page::{built, count_true, is_built, ActionView, EngineView, Pending, ReplyView, RowView};
use crate::ranking::{is_ranking, precedes, rank_descending};

verus! {

/// What the engine asks of its driver.
#[derive(Debug)]
pub enum Action {
    /// Compute the live score of the collection at this place, and answer
    /// with `Reply::Score`.
    Score(usize),
    /// Compute the penalised item scores of the collection at this place,
    /// and answer with `Reply::Ranks`.
    Rank(usize),
    /// Cool every temperature, then heat these items by one, and answer
    /// with `Reply::Heated`.
    Heat(Vec<usize>),
    /// The page is complete: each row with the caller's index of its
    /// collection.
    Finished(Vec<(usize, Vec<usize>)>),
}

/// What the driver answers.
#[derive(Debug)]
pub enum Reply {
    /// A live score, as a binary64 bit pattern.
    Score(u64),
    /// Penalised item scores, one for each item of the collection.
    Ranks(Vec<u64>),
    /// The temperatures are updated.
    Heated,
}

/// The views of `rows`, in order.
pub open spec fn row_views(rows: Seq<(usize, Vec<usize>)>) -> Seq<RowView> {
    Seq::new(rows.len(), |r: int| (rows[r].0, rows[r].1@))
}

impl View for Action {
    type V = ActionView;

    open spec fn view(&self) -> ActionView {
        match self {
            Action::Score(place) => ActionView::Score(*place),
            Action::Rank(place) => ActionView::Rank(*place),
            Action::Heat(items) => ActionView::Heat(items@),
            Action::Finished(rows) => ActionView::Finished(row_views(rows@)),
        }
    }
}

impl View for Reply {
    type V = ReplyView;

    open spec fn view(&self) -> ReplyView {
        match self {
            Reply::Score(score) => ReplyView::Score(*score),
            Reply::Ranks(scores) => ReplyView::Ranks(scores@),
            Reply::Heated => ReplyView::Heated,
        }
    }
}

/// The size of the item universe of `collections`: one more than their
/// largest item index, and zero where they hold no item.
pub fn guess_num_items(collections: &[Collection]) -> (count: usize)
    ensures
        is_item_count(item_lists(collection_views(collections@)), count as int),
        count == item_count(item_lists(collection_views(collections@))),
{
    let ghost lists = item_lists(collection_views(collections@));
    let mut count: usize = 0;
    let mut c: usize = 0;
    while c < collections.len()
        invariant
            c <= collections.len(),
            lists == item_lists(collection_views(collections@)),
            is_item_count(lists.take(c as int), count as int),
        decreases collections.len() - c,
    {
        let collection = &collections[c];
        proof {
            use_type_invariant(collection);
        }
        let raised = raise_count(collection.items(), count);
        proof {
            lemma_item_count_grows(lists, c as int, count as int, raised as int);
        }
        count = raised;
        c = c + 1;
    }
    proof {
        assert(lists.take(collections.len() as int) =~= lists);
        lemma_item_count_unique(lists, count as int, item_count(lists));
    }
    count
}

/// The engine: the collections by descending potential, which of them are
/// still available, and the page under way.
pub struct RecommenderState {
    collections: Vec<Collection>,
    is_available: Vec<bool>,
    max_scores: Vec<u64>,
    indices: Vec<usize>,
    row_width: usize,
    num_items: usize,
    pending: Pending,
    rows_wanted: usize,
    rows: Vec<(usize, Vec<usize>)>,
    best: Option<(usize, u64)>,
    picked: Ghost<Seq<int>>,
    ranked_by: Ghost<Seq<Seq<u64>>>,
    pool: Ghost<nat>,
}

impl View for RecommenderState {
    type V = EngineView;

    closed spec fn view(&self) -> EngineView {
        EngineView {
            collections: collection_views(self.collections@),
            available: self.is_available@,
            potentials: self.max_scores@,
            indices: self.indices@,
            row_width: self.row_width,
            num_items: self.num_items,
            pending: self.pending,
            rows_wanted: self.rows_wanted,
            rows: row_views(self.rows@),
            best: self.best,
            picked: self.picked@,
            ranked_by: self.ranked_by@,
            pool: self.pool@,
        }
    }
}

impl RecommenderState {
    /// Every engine that `new` hands out, and every engine that its own
    /// functions have changed, is well formed.
    pub open spec fn wf(&self) -> bool {
        self@.wf()
    }

    /// Builds the engine from `collections` and the potential of each, as a
    /// binary64 bit pattern, for rows of `row_width` places.
    pub fn new(collections: &[Collection], potentials: &[u64], row_width: usize) -> (made: Result<
        Self,
        ConfigError,
    >)
        ensures
            match made {
                Ok(engine) => {
                    &&& potentials.len() == collections.len()
                    &&& engine@ == built(collection_views(collections@), potentials@, row_width)
                    &&& is_built(engine@, collection_views(collections@), potentials@, row_width)
                    &&& engine.wf()
                },
                Err(error) => error == ConfigError::LengthMismatch && potentials.len() != collections.len(),
            },
    {
        if potentials.len() != collections.len() {
            return Err(ConfigError::LengthMismatch);
        }
        let len = collections.len();
        let num_items = guess_num_items(collections);
        let order = rank_descending(potentials);
        let ghost views = collection_views(collections@);
        let mut ordered: Vec<Collection> = Vec::with_capacity(len);
        let mut is_available: Vec<bool> = Vec::with_capacity(len);
        let mut max_scores: Vec<u64> = Vec::with_capacity(len);
        let mut i: usize = 0;
        while i < len
            invariant
                i <= len,
                len == collections.len(),
                len == potentials.len(),
                views == collection_views(collections@),
                is_ranking(potentials@, order@),
                ordered.len() == i,
                is_available.len() == i,
                max_scores.len() == i,
                forall|k: int| 0 <= k < i ==> (#[trigger] ordered[k])@ == views[order[k] as int],
                forall|k: int| 0 <= k < i ==> (#[trigger] ordered[k])@.wf(),
                forall|k: int| 0 <= k < i ==> #[trigger] is_available[k],
                forall|k: int| 0 <= k < i ==> (#[trigger] max_scores[k]) == potentials[order[k] as int],
            decreases len - i,
        {
            let place: usize = order[i];
            let collection = &collections[place];
            proof {
                use_type_invariant(collection);
            }
            ordered.push(collection.clone());
            is_available.push(true);
            max_scores.push(potentials[place]);
            i = i + 1;
        }
        let engine = RecommenderState {
            collections: ordered,
            is_available,
            max_scores,
            indices: order,
            row_width,
            num_items,
            pending: Pending::Idle,
            rows_wanted: 0,
            rows: Vec::new(),
            best: None,
            picked: Ghost(Seq::empty()),
            ranked_by: Ghost(Seq::empty()),
            pool: Ghost(0),
        };
        proof {
            let model = built(views, potentials@, row_width);
            let lists = item_lists(views);
            assert(engine@.collections =~= model.collections);
            assert(engine@.available =~= model.available);
            assert(engine@.potentials =~= model.potentials);
            assert(engine@.rows =~= model.rows);
            assert(engine@ == model);
            assert forall|a: int, b: int| 0 <= a < engine@.len() && 0 <= b < engine@.collections[a].items.len() implies (
            #[trigger] engine@.collections[a].items[b]) < engine@.num_items by {
                assert(lists[order[a] as int][b] < num_items);
            }
            assert forall|a: int, b: int| 0 <= a < b < engine@.len() implies #[trigger] engine@.in_order(a, b) by {
                assert(precedes(potentials@, order[a] as int, order[b] as int));
            }
            assert forall|a: int, b: int| 0 <= a < b < engine@.len() implies (#[trigger] engine@.indices[a]) != (
            #[trigger] engine@.indices[b]) by {
                assert(precedes(potentials@, order[a] as int, order[b] as int));
            }
        }
        Ok(engine)
    }

    /// The number of collections.
    pub fn len(&self) -> (len: usize)
        ensures
            len == self@.len(),
    {
        self.collections.len()
    }

    /// The size of the item universe: every item of every row lies below
    /// it.
    pub fn num_items(&self) -> (count: usize)
        ensures
            count == self@.num_items,
    {
        self.num_items
    }

    /// The number of places in a row.
    pub fn row_width(&self) -> (width: usize)
        ensures
            width == self@.row_width,
    {
        self.row_width
    }

    /// What the engine waits for.
    pub fn pending(&self) -> (pending: Pending)
        ensures
            pending == self@.pending,
    {
        self.pending
    }

    /// The collection at `place`, where there is one.
    pub fn collection(&self, place: usize) -> (found: Option<&Collection>)
        ensures
            match found {
                Some(collection) => place < self@.len() && collection@ == self@.collections[place as int],
                None => place >= self@.len(),
            },
    {
        if place < self.collections.len() {
            Some(&self.collections[place])
        } else {
            None
        }
    }

    /// The caller's index of the collection at `place`, where there is one.
    pub fn caller_index(&self, place: usize) -> (found: Option<usize>)
        ensures
            match found {
                Some(index) => place < self@.indices.len() && index == self@.indices[place as int],
                None => place >= self@.indices.len(),
            },
    {
        if place < self.indices.len() {
            Some(self.indices[place])
        } else {
            None
        }
    }

    /// Whether the collection at `place` is there and can still be shown.
    pub fn is_available(&self, place: usize) -> (available: bool)
        ensures
            available == (place < self@.available.len() && self@.available[place as int]),
    {
        place < self.is_available.len() && self.is_available[place]
    }

    /// Where the search goes next from `from` with `best` in hand.
    fn probe(&self, from: usize, best: Option<(usize, u64)>) -> (next: Option<usize>)
        requires
            self@.wf_collections(),
        ensures
            match self@.probe(from as int, best) {
                Some(place) => next == Some(place as usize) && place < self@.len(),
                None => next is None,
            },
    {
        let len = self.collections.len();
        let mut place: usize = from;
        while place < len
            invariant
                self@.wf_collections(),
                len == self@.len(),
                from <= place,
                self@.probe(from as int, best) == self@.probe(place as int, best),
            decreases len - place,
        {
            if self.is_available[place] {
                let reached: bool = match best {
                    Some((_, held)) => order_key(held) >= order_key(self.max_scores[place]),
                    None => false,
                };
                if reached {
                    return None;
                } else {
                    return Some(place);
                }
            }
            place = place + 1;
        }
        None
    }

    /// Hands out the page and comes to rest.
    fn finish(&mut self) -> (action: Action)
        ensures
            (final(self)@, action@) == old(self)@.finish(),
    {
        let mut page: Vec<(usize, Vec<usize>)> = Vec::new();
        std::mem::swap(&mut self.rows, &mut page);
        self.pending = Pending::Idle;
        self.best = None;
        self.picked = Ghost(Seq::empty());
        self.ranked_by = Ghost(Seq::empty());
        proof {
            assert(self@.rows =~= old(self)@.rested().rows);
        }
        Action::Finished(page)
    }

    /// Emits `row`, the row of the collection at `place` under `scores`.
    fn emit(&mut self, place: usize, row: Vec<usize>, Ghost(scores): Ghost<Seq<u64>>) -> (action: Action)
        requires
            old(self)@.wf_collections(),
            place < old(self)@.len(),
            row@ == old(self)@.collections[place as int].row(scores, old(self)@.row_width as int),
        ensures
            (final(self)@, action@) == old(self)@.emit(place as int, scores),
    {
        let shown: Vec<usize> = slice_to_vec(row.as_slice());
        let index: usize = self.indices[place];
        self.is_available[place] = false;
        self.rows.push((index, shown));
        self.pending = Pending::Heat;
        self.best = None;
        self.picked = Ghost(self.picked@.push(place as int));
        self.ranked_by = Ghost(self.ranked_by@.push(scores));
        proof {
            let next = old(self)@.emit(place as int, scores).0;
            assert(self@.rows =~= next.rows);
            assert(self@.collections =~= next.collections);
            assert(self@ == next);
        }
        Action::Heat(row)
    }

    /// Goes on with the search at `from`, with `best` in hand.
    fn search(&mut self, from: usize, best: Option<(usize, u64)>) -> (action: Action)
        requires
            old(self)@.wf_collections(),
            best matches Some((held, _)) ==> held < old(self)@.len(),
        ensures
            (final(self)@, action@) == old(self)@.search(from as int, best),
    {
        match self.probe(from, best) {
            Some(place) => {
                self.pending = Pending::Score(place);
                self.best = best;
                Action::Score(place)
            },
            None => match best {
                None => self.finish(),
                Some((chosen, _)) => {
                    if self.collections[chosen].is_sorted() {
                        let none: Vec<u64> = Vec::new();
                        let row = self.collections[chosen].recommend_indices(none.as_slice(), self.row_width);
                        self.emit(chosen, row, Ghost(Seq::empty()))
                    } else {
                        self.pending = Pending::Ranks(chosen);
                        self.best = None;
                        Action::Rank(chosen)
                    }
                },
            },
        }
    }

    /// Begins a page of up to `num_rows` rows and says what the engine needs
    /// first. A page under way is dropped; the collections that it has
    /// shown stay unavailable.
    pub fn recommend_page(&mut self, num_rows: usize) -> (action: Action)
        requires
            old(self).wf(),
        ensures
            (final(self)@, action@) == old(self)@.begin(num_rows),
            final(self).wf(),
    {
        proof {
            lemma_begin_keeps_wf(self@, num_rows);
        }
        self.rows = Vec::new();
        self.pending = Pending::Idle;
        self.best = None;
        self.picked = Ghost(Seq::empty());
        self.ranked_by = Ghost(Seq::empty());
        self.rows_wanted = num_rows;
        self.pool = Ghost(count_true(self.is_available@));
        proof {
            let fresh = EngineView {
                rows_wanted: num_rows,
                pool: count_true(old(self)@.available),
                ..old(self)@.rested()
            };
            assert(self@.rows =~= fresh.rows);
            assert(self@ == fresh);
            assert forall|i: int, j: int| 0 <= i < j < fresh.len() implies #[trigger] fresh.in_order(i, j) by {
                assert(old(self)@.in_order(i, j));
            }
        }
        if num_rows == 0 {
            self.finish()
        } else {
            self.search(0, None)
        }
    }

    /// Takes the driver's answer and says what the engine needs next. An
    /// answer to anything but the request under way, or item scores that are
    /// not one for each item, are refused and change nothing.
    pub fn resume(&mut self, reply: Reply) -> (action: Option<Action>)
        requires
            old(self).wf(),
        ensures
            match action {
                Some(next) => old(self)@.accepts(reply@) && (final(self)@, next@) == old(self)@.step(reply@),
                None => !old(self)@.accepts(reply@) && final(self)@ == old(self)@,
            },
            final(self).wf(),
    {
        proof {
            if self@.accepts(reply@) {
                lemma_step_keeps_wf(self@, reply@);
            }
        }
        match (self.pending, reply) {
            (Pending::Score(place), Reply::Score(score)) => {
                let best: Option<(usize, u64)> = match self.best {
                    Some((_, held)) => if order_key(score) > order_key(held) {
                        Some((place, score))
                    } else {
                        self.best
                    },
                    None => Some((place, score)),
                };
                Some(self.search(place + 1, best))
            },
            (Pending::Ranks(place), Reply::Ranks(scores)) => {
                if scores.len() != self.collections[place].len() {
                    return None;
                }
                let row = self.collections[place].recommend_indices(scores.as_slice(), self.row_width);
                Some(self.emit(place, row, Ghost(scores@)))
            },
            (Pending::Heat, Reply::Heated) => {
                if self.rows.len() >= self.rows_wanted {
                    Some(self.finish())
                } else {
                    Some(self.search(0, None))
                }
            },
            _ => None,
        }
    }
}

} // verus!
