//! A collection: items with their scores, offered together as one row.

use vstd::prelude::*;
use vstd::slice::slice_to_vec;
use vstd::std_specs::slice::{axiom_spec_slice_iter, into_iter_elts};
use std::slice::Iter;
use crate::ranking::{
    item_indices, lemma_ranking_exists, lemma_run_is_injective, pick, ranking, row_len, sort_descending,
};

verus! {

/// Why a construction was refused.
#[derive(Debug, Clone, Copy, PartialEq, Eq, Structural)]
pub enum ConfigError {
    /// Two sequences that run in parallel differ in length.
    LengthMismatch,
    /// An item index lies outside the item universe.
    ItemOutOfRange,
}

/// What a collection holds.
pub struct CollectionView {
    /// The score of each item, as a binary64 bit pattern.
    pub scores: Seq<u64>,
    /// The item indices.
    pub items: Seq<usize>,
    /// Whether the items stand in the order in which a row shows them.
    pub is_sorted: bool,
}

impl CollectionView {
    /// One score per item, and every index small enough to be counted.
    pub open spec fn wf(self) -> bool {
        &&& self.scores.len() == self.items.len()
        &&& self.items.len() <= usize::MAX
        &&& forall|j: int| 0 <= j < self.items.len() ==> (#[trigger] self.items[j]) < usize::MAX
    }

    /// How many items a row of width `width` shows.
    pub open spec fn row_len(self, width: int) -> int {
        row_len(self.items.len() as int, width)
    }

    /// The scores in the order in which the places of a row weigh them: as
    /// they stand for a sorted collection, else the largest first.
    pub open spec fn ranked(self, scores: Seq<u64>) -> Seq<u64> {
        if self.is_sorted {
            scores
        } else {
            pick(scores, ranking(scores), scores.len() as int)
        }
    }

    /// The row of width `width`: the leading items of a sorted collection,
    /// else the items with the largest of `scores`, the largest first.
    pub open spec fn row(self, scores: Seq<u64>, width: int) -> Seq<usize> {
        if self.is_sorted {
            self.items.take(self.row_len(width))
        } else {
            pick(self.items, ranking(scores), self.row_len(width))
        }
    }
}

/// A row is as long as its width allows and the collection can fill, every
/// entry is an item of the collection taken from a place of its own, and the
/// row of a sorted collection is the head of its items.
pub proof fn lemma_row_of_collection(collection: CollectionView, scores: Seq<u64>, width: int)
    requires
        collection.wf(),
        0 <= width,
        !collection.is_sorted ==> scores.len() == collection.items.len(),
    ensures
        ({
            let row = collection.row(scores, width);
            &&& row.len() == collection.row_len(width)
            &&& row.len() <= width
            &&& row.len() <= collection.items.len()
            &&& forall|k: int| 0 <= k < row.len() ==> collection.items.contains(#[trigger] row[k])
            &&& collection.is_sorted ==> row == collection.items.take(collection.row_len(width))
            &&& collection.items.no_duplicates() ==> row.no_duplicates()
        }),
{
    let row = collection.row(scores, width);
    if collection.is_sorted {
        assert forall|k: int| 0 <= k < row.len() implies collection.items.contains(#[trigger] row[k]) by {
            assert(collection.items[k] == row[k]);
        }
    } else {
        lemma_ranking_exists(scores);
        let order = ranking(scores);
        lemma_run_is_injective(scores, 0, scores.len() as int, order);
        assert forall|k: int| 0 <= k < row.len() implies collection.items.contains(#[trigger] row[k]) by {
            assert(collection.items[order[k] as int] == row[k]);
        }
        if collection.items.no_duplicates() {
            assert forall|a: int, b: int| 0 <= a < row.len() && 0 <= b < row.len() && a != b implies row[a]
                != row[b] by {
                assert(order[a] != order[b]);
            }
        }
    }
}

/// Items with their scores. It does not change once made.
pub struct Collection {
    scores: Vec<u64>,
    items: Vec<usize>,
    is_sorted: bool,
}

impl View for Collection {
    type V = CollectionView;

    closed spec fn view(&self) -> CollectionView {
        CollectionView { scores: self.scores@, items: self.items@, is_sorted: self.is_sorted }
    }
}

impl Clone for Collection {
    fn clone(&self) -> (copy: Self)
        ensures
            copy@ == self@,
    {
        proof {
            use_type_invariant(self);
        }
        Collection {
            scores: slice_to_vec(self.scores.as_slice()),
            items: slice_to_vec(self.items.as_slice()),
            is_sorted: self.is_sorted,
        }
    }
}

/// The views of `collections`, in order.
pub open spec fn collection_views(collections: Seq<Collection>) -> Seq<CollectionView> {
    Seq::new(collections.len(), |c: int| collections[c]@)
}

/// The item lists of `collections`, in order.
pub open spec fn item_lists(collections: Seq<CollectionView>) -> Seq<Seq<usize>> {
    Seq::new(collections.len(), |c: int| collections[c].items)
}

/// `count` is the size of the least universe that holds every item of
/// `lists`: one more than the largest item, and zero where there is none.
pub open spec fn is_item_count(lists: Seq<Seq<usize>>, count: int) -> bool {
    &&& forall|c: int, j: int| 0 <= c < lists.len() && 0 <= j < lists[c].len() ==> (#[trigger] lists[c][j]) < count
    &&& count == 0 || exists|c: int, j: int|
        0 <= c < lists.len() && 0 <= j < lists[c].len() && (#[trigger] lists[c][j]) + 1 == count
}

/// The size of the least universe that holds every item of `lists`.
pub open spec fn item_count(lists: Seq<Seq<usize>>) -> int {
    choose|count: int| is_item_count(lists, count)
}

/// Item lists have one count only.
pub proof fn lemma_item_count_unique(lists: Seq<Seq<usize>>, a: int, b: int)
    requires
        is_item_count(lists, a),
        is_item_count(lists, b),
    ensures
        a == b,
{
    if a < b {
        let (c, j) = choose|c: int, j: int|
            0 <= c < lists.len() && 0 <= j < lists[c].len() && (#[trigger] lists[c][j]) + 1 == b;
        assert(lists[c][j] < a);
    } else if b < a {
        let (c, j) = choose|c: int, j: int|
            0 <= c < lists.len() && 0 <= j < lists[c].len() && (#[trigger] lists[c][j]) + 1 == a;
        assert(lists[c][j] < b);
    }
}

/// The views of `lists`, in order.
pub open spec fn list_views(lists: Seq<Vec<usize>>) -> Seq<Seq<usize>> {
    Seq::new(lists.len(), |c: int| lists[c]@)
}

/// `count`, raised as far as the items of `list` ask.
pub open spec fn holds_list(list: Seq<usize>, count: int, raised: int) -> bool {
    &&& count <= raised
    &&& forall|k: int| 0 <= k < list.len() ==> (#[trigger] list[k]) < raised
    &&& raised == count || exists|k: int| 0 <= k < list.len() && (#[trigger] list[k]) + 1 == raised
}

/// The count of the first `c` lists, raised as far as the next list asks,
/// is the count of the first `c + 1` lists.
pub proof fn lemma_item_count_grows(lists: Seq<Seq<usize>>, c: int, count: int, raised: int)
    requires
        0 <= c < lists.len(),
        is_item_count(lists.take(c), count),
        holds_list(lists[c], count, raised),
    ensures
        is_item_count(lists.take(c + 1), raised),
{
    let shorter = lists.take(c);
    let longer = lists.take(c + 1);
    let list = lists[c];
    assert forall|d: int, k: int| 0 <= d < longer.len() && 0 <= k < longer[d].len() implies (
    #[trigger] longer[d][k]) < raised by {
        if d < c {
            assert(shorter[d][k] < count);
        } else {
            assert(list[k] < raised);
        }
    }
    if raised != 0 {
        if raised == count {
            let (d, k) = choose|d: int, k: int|
                0 <= d < shorter.len() && 0 <= k < shorter[d].len() && (#[trigger] shorter[d][k]) + 1 == count;
            assert(longer[d][k] + 1 == raised);
        } else {
            let k = choose|k: int| 0 <= k < list.len() && (#[trigger] list[k]) + 1 == raised;
            assert(longer[c][k] + 1 == raised);
        }
    }
}

/// Raises `count` until it lies above every item of `list`.
pub fn raise_count(list: &[usize], count: usize) -> (raised: usize)
    requires
        forall|k: int| 0 <= k < list.len() ==> (#[trigger] list[k]) < usize::MAX,
    ensures
        holds_list(list@, count as int, raised as int),
{
    let mut raised: usize = count;
    let mut j: usize = 0;
    while j < list.len()
        invariant
            j <= list.len(),
            forall|k: int| 0 <= k < list.len() ==> (#[trigger] list[k]) < usize::MAX,
            holds_list(list@.take(j as int), count as int, raised as int),
        decreases list.len() - j,
    {
        let ghost seen = list@.take(j as int);
        let ghost seen_next = list@.take(j + 1);
        let ghost before = raised;
        if list[j] >= raised {
            raised = list[j] + 1;
        }
        proof {
            assert(seen_next[j as int] == list[j as int]);
            assert forall|k: int| 0 <= k < seen_next.len() implies (#[trigger] seen_next[k]) < raised by {
                if k < j {
                    assert(seen[k] < before);
                }
            }
            if raised != count && raised == before {
                let k = choose|k: int| 0 <= k < seen.len() && (#[trigger] seen[k]) + 1 == before;
                assert(seen_next[k] + 1 == raised);
            }
        }
        j = j + 1;
    }
    proof {
        assert(list@.take(list.len() as int) =~= list@);
    }
    raised
}

/// The size of the item universe: one more than the largest item index in
/// `item_indices`, and zero where there is no item. The largest index that
/// the machine can hold has no successor, so it may not occur.
pub fn guess_num_items(item_indices: &[Vec<usize>]) -> (count: usize)
    requires
        forall|c: int, j: int|
            0 <= c < item_indices.len() && 0 <= j < item_indices[c].len() ==> (#[trigger] item_indices[c][j])
                < usize::MAX,
    ensures
        is_item_count(list_views(item_indices@), count as int),
        count == item_count(list_views(item_indices@)),
{
    let ghost lists = list_views(item_indices@);
    let mut count: usize = 0;
    let mut c: usize = 0;
    while c < item_indices.len()
        invariant
            c <= item_indices.len(),
            lists == list_views(item_indices@),
            forall|d: int, j: int|
                0 <= d < item_indices.len() && 0 <= j < item_indices[d].len() ==> (#[trigger] item_indices[d][j])
                    < usize::MAX,
            is_item_count(lists.take(c as int), count as int),
        decreases item_indices.len() - c,
    {
        let list = &item_indices[c];
        assert forall|k: int| 0 <= k < list.len() implies (#[trigger] list[k]) < usize::MAX by {
            assert(item_indices[c as int][k] < usize::MAX);
        }
        let raised = raise_count(list.as_slice(), count);
        proof {
            lemma_item_count_grows(lists, c as int, count as int, raised as int);
        }
        count = raised;
        c = c + 1;
    }
    proof {
        assert(lists.take(item_indices.len() as int) =~= lists);
        lemma_item_count_unique(lists, count as int, item_count(lists));
    }
    count
}

impl Collection {
    /// Every collection is well formed.
    #[verifier::type_invariant]
    pub open spec fn inv(self) -> bool {
        self@.wf()
    }

    /// Makes a collection of `items` with their `scores`.
    pub fn new(scores: &[u64], items: &[usize], is_sorted: bool) -> (made: Result<Self, ConfigError>)
        ensures
            match made {
                Ok(collection) => {
                    &&& collection@ == (CollectionView { scores: scores@, items: items@, is_sorted })
                    &&& collection@.wf()
                },
                Err(ConfigError::LengthMismatch) => scores.len() != items.len(),
                Err(ConfigError::ItemOutOfRange) => {
                    &&& scores.len() == items.len()
                    &&& exists|j: int| 0 <= j < items.len() && items[j] == usize::MAX
                },
            },
    {
        if scores.len() != items.len() {
            return Err(ConfigError::LengthMismatch);
        }
        let mut j: usize = 0;
        while j < items.len()
            invariant
                scores.len() == items.len(),
                j <= items.len(),
                forall|k: int| 0 <= k < j ==> (#[trigger] items[k]) < usize::MAX,
            decreases items.len() - j,
        {
            if items[j] == usize::MAX {
                return Err(ConfigError::ItemOutOfRange);
            }
            j = j + 1;
        }
        Ok(Collection { scores: slice_to_vec(scores), items: slice_to_vec(items), is_sorted })
    }

    /// Walks the item indices in the order in which they stand.
    pub fn iter_items(&self) -> (walk: Iter<'_, usize>)
        ensures
            into_iter_elts(walk) == self@.items,
    {
        let walk = self.items.as_slice().iter();
        proof {
            broadcast use axiom_spec_slice_iter;
            assert(into_iter_elts(walk) =~= self@.items);
        }
        walk
    }

    /// The item indices.
    pub fn items(&self) -> (items: &[usize])
        ensures
            items@ == self@.items,
    {
        self.items.as_slice()
    }

    /// The score of each item, as a binary64 bit pattern.
    pub fn scores(&self) -> (scores: &[u64])
        ensures
            scores@ == self@.scores,
    {
        self.scores.as_slice()
    }

    /// Whether the items stand in the order in which a row shows them.
    pub fn is_sorted(&self) -> (sorted: bool)
        ensures
            sorted == self@.is_sorted,
    {
        self.is_sorted
    }

    /// The number of items.
    pub fn len(&self) -> (len: usize)
        ensures
            len == self@.items.len(),
            len == self@.scores.len(),
    {
        proof {
            use_type_invariant(self);
        }
        self.items.len()
    }

    /// Puts `scores`, one for each item, in the order in which the places of
    /// a row weigh them.
    pub fn ranked_scores(&self, scores: &[u64]) -> (ranked: Vec<u64>)
        ensures
            ranked@ == self@.ranked(scores@),
    {
        if self.is_sorted {
            slice_to_vec(scores)
        } else {
            sort_descending(scores)
        }
    }

    /// The row of width `top_k` under `scores`, one for each item.
    pub fn recommend_indices(&self, scores: &[u64], top_k: usize) -> (row: Vec<usize>)
        requires
            !self@.is_sorted ==> scores.len() == self@.items.len(),
        ensures
            row@ == self@.row(scores@, top_k as int),
    {
        if self.is_sorted {
            let count: usize = if top_k < self.items.len() {
                top_k
            } else {
                self.items.len()
            };
            let mut row: Vec<usize> = Vec::with_capacity(count);
            let mut k: usize = 0;
            while k < count
                invariant
                    count <= self.items.len(),
                    k <= count,
                    row.len() == k,
                    forall|a: int| 0 <= a < k ==> row[a] == self.items[a],
                decreases count - k,
            {
                row.push(self.items[k]);
                k = k + 1;
            }
            assert(row@ =~= self@.items.take(count as int));
            row
        } else {
            item_indices(scores, self.items.as_slice(), top_k)
        }
    }
}

} // verus!
