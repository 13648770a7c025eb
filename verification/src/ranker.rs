//! Collection definitions: the items of a collection before a ranker has
//! scored them, and their projection onto a score vector.

use vstd::prelude::*;
use crate::collection::{Collection, CollectionView, ConfigError};

verus! {

/// What a collection definition holds.
pub struct CollectionDefinitionView {
    /// The item indices.
    pub items: Seq<usize>,
    /// Whether the items stand in the order in which a row shows them.
    pub is_sorted: bool,
}

impl CollectionDefinitionView {
    /// Every item is one of the first `num_items`.
    pub open spec fn fits(self, num_items: int) -> bool {
        forall|j: int| 0 <= j < self.items.len() ==> (#[trigger] self.items[j]) < num_items
    }

    /// The collection whose item `j` has the score that `item_scores` gives
    /// to that item.
    pub open spec fn projected(self, item_scores: Seq<u64>) -> CollectionView {
        CollectionView {
            scores: Seq::new(self.items.len(), |j: int| item_scores[self.items[j] as int]),
            items: self.items,
            is_sorted: self.is_sorted,
        }
    }
}

/// The items of a collection, without scores.
pub struct CollectionDefinition {
    items: Vec<usize>,
    is_sorted: bool,
}

impl View for CollectionDefinition {
    type V = CollectionDefinitionView;

    closed spec fn view(&self) -> CollectionDefinitionView {
        CollectionDefinitionView { items: self.items@, is_sorted: self.is_sorted }
    }
}

impl CollectionDefinition {
    /// Makes the definition of a collection of `items`.
    pub fn new(items: Vec<usize>, is_sorted: bool) -> (definition: Self)
        ensures
            definition@ == (CollectionDefinitionView { items: items@, is_sorted }),
    {
        Self { items, is_sorted }
    }

    /// Gives each item its score out of `item_scores`, one score for each
    /// item of the universe. An item outside the universe is refused.
    pub fn as_collection(&self, item_scores: &[u64]) -> (made: Result<Collection, ConfigError>)
        ensures
            match made {
                Ok(collection) => {
                    &&& self@.fits(item_scores.len() as int)
                    &&& collection@ == self@.projected(item_scores@)
                },
                Err(error) => error == ConfigError::ItemOutOfRange && !self@.fits(item_scores.len() as int),
            },
    {
        let mut scores: Vec<u64> = Vec::with_capacity(self.items.len());
        let mut j: usize = 0;
        while j < self.items.len()
            invariant
                j <= self.items.len(),
                scores.len() == j,
                forall|k: int| 0 <= k < j ==> (#[trigger] self.items[k]) < item_scores.len(),
                forall|k: int| 0 <= k < j ==> scores[k] == item_scores[self.items[k] as int],
            decreases self.items.len() - j,
        {
            let item: usize = self.items[j];
            if item >= item_scores.len() {
                assert(self@.items[j as int] >= item_scores.len());
                return Err(ConfigError::ItemOutOfRange);
            }
            scores.push(item_scores[item]);
            j = j + 1;
        }
        assert(scores@ =~= self@.projected(item_scores@).scores);
        match Collection::new(scores.as_slice(), self.items.as_slice(), self.is_sorted) {
            Ok(collection) => Ok(collection),
            Err(error) => {
                proof {
                    if error == ConfigError::ItemOutOfRange {
                        let j = choose|j: int| 0 <= j < self.items.len() && self.items[j] == usize::MAX;
                        assert(self.items[j] < item_scores.len());
                    }
                }
                Err(error)
            },
        }
    }
}

/// The views of `definitions`, in order.
pub open spec fn definition_views(definitions: Seq<CollectionDefinition>) -> Seq<CollectionDefinitionView> {
    Seq::new(definitions.len(), |c: int| definitions[c]@)
}

/// Projects every definition onto `item_scores`. One item outside the
/// universe refuses them all.
pub fn score_collections(definitions: &[CollectionDefinition], item_scores: &[u64]) -> (made: Result<
    Vec<Collection>,
    ConfigError,
>)
    ensures
        match made {
            Ok(collections) => {
                &&& collections.len() == definitions.len()
                &&& forall|c: int|
                    0 <= c < definitions.len() ==> {
                        &&& (#[trigger] definitions[c])@.fits(item_scores.len() as int)
                        &&& collections[c]@ == definitions[c]@.projected(item_scores@)
                    }
            },
            Err(error) => {
                &&& error == ConfigError::ItemOutOfRange
                &&& exists|c: int|
                    0 <= c < definitions.len() && !(#[trigger] definitions[c])@.fits(item_scores.len() as int)
            },
        },
{
    let mut collections: Vec<Collection> = Vec::with_capacity(definitions.len());
    let mut c: usize = 0;
    while c < definitions.len()
        invariant
            c <= definitions.len(),
            collections.len() == c,
            forall|d: int|
                0 <= d < c ==> {
                    &&& (#[trigger] definitions[d])@.fits(item_scores.len() as int)
                    &&& collections[d]@ == definitions[d]@.projected(item_scores@)
                },
        decreases definitions.len() - c,
    {
        match definitions[c].as_collection(item_scores) {
            Ok(collection) => {
                collections.push(collection);
            },
            Err(error) => {
                return Err(error);
            },
        }
        c = c + 1;
    }
    Ok(collections)
}

} // verus!
