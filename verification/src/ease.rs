//! The part of the EASE ranker that is no arithmetic: taking the items of a
//! history out of the competition.

use vstd::prelude::*;
use crate::collection::ConfigError;

verus! {

/// The score given to every item of the history: minus one thousand
/// million, as a binary64 bit pattern. It lies below every score that the
/// affinities of a history can add up to.
pub const HISTORY_SENTINEL: u64 = 0xc1cd_cd65_0000_0000;

/// Whether `item` stands in `history`.
pub open spec fn in_history(history: Seq<usize>, item: int) -> bool {
    exists|h: int| 0 <= h < history.len() && #[trigger] history[h] == item
}

/// `sums` with the sentinel in place of the score of every history item.
pub open spec fn masked(sums: Seq<u64>, history: Seq<usize>) -> Seq<u64> {
    Seq::new(
        sums.len(),
        |j: int|
            if in_history(history, j) {
                HISTORY_SENTINEL
            } else {
                sums[j]
            },
    )
}

/// Every item of `history` is one of the first `num_items`.
pub open spec fn history_fits(history: Seq<usize>, num_items: int) -> bool {
    forall|h: int| 0 <= h < history.len() ==> (#[trigger] history[h]) < num_items
}

/// Whether every item of `history` is one of the first `num_items`.
pub fn check_history(history: &[usize], num_items: usize) -> (fits: bool)
    ensures
        fits == history_fits(history@, num_items as int),
{
    let mut h: usize = 0;
    while h < history.len()
        invariant
            h <= history.len(),
            forall|g: int| 0 <= g < h ==> (#[trigger] history[g]) < num_items,
        decreases history.len() - h,
    {
        if history[h] >= num_items {
            return false;
        }
        h = h + 1;
    }
    true
}

/// Puts the sentinel in place of the score of every item of `history`.
/// `sums` holds one score for each item of the universe; a history item
/// outside it refuses the call.
pub fn mask_history(sums: Vec<u64>, history: &[usize]) -> (made: Result<Vec<u64>, ConfigError>)
    ensures
        match made {
            Ok(scores) => history_fits(history@, sums.len() as int) && scores@ == masked(sums@, history@),
            Err(error) => error == ConfigError::ItemOutOfRange && !history_fits(history@, sums.len() as int),
        },
{
    if !check_history(history, sums.len()) {
        return Err(ConfigError::ItemOutOfRange);
    }
    let ghost before = sums@;
    let mut scores = sums;
    let mut h: usize = 0;
    while h < history.len()
        invariant
            h <= history.len(),
            history_fits(history@, before.len() as int),
            scores.len() == before.len(),
            forall|j: int|
                0 <= j < scores.len() ==> scores[j] == if in_history(history@.take(h as int), j) {
                    HISTORY_SENTINEL
                } else {
                    before[j]
                },
        decreases history.len() - h,
    {
        let item: usize = history[h];
        let ghost seen = history@.take(h as int);
        let ghost seen_next = history@.take(h + 1);
        scores[item] = HISTORY_SENTINEL;
        proof {
            assert(seen_next[h as int] == item);
            assert forall|j: int| 0 <= j < scores.len() implies scores[j] == if in_history(seen_next, j) {
                HISTORY_SENTINEL
            } else {
                before[j]
            } by {
                if in_history(seen, j) {
                    let g = choose|g: int| 0 <= g < seen.len() && #[trigger] seen[g] == j;
                    assert(seen_next[g] == j);
                } else if in_history(seen_next, j) {
                    let g = choose|g: int| 0 <= g < seen_next.len() && #[trigger] seen_next[g] == j;
                    if g < h {
                        assert(seen[g] == j);
                    }
                }
            }
        }
        h = h + 1;
    }
    proof {
        assert(history@.take(history.len() as int) =~= history@);
        assert(scores@ =~= masked(before, history@));
    }
    Ok(scores)
}

} // verus!
