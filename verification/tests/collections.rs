use std::cmp::Ordering;

use full_page_recommender::collection::{guess_num_items, raise_count, Collection, ConfigError};
use full_page_recommender::ease::{check_history, mask_history, HISTORY_SENTINEL};
use full_page_recommender::order::{is_nan, order_key, rev_cmp_float, INFINITY_BITS, NAN_KEY};
use full_page_recommender::ranker::{score_collections, CollectionDefinition};
use full_page_recommender::ranking::{item_indices, rank_descending, sort_descending};
use full_page_recommender::recommender_state;

fn bits(values: &[f64]) -> Vec<u64> {
    values.iter().map(|value| value.to_bits()).collect()
}

#[test]
fn collection_test_item_selection() {
    let col = Collection::new(&bits(&[0.3, 0.5, 0.1, 0.9]), &[3, 5, 8, 13], false).unwrap();
    let temps = [0.0f64; 14];
    let penalised: Vec<u64> = col
        .scores()
        .iter()
        .zip(col.items().iter())
        .map(|(&score, &item)| (f64::from_bits(score) * 0.5f64.powf(temps[item])).to_bits())
        .collect();
    let items = col.recommend_indices(&penalised, 2);
    assert_eq!(items, vec![13, 5]);
}

#[test]
fn collections_test_item_selection() {
    let items = item_indices(&bits(&[0.3, 0.5, 0.1, 0.9]), &[3, 5, 8, 13], 2);
    assert_eq!(items, vec![13, 5])
}

#[test]
fn test_rev_cmp_float() {
    assert_eq!(rev_cmp_float(3.0f64.to_bits(), 1.0f64.to_bits()), Ordering::Less);
    assert_eq!(rev_cmp_float(3.0f64.to_bits(), 5.0f64.to_bits()), Ordering::Greater);
    assert_eq!(rev_cmp_float(3.0f64.to_bits(), f64::NEG_INFINITY.to_bits()), Ordering::Less);
    assert_eq!(rev_cmp_float(3.0f64.to_bits(), f64::INFINITY.to_bits()), Ordering::Greater);
}

#[test]
fn rev_cmp_float_puts_nan_last() {
    assert_eq!(rev_cmp_float(f64::NAN.to_bits(), 1.0f64.to_bits()), Ordering::Greater);
    assert_eq!(rev_cmp_float(f64::NEG_INFINITY.to_bits(), f64::NAN.to_bits()), Ordering::Less);
    assert_eq!(rev_cmp_float(f64::NAN.to_bits(), (-f64::NAN).to_bits()), Ordering::Equal);
    assert_eq!(rev_cmp_float(0.0f64.to_bits(), (-0.0f64).to_bits()), Ordering::Equal);
}

#[test]
fn order_key_has_the_order_of_the_numbers() {
    let values = [
        f64::NEG_INFINITY,
        -1e300,
        -1e9,
        -2.5,
        -1.0,
        -f64::MIN_POSITIVE,
        -5e-324,
        -0.0,
        0.0,
        5e-324,
        f64::MIN_POSITIVE,
        0.1,
        0.5,
        1.0,
        2.5,
        1e9,
        1e300,
        f64::INFINITY,
    ];
    for &a in values.iter() {
        for &b in values.iter() {
            let by_key = order_key(a.to_bits()).cmp(&order_key(b.to_bits()));
            assert_eq!(Some(by_key), a.partial_cmp(&b));
        }
    }
}

#[test]
fn order_key_of_named_patterns() {
    assert_eq!(order_key(0), 0);
    assert_eq!(order_key(0x8000_0000_0000_0000), 0);
    assert_eq!(order_key(1.0f64.to_bits()), 0x3ff0_0000_0000_0000);
    assert_eq!(order_key((-1.0f64).to_bits()), -0x3ff0_0000_0000_0000);
    assert_eq!(order_key(f64::INFINITY.to_bits()), INFINITY_BITS as i64);
    assert_eq!(order_key(f64::NEG_INFINITY.to_bits()), -(INFINITY_BITS as i64));
    assert_eq!(order_key(f64::NAN.to_bits()), NAN_KEY);
    assert_eq!(order_key(0xfff0_0000_0000_0001), i64::MIN);
    assert_eq!(f64::from_bits(HISTORY_SENTINEL), -1e9);
}

#[test]
fn is_nan_tells_nan_from_numbers() {
    assert!(is_nan(f64::NAN.to_bits()));
    assert!(is_nan((-f64::NAN).to_bits()));
    assert!(is_nan(0x7ff0_0000_0000_0001));
    assert!(!is_nan(f64::INFINITY.to_bits()));
    assert!(!is_nan(f64::NEG_INFINITY.to_bits()));
    assert!(!is_nan(0.0f64.to_bits()));
    assert!(!is_nan(f64::MAX.to_bits()));
}

#[test]
fn ranking_is_stable() {
    let scores = bits(&[0.5, 0.9, 0.5, -0.0, 0.9, 0.0, f64::NAN, -3.0]);
    assert_eq!(rank_descending(&scores), vec![1, 4, 0, 2, 3, 5, 7, 6]);
    assert_eq!(rank_descending(&[]), Vec::<usize>::new());
    assert_eq!(rank_descending(&bits(&[1.0])), vec![0]);
}

#[test]
fn sort_descending_sorts() {
    let sorted = sort_descending(&bits(&[0.3, 0.5, 0.1, 0.9, 0.5]));
    assert_eq!(sorted, bits(&[0.9, 0.5, 0.5, 0.3, 0.1]));
    let zeros = sort_descending(&[0x8000_0000_0000_0000, 0]);
    assert_eq!(zeros, vec![0x8000_0000_0000_0000, 0]);
}

#[test]
fn item_indices_takes_what_there_is() {
    let scores = bits(&[0.3, 0.5, 0.1]);
    assert_eq!(item_indices(&scores, &[3, 5, 8], 0), Vec::<usize>::new());
    assert_eq!(item_indices(&scores, &[3, 5, 8], 3), vec![5, 3, 8]);
    assert_eq!(item_indices(&scores, &[3, 5, 8], 7), vec![5, 3, 8]);
}

#[test]
fn collection_keeps_what_it_was_given() {
    let scores = bits(&[0.5, 1.0]);
    let col = Collection::new(&scores, &[10, 20], true).unwrap();
    assert_eq!(col.scores(), scores.as_slice());
    assert_eq!(col.items(), &[10, 20]);
    assert_eq!(col.iter_items().cloned().collect::<Vec<usize>>(), vec![10, 20]);
    assert!(col.is_sorted());
    assert_eq!(col.len(), 2);
    let copy = col.clone();
    assert_eq!(copy.items(), col.items());
    assert_eq!(copy.scores(), col.scores());
    assert_eq!(copy.is_sorted(), col.is_sorted());
}

#[test]
fn collection_refuses_mismatched_lengths() {
    let made = Collection::new(&bits(&[0.5]), &[10, 20], false);
    assert_eq!(made.err(), Some(ConfigError::LengthMismatch));
}

#[test]
fn collection_refuses_the_item_without_successor() {
    let made = Collection::new(&bits(&[0.5, 0.1]), &[10, usize::MAX], false);
    assert_eq!(made.err(), Some(ConfigError::ItemOutOfRange));
}

#[test]
fn sorted_collection_shows_its_head() {
    let col = Collection::new(&bits(&[0.1, 0.9, 0.4]), &[0, 1, 2], true).unwrap();
    assert_eq!(col.recommend_indices(&[], 2), vec![0, 1]);
    assert_eq!(col.recommend_indices(&bits(&[0.1, 0.9, 0.4]), 5), vec![0, 1, 2]);
    assert_eq!(col.ranked_scores(&bits(&[0.1, 0.9, 0.4])), bits(&[0.1, 0.9, 0.4]));
}

#[test]
fn unsorted_collection_ranks_its_scores() {
    let col = Collection::new(&bits(&[0.1, 0.9, 0.4]), &[0, 1, 2], false).unwrap();
    assert_eq!(col.ranked_scores(col.scores()), bits(&[0.9, 0.4, 0.1]));
    assert_eq!(col.recommend_indices(col.scores(), 2), vec![1, 2]);
    assert_eq!(col.recommend_indices(&bits(&[0.1, 0.009, 0.4]), 3), vec![2, 0, 1]);
}

#[test]
fn guess_num_items_is_one_past_the_largest() {
    assert_eq!(guess_num_items(&[]), 0);
    assert_eq!(guess_num_items(&[vec![], vec![]]), 0);
    assert_eq!(guess_num_items(&[vec![0]]), 1);
    assert_eq!(guess_num_items(&[vec![0, 1], vec![2, 3, 1]]), 4);
    assert_eq!(guess_num_items(&[vec![7], vec![2, 3, 1], vec![]]), 8);
}

#[test]
fn raise_count_goes_one_past_the_largest() {
    assert_eq!(raise_count(&[], 3), 3);
    assert_eq!(raise_count(&[0, 1], 3), 3);
    assert_eq!(raise_count(&[2, 5, 1], 3), 6);
    assert_eq!(raise_count(&[0], 0), 1);
}

#[test]
fn guess_num_items_of_collections() {
    let collections = vec![
        Collection::new(&bits(&[0.1, 0.2]), &[0, 1], false).unwrap(),
        Collection::new(&bits(&[0.5, 0.9, 0.2]), &[2, 13, 1], false).unwrap(),
    ];
    assert_eq!(recommender_state::guess_num_items(&collections), 14);
    assert_eq!(recommender_state::guess_num_items(&[]), 0);
}

#[test]
fn definition_takes_its_scores_from_the_ranker() {
    let definition = CollectionDefinition::new(vec![2, 0, 2], true);
    let col = definition.as_collection(&bits(&[0.1, 0.2, 0.3])).unwrap();
    assert_eq!(col.items(), &[2, 0, 2]);
    assert_eq!(col.scores(), bits(&[0.3, 0.1, 0.3]).as_slice());
    assert!(col.is_sorted());
}

#[test]
fn definition_refuses_items_outside_the_universe() {
    let definition = CollectionDefinition::new(vec![2, 3], false);
    assert_eq!(definition.as_collection(&bits(&[0.1, 0.2, 0.3])).err(), Some(ConfigError::ItemOutOfRange));
    let definitions = vec![CollectionDefinition::new(vec![0], false), definition];
    assert_eq!(score_collections(&definitions, &bits(&[0.1, 0.2, 0.3])).err(), Some(ConfigError::ItemOutOfRange));
    let scored = score_collections(&definitions, &bits(&[0.1, 0.2, 0.3, 0.4])).unwrap();
    assert_eq!(scored.len(), 2);
    assert_eq!(scored[1].scores(), bits(&[0.3, 0.4]).as_slice());
}

#[test]
fn history_is_masked() {
    let sums = bits(&[0.0, 0.2, 0.9, 0.1]);
    let masked = mask_history(sums.clone(), &[2, 0, 2]).unwrap();
    assert_eq!(masked, vec![HISTORY_SENTINEL, sums[1], HISTORY_SENTINEL, sums[3]]);
    assert_eq!(mask_history(sums.clone(), &[]).unwrap(), sums);
    assert_eq!(mask_history(sums.clone(), &[4]).err(), Some(ConfigError::ItemOutOfRange));
    assert!(check_history(&[0, 3], 4));
    assert!(!check_history(&[0, 4], 4));
    assert!(check_history(&[], 0));
}
