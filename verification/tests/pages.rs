use full_page_recommender::collection::{Collection, ConfigError};
use full_page_recommender::ease::mask_history;
use full_page_recommender::page::Pending;
use full_page_recommender::ranker::{score_collections, CollectionDefinition};
use full_page_recommender::recommender_state::{Action, RecommenderState, Reply};

fn bits(values: &[f64]) -> Vec<u64> {
    values.iter().map(|value| value.to_bits()).collect()
}

fn collection(scores: &[f64], items: &[usize], is_sorted: bool) -> Collection {
    Collection::new(&bits(scores), items, is_sorted).unwrap()
}

fn penalised(collection: &Collection, temps: &[f64], temp_penalty: f64) -> Vec<u64> {
    collection
        .scores()
        .iter()
        .zip(collection.items().iter())
        .map(|(&score, &item)| (f64::from_bits(score) * temp_penalty.powf(temps[item])).to_bits())
        .collect()
}

fn weighed(ranked: &[u64], position_mask: &[f64]) -> u64 {
    let total: f64 = ranked.iter().zip(position_mask.iter()).map(|(&a, &b)| f64::from_bits(a) * b).sum();
    total.to_bits()
}

fn potential(collection: &Collection, position_mask: &[f64]) -> u64 {
    weighed(&collection.ranked_scores(collection.scores()), position_mask)
}

fn live_score(collection: &Collection, temps: &[f64], position_mask: &[f64], temp_penalty: f64) -> u64 {
    weighed(&collection.ranked_scores(&penalised(collection, temps, temp_penalty)), position_mask)
}

fn engine(collections: &[Collection], position_mask: &[f64]) -> RecommenderState {
    let potentials: Vec<u64> = collections.iter().map(|c| potential(c, position_mask)).collect();
    RecommenderState::new(collections, &potentials, position_mask.len()).unwrap()
}

struct Run {
    page: Vec<(usize, Vec<usize>)>,
    scored: usize,
    temps: Vec<f64>,
}

fn drive(
    state: &mut RecommenderState,
    temps: Vec<f64>,
    position_mask: &[f64],
    num_rows: usize,
    temp_penalty: f64,
    cooling_factor: f64,
) -> Run {
    let mut temps = temps;
    let mut scored = 0;
    let mut action = state.recommend_page(num_rows);
    loop {
        action = match action {
            Action::Score(place) => {
                scored += 1;
                let score = live_score(state.collection(place).unwrap(), &temps, position_mask, temp_penalty);
                state.resume(Reply::Score(score)).unwrap()
            }
            Action::Rank(place) => {
                let scores = penalised(state.collection(place).unwrap(), &temps, temp_penalty);
                state.resume(Reply::Ranks(scores)).unwrap()
            }
            Action::Heat(items) => {
                for temp in temps.iter_mut() {
                    *temp *= cooling_factor;
                }
                for &item in items.iter() {
                    temps[item] += 1.0;
                }
                state.resume(Reply::Heated).unwrap()
            }
            Action::Finished(page) => return Run { page, scored, temps },
        }
    }
}

fn recommend(
    collections: &[Collection],
    position_mask: &[f64],
    num_rows: usize,
    temp_penalty: f64,
    cooling_factor: f64,
) -> Vec<(usize, Vec<usize>)> {
    let mut state = engine(collections, position_mask);
    let temps = vec![0.0; state.num_items()];
    drive(&mut state, temps, position_mask, num_rows, temp_penalty, cooling_factor).page
}

fn reference(
    collections: &[Collection],
    position_mask: &[f64],
    num_rows: usize,
    temp_penalty: f64,
    cooling_factor: f64,
) -> Vec<(usize, Vec<usize>)> {
    let num_items = collections.iter().flat_map(|c| c.iter_items()).max().map(|x| x + 1).unwrap_or(0);
    let mut temps = vec![0.0; num_items];
    let mut order: Vec<usize> = (0..collections.len()).collect();
    order.sort_by(|&a, &b| {
        let pa = f64::from_bits(potential(&collections[a], position_mask));
        let pb = f64::from_bits(potential(&collections[b], position_mask));
        pb.partial_cmp(&pa).unwrap()
    });
    let mut available = vec![true; collections.len()];
    let mut page = Vec::new();
    for _ in 0..num_rows {
        let mut best: Option<(usize, f64)> = None;
        for &c in order.iter() {
            if !available[c] {
                continue;
            }
            let score = f64::from_bits(live_score(&collections[c], &temps, position_mask, temp_penalty));
            best = match best {
                Some((_, held)) if score > held => Some((c, score)),
                None => Some((c, score)),
                _ => best,
            };
        }
        let Some((c, _)) = best else {
            break;
        };
        let items: Vec<usize> = if collections[c].is_sorted() {
            collections[c].items().iter().take(position_mask.len()).cloned().collect()
        } else {
            let scores: Vec<f64> =
                penalised(&collections[c], &temps, temp_penalty).iter().map(|&b| f64::from_bits(b)).collect();
            let mut places: Vec<usize> = (0..scores.len()).collect();
            places.sort_by(|&a, &b| scores[b].partial_cmp(&scores[a]).unwrap());
            places.iter().take(position_mask.len()).map(|&p| collections[c].items()[p]).collect()
        };
        available[c] = false;
        for temp in temps.iter_mut() {
            *temp *= cooling_factor;
        }
        for &item in items.iter() {
            temps[item] += 1.0;
        }
        page.push((c, items));
    }
    page
}

fn ease_scores(mat: &[Vec<f64>], history: &[usize]) -> Vec<u64> {
    let num_cols = mat.first().map(Vec::len).unwrap_or(0);
    let mut sums = vec![0.0; num_cols];
    for &i in history {
        for (j, &val) in mat[i].iter().enumerate() {
            sums[j] += val;
        }
    }
    mask_history(bits(&sums), history).unwrap()
}

fn recommend_ranked(
    item_scores: &[u64],
    definitions: &[CollectionDefinition],
    position_mask: &[f64],
    num_rows: usize,
    temp_penalty: f64,
    cooling_factor: f64,
) -> Vec<(usize, Vec<usize>)> {
    let collections = score_collections(definitions, item_scores).unwrap();
    recommend(&collections, position_mask, num_rows, temp_penalty, cooling_factor)
}

struct Lcg(u64);

impl Lcg {
    fn next(&mut self) -> u64 {
        self.0 = self.0.wrapping_mul(6364136223846793005).wrapping_add(1442695040888963407);
        self.0 >> 33
    }

    fn unit(&mut self) -> f64 {
        (self.next() % 1000) as f64 / 1000.0
    }
}

#[test]
fn recommender_state_recommendations_for_one_row() {
    let collections =
        vec![collection(&[0.1, 0.2], &[0, 1], false), collection(&[0.5, 0.9, 0.2], &[2, 3, 1], false)];
    let position_mask = vec![0.6, 0.3, 0.1];
    let mut state = engine(&collections, &position_mask);
    let temps = vec![0.0; state.num_items()];
    let run = drive(&mut state, temps, &position_mask, 1, 0.1, 0.0);
    let (collection_idx, items) = run.page[0].clone();
    assert_eq!(collection_idx, 1);
    assert_eq!(&items, &[3, 2, 1]);
}

#[test]
fn recommend_single_sorted_collection() {
    let coll_items = vec![0, 1, 2];
    let collections = vec![collection(&[0.1, 0.9, 0.4], &coll_items, true)];
    let position_mask = vec![0.6, 0.3, 0.1];
    let mut state = engine(&collections, &position_mask);
    let temps = vec![0.0; state.num_items()];
    let run = drive(&mut state, temps, &position_mask, 1, 0.1, 0.0);
    let (_, recom_items) = run.page[0].clone();
    assert_eq!(&recom_items, &coll_items);
}

#[test]
fn recommend_page_with_deduplication() {
    let collections = vec![
        collection(&[0.92, 0.91, 0.90], &[0, 1, 2], false),
        collection(&[0.35, 0.31, 0.30], &[0, 3, 4], false),
        collection(&[0.32, 0.31, 0.30], &[5, 6, 7], false),
    ];
    let rows = recommend(&collections, &[0.6, 0.3, 0.1], 3, 0.1, 0.85);
    let expected = vec![(0, vec![0, 1, 2]), (2, vec![5, 6, 7]), (1, vec![3, 4, 0])];
    assert_eq!(&rows, &expected);
}

#[test]
fn test_ease() {
    let mat = vec![
        vec![0.0, 0.2, 0.9, 0.1],
        vec![0.2, 0.0, 0.2, 0.1],
        vec![0.3, 0.2, 0.0, 0.1],
        vec![0.1, 0.2, 0.3, 0.0],
    ];
    let inputs = vec![0];
    let collections = vec![
        CollectionDefinition::new(vec![0, 1], false),
        CollectionDefinition::new(vec![1, 2], false),
        CollectionDefinition::new(vec![1, 3], false),
        CollectionDefinition::new(vec![2, 3], false),
    ];
    let position_mask = vec![0.8, 0.2];

    let recommendations =
        recommend_ranked(&ease_scores(&mat, &inputs), &collections, &position_mask, 2, 1.0, 1.0);

    assert_eq!(recommendations.len(), 2);
    assert_eq!(recommendations[0], (1, vec![2, 1]));
    assert_eq!(recommendations[1], (3, vec![2, 3]));
}

#[test]
fn test_dummy_ranker() {
    let num_items = 10;
    let n = num_items as f64;
    let item_scores: Vec<f64> = (0..num_items).map(|x| x as f64 / n).collect();
    let collections = vec![
        CollectionDefinition::new(vec![0, 1, 2, 3], false),
        CollectionDefinition::new(vec![5, 6, 7, 8], false),
        CollectionDefinition::new(vec![7, 8, 9], false),
    ];
    let position_mask = vec![0.8, 0.2];
    let recommendations = recommend_ranked(&bits(&item_scores), &collections, &position_mask, 1, 0.7, 0.7);
    assert_eq!(recommendations.len(), 1);
    assert_eq!(recommendations[0].0, 2);
    assert_eq!(recommendations[0].1, vec![9, 8]);
}

#[test]
fn single_row_is_the_greedy_pick() {
    let collections =
        vec![collection(&[0.1, 0.2], &[0, 1], false), collection(&[0.5, 0.9, 0.2], &[2, 3, 1], false)];
    let rows = recommend(&collections, &[0.6, 0.3, 0.1], 1, 0.1, 0.0);
    assert_eq!(rows, vec![(1, vec![3, 2, 1])]);
}

#[test]
fn exhaustion_ends_the_page_early() {
    let collections =
        vec![collection(&[0.1, 0.2], &[0, 1], false), collection(&[0.5, 0.9, 0.2], &[2, 3, 1], false)];
    let rows = recommend(&collections, &[0.6, 0.3, 0.1], 5, 0.1, 0.85);
    assert_eq!(rows.len(), 2);
    assert_eq!(rows, vec![(1, vec![3, 2, 1]), (0, vec![0, 1])]);
}

#[test]
fn no_collections_give_an_empty_page() {
    let mut state = RecommenderState::new(&[], &[], 3).unwrap();
    assert_eq!(state.num_items(), 0);
    assert!(matches!(state.recommend_page(4), Action::Finished(page) if page.is_empty()));
}

#[test]
fn no_rows_wanted_give_an_empty_page() {
    let collections = vec![collection(&[0.1, 0.2], &[0, 1], false)];
    let mut state = engine(&collections, &[0.5, 0.5]);
    assert!(matches!(state.recommend_page(0), Action::Finished(page) if page.is_empty()));
    assert_eq!(state.pending(), Pending::Idle);
    assert!(state.is_available(0));
}

#[test]
fn potentials_must_match_the_collections() {
    let collections = vec![collection(&[0.1, 0.2], &[0, 1], false)];
    let made = RecommenderState::new(&collections, &[], 2);
    assert!(matches!(made, Err(ConfigError::LengthMismatch)));
}

#[test]
fn collections_stand_by_descending_potential() {
    let collections = vec![
        collection(&[0.1], &[0], false),
        collection(&[0.9], &[1], false),
        collection(&[0.5], &[2], false),
        collection(&[0.9], &[3], false),
    ];
    let state = engine(&collections, &[1.0]);
    let order: Vec<usize> = (0..4).map(|place| state.caller_index(place).unwrap()).collect();
    assert_eq!(order, vec![1, 3, 2, 0]);
    assert_eq!(state.caller_index(4), None);
    assert_eq!(state.collection(0).unwrap().items(), &[1]);
    assert!(state.collection(4).is_none());
    assert_eq!(state.len(), 4);
    assert_eq!(state.row_width(), 1);
    assert_eq!(state.num_items(), 4);
}

#[test]
fn search_stops_at_the_first_potential_within_reach() {
    let collections = vec![
        collection(&[0.9], &[0], false),
        collection(&[0.5], &[1], false),
        collection(&[0.4], &[2], false),
    ];
    let position_mask = vec![1.0];
    let mut state = engine(&collections, &position_mask);
    let temps = vec![0.0; state.num_items()];
    let run = drive(&mut state, temps, &position_mask, 1, 0.1, 0.85);
    assert_eq!(run.page, vec![(0, vec![0])]);
    assert_eq!(run.scored, 1);
}

#[test]
fn replies_out_of_turn_are_refused() {
    let collections = vec![collection(&[0.9, 0.1], &[0, 1], false)];
    let mut state = engine(&collections, &[1.0]);
    assert!(state.resume(Reply::Heated).is_none());
    assert!(matches!(state.recommend_page(1), Action::Score(0)));
    assert_eq!(state.pending(), Pending::Score(0));
    assert!(state.resume(Reply::Heated).is_none());
    assert!(state.resume(Reply::Ranks(vec![0, 0])).is_none());
    assert_eq!(state.pending(), Pending::Score(0));
    assert!(matches!(state.resume(Reply::Score(0.9f64.to_bits())), Some(Action::Rank(0))));
    assert!(state.resume(Reply::Ranks(vec![0])).is_none());
    assert!(state.resume(Reply::Score(0)).is_none());
    assert_eq!(state.pending(), Pending::Ranks(0));
    let scores = bits(&[0.9, 0.1]);
    assert!(matches!(state.resume(Reply::Ranks(scores)), Some(Action::Heat(items)) if items == vec![0]));
    assert!(!state.is_available(0));
    assert!(state.resume(Reply::Score(0)).is_none());
    assert!(matches!(state.resume(Reply::Heated), Some(Action::Finished(page)) if page == vec![(0, vec![0])]));
    assert_eq!(state.pending(), Pending::Idle);
}

#[test]
fn a_second_page_goes_on_with_what_is_left() {
    let collections = vec![
        collection(&[0.9], &[0], false),
        collection(&[0.5], &[1], false),
        collection(&[0.4], &[2], false),
    ];
    let position_mask = vec![1.0];
    let mut state = engine(&collections, &position_mask);
    let temps = vec![0.0; state.num_items()];
    let first = drive(&mut state, temps, &position_mask, 2, 0.1, 0.85);
    assert_eq!(first.page, vec![(0, vec![0]), (1, vec![1])]);
    let second = drive(&mut state, first.temps, &position_mask, 2, 0.1, 0.85);
    assert_eq!(second.page, vec![(2, vec![2])]);
}

#[test]
fn temperatures_cool_before_they_heat() {
    let collections = vec![collection(&[0.9], &[0], false), collection(&[0.5], &[0], false)];
    let position_mask = vec![1.0];
    let mut state = engine(&collections, &position_mask);
    let temps = vec![0.0; state.num_items()];
    let run = drive(&mut state, temps, &position_mask, 2, 0.1, 0.5);
    assert_eq!(run.page, vec![(0, vec![0]), (1, vec![0])]);
    assert_eq!(run.temps, vec![1.5]);
}

#[test]
fn pages_hold_what_every_page_holds() {
    let mut lcg = Lcg(7);
    for _ in 0..40 {
        let num_collections = 1 + (lcg.next() % 6) as usize;
        let width = 1 + (lcg.next() % 4) as usize;
        let num_rows = (lcg.next() % 8) as usize;
        let mut collections = Vec::new();
        for _ in 0..num_collections {
            let len = (lcg.next() % 6) as usize;
            let first = (lcg.next() % 5) as usize;
            let items: Vec<usize> = (0..len).map(|k| first + 2 * k).collect();
            let scores: Vec<f64> = (0..len).map(|_| lcg.unit()).collect();
            collections.push(collection(&scores, &items, lcg.next() % 3 == 0));
        }
        let position_mask: Vec<f64> = (0..width).map(|_| lcg.unit()).collect();
        let rows = recommend(&collections, &position_mask, num_rows, 0.3, 0.75);
        assert_eq!(rows.len(), num_rows.min(num_collections));
        for (r, (index, items)) in rows.iter().enumerate() {
            assert!(rows[..r].iter().all(|(earlier, _)| earlier != index));
            let source = &collections[*index];
            assert_eq!(items.len(), width.min(source.len()));
            assert!(items.iter().all(|item| source.items().contains(item)));
            assert!(items.iter().enumerate().all(|(k, item)| !items[..k].contains(item)));
            if source.is_sorted() {
                assert_eq!(items.as_slice(), &source.items()[..items.len()]);
            }
        }
        assert_eq!(rows, recommend(&collections, &position_mask, num_rows, 0.3, 0.75));
    }
}

#[test]
fn pruned_search_agrees_with_the_search_of_every_collection() {
    let mut lcg = Lcg(11);
    for _ in 0..60 {
        let num_collections = 1 + (lcg.next() % 8) as usize;
        let width = 1 + (lcg.next() % 4) as usize;
        let num_rows = 1 + (lcg.next() % 8) as usize;
        let mut collections = Vec::new();
        for _ in 0..num_collections {
            let len = 1 + (lcg.next() % 6) as usize;
            let first = (lcg.next() % 7) as usize;
            let items: Vec<usize> = (0..len).map(|k| first + k).collect();
            let scores: Vec<f64> = (0..len).map(|_| lcg.unit()).collect();
            collections.push(collection(&scores, &items, lcg.next() % 4 == 0));
        }
        let position_mask: Vec<f64> = (0..width).map(|_| lcg.unit()).collect();
        let temp_penalty = 0.1 + 0.9 * lcg.unit();
        let cooling_factor = lcg.unit();
        assert_eq!(
            recommend(&collections, &position_mask, num_rows, temp_penalty, cooling_factor),
            reference(&collections, &position_mask, num_rows, temp_penalty, cooling_factor)
        );
    }
}
