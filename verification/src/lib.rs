//! A full page of recommendations: rows of collections, each cut to its best
//! items, chosen greedily so that an item already shown weighs less in the
//! rows that follow.
//!
//! The library decides and orders; it does no arithmetic on scores. A score
//! is carried as the bit pattern of a binary64 number (`order`), ranked
//! (`ranking`), and asked of the caller whenever the engine needs one
//! (`recommender_state`, over the transition system of `page`). What holds
//! of every page is proved in `laws`.

pub mod collection;
pub mod ease;
pub mod laws;
pub mod order;
pub mod page;
pub mod ranker;
pub mod ranking;
pub mod recommender_state;
