//! Collaborative filtering over sparse integer rating data: similarity metrics,
//! bounded top-k selection, chunked nearest-neighbour search, prediction,
//! recommendation and an item-item similarity matrix, all verified.

pub mod ratio;
pub mod ratings;
pub mod metrics;
pub mod topk;
pub mod knn;
pub mod similarity;
pub mod predict;
pub mod item;
pub mod books;
pub mod movies;
pub mod movielens;
