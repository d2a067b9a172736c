//! Character-build resolution: a feature store with a tag-query algebra,
//! a dice-roll expression language, and the engine that evaluates adopted
//! features against a player's choices.

pub mod creation;
pub mod feature_db;
pub mod material;
pub mod roll;
pub mod table;
