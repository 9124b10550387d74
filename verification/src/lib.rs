//! A verified task store: task records with a status lifecycle and
//! creation/update timestamps, a JSON persistence layer whose save/load
//! round-trip is proved, and a query engine (filter, substring and regex
//! search, stable multi-field sort) with exact contracts.

pub mod text;
pub mod trusted;
pub mod task;
pub mod codec;
pub mod sort;
pub mod store;
