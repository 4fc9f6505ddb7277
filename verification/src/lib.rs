//! Aggregation of agent session event logs into a dashboard summary.
pub mod budget;
pub mod cache;
pub mod clock;
pub mod durations;
pub mod json;
pub mod lines;
pub mod models;
pub mod named;
pub mod order;
pub mod parse;
pub mod refresh;
pub mod scan;
pub mod summary;
pub mod template;
pub mod text;
