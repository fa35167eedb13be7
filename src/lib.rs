//! Aggregation of sampled call stacks into the points where threads fan out:
//! a line parser for the trace stream, per-thread sliding windows, the
//! attribution and ranking of shared stack suffixes, and the decisions of the
//! input loop that drives them.
pub mod store;
pub mod aggregate;
pub mod text;
pub mod parser;
pub mod scheduler;
pub mod render;
