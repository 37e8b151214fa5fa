//! A verified engine for classifying, aggregating, filtering and
//! context-expanding structured text logs.
//!
//! Log lines follow a fixed four-field grammar: a bracketed timestamp, a
//! bracketed level and a bracketed domain separated by single spaces,
//! followed by a free-form message. The crate classifies lines, folds them
//! into summaries, filters them by level/domain/keyword allow-lists, and
//! expands filter matches into context windows while preserving input order.

pub mod filter;
pub mod parser;
pub mod registry;
pub mod summary;
pub mod text;
pub mod window;
