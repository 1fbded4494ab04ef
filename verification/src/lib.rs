//! Flashcard source files reconciled against a card-collection store.
//!
//! Source text is cut into card blocks, each block becomes a [`cards::Card`],
//! the cards are grouped by deck and model, and an engine decides which
//! records the store has to add or update so that it reflects the files.

pub mod cards;
pub mod encode;
pub mod engine;
pub mod grouping;
pub mod markup;
pub mod outcome;
pub mod parsing;
pub mod plan;
pub mod stamp;
pub mod store;
pub mod text;
pub mod yaml;
