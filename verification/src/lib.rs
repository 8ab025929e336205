//! Word prediction from word counts: trained on text, a model completes a
//! word from its first letters, alone or in view of the word before it.

pub mod bigram_model;
pub mod codec;
pub mod error;
pub mod lexicon;
pub mod models;
pub mod pairs;
pub mod prediction;
pub mod predictionentry;
pub mod ranking;
pub mod records;
pub mod shortlist;
pub mod simplemodel;
pub mod tally;
pub mod text;

pub use bigram_model::{BigramPredictor, BigramTrainer};
pub use error::ModelError;
pub use predictionentry::PredictionEntry;
pub use simplemodel::{SimpleWordPredictor, SimpleWordTrainer};
