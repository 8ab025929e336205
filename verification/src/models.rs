//! The single-word model under the names that speak of a model and its
//! entries.

use vstd::prelude::*;

verus! {

/// The trainer of the single-word model.
pub type SimpleWordModel = crate::simplemodel::SimpleWordTrainer;

/// The predictor of the single-word model.
pub type SimpleWordPredictor = crate::simplemodel::SimpleWordPredictor;

/// An entry of the single-word model.
pub type SimpleWordEntry = crate::predictionentry::PredictionEntry;

} // verus!
