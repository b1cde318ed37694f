//! An incrementally trainable multi-class token-frequency classifier
//! (multinomial Naive Bayes with add-one smoothing), verified with Verus.
pub mod lookup;
pub mod sums;
pub mod model;
pub mod classifier;
pub mod laws;

pub use classifier::{ClassScore, Classifier};
