//! A two-class text classifier: word-frequency training and a
//! Naive-Bayes-style prediction, with every step proved by Verus.

pub mod classifier;
mod natural;
pub mod tokenizer;

pub use classifier::{Class, Classifier, TrainError, MAX_TOKENS};
pub use tokenizer::tokenize;
