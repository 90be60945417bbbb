//! A statistical text generator built on an n-gram Markov model.
//!
//! The model records, for every run of `n` consecutive words of a corpus, how
//! often each word followed that run, and extends a seed phrase by repeatedly
//! drawing a follower of its last `n` words.
//!
//! * [`table`]: the frequency table of one context, with weighted selection.
//! * [`model`]: the trained model and the training pass.
//! * [`generate`]: the walk that grows a seed into a sentence.
//! * [`random`]: the sources of the numbers that the walk draws.
//! * [`text`]: joining words into contexts and splitting phrases into words.
//! * [`args`]: the settings of a run and their validation.
//! * [`assoc`]: the association lists that model tables and models.
//! * [`error`]: the failures reported.

pub mod args;
pub mod assoc;
pub mod error;
pub mod generate;
pub mod model;
pub mod random;
pub mod table;
pub mod text;

pub use crate::args::process_arguments;
pub use crate::error::ModelError;
pub use crate::generate::{generate_sentence, generate_sentence_with, generate_words_with};
pub use crate::model::{train_n_gram_model, NGramModel};
pub use crate::random::{RandomSource, ReplaySource, ThreadSource};
pub use crate::table::FreqTable;
