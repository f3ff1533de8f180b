//! An n-gram Markov chain text generator: word interning, a table from
//! states to weighted successor lists, training over sliding windows,
//! weighted-random generation, and a string codec for composite state keys.

pub mod index;
pub mod codec;
pub mod text;
pub mod interner;
pub mod state;
pub mod chain;
pub mod walk;
pub mod random;
pub mod counting;
pub mod persistence;
pub mod corpus;
pub mod settings;

pub use chain::{GenerationError, MarkovChain};
pub use codec::{decode_key, encode_key};
pub use corpus::{corpus_text, preprocess_text, train_from_corpus, CorpusError};
pub use interner::Interner;
pub use persistence::{load, save, ModelError, SavedModel, SavedState};
pub use settings::{DefaultSettings, LoggingSettings, ModelSettings, Settings};
pub use state::State;
