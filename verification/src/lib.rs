//! A byte-pair-encoding tokenizer whose behaviour is stated in contracts and
//! proved.
//!
//! A [`PowerTokenizer`] holds a vocabulary, the [`VocabStore`], and a
//! [`Segmenter`]. The vocabulary is a sequence of merge rules: rule `i`
//! says that a pair of ids becomes the id `256 + i`, and the ids below 256
//! are the bytes. The segmenter cuts a text into pretokens, and merges never
//! reach from one pretoken into the next.
//!
//! * `vocab`: the rules, what each id stands for, and the store that holds
//!   them.
//! * `segment`: the pattern and the pretokens it cuts a text into.
//! * `words`: the ids of the pretokens during training, and how a merge
//!   rewrites them.
//! * `train`: counting pairs, choosing the pair to merge, and what training
//!   comes to.
//! * `encode`, `decode`: ids from bytes by the rules, and bytes and text
//!   from ids.
//! * `codec`, `keys`: the persisted form of a model.
//! * `tokenizer`: the tokenizer itself.
//! * `laws`: what holds of all of it together.

pub mod codec;
pub mod decode;
pub mod encode;
pub mod keys;
pub mod laws;
pub mod segment;
pub mod tokenizer;
pub mod train;
pub mod vocab;
pub mod words;

pub use codec::PersistedModel;
pub use segment::Segmenter;
pub use tokenizer::{MergeStep, PowerTokenizer};
pub use vocab::{ModelError, VocabStore};
