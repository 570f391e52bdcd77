//! Ranking of documents by how similar their embeddings are to a query, with
//! per-model weights, and the bookkeeping around it: the store of labelled
//! embeddings, the label index used to score retrieval, the selection of the
//! best `k` documents, and the preparation of a corpus for weight
//! optimisation.
pub mod corpus;
pub mod errors;
pub mod labels;
pub mod ranking;
pub mod score_key;
pub mod score_order;
pub mod settings;
pub mod store;
pub mod types;

pub use corpus::{news_corpus, training_split, TRAINING_DOCUMENTS, TRAINING_LABELS};
pub use labels::{CutoffTally, LabelIndex};
pub use ranking::{rank_indices, top_k};
pub use score_key::score_key;
pub use settings::{check_weight_count, ks_or_default, runs_or_default, DEFAULT_RUNS};
pub use store::EmbeddingSet;
pub use types::{DocModelKey, EmbMaybeLabel, NewsDP, RBSError, Scores};
