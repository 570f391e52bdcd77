use vstd::prelude::*;

verus! {

/// Identifies one embedding: the document it was computed for and the model
/// that computed it.
#[derive(Debug, Clone, PartialEq, Eq, Hash)]
pub struct DocModelKey {
    pub document: String,
    pub model: String,
}

impl View for DocModelKey {
    type V = (Seq<char>, Seq<char>);

    open spec fn view(&self) -> (Seq<char>, Seq<char>) {
        (self.document@, self.model@)
    }
}

/// An embedding together with the label of its document, if it has one.
/// `E` is the embedding vector itself; the library never looks inside it.
#[derive(Debug, Clone)]
pub struct EmbMaybeLabel<E> {
    pub emb: E,
    pub label: Option<String>,
}

/// One record of a labelled news corpus (text, numeric label, label name).
#[derive(Debug, Clone)]
pub struct NewsDP {
    pub text: String,
    pub label: u8,
    pub label_text: String,
}

/// The errors of the library, each with a message.
#[derive(Debug, Clone, PartialEq, Eq)]
pub enum RBSError {
    Ollama(String),
    KMostSim(String),
    HuggingFace(String),
    ReadFile(String),
    Json(String),
}

/// A document with its similarity score. The score is kept as the bit
/// pattern of an IEEE-754 single-precision number; scores are compared by
/// the IEEE-754 total order of those numbers (see `score_key`).
#[derive(Debug)]
pub struct Scores {
    pub document: String,
    pub score_bits: u32,
}

impl Clone for Scores {
    /// A copy with the same document and the same score.
    fn clone(&self) -> (r: Self)
        ensures
            r == *self,
    {
        Scores { document: self.document.clone(), score_bits: self.score_bits }
    }
}

} // verus!
