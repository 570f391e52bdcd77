# rbs

Retrieval by embedding similarity across several Ollama models.

- `src/` is the verified library (Verus):
  - `store.rs`: `EmbeddingSet`, the labelled embeddings keyed by
    (document, model), modelled as a sequence of entries with distinct keys;
    storing a model's embeddings for a list of documents; the distinct
    documents and models; the labelled documents.
  - `labels.rs`: `LabelIndex`, the label of each labelled document, and the
    scoring of retrieved documents against a query's label.
  - `ranking.rs`: selection of the `k` best-scored documents, best first.
  - `score_key.rs`, `score_order.rs`: scores kept as IEEE-754 bit patterns and
    compared by the IEEE-754 total order.
  - `corpus.rs`: preparation of the 20 Newsgroups records for optimisation.
  - `settings.rs`: default cut-offs and rounds, the check of custom weights.
  - `errors.rs`: conversions of the client crates' errors into `RBSError`.
- `app/` holds the asynchronous functions that call the Ollama server and the
  Hugging Face hub, read files, and do the floating-point arithmetic.
- `tests/` exercises the library on concrete values.
