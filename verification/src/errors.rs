use vstd::prelude::*;
use vstd::std_specs::convert::FromSpecImpl;
use vstd::string::to_string_from_display_ensures;

use hf_hub::api::sync::ApiError;
use ollama_rs::error::OllamaError;

use crate::types::RBSError;

verus! {

#[verifier::external_type_specification]
#[verifier::external_body]
pub struct ExOllamaError(OllamaError);

#[verifier::external_type_specification]
#[verifier::external_body]
pub struct ExApiError(ApiError);

#[verifier::external_type_specification]
#[verifier::external_body]
pub struct ExIoError(std::io::Error);

#[verifier::external_type_specification]
#[verifier::external_body]
pub struct ExJsonError(serde_json::Error);

impl From<OllamaError> for RBSError {
    /// An Ollama client error becomes `RBSError::Ollama` with the text that
    /// its `Display` writes.
    fn from(err: OllamaError) -> (r: RBSError)
        ensures
            r matches RBSError::Ollama(m) && to_string_from_display_ensures::<OllamaError>(&err, m),
    {
        RBSError::Ollama(err.to_string())
    }
}

impl FromSpecImpl<OllamaError> for RBSError {
    open spec fn obeys_from_spec() -> bool {
        false
    }

    open spec fn from_spec(v: OllamaError) -> RBSError {
        RBSError::Ollama(choose|m: String| to_string_from_display_ensures::<OllamaError>(&v, m))
    }
}

impl From<ApiError> for RBSError {
    /// A Hugging Face hub error becomes `RBSError::HuggingFace` with the text
    /// that its `Display` writes.
    fn from(err: ApiError) -> (r: RBSError)
        ensures
            r matches RBSError::HuggingFace(m) && to_string_from_display_ensures::<ApiError>(&err, m),
    {
        RBSError::HuggingFace(err.to_string())
    }
}

impl FromSpecImpl<ApiError> for RBSError {
    open spec fn obeys_from_spec() -> bool {
        false
    }

    open spec fn from_spec(v: ApiError) -> RBSError {
        RBSError::HuggingFace(choose|m: String| to_string_from_display_ensures::<ApiError>(&v, m))
    }
}

impl From<std::io::Error> for RBSError {
    /// An I/O error becomes `RBSError::ReadFile` with the text that its
    /// `Display` writes.
    fn from(err: std::io::Error) -> (r: RBSError)
        ensures
            r matches RBSError::ReadFile(m) && to_string_from_display_ensures::<std::io::Error>(
                &err,
                m,
            ),
    {
        RBSError::ReadFile(err.to_string())
    }
}

impl FromSpecImpl<std::io::Error> for RBSError {
    open spec fn obeys_from_spec() -> bool {
        false
    }

    open spec fn from_spec(v: std::io::Error) -> RBSError {
        RBSError::ReadFile(choose|m: String| to_string_from_display_ensures::<std::io::Error>(&v, m))
    }
}

impl From<serde_json::Error> for RBSError {
    /// A JSON error also becomes `RBSError::ReadFile` with the text that its
    /// `Display` writes: it arises while reading a corpus file.
    fn from(err: serde_json::Error) -> (r: RBSError)
        ensures
            r matches RBSError::ReadFile(m) && to_string_from_display_ensures::<serde_json::Error>(
                &err,
                m,
            ),
    {
        RBSError::ReadFile(err.to_string())
    }
}

impl FromSpecImpl<serde_json::Error> for RBSError {
    open spec fn obeys_from_spec() -> bool {
        false
    }

    open spec fn from_spec(v: serde_json::Error) -> RBSError {
        RBSError::ReadFile(
            choose|m: String| to_string_from_display_ensures::<serde_json::Error>(&v, m),
        )
    }
}

} // verus!
