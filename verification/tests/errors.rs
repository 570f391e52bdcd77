use rbs::RBSError;

#[test]
fn io_error_becomes_read_file() {
    let err = std::io::Error::new(std::io::ErrorKind::NotFound, "no such corpus");
    assert_eq!(RBSError::from(err), RBSError::ReadFile("no such corpus".to_string()));
}

#[test]
fn json_error_becomes_read_file() {
    let err = serde_json::from_str::<u32>("not json").unwrap_err();
    let text = err.to_string();
    assert_eq!(RBSError::from(err), RBSError::ReadFile(text));
}

#[test]
fn ollama_error_becomes_ollama() {
    let err = ollama_rs::error::OllamaError::Other("model missing".to_string());
    assert_eq!(RBSError::from(err), RBSError::Ollama("Error in Ollama".to_string()));
}

#[test]
fn hub_error_becomes_hugging_face() {
    let parse = "x".parse::<usize>().unwrap_err();
    let err = hf_hub::api::sync::ApiError::ParseIntError(parse);
    assert_eq!(RBSError::from(err), RBSError::HuggingFace("Cannot parse int".to_string()));
}
