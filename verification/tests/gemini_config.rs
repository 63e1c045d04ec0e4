use markhor::gemini::EmbeddingUseCase;
use markhor::gemini_config::{api_path_segments, GeminiConfig, GeminiEmbedder, GeminiError, SharedGeminiClient};

fn config_message(r: Result<impl std::fmt::Debug, GeminiError>) -> String {
    match r {
        Err(GeminiError::InvalidConfiguration(m)) => m,
        other => panic!("expected a configuration error, got {:?}", other),
    }
}

#[test]
fn empty_api_key_is_refused() {
    assert_eq!(config_message(GeminiConfig::new(String::new())), "API key cannot be empty");
}

#[test]
fn config_keeps_key_and_default_url() {
    let c = GeminiConfig::new("key".to_string()).unwrap();
    assert_eq!(c.api_key, "key");
    assert_eq!(c.base_url, "https://generativelanguage.googleapis.com");
    assert_eq!(c.timeout, std::time::Duration::from_secs(60));
    let c = c.timeout(std::time::Duration::from_secs(5));
    assert_eq!(c.timeout, std::time::Duration::from_secs(5));
    assert_eq!(c.api_key, "key");
}

#[test]
fn base_url_is_parsed() {
    let c = GeminiConfig::new("key".to_string()).unwrap().base_url("http://localhost:8080").unwrap();
    assert_eq!(c.base_url, "http://localhost:8080");
    let e = GeminiConfig::new("key".to_string()).unwrap().base_url("not a url");
    assert_eq!(config_message(e), "Invalid base URL 'not a url': relative URL without a base");
}

#[test]
fn path_segments_start_with_the_version() {
    assert_eq!(api_path_segments("models"), vec!["v1beta".to_string(), "models".to_string()]);
    assert_eq!(
        api_path_segments("models/embedding-001:batchEmbedContents"),
        vec!["v1beta".to_string(), "models".to_string(), "embedding-001:batchEmbedContents".to_string()]
    );
    assert_eq!(api_path_segments("a//b/"), vec!["v1beta", "a", "", "b", ""]);
}

#[test]
fn urls_are_built_from_the_base() {
    let c = GeminiConfig::new("key".to_string()).unwrap();
    let shared = SharedGeminiClient::new(c, Some(reqwest::Client::new())).unwrap();
    let url = shared.build_url("models").unwrap();
    assert_eq!(url, "https://generativelanguage.googleapis.com/v1beta/models");
    let c = GeminiConfig::new("key".to_string()).unwrap().base_url("data:text/plain,hello").unwrap();
    let shared = SharedGeminiClient::new(c, Some(reqwest::Client::new())).unwrap();
    assert_eq!(config_message(shared.build_url("models")), "Base URL cannot be a 'cannot-be-a-base' URL.");
}

#[test]
fn embedder_settings_follow_the_model() {
    assert_eq!(config_message(GeminiEmbedder::new("key".to_string(), String::new())), "Model name cannot be empty");
    assert_eq!(config_message(GeminiEmbedder::new(String::new(), "embedding-001".to_string())), "API key cannot be empty");
    let e = GeminiEmbedder::new_with_options(
        "key".to_string(),
        "embedding-001".to_string(),
        None,
        None,
        Some(reqwest::Client::new()),
    )
    .unwrap();
    assert_eq!(e.model_name(), "embedding-001");
    assert_eq!(e.model_path_segment, "models/embedding-001");
    assert_eq!(e.dimensions(), Some(768));
    assert_eq!(e.intended_use_case(), EmbeddingUseCase::General);
    assert_eq!(e.max_batch_size_hint(), Some(100));
    assert_eq!(e.max_chunk_length_hint(), Some(8000));
    assert_eq!(e.batch_embed_path(), "models/embedding-001:batchEmbedContents");
    assert_eq!(
        e.build_batch_embed_url().unwrap(),
        "https://generativelanguage.googleapis.com/v1beta/models/embedding-001:batchEmbedContents"
    );
}

#[test]
fn embedder_task_type_and_unknown_model() {
    let e = GeminiEmbedder::new_with_options(
        "key".to_string(),
        "text-embedding-004".to_string(),
        Some("RETRIEVAL_DOCUMENT".to_string()),
        Some("http://localhost:1234".to_string()),
        Some(reqwest::Client::new()),
    )
    .unwrap();
    assert_eq!(e.dimensions(), None);
    assert_eq!(e.intended_use_case(), EmbeddingUseCase::RetrievalDocument);
    assert_eq!(e.task_type.as_deref(), Some("RETRIEVAL_DOCUMENT"));
    assert_eq!(
        e.build_batch_embed_url().unwrap(),
        "http://localhost:1234/v1beta/models/text-embedding-004:batchEmbedContents"
    );
    let bad = GeminiEmbedder::new_with_options(
        "key".to_string(),
        "embedding-001".to_string(),
        None,
        Some("::".to_string()),
        None,
    );
    assert_eq!(config_message(bad), "Invalid base URL '::': relative URL without a base");
}
