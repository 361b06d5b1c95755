use blaze_db::embedder::{EmbeddingData, Provider};

#[test]
fn test_provider_creation() {
    let provider = Provider::new("http://localhost:8080".to_string(), "test-model".to_string());

    assert_eq!(provider.url, "http://localhost:8080");
    assert_eq!(provider.model, "test-model");
}

#[test]
fn test_provider_default_model() {
    let provider = Provider::new("http://localhost:8080".to_string(), "".to_string());

    assert_eq!(provider.model, "text-embedding-nomic-embed-text-v1.5");
}

#[test]
fn test_provider_empty_model_fallback() {
    let provider = Provider::new("http://localhost:8080".to_string(), "   ".to_string());

    // Even whitespace should trigger default model
    assert_eq!(provider.model, "   ");
}

#[test]
fn test_provider_url_preservation() {
    let url = "https://api.example.com:8443/v2/embeddings";
    let model = "custom-model-v1.0";
    let provider = Provider::new(url.to_string(), model.to_string());

    assert_eq!(provider.url, url);
    assert_eq!(provider.model, model);
}

#[test]
fn test_provider_with_various_urls() {
    let test_cases = vec![
        ("http://localhost:1234", "local-model"),
        (
            "https://api.openai.com/v1/embeddings",
            "text-embedding-ada-002",
        ),
        ("http://192.168.1.100:8080/embed", "custom"),
    ];

    for (url, model) in test_cases {
        let provider = Provider::new(url.to_string(), model.to_string());
        assert_eq!(provider.url, url);
        assert_eq!(provider.model, model);
    }
}

#[test]
fn test_provider_clone() {
    let provider1 = Provider::new("http://test.com".to_string(), "model1".to_string());
    let provider2 = provider1.clone();

    assert_eq!(provider1.url, provider2.url);
    assert_eq!(provider1.model, provider2.model);
}

#[test]
fn test_provider_debug() {
    let provider = Provider::new("http://localhost:8080".to_string(), "test-model".to_string());
    let debug_str = format!("{:?}", provider);

    assert!(debug_str.contains("http://localhost:8080"));
    assert!(debug_str.contains("test-model"));
}

#[test]
fn test_resolve_embeddings_fills_chunks_by_index() {
    let chunks = vec!["first".to_string(), "second".to_string()];
    // Out-of-order response, one record dropped for an empty vector, one
    // index past the request.
    let data = vec![
        EmbeddingData { index: 1, chunk: String::new(), embedding: vec![1, 2], dimensions: 0 },
        EmbeddingData { index: 0, chunk: String::new(), embedding: vec![], dimensions: 0 },
        EmbeddingData { index: 0, chunk: String::new(), embedding: vec![3], dimensions: 0 },
        EmbeddingData { index: 9, chunk: String::new(), embedding: vec![4], dimensions: 0 },
    ];

    let resolved = blaze_db::embedder::resolve_embeddings(&chunks, &data);

    assert_eq!(resolved.len(), 3);
    assert_eq!(resolved[0].chunk, "second");
    assert_eq!(resolved[0].index, 1);
    assert_eq!(resolved[0].dimensions, 2);
    assert_eq!(resolved[1].chunk, "first");
    assert_eq!(resolved[1].embedding, vec![3]);
    assert_eq!(resolved[1].dimensions, 1);
    assert_eq!(resolved[2].chunk, "");
    assert_eq!(resolved[2].index, 9);
}
