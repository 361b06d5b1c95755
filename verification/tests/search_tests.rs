use blaze_db::errors::StoreError;
use blaze_db::search::{Metrics, SearchQuery};
use blaze_db::storage::VectorData;

fn bits(values: &[f32]) -> Vec<u32> {
    values.iter().map(|v| v.to_bits()).collect()
}

/// The cosine scoring a caller performs before ranking: dot(a,b) over the
/// product of norms, 0.0 when the denominator vanishes.
fn cosine(a: &[f32], b: &[f32]) -> f32 {
    let mut dot = 0.0f32;
    let mut na = 0.0f32;
    let mut nb = 0.0f32;
    for i in 0..a.len() {
        dot += a[i] * b[i];
        na += a[i] * a[i];
        nb += b[i] * b[i];
    }
    let denominator = (na * nb).sqrt();
    if denominator < f32::EPSILON {
        0.0
    } else {
        dot / denominator
    }
}

fn dataset(vectors: &[Vec<f32>]) -> VectorData {
    let chunk: Vec<String> = (0..vectors.len()).map(|i| format!("chunk {}", i)).collect();
    let embedding: Vec<Vec<u32>> = vectors.iter().map(|v| bits(v)).collect();
    let dimensions = if embedding.is_empty() { 0 } else { embedding[0].len() };
    let total_vectors = embedding.len();
    VectorData { chunk, embedding, dimensions, total_vectors }
}

fn cosine_scores(data: &VectorData, query: &[f32]) -> Vec<u32> {
    data.embedding
        .iter()
        .map(|v| {
            let vf: Vec<f32> = v.iter().map(|b| f32::from_bits(*b)).collect();
            cosine(&vf, query).to_bits()
        })
        .collect()
}

#[test]
fn test_search_dimension_mismatch() {
    let data = dataset(&[vec![1.0, 0.0], vec![0.0, 1.0]]);
    let query = SearchQuery::new(3, bits(&[1.0, 0.0, 0.0]), Metrics::Cosine);
    let scores = vec![0u32; 2];

    assert_eq!(query.search(&data, &scores).unwrap_err(), StoreError::DimensionMismatch);
}

#[test]
fn three_records_descending_cosine() {
    // Three records with distinct vectors and `top_k` past the dataset size:
    // all three come back, ordered by descending cosine score.
    let data = dataset(&[
        vec![1.0, 0.0],  // orthogonal to the query
        vec![1.0, 1.0],  // partway
        vec![0.0, 2.0],  // aligned with the query
    ]);
    let query_vec = [0.0f32, 1.0];
    let scores = cosine_scores(&data, &query_vec);
    let query = SearchQuery::new(5, bits(&query_vec), Metrics::Cosine);

    let results = query.search(&data, &scores).unwrap();

    assert_eq!(results.len(), 3);
    assert_eq!(results[0].chunk, "chunk 2");
    assert_eq!(results[1].chunk, "chunk 1");
    assert_eq!(results[2].chunk, "chunk 0");
    let s: Vec<f32> = results.iter().map(|r| f32::from_bits(r.score)).collect();
    assert!(s[0] >= s[1] && s[1] >= s[2]);
    assert!((s[0] - 1.0).abs() < 1e-6);
    assert!((s[2] - 0.0).abs() < 1e-6);
}

#[test]
fn test_search_truncates_to_top_k() {
    let data = dataset(&[vec![1.0], vec![2.0], vec![3.0], vec![4.0]]);
    let scores = bits(&[0.1, 0.4, 0.2, 0.3]);
    let query = SearchQuery::new(2, bits(&[1.0]), Metrics::Euclidean);

    let results = query.search(&data, &scores).unwrap();

    assert_eq!(results.len(), 2);
    assert_eq!(results[0].chunk, "chunk 1");
    assert_eq!(results[1].chunk, "chunk 3");
}

#[test]
fn test_search_top_k_zero() {
    let data = dataset(&[vec![1.0], vec![2.0]]);
    let scores = bits(&[0.1, 0.2]);
    let query = SearchQuery::new(0, bits(&[1.0]), Metrics::Cosine);

    assert_eq!(query.search(&data, &scores).unwrap().len(), 0);
}

#[test]
fn test_search_nan_scores_sort_last() {
    let data = dataset(&[vec![1.0], vec![2.0], vec![3.0], vec![4.0]]);
    let scores = bits(&[0.5, f32::NAN, 0.9, f32::NAN]);
    let query = SearchQuery::new(4, bits(&[1.0]), Metrics::Cosine);

    let results = query.search(&data, &scores).unwrap();

    assert_eq!(results.len(), 4);
    assert_eq!(results[0].chunk, "chunk 2");
    assert_eq!(results[1].chunk, "chunk 0");
    assert!(f32::from_bits(results[2].score).is_nan());
    assert!(f32::from_bits(results[3].score).is_nan());
}

#[test]
fn test_search_orders_negative_scores() {
    let data = dataset(&[vec![1.0], vec![2.0], vec![3.0], vec![4.0]]);
    let scores = bits(&[-1.0, 0.5, -0.25, 0.0]);
    let query = SearchQuery::new(4, bits(&[1.0]), Metrics::Cosine);

    let results = query.search(&data, &scores).unwrap();

    let s: Vec<f32> = results.iter().map(|r| f32::from_bits(r.score)).collect();
    assert_eq!(s, vec![0.5, 0.0, -0.25, -1.0]);
}

#[test]
fn test_search_results_non_increasing() {
    let data = dataset(&[vec![0.3], vec![0.9], vec![0.1], vec![0.9], vec![0.5]]);
    let scores = bits(&[0.3, 0.9, 0.1, 0.9, 0.5]);
    let query = SearchQuery::new(5, bits(&[1.0]), Metrics::Euclidean);

    let results = query.search(&data, &scores).unwrap();

    for w in results.windows(2) {
        assert!(f32::from_bits(w[0].score) >= f32::from_bits(w[1].score));
    }
}
