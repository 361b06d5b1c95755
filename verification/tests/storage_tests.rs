use blaze_db::embedder::{EmbeddingData, Embeddings};
use blaze_db::errors::StoreError;
use blaze_db::storage::{EmbeddingStore, VectorData};
use blaze_db::writer::EmbeddingJson;

fn bits(values: &[f32]) -> Vec<u32> {
    values.iter().map(|v| v.to_bits()).collect()
}

#[test]
fn test_embedding_store_creation() {
    let embedding_data = vec![
        EmbeddingData {
            index: 0,
            chunk: "test chunk 1".to_string(),
            embedding: bits(&[1.0, 2.0, 3.0]),
            dimensions: 3,
        },
        EmbeddingData {
            index: 1,
            chunk: "test chunk 2".to_string(),
            embedding: bits(&[4.0, 5.0, 6.0]),
            dimensions: 3,
        },
    ];

    let store = EmbeddingStore::new(0, embedding_data);

    assert_eq!(store.batch_index, 0);
    assert_eq!(store.items.len(), 2);
    assert_eq!(store.items[0].chunk, "test chunk 1");
    assert_eq!(store.items[1].chunk, "test chunk 2");
}

#[test]
fn test_write_read_binary() {
    let embedding_data = vec![EmbeddingData {
        index: 0,
        chunk: "test chunk".to_string(),
        embedding: bits(&[1.0, 2.0, 3.0]),
        dimensions: 3,
    }];

    let store = EmbeddingStore::new(0, embedding_data);

    let encoded = store.encode_binary();
    let loaded_store = EmbeddingStore::decode_binary(&encoded).unwrap();

    assert_eq!(loaded_store.batch_index, store.batch_index);
    assert_eq!(loaded_store.items.len(), store.items.len());
    assert_eq!(loaded_store.items[0].chunk, store.items[0].chunk);
    assert_eq!(loaded_store.items[0].embedding, store.items[0].embedding);
    assert_eq!(loaded_store.items[0].dimensions, store.items[0].dimensions);
}

#[test]
fn test_round_trip_exact_bits_and_unicode() {
    // Exact float bit patterns — a NaN payload, negative zero, an
    // infinity — and Unicode text must survive the round trip untouched.
    let strange_bits = vec![
        0x7fc0_1234u32,          // NaN with a payload
        0x8000_0000,             // negative zero
        0x7f80_0000,             // positive infinity
        (-3.5f32).to_bits(),
        0.0f32.to_bits(),
    ];
    let embedding_data = vec![
        EmbeddingData {
            index: 7,
            chunk: "Hello 世界 — naïve résumé 😭🤧".to_string(),
            embedding: strange_bits.clone(),
            dimensions: 5,
        },
        EmbeddingData {
            index: 8,
            chunk: String::new(),
            embedding: Vec::new(),
            dimensions: 0,
        },
    ];
    let store = EmbeddingStore::new(42, embedding_data);

    let decoded = EmbeddingStore::decode_binary(&store.encode_binary()).unwrap();

    assert_eq!(decoded.batch_index, 42);
    assert_eq!(decoded.items, store.items);
    assert_eq!(decoded.items[0].embedding, strange_bits);
}

#[test]
fn test_encode_binary_exact_layout() {
    // One record: every integer is 8 little-endian bytes, the chunk is
    // length-prefixed UTF-8, each coordinate is its 4 float bits bytes.
    let store = EmbeddingStore::new(1, vec![EmbeddingData {
        index: 2,
        chunk: "A".to_string(),
        embedding: vec![1.0f32.to_bits()],
        dimensions: 1,
    }]);

    let mut expected: Vec<u8> = Vec::new();
    expected.extend_from_slice(&1u64.to_le_bytes()); // batch index
    expected.extend_from_slice(&1u64.to_le_bytes()); // item count
    expected.extend_from_slice(&2u64.to_le_bytes()); // record index
    expected.extend_from_slice(&1u64.to_le_bytes()); // chunk byte length
    expected.push(b'A');
    expected.extend_from_slice(&1u64.to_le_bytes()); // coordinate count
    expected.extend_from_slice(&1.0f32.to_bits().to_le_bytes());
    expected.extend_from_slice(&1u64.to_le_bytes()); // dimensions

    assert_eq!(store.encode_binary(), expected);
}

#[test]
fn test_decode_rejects_truncated_bytes() {
    let store = EmbeddingStore::new(1, vec![EmbeddingData {
        index: 0,
        chunk: "chunk".to_string(),
        embedding: bits(&[1.0]),
        dimensions: 1,
    }]);
    let mut encoded = store.encode_binary();
    encoded.pop();

    assert_eq!(EmbeddingStore::decode_binary(&encoded).unwrap_err(), StoreError::DecodeError);
}

#[test]
fn test_decode_rejects_trailing_bytes() {
    let store = EmbeddingStore::new(1, Vec::new());
    let mut encoded = store.encode_binary();
    encoded.push(0);

    assert_eq!(EmbeddingStore::decode_binary(&encoded).unwrap_err(), StoreError::DecodeError);
}

#[test]
fn test_decode_rejects_invalid_utf8_chunk() {
    let store = EmbeddingStore::new(0, vec![EmbeddingData {
        index: 0,
        chunk: "ab".to_string(),
        embedding: Vec::new(),
        dimensions: 0,
    }]);
    let mut encoded = store.encode_binary();
    // The chunk's two bytes start right after batch index (8), item count
    // (8), record index (8) and chunk length (8).
    encoded[32] = 0xff;
    encoded[33] = 0xff;

    assert_eq!(EmbeddingStore::decode_binary(&encoded).unwrap_err(), StoreError::DecodeError);
}

#[test]
fn test_read_binary_multiple_files() {
    let mut files: Vec<Vec<u8>> = Vec::new();
    for i in 0..3usize {
        let embedding_data = vec![EmbeddingData {
            index: i,
            chunk: format!("chunk {}", i),
            embedding: bits(&[i as f32, (i + 1) as f32]),
            dimensions: 2,
        }];
        files.push(EmbeddingStore::new(i, embedding_data).encode_binary());
    }

    let vector_data = EmbeddingStore::read_binary(&files).unwrap();

    assert_eq!(vector_data.total_vectors, 3);
    assert_eq!(vector_data.dimensions, 2);
    assert_eq!(vector_data.chunk.len(), 3);
    assert_eq!(vector_data.embedding.len(), 3);
    assert_eq!(vector_data.chunk[1], "chunk 1");
    assert_eq!(vector_data.embedding[2], bits(&[2.0, 3.0]));
}

#[test]
fn test_read_binary_skips_corrupt_file() {
    // One corrupt file between two valid ones: the load keeps exactly the
    // valid files' records and raises no error.
    let a = EmbeddingStore::new(0, vec![EmbeddingData {
        index: 0,
        chunk: "good a".to_string(),
        embedding: bits(&[1.0]),
        dimensions: 1,
    }])
    .encode_binary();
    let corrupt = vec![1, 2, 3, 4];
    let b = EmbeddingStore::new(1, vec![EmbeddingData {
        index: 0,
        chunk: "good b".to_string(),
        embedding: bits(&[2.0]),
        dimensions: 1,
    }])
    .encode_binary();

    let vector_data = EmbeddingStore::read_binary(&vec![a, corrupt, b]).unwrap();

    assert_eq!(vector_data.total_vectors, 2);
    assert_eq!(vector_data.chunk, vec!["good a".to_string(), "good b".to_string()]);
}

#[test]
fn test_read_binary_empty_directory() {
    let result = EmbeddingStore::read_binary(&Vec::new());

    assert_eq!(result.unwrap_err(), StoreError::NotFound);
}

#[test]
fn test_read_binary_all_corrupt_yields_empty_dataset() {
    let files = vec![vec![0u8, 1], vec![9u8; 3]];
    let vector_data = EmbeddingStore::read_binary(&files).unwrap();

    assert_eq!(vector_data.total_vectors, 0);
    assert_eq!(vector_data.dimensions, 0);
}

#[test]
fn test_vector_data_get_vector() {
    let vector_data = VectorData {
        chunk: vec!["chunk1".to_string(), "chunk2".to_string()],
        embedding: vec![bits(&[1.0, 2.0]), bits(&[3.0, 4.0])],
        dimensions: 2,
        total_vectors: 2,
    };

    assert_eq!(vector_data.get_vector(0), Some(&bits(&[1.0, 2.0])));
    assert_eq!(vector_data.get_vector(1), Some(&bits(&[3.0, 4.0])));
    assert_eq!(vector_data.get_vector(2), None);
}

#[test]
fn test_vector_data_get_chunk() {
    let vector_data = VectorData {
        chunk: vec!["chunk1".to_string(), "chunk2".to_string()],
        embedding: vec![bits(&[1.0, 2.0]), bits(&[3.0, 4.0])],
        dimensions: 2,
        total_vectors: 2,
    };

    assert_eq!(vector_data.get_chunk(0).map(|s| s.as_str()), Some("chunk1"));
    assert_eq!(vector_data.get_chunk(1).map(|s| s.as_str()), Some("chunk2"));
    assert_eq!(vector_data.get_chunk(2), None);
}

#[test]
fn test_vector_data_memory_usage() {
    let vector_data = VectorData {
        chunk: vec!["test".to_string()],
        embedding: vec![vec![1.0f32.to_bits(); 100]], // 100 coordinates
        dimensions: 100,
        total_vectors: 1,
    };

    // 100 * 4 vector bytes + 4 chunk bytes.
    assert_eq!(vector_data.memory_usage_bytes(), 404);
}

#[test]
fn test_vector_data_empty() {
    let vector_data = VectorData {
        chunk: vec![],
        embedding: vec![],
        dimensions: 0,
        total_vectors: 0,
    };

    assert_eq!(vector_data.get_vector(0), None);
    assert_eq!(vector_data.get_chunk(0), None);
    assert_eq!(vector_data.memory_usage_bytes(), 0);
}

#[test]
fn test_embedding_json_groups_response() {
    let data = vec![EmbeddingData {
        index: 0,
        chunk: "test chunk for debugging".to_string(),
        embedding: bits(&[1.0, 2.0, 3.0, 4.0, 5.0]),
        dimensions: 5,
    }];
    let grouped = EmbeddingJson::new(42, Embeddings { data: data.clone() });

    assert_eq!(grouped.batch_index, 42);
    assert_eq!(grouped.items, data);
}

#[test]
fn test_vector_record_dimensions() {
    let record = blaze_db::vector::VectorData::new("chunk".to_string(), bits(&[1.0, 2.0, 3.0]));

    assert_eq!(record.chunk, "chunk");
    assert_eq!(record.dimensions, 3);
    assert_eq!(record.vector, bits(&[1.0, 2.0, 3.0]));
}
