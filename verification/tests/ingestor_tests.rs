use blaze_db::errors::StoreError;
use blaze_db::ingest::Ingestor;
use blaze_db::reader::extract_words_from_bytes;

fn ingestor(batch_size: usize) -> Ingestor {
    Ingestor::new("test.txt".to_string(), batch_size, true).unwrap()
}

#[test]
fn test_ingestor_creation_valid_file() {
    let ing = Ingestor::new("test.txt".to_string(), 8, true).unwrap();

    assert_eq!(ing.source, "test.txt");
    assert_eq!(ing.batch_size, 8);
}

#[test]
fn test_ingestor_invalid_batch_size() {
    let r = Ingestor::new("test.txt".to_string(), 7, true);

    assert_eq!(r.unwrap_err(), StoreError::InvalidConfig);
}

#[test]
fn test_ingestor_zero_batch_size() {
    let r = Ingestor::new("test.txt".to_string(), 0, true);

    assert_eq!(r.unwrap_err(), StoreError::InvalidConfig);
}

#[test]
fn test_ingestor_nonexistent_file() {
    let r = Ingestor::new("/nonexistent/file.txt".to_string(), 8, false);

    assert_eq!(r.unwrap_err(), StoreError::InvalidConfig);
}

#[test]
fn test_read_lines_basic() {
    let contents = b"line 1\nline 2\nline 3\n".to_vec();
    let result = ingestor(8).read_line(&contents);

    assert_eq!(result.len(), 1); // Single batch
    assert_eq!(result[0].len(), 3); // 3 lines
    assert_eq!(result[0][0], "line 1");
    assert_eq!(result[0][1], "line 2");
    assert_eq!(result[0][2], "line 3");
}

#[test]
fn test_read_lines_multiple_batches() {
    let mut contents = Vec::new();
    for i in 1..=10 {
        contents.extend_from_slice(format!("line {}\n", i).as_bytes());
    }

    let result = ingestor(8).read_line(&contents);

    assert_eq!(result.len(), 2); // Two batches: 8 + 2
    assert_eq!(result[0].len(), 8);
    assert_eq!(result[1].len(), 2);
    assert_eq!(result[0][0], "line 1");
    assert_eq!(result[1][0], "line 9");
}

#[test]
fn test_read_lines_empty_lines() {
    let contents = b"line 1\n\n   \nline 4\n".to_vec();
    let result = ingestor(8).read_line(&contents);

    assert_eq!(result[0].len(), 2); // Empty lines should be filtered
    assert_eq!(result[0][0], "line 1");
    assert_eq!(result[0][1], "line 4");
}

#[test]
fn test_read_lines_blank_and_whitespace_lines() {
    // A short file whose middle lines are empty or whitespace-only: one
    // batch holding only the two real chunks, in order.
    let contents = b"a\n\n   \nb\n".to_vec();
    let result = ingestor(8).read_line(&contents);

    assert_eq!(result.len(), 1);
    assert_eq!(result[0], vec!["a".to_string(), "b".to_string()]);
}

#[test]
fn test_read_lines_trims_whitespace() {
    let contents = b"  padded  \n\tindented\r\n".to_vec();
    let result = ingestor(8).read_line(&contents);

    assert_eq!(result[0][0], "padded");
    assert_eq!(result[0][1], "indented");
}

#[test]
fn test_read_lines_trims_unicode_whitespace() {
    // U+00A0 (no-break space) and U+2003/U+2009 (em space, thin space) are
    // Unicode White_Space: trimmed from the decoded text like ASCII space.
    let contents = "a\u{a0}\n\u{2003}b\u{2009}\n".as_bytes().to_vec();
    let result = ingestor(8).read_line(&contents);

    assert_eq!(result[0], vec!["a".to_string(), "b".to_string()]);
}

#[test]
fn test_read_lines_drops_unicode_whitespace_only_lines() {
    let contents = "x\n\u{a0}\u{3000}\u{2028}\n".as_bytes().to_vec();
    let result = ingestor(8).read_line(&contents);

    assert_eq!(result.len(), 1);
    assert_eq!(result[0], vec!["x".to_string()]);
}

#[test]
fn test_read_lines_large_batch_size() {
    let mut contents = Vec::new();
    for i in 1..=5 {
        contents.extend_from_slice(format!("line {}\n", i).as_bytes());
    }

    let result = ingestor(1024).read_line(&contents);

    assert_eq!(result.len(), 1); // Single batch
    assert_eq!(result[0].len(), 5); // All 5 lines
}

#[test]
fn test_read_lines_exact_batch_boundary() {
    let mut contents = Vec::new();
    for i in 1..=8 {
        contents.extend_from_slice(format!("line {}\n", i).as_bytes());
    }

    let result = ingestor(8).read_line(&contents);

    assert_eq!(result.len(), 1); // Single batch
    assert_eq!(result[0].len(), 8); // All 8 lines
}

#[test]
fn test_read_lines_empty_file() {
    let contents = Vec::new();
    let result = ingestor(8).read_line(&contents);

    assert_eq!(result.len(), 0); // No batches for empty file
}

#[test]
fn test_read_lines_utf8_content() {
    let contents = "Hello 世界\nCafé ñoño\n".as_bytes().to_vec();
    let result = ingestor(8).read_line(&contents);

    assert_eq!(result[0].len(), 2);
    assert_eq!(result[0][0], "Hello 世界");
    assert_eq!(result[0][1], "Café ñoño");
}

#[test]
fn test_read_lines_invalid_utf8_is_replaced() {
    // A line with an invalid byte still survives, decoded permissively.
    let contents = vec![b'a', 0xff, b'b', b'\n', b'c', b'\n'];
    let result = ingestor(8).read_line(&contents);

    assert_eq!(result[0].len(), 2);
    assert_eq!(result[0][0], "a\u{fffd}b");
    assert_eq!(result[0][1], "c");
}

#[test]
fn test_read_lines_no_trailing_newline() {
    let contents = b"first\nsecond".to_vec();
    let result = ingestor(8).read_line(&contents);

    assert_eq!(result[0], vec!["first".to_string(), "second".to_string()]);
}

#[test]
fn test_extract_words_from_bytes() {
    let words = extract_words_from_bytes(&b"Hello, world42! (rust)".to_vec());

    assert_eq!(
        words,
        vec!["Hello".to_string(), "world42".to_string(), "rust".to_string()]
    );
}

#[test]
fn test_extract_words_empty_and_separators() {
    assert_eq!(extract_words_from_bytes(&Vec::new()).len(), 0);
    assert_eq!(extract_words_from_bytes(&b"...  ,,,".to_vec()).len(), 0);
    assert_eq!(extract_words_from_bytes(&b"one".to_vec()), vec!["one".to_string()]);
}
