use wimbd::io::{new_buf, reader_kind, ReaderKind};
use wimbd::s3::{is_s3, is_s3_prefix, split_s3_path};

#[test]
fn recognises_object_store_locations() {
    assert!(is_s3("s3://bucket/key.json.gz"));
    assert!(is_s3("s3://"));
    assert!(!is_s3("s3:/bucket/key"));
    assert!(!is_s3("/data/s3://x"));
    assert!(!is_s3(""));
    assert!(!is_s3("S3://bucket/key"));
}

#[test]
fn splits_bucket_and_key() {
    assert_eq!(
        split_s3_path("s3://bucket/dir/file.jsonl.gz"),
        ("bucket".to_string(), "dir/file.jsonl.gz".to_string())
    );
    assert_eq!(split_s3_path("s3://b/"), ("b".to_string(), "".to_string()));
    assert_eq!(split_s3_path("s3:///k"), ("".to_string(), "k".to_string()));
    assert_eq!(
        split_s3_path("s3://büc/ké/y"),
        ("büc".to_string(), "ké/y".to_string())
    );
}

#[test]
fn chooses_the_reader_by_location_and_extension() {
    assert_eq!(reader_kind("s3://bucket/a.jsonl.zstd"), Some(ReaderKind::Memory));
    assert_eq!(reader_kind("s3://bucket/noext"), Some(ReaderKind::Memory));
    assert_eq!(reader_kind("data/a.jsonl.zstd"), Some(ReaderKind::Zstd));
    assert_eq!(reader_kind("data/a.json.gz"), Some(ReaderKind::Gzip));
    assert_eq!(reader_kind("data/a.txt"), Some(ReaderKind::Gzip));
    assert_eq!(reader_kind("data/noext"), None);
    assert_eq!(reader_kind("data/.hidden"), None);
}

#[test]
fn line_buffer_starts_empty() {
    let buf = new_buf();
    assert!(buf.is_empty());
    assert!(buf.capacity() >= 2048);
}

#[test]
fn a_location_that_names_no_input_is_a_prefix() {
    assert!(is_s3_prefix("s3://bucket/dir/"));
    assert!(is_s3_prefix("s3://bucket/dir/part"));
    assert!(is_s3_prefix("s3://bucket/a.json"));
    assert!(!is_s3_prefix("s3://bucket/a.json.gz"));
    assert!(!is_s3_prefix("s3://bucket/a.jsonl.zstd"));
    assert!(!is_s3_prefix("data/dir"));
    assert!(!is_s3_prefix("data/a.json.gz"));
}
