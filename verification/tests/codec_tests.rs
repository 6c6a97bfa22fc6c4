use hive_store::codec::{
    blob_key, data_key, data_root_key, decode_blob_id, encode_blob_id, leaf_segment_of,
    revision_key,
};
use hive_store::digits::u64_to_dec;
use hive_store::entry::Error;

#[test]
fn decimal_rendering() {
    assert_eq!(u64_to_dec(0), "0");
    assert_eq!(u64_to_dec(7), "7");
    assert_eq!(u64_to_dec(42), "42");
    assert_eq!(u64_to_dec(1234567890), "1234567890");
}

#[test]
fn key_building() {
    assert_eq!(data_root_key("h1"), "h1.data");
    assert_eq!(data_key("h1", "doc1"), "h1.data.doc1");
    assert_eq!(revision_key("h1", "doc1", "r1"), "h1.data.doc1.r1");
    assert_eq!(blob_key("h1", "abcd", "image/png"), "h1.blob.abcd&image/png");
}

#[test]
fn blob_id_round_trip() {
    let id = encode_blob_id("abcd", "image/png");
    assert_eq!(id, "abcd&image/png");
    let back = decode_blob_id(&id).unwrap();
    assert_eq!(back.content_hash, "abcd");
    assert_eq!(back.mime_type, "image/png");
}

#[test]
fn blob_id_round_trip_mime_with_separator() {
    // The split takes the first separator, so a separator later on
    // stays inside the MIME component.
    let id = encode_blob_id("ff00", "a&b");
    let back = decode_blob_id(&id).unwrap();
    assert_eq!(back.content_hash, "ff00");
    assert_eq!(back.mime_type, "a&b");
}

#[test]
fn blob_id_decode_empty_components() {
    let back = decode_blob_id("&").unwrap();
    assert_eq!(back.content_hash, "");
    assert_eq!(back.mime_type, "");
}

#[test]
fn blob_id_decode_missing_separator() {
    match decode_blob_id("abcd") {
        Err(e) => assert_eq!(e, Error::MalformedBlobId),
        Ok(_) => panic!("a composite id without a separator must be rejected"),
    }
}

#[test]
fn leaf_segment_extraction() {
    assert_eq!(leaf_segment_of("h1.data.doc1").unwrap(), "doc1");
    assert_eq!(leaf_segment_of("plain").unwrap(), "plain");
    assert_eq!(leaf_segment_of("trailing.").unwrap(), "");
    assert!(leaf_segment_of("").is_none());
}
