use hive_store::entry::{
    validate_create_entry_blob, validate_create_entry_revision, validate_delete, validate_update,
    Blob, EntryPayload, Error, Revision, ValidationOutcome,
};
use hive_store::hive::{get_revision_data, get_revision_digest, set_revision_data};
use hive_store::hive::{DataRecord, RevisionData};
use hive_store::store::Store;

fn revision_payload(id: &str, payload: &str) -> EntryPayload {
    EntryPayload::Revision(Revision {
        revision_id: id.to_string(),
        payload: payload.as_bytes().to_vec(),
    })
}

fn blob_payload(hash: &str, payload: &[u8], mime: &str) -> EntryPayload {
    EntryPayload::Blob(Blob {
        content_hash: hash.to_string(),
        payload: payload.to_vec(),
        mime_type: mime.to_string(),
    })
}

#[test]
fn create_entry_is_idempotent() {
    let mut store = Store::new();
    let h1 = store.create_entry(revision_payload("r1", "content"));
    let h2 = store.create_entry(revision_payload("r1", "content"));
    assert_eq!(h1, h2);
    let h3 = store.create_entry(revision_payload("r1", "other"));
    assert_ne!(h1, h3);
}

#[test]
fn fetch_entry_returns_stored_payload() {
    let mut store = Store::new();
    let h = store.create_entry(revision_payload("r1", "content"));
    match store.fetch_entry(&h) {
        Some(EntryPayload::Revision(r)) => {
            assert_eq!(r.revision_id, "r1");
            assert_eq!(r.payload, b"content".to_vec());
        },
        _ => panic!("the stored revision must come back"),
    }
    assert!(store.fetch_entry(&"99".to_string()).is_none());
}

#[test]
fn link_children_keep_insertion_order_and_deduplicate() {
    let mut store = Store::new();
    let key = "k".to_string();
    store.ensure_link(&key, "a".to_string(), "".to_string());
    store.ensure_link(&key, "b".to_string(), "".to_string());
    store.ensure_link(&key, "a".to_string(), "".to_string());
    let children = store.link_children(&key);
    assert_eq!(children.len(), 2);
    assert_eq!(children[0].tag, "a");
    assert_eq!(children[1].tag, "b");
    assert_eq!(store.link_children(&"other".to_string()).len(), 0);
}

#[test]
fn update_and_delete_are_rejected() {
    let candidate = revision_payload("r1", "anything");
    assert_eq!(validate_update(&candidate), ValidationOutcome::Rejected(Error::UpdateAttempted));
    assert_eq!(validate_delete(&candidate), ValidationOutcome::Rejected(Error::DeleteAttempted));
    let other = blob_payload("aa", b"bb", "text/plain");
    assert_eq!(validate_update(&other), ValidationOutcome::Rejected(Error::UpdateAttempted));
    assert_eq!(validate_delete(&other), ValidationOutcome::Rejected(Error::DeleteAttempted));
}

#[test]
fn rejected_mutation_leaves_entries_unchanged() {
    let mut store = Store::new();
    let hive = "h".to_string();
    let written = RevisionData {
        data: vec![DataRecord {
            data_id: "doc".to_string(),
            revisions: vec![Revision {
                revision_id: "r1".to_string(),
                payload: b"v1".to_vec(),
            }],
        }],
        blobs: vec![],
    };
    set_revision_data(&mut store, &hive, &written);
    let before = get_revision_digest(&store, &hive).unwrap();

    // The host consults the hooks; both reject, and the store is not
    // touched at all.
    let attempt = revision_payload("r1", "overwritten");
    assert_eq!(validate_update(&attempt), ValidationOutcome::Rejected(Error::UpdateAttempted));
    assert_eq!(validate_delete(&attempt), ValidationOutcome::Rejected(Error::DeleteAttempted));

    let after = get_revision_digest(&store, &hive).unwrap();
    assert_eq!(before.data[0].revision_ids, after.data[0].revision_ids);
    let hydrated = get_revision_data(&store, &hive, &after).unwrap();
    assert_eq!(hydrated.data[0].revisions[0].payload, b"v1".to_vec());
}

#[test]
fn creation_validation_checks_shape() {
    let rev = revision_payload("r1", "x");
    let bl = blob_payload("aa", b"bb", "text/plain");
    assert_eq!(validate_create_entry_revision(&rev), ValidationOutcome::Accepted);
    assert_eq!(
        validate_create_entry_revision(&bl),
        ValidationOutcome::Rejected(Error::MalformedEntry)
    );
    assert_eq!(validate_create_entry_blob(&bl), ValidationOutcome::Accepted);
    assert_eq!(
        validate_create_entry_blob(&rev),
        ValidationOutcome::Rejected(Error::MalformedEntry)
    );
}

#[test]
fn error_messages() {
    assert_eq!(Error::UpdateAttempted.message(), "attempted to update an entry");
    assert_eq!(Error::DeleteAttempted.message(), "attempted to delete an entry");
    assert_eq!(Error::MissingEntry.message(), "missing entry");
    assert_eq!(Error::MalformedEntry.message(), "malformed entry");
    assert_eq!(Error::MalformedBlobId.message(), "malformed blob id");
}

#[test]
fn missing_entry_is_fatal_and_yields_no_partial_result() {
    let mut store = Store::new();
    let hive = "h".to_string();
    // A link index naming a content hash that was never stored: the
    // digest still enumerates it, but hydration must fail outright.
    store.ensure_link(&"h.data".to_string(), "doc".to_string(), "".to_string());
    store.ensure_link(&"h.data.doc".to_string(), "r1".to_string(), "".to_string());
    store.ensure_link(&"h.data.doc.r1".to_string(), "77".to_string(), "77".to_string());

    let digest = get_revision_digest(&store, &hive).unwrap();
    assert_eq!(digest.data[0].revision_ids, vec!["r1".to_string()]);
    match get_revision_data(&store, &hive, &digest) {
        Err(e) => assert_eq!(e, Error::MissingEntry),
        Ok(_) => panic!("an index naming an absent hash must be fatal"),
    }
}

#[test]
fn wrong_entry_shape_is_malformed() {
    let mut store = Store::new();
    let hive = "h".to_string();
    // A revision path whose leaf names a stored entry that is a blob.
    let h = store.create_entry(blob_payload("aa", b"bb", "text/plain"));
    store.ensure_link(&"h.data".to_string(), "doc".to_string(), "".to_string());
    store.ensure_link(&"h.data.doc".to_string(), "r1".to_string(), "".to_string());
    store.ensure_link(&"h.data.doc.r1".to_string(), h.clone(), h);

    let digest = get_revision_digest(&store, &hive).unwrap();
    match get_revision_data(&store, &hive, &digest) {
        Err(e) => assert_eq!(e, Error::MalformedEntry),
        Ok(_) => panic!("content of the wrong shape must be fatal"),
    }
}

#[test]
fn malformed_blob_id_aborts_digest() {
    let mut store = Store::new();
    let hive = "h".to_string();
    // A blob-root child whose tag has no composite separator.
    store.ensure_link(&"h.blob".to_string(), "noseparator".to_string(), "".to_string());
    match get_revision_digest(&store, &hive) {
        Err(e) => assert_eq!(e, Error::MalformedBlobId),
        Ok(_) => panic!("a malformed composite id must abort the digest"),
    }
}

#[test]
fn unparsable_tags_are_skipped_not_fatal() {
    let mut store = Store::new();
    let hive = "h".to_string();
    // An empty tag has no final segment: the digest tolerates it.
    store.ensure_link(&"h.data".to_string(), "".to_string(), "".to_string());
    store.ensure_link(&"h.data".to_string(), "doc".to_string(), "".to_string());
    let digest = get_revision_digest(&store, &hive).unwrap();
    assert_eq!(digest.data.len(), 1);
    assert_eq!(digest.data[0].data_id, "doc");
}
