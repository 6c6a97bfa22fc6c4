use hive_store::entry::{Blob, Revision};
use hive_store::hive::{
    get_revision_data, get_revision_digest, set_revision_data, DataRecord, RevisionData,
};
use hive_store::store::Store;

fn revision(id: &str, payload: &str) -> Revision {
    Revision { revision_id: id.to_string(), payload: payload.as_bytes().to_vec() }
}

fn blob(hash: &str, payload: &[u8], mime: &str) -> Blob {
    Blob { content_hash: hash.to_string(), payload: payload.to_vec(), mime_type: mime.to_string() }
}

fn single_record(data_id: &str, revs: Vec<Revision>) -> RevisionData {
    RevisionData {
        data: vec![DataRecord { data_id: data_id.to_string(), revisions: revs }],
        blobs: vec![],
    }
}

#[test]
fn scenario_single_revision_and_blob() {
    let mut store = Store::new();
    let hive = "h1".to_string();
    let written = RevisionData {
        data: vec![DataRecord {
            data_id: "doc1".to_string(),
            revisions: vec![revision("r1", "{\"a\":1}")],
        }],
        blobs: vec![blob("abcd", &[1, 2, 3, 4], "image/png")],
    };
    set_revision_data(&mut store, &hive, &written);

    let digest = get_revision_digest(&store, &hive).unwrap();
    assert_eq!(digest.data.len(), 1);
    assert_eq!(digest.data[0].data_id, "doc1");
    assert_eq!(digest.data[0].revision_ids, vec!["r1".to_string()]);
    assert_eq!(digest.blobs.len(), 1);
    assert_eq!(digest.blobs[0].content_hash, "abcd");
    assert_eq!(digest.blobs[0].mime_type, "image/png");

    let hydrated = get_revision_data(&store, &hive, &digest).unwrap();
    assert_eq!(hydrated.data.len(), 1);
    assert_eq!(hydrated.data[0].data_id, "doc1");
    assert_eq!(hydrated.data[0].revisions.len(), 1);
    assert_eq!(hydrated.data[0].revisions[0].revision_id, "r1");
    assert_eq!(hydrated.data[0].revisions[0].payload, b"{\"a\":1}".to_vec());
    assert_eq!(hydrated.blobs.len(), 1);
    assert_eq!(hydrated.blobs[0].content_hash, "abcd");
    assert_eq!(hydrated.blobs[0].payload, vec![1, 2, 3, 4]);
    assert_eq!(hydrated.blobs[0].mime_type, "image/png");
}

#[test]
fn round_trip_multiple_items() {
    let mut store = Store::new();
    let hive = "hive".to_string();
    let written = RevisionData {
        data: vec![
            DataRecord {
                data_id: "a".to_string(),
                revisions: vec![revision("r1", "one"), revision("r2", "two")],
            },
            DataRecord { data_id: "b".to_string(), revisions: vec![revision("r3", "three")] },
        ],
        blobs: vec![blob("h1", b"bytes1", "text/plain"), blob("h2", b"bytes2", "text/plain")],
    };
    set_revision_data(&mut store, &hive, &written);
    let digest = get_revision_digest(&store, &hive).unwrap();
    let hydrated = get_revision_data(&store, &hive, &digest).unwrap();
    assert_eq!(hydrated.data.len(), 2);
    for (got, want) in hydrated.data.iter().zip(written.data.iter()) {
        assert_eq!(got.data_id, want.data_id);
        assert_eq!(got.revisions.len(), want.revisions.len());
        for (g, w) in got.revisions.iter().zip(want.revisions.iter()) {
            assert_eq!(g.revision_id, w.revision_id);
            assert_eq!(g.payload, w.payload);
        }
    }
    assert_eq!(hydrated.blobs.len(), 2);
    for (g, w) in hydrated.blobs.iter().zip(written.blobs.iter()) {
        assert_eq!(g.content_hash, w.content_hash);
        assert_eq!(g.payload, w.payload);
        assert_eq!(g.mime_type, w.mime_type);
    }
}

#[test]
fn append_only_both_revisions_listed_in_order() {
    let mut store = Store::new();
    let hive = "h".to_string();
    set_revision_data(&mut store, &hive, &single_record("doc", vec![revision("r1", "v1")]));
    set_revision_data(&mut store, &hive, &single_record("doc", vec![revision("r2", "v2")]));

    let digest = get_revision_digest(&store, &hive).unwrap();
    assert_eq!(digest.data.len(), 1);
    assert_eq!(digest.data[0].data_id, "doc");
    assert_eq!(digest.data[0].revision_ids, vec!["r1".to_string(), "r2".to_string()]);

    // The first revision's content is still there, unchanged.
    let hydrated = get_revision_data(&store, &hive, &digest).unwrap();
    assert_eq!(hydrated.data[0].revisions.len(), 2);
    assert_eq!(hydrated.data[0].revisions[0].revision_id, "r1");
    assert_eq!(hydrated.data[0].revisions[0].payload, b"v1".to_vec());
    assert_eq!(hydrated.data[0].revisions[1].revision_id, "r2");
    assert_eq!(hydrated.data[0].revisions[1].payload, b"v2".to_vec());
}

#[test]
fn idempotent_writes_give_identical_digest() {
    let hive = "h".to_string();
    let written = RevisionData {
        data: vec![DataRecord {
            data_id: "doc".to_string(),
            revisions: vec![revision("r1", "same")],
        }],
        blobs: vec![blob("aa", b"bb", "text/plain")],
    };

    let mut once = Store::new();
    set_revision_data(&mut once, &hive, &written);
    let mut twice = Store::new();
    set_revision_data(&mut twice, &hive, &written);
    set_revision_data(&mut twice, &hive, &written);

    let d1 = get_revision_digest(&once, &hive).unwrap();
    let d2 = get_revision_digest(&twice, &hive).unwrap();
    assert_eq!(d1.data.len(), d2.data.len());
    assert_eq!(d1.data[0].data_id, d2.data[0].data_id);
    assert_eq!(d1.data[0].revision_ids, d2.data[0].revision_ids);
    assert_eq!(d1.blobs.len(), d2.blobs.len());
    assert_eq!(d1.blobs[0].content_hash, d2.blobs[0].content_hash);
    assert_eq!(d1.blobs[0].mime_type, d2.blobs[0].mime_type);

    // And no duplicate content either: hydration returns one revision,
    // one blob.
    let hydrated = get_revision_data(&twice, &hive, &d2).unwrap();
    assert_eq!(hydrated.data[0].revisions.len(), 1);
    assert_eq!(hydrated.blobs.len(), 1);
}

#[test]
fn empty_hive_gives_empty_digest() {
    let store = Store::new();
    let digest = get_revision_digest(&store, &"nothing".to_string()).unwrap();
    assert_eq!(digest.data.len(), 0);
    assert_eq!(digest.blobs.len(), 0);
}

#[test]
fn digests_of_distinct_hives_are_independent() {
    let mut store = Store::new();
    set_revision_data(&mut store, &"h1".to_string(), &single_record("doc", vec![revision("r1", "x")]));
    let other = get_revision_digest(&store, &"h2".to_string()).unwrap();
    assert_eq!(other.data.len(), 0);
    assert_eq!(other.blobs.len(), 0);
}
