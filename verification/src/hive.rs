//! The three operations on a hive: building a digest of everything
//! indexed under it, hydrating a digest back into full content, and
//! writing new content in. Each executable operation is specified
//! against a recursive description of exactly what it reads or appends.

use vstd::prelude::*;
use vstd::string::StringExecFns;

use crate::codec::{
    blob_id_of, blob_key, blob_key_of, blob_root_key, blob_root_of, data_key, data_key_of,
    data_root_key, data_root_of, decode_blob_id, leaf_of, leaf_segment_of, revision_key,
    revision_key_of, split_blob_id, BlobId, BlobIdV,
};
use crate::entry::{Blob, BlobV, EntryPayload, EntryPayloadV, Error, Revision, RevisionV};
use crate::store::{
    spec_children, spec_create, spec_ensure_link, spec_fetch, wf, LinkV, Store, StoreV,
};

verus! {

/// One data item in a digest: its identifier and the identifiers of its
/// revisions, in index insertion order.
#[derive(Debug)]
pub struct DataEntry {
    pub data_id: String,
    pub revision_ids: Vec<String>,
}

/// The mathematical value of a `DataEntry`.
#[verifier::ext_equal]
pub struct DataEntryV {
    pub data_id: Seq<char>,
    pub revision_ids: Seq<Seq<char>>,
}

impl View for DataEntry {
    type V = DataEntryV;

    open spec fn view(&self) -> DataEntryV {
        DataEntryV {
            data_id: self.data_id@,
            revision_ids: self.revision_ids@.map_values(|s: String| s@),
        }
    }
}

/// A manifest of everything indexed under a hive: content is named, not
/// embedded.
#[derive(Debug)]
pub struct RevisionDigest {
    pub data: Vec<DataEntry>,
    pub blobs: Vec<BlobId>,
}

/// The mathematical value of a `RevisionDigest`.
#[verifier::ext_equal]
pub struct DigestV {
    pub data: Seq<DataEntryV>,
    pub blobs: Seq<BlobIdV>,
}

impl View for RevisionDigest {
    type V = DigestV;

    open spec fn view(&self) -> DigestV {
        DigestV {
            data: self.data@.map_values(|d: DataEntry| d@),
            blobs: self.blobs@.map_values(|b: BlobId| b@),
        }
    }
}

/// One data item in full: its identifier and its revisions' content.
#[derive(Debug)]
pub struct DataRecord {
    pub data_id: String,
    pub revisions: Vec<Revision>,
}

/// The mathematical value of a `DataRecord`.
#[verifier::ext_equal]
pub struct DataRecordV {
    pub data_id: Seq<char>,
    pub revisions: Seq<RevisionV>,
}

impl View for DataRecord {
    type V = DataRecordV;

    open spec fn view(&self) -> DataRecordV {
        DataRecordV {
            data_id: self.data_id@,
            revisions: self.revisions@.map_values(|r: Revision| r@),
        }
    }
}

/// The same shape as a digest, with identifiers replaced by full
/// content.
#[derive(Debug)]
pub struct RevisionData {
    pub data: Vec<DataRecord>,
    pub blobs: Vec<Blob>,
}

/// The mathematical value of a `RevisionData`.
#[verifier::ext_equal]
pub struct RevisionDataV {
    pub data: Seq<DataRecordV>,
    pub blobs: Seq<BlobV>,
}

impl View for RevisionData {
    type V = RevisionDataV;

    open spec fn view(&self) -> RevisionDataV {
        RevisionDataV {
            data: self.data@.map_values(|d: DataRecord| d@),
            blobs: self.blobs@.map_values(|b: Blob| b@),
        }
    }
}

// ------------------------------------------------------------------
// The digest builder, described link by link.
// ------------------------------------------------------------------

/// The revision identifiers yielded by the first `n` links: each link's
/// tag parsed to its final segment, unparsable tags skipped.
pub open spec fn digest_rev_ids_upto(links: Seq<LinkV>, n: int) -> Seq<Seq<char>>
    decreases n,
{
    if n <= 0 {
        Seq::empty()
    } else {
        let prev = digest_rev_ids_upto(links, n - 1);
        match leaf_of(links[n - 1].tag) {
            Some(rid) => prev.push(rid),
            None => prev,
        }
    }
}

/// All revision identifiers indexed under one data item.
pub open spec fn digest_rev_ids(s: StoreV, hive: Seq<char>, data_id: Seq<char>) -> Seq<Seq<char>> {
    let links = spec_children(s, data_key_of(hive, data_id));
    digest_rev_ids_upto(links, links.len() as int)
}

/// The digest's data entries yielded by the first `n` links under the
/// hive's data root, unparsable tags skipped.
pub open spec fn digest_data_upto(s: StoreV, hive: Seq<char>, links: Seq<LinkV>, n: int) -> Seq<
    DataEntryV,
>
    decreases n,
{
    if n <= 0 {
        Seq::empty()
    } else {
        let prev = digest_data_upto(s, hive, links, n - 1);
        match leaf_of(links[n - 1].tag) {
            Some(d) => prev.push(DataEntryV { data_id: d, revision_ids: digest_rev_ids(s, hive, d) }),
            None => prev,
        }
    }
}

/// The digest's blob identifiers yielded by the first `n` links under
/// the hive's blob root: unparsable tags skipped, but a parsed tag that
/// is no well-formed composite identifier aborts the digest.
pub open spec fn digest_blobs_upto(links: Seq<LinkV>, n: int) -> Result<Seq<BlobIdV>, Error>
    decreases n,
{
    if n <= 0 {
        Ok(Seq::empty())
    } else {
        match digest_blobs_upto(links, n - 1) {
            Err(e) => Err(e),
            Ok(acc) => match leaf_of(links[n - 1].tag) {
                None => Ok(acc),
                Some(seg) => match split_blob_id(seg) {
                    None => Err(Error::MalformedBlobId),
                    Some(pair) => Ok(
                        acc.push(BlobIdV { content_hash: pair.0, mime_type: pair.1 }),
                    ),
                },
            },
        }
    }
}

/// What `get_revision_digest` returns, in full.
pub open spec fn spec_digest(s: StoreV, hive: Seq<char>) -> Result<DigestV, Error> {
    let dls = spec_children(s, data_root_of(hive));
    let bls = spec_children(s, blob_root_of(hive));
    match digest_blobs_upto(bls, bls.len() as int) {
        Err(e) => Err(e),
        Ok(bs) => Ok(
            DigestV { data: digest_data_upto(s, hive, dls, dls.len() as int), blobs: bs },
        ),
    }
}

/// Once the blob fold fails it stays failed, with the same error.
pub proof fn lemma_digest_blobs_err(links: Seq<LinkV>, n: int, m: int)
    requires
        0 <= n <= m,
        digest_blobs_upto(links, n) is Err,
    ensures
        digest_blobs_upto(links, m) == digest_blobs_upto(links, n),
    decreases m,
{
    if m > n {
        lemma_digest_blobs_err(links, n, m - 1);
    }
}

/// The view of a digest result, for contracts.
pub open spec fn digest_result_view(r: Result<RevisionDigest, Error>) -> Result<DigestV, Error> {
    match r {
        Ok(d) => Ok(d@),
        Err(e) => Err(e),
    }
}

/// Walks the path index under `hive` and names every data item, every
/// revision, and every blob currently indexed there, in insertion
/// order, without fetching any content. Children whose tags do not
/// parse to a final segment are skipped; a blob child whose segment is
/// no composite identifier aborts with `MalformedBlobId`.
pub fn get_revision_digest(store: &Store, hive: &String) -> (r: Result<RevisionDigest, Error>)
    ensures
        digest_result_view(r) == spec_digest(store@, hive@),
{
    let droot = data_root_key(hive.as_str());
    let dls = store.link_children(&droot);
    let ghost dlsv = dls@.map_values(|l: crate::store::Link| l@);
    proof {
        assert(dlsv == spec_children(store@, data_root_of(hive@)));
    }
    let mut data: Vec<DataEntry> = Vec::new();
    proof {
        assert(data@.map_values(|d: DataEntry| d@) =~= Seq::<DataEntryV>::empty());
    }
    let mut i: usize = 0;
    while i < dls.len()
        invariant
            0 <= i <= dls.len(),
            dlsv == spec_children(store@, data_root_of(hive@)),
            dls@.map_values(|l: crate::store::Link| l@) == dlsv,
            dlsv.len() == dls@.len(),
            data@.map_values(|d: DataEntry| d@) == digest_data_upto(store@, hive@, dlsv, i as int),
        decreases dls.len() - i,
    {
        proof {
            assert(dlsv[i as int] == dls@[i as int]@);
        }
        match leaf_segment_of(dls[i].tag.as_str()) {
            None => {
                proof {
                    assert(digest_data_upto(store@, hive@, dlsv, i as int + 1)
                        == digest_data_upto(store@, hive@, dlsv, i as int));
                }
            },
            Some(data_id) => {
                proof {
                    assert(leaf_of(dlsv[i as int].tag) == Some(data_id@));
                }
                let dkey = data_key(hive.as_str(), data_id.as_str());
                let rls = store.link_children(&dkey);
                let ghost rlsv = rls@.map_values(|l: crate::store::Link| l@);
                proof {
                    assert(rlsv == spec_children(store@, data_key_of(hive@, data_id@)));
                }
                let mut rev_ids: Vec<String> = Vec::new();
                proof {
                    assert(rev_ids@.map_values(|s2: String| s2@) =~= Seq::<Seq<char>>::empty());
                }
                let mut j: usize = 0;
                while j < rls.len()
                    invariant
                        0 <= j <= rls.len(),
                        rls@.map_values(|l: crate::store::Link| l@) == rlsv,
                        rlsv.len() == rls@.len(),
                        rev_ids@.map_values(|s: String| s@) == digest_rev_ids_upto(
                            rlsv,
                            j as int,
                        ),
                    decreases rls.len() - j,
                {
                    proof {
                        assert(rlsv[j as int] == rls@[j as int]@);
                    }
                    match leaf_segment_of(rls[j].tag.as_str()) {
                        None => {
                            proof {
                                assert(digest_rev_ids_upto(rlsv, j as int + 1)
                                    == digest_rev_ids_upto(rlsv, j as int));
                            }
                        },
                        Some(rid) => {
                            proof {
                                assert(leaf_of(rlsv[j as int].tag) == Some(rid@));
                            }
                            rev_ids.push(rid);
                            proof {
                                assert(rev_ids@.map_values(|s: String| s@) =~= digest_rev_ids_upto(
                                    rlsv,
                                    j as int + 1,
                                ));
                            }
                        },
                    }
                    j += 1;
                }
                proof {
                    assert(digest_rev_ids(store@, hive@, data_id@) == digest_rev_ids_upto(
                        rlsv,
                        rlsv.len() as int,
                    ));
                }
                let entry = DataEntry { data_id, revision_ids: rev_ids };
                data.push(entry);
                proof {
                    assert(data@.map_values(|d: DataEntry| d@) =~= digest_data_upto(
                        store@,
                        hive@,
                        dlsv,
                        i as int + 1,
                    ));
                }
            },
        }
        i += 1;
    }
    let broot = blob_root_key(hive.as_str());
    let bls = store.link_children(&broot);
    let ghost blsv = bls@.map_values(|l: crate::store::Link| l@);
    proof {
        assert(blsv == spec_children(store@, blob_root_of(hive@)));
    }
    let mut blobs: Vec<BlobId> = Vec::new();
    proof {
        assert(blobs@.map_values(|b: BlobId| b@) =~= Seq::<BlobIdV>::empty());
    }
    let mut k: usize = 0;
    while k < bls.len()
        invariant
            0 <= k <= bls.len(),
            dlsv == spec_children(store@, data_root_of(hive@)),
            blsv == spec_children(store@, blob_root_of(hive@)),
            bls@.map_values(|l: crate::store::Link| l@) == blsv,
            blsv.len() == bls@.len(),
            data@.map_values(|d: DataEntry| d@) == digest_data_upto(
                store@,
                hive@,
                dlsv,
                dlsv.len() as int,
            ),
            digest_blobs_upto(blsv, k as int) == Ok::<Seq<BlobIdV>, Error>(
                blobs@.map_values(|b: BlobId| b@),
            ),
        decreases bls.len() - k,
    {
        proof {
            assert(blsv[k as int] == bls@[k as int]@);
        }
        match leaf_segment_of(bls[k].tag.as_str()) {
            None => {
                proof {
                    assert(digest_blobs_upto(blsv, k as int + 1) == digest_blobs_upto(
                        blsv,
                        k as int,
                    ));
                }
            },
            Some(seg) => {
                proof {
                    assert(leaf_of(blsv[k as int].tag) == Some(seg@));
                }
                match decode_blob_id(seg.as_str()) {
                    Err(e) => {
                        proof {
                            assert(digest_blobs_upto(blsv, k as int + 1) == Err::<
                                Seq<BlobIdV>,
                                Error,
                            >(Error::MalformedBlobId));
                            lemma_digest_blobs_err(blsv, k as int + 1, blsv.len() as int);
                        }
                        return Err(e);
                    },
                    Ok(bid) => {
                        proof {
                            assert(bid@ == BlobIdV {
                                content_hash: (split_blob_id(seg@)->0).0,
                                mime_type: (split_blob_id(seg@)->0).1,
                            });
                        }
                        blobs.push(bid);
                        proof {
                            assert(blobs@.map_values(|b: BlobId| b@) =~= digest_blobs_upto(
                                blsv,
                                k as int + 1,
                            )->Ok_0);
                        }
                    },
                }
            },
        }
        k += 1;
    }
    let out = RevisionDigest { data, blobs };
    proof {
        assert(out@ =~= spec_digest(store@, hive@)->Ok_0);
    }
    Ok(out)
}

// ------------------------------------------------------------------
// The data hydrator, described link by link.
// ------------------------------------------------------------------

/// The revisions resolved from the first `n` children of one revision
/// key: each child's tag is taken to be a content hash; a hash absent
/// from the store is fatal, as is content that is no revision.
pub open spec fn hyd_rev_children_upto(s: StoreV, links: Seq<LinkV>, n: int) -> Result<
    Seq<RevisionV>,
    Error,
>
    decreases n,
{
    if n <= 0 {
        Ok(Seq::empty())
    } else {
        match hyd_rev_children_upto(s, links, n - 1) {
            Err(e) => Err(e),
            Ok(acc) => match leaf_of(links[n - 1].tag) {
                None => Ok(acc),
                Some(h) => match spec_fetch(s, h) {
                    None => Err(Error::MissingEntry),
                    Some(EntryPayloadV::Revision(rv)) => Ok(acc.push(rv)),
                    Some(EntryPayloadV::Blob(_)) => Err(Error::MalformedEntry),
                },
            },
        }
    }
}

/// The revisions resolved for the first `n` revision identifiers of one
/// data item, concatenated in order.
pub open spec fn hyd_revs_upto(
    s: StoreV,
    hive: Seq<char>,
    data_id: Seq<char>,
    rev_ids: Seq<Seq<char>>,
    n: int,
) -> Result<Seq<RevisionV>, Error>
    decreases n,
{
    if n <= 0 {
        Ok(Seq::empty())
    } else {
        match hyd_revs_upto(s, hive, data_id, rev_ids, n - 1) {
            Err(e) => Err(e),
            Ok(acc) => {
                let links = spec_children(s, revision_key_of(hive, data_id, rev_ids[n - 1]));
                match hyd_rev_children_upto(s, links, links.len() as int) {
                    Err(e) => Err(e),
                    Ok(part) => Ok(acc + part),
                }
            },
        }
    }
}

/// The data records resolved for the first `n` entries of a digest.
pub open spec fn hyd_data_upto(s: StoreV, hive: Seq<char>, items: Seq<DataEntryV>, n: int) -> Result<
    Seq<DataRecordV>,
    Error,
>
    decreases n,
{
    if n <= 0 {
        Ok(Seq::empty())
    } else {
        match hyd_data_upto(s, hive, items, n - 1) {
            Err(e) => Err(e),
            Ok(acc) => {
                let item = items[n - 1];
                match hyd_revs_upto(s, hive, item.data_id, item.revision_ids, item.revision_ids.len() as int) {
                    Err(e) => Err(e),
                    Ok(revs) => Ok(acc.push(DataRecordV { data_id: item.data_id, revisions: revs })),
                }
            },
        }
    }
}

/// The blobs resolved from the first `n` children of one blob key.
pub open spec fn hyd_blob_children_upto(s: StoreV, links: Seq<LinkV>, n: int) -> Result<
    Seq<BlobV>,
    Error,
>
    decreases n,
{
    if n <= 0 {
        Ok(Seq::empty())
    } else {
        match hyd_blob_children_upto(s, links, n - 1) {
            Err(e) => Err(e),
            Ok(acc) => match leaf_of(links[n - 1].tag) {
                None => Ok(acc),
                Some(h) => match spec_fetch(s, h) {
                    None => Err(Error::MissingEntry),
                    Some(EntryPayloadV::Blob(bv)) => Ok(acc.push(bv)),
                    Some(EntryPayloadV::Revision(_)) => Err(Error::MalformedEntry),
                },
            },
        }
    }
}

/// The blobs resolved for the first `n` blob identifiers of a digest,
/// concatenated in order.
pub open spec fn hyd_blobs_upto(
    s: StoreV,
    hive: Seq<char>,
    ids: Seq<BlobIdV>,
    n: int,
) -> Result<Seq<BlobV>, Error>
    decreases n,
{
    if n <= 0 {
        Ok(Seq::empty())
    } else {
        match hyd_blobs_upto(s, hive, ids, n - 1) {
            Err(e) => Err(e),
            Ok(acc) => {
                let links = spec_children(
                    s,
                    blob_key_of(hive, ids[n - 1].content_hash, ids[n - 1].mime_type),
                );
                match hyd_blob_children_upto(s, links, links.len() as int) {
                    Err(e) => Err(e),
                    Ok(part) => Ok(acc + part),
                }
            },
        }
    }
}

/// What `get_revision_data` returns, in full.
pub open spec fn spec_hydrate(s: StoreV, hive: Seq<char>, dig: DigestV) -> Result<
    RevisionDataV,
    Error,
> {
    match hyd_data_upto(s, hive, dig.data, dig.data.len() as int) {
        Err(e) => Err(e),
        Ok(ds) => match hyd_blobs_upto(s, hive, dig.blobs, dig.blobs.len() as int) {
            Err(e) => Err(e),
            Ok(bs) => Ok(RevisionDataV { data: ds, blobs: bs }),
        },
    }
}

pub proof fn lemma_hyd_rev_children_err(s: StoreV, links: Seq<LinkV>, n: int, m: int)
    requires
        0 <= n <= m,
        hyd_rev_children_upto(s, links, n) is Err,
    ensures
        hyd_rev_children_upto(s, links, m) == hyd_rev_children_upto(s, links, n),
    decreases m,
{
    if m > n {
        lemma_hyd_rev_children_err(s, links, n, m - 1);
    }
}

pub proof fn lemma_hyd_revs_err(
    s: StoreV,
    hive: Seq<char>,
    data_id: Seq<char>,
    rev_ids: Seq<Seq<char>>,
    n: int,
    m: int,
)
    requires
        0 <= n <= m,
        hyd_revs_upto(s, hive, data_id, rev_ids, n) is Err,
    ensures
        hyd_revs_upto(s, hive, data_id, rev_ids, m) == hyd_revs_upto(s, hive, data_id, rev_ids, n),
    decreases m,
{
    if m > n {
        lemma_hyd_revs_err(s, hive, data_id, rev_ids, n, m - 1);
    }
}

pub proof fn lemma_hyd_data_err(s: StoreV, hive: Seq<char>, items: Seq<DataEntryV>, n: int, m: int)
    requires
        0 <= n <= m,
        hyd_data_upto(s, hive, items, n) is Err,
    ensures
        hyd_data_upto(s, hive, items, m) == hyd_data_upto(s, hive, items, n),
    decreases m,
{
    if m > n {
        lemma_hyd_data_err(s, hive, items, n, m - 1);
    }
}

pub proof fn lemma_hyd_blob_children_err(s: StoreV, links: Seq<LinkV>, n: int, m: int)
    requires
        0 <= n <= m,
        hyd_blob_children_upto(s, links, n) is Err,
    ensures
        hyd_blob_children_upto(s, links, m) == hyd_blob_children_upto(s, links, n),
    decreases m,
{
    if m > n {
        lemma_hyd_blob_children_err(s, links, n, m - 1);
    }
}

pub proof fn lemma_hyd_blobs_err(s: StoreV, hive: Seq<char>, ids: Seq<BlobIdV>, n: int, m: int)
    requires
        0 <= n <= m,
        hyd_blobs_upto(s, hive, ids, n) is Err,
    ensures
        hyd_blobs_upto(s, hive, ids, m) == hyd_blobs_upto(s, hive, ids, n),
    decreases m,
{
    if m > n {
        lemma_hyd_blobs_err(s, hive, ids, n, m - 1);
    }
}

/// The view of a hydration result, for contracts.
pub open spec fn data_result_view(r: Result<RevisionData, Error>) -> Result<RevisionDataV, Error> {
    match r {
        Ok(d) => Ok(d@),
        Err(e) => Err(e),
    }
}

/// Resolves every revision and blob a digest names into full content,
/// following index links to content hashes and fetching each entry.
/// A hash the store cannot resolve is fatal (`MissingEntry`), as is
/// stored content of the wrong shape (`MalformedEntry`): no partial
/// result is returned. The digest may be a caller-chosen subset of the
/// full one.
pub fn get_revision_data(store: &Store, hive: &String, digest: &RevisionDigest) -> (r: Result<
    RevisionData,
    Error,
>)
    ensures
        data_result_view(r) == spec_hydrate(store@, hive@, digest@),
{
    let ghost dgv = digest@;
    let mut out_data: Vec<DataRecord> = Vec::new();
    proof {
        assert(out_data@.map_values(|d: DataRecord| d@) =~= Seq::<DataRecordV>::empty());
    }
    let mut i: usize = 0;
    while i < digest.data.len()
        invariant
            0 <= i <= digest.data.len(),
            dgv == digest@,
            digest.data@.len() == dgv.data.len(),
            hyd_data_upto(store@, hive@, dgv.data, i as int) == Ok::<Seq<DataRecordV>, Error>(
                out_data@.map_values(|d: DataRecord| d@),
            ),
        decreases digest.data.len() - i,
    {
        let item = &digest.data[i];
        let ghost iv = dgv.data[i as int];
        proof {
            assert(iv == digest.data@[i as int]@);
        }
        let ghost odv = out_data@.map_values(|d: DataRecord| d@);
        let mut revisions: Vec<Revision> = Vec::new();
        proof {
            assert(revisions@.map_values(|r2: Revision| r2@) =~= Seq::<RevisionV>::empty());
        }
        let mut j: usize = 0;
        while j < item.revision_ids.len()
            invariant
                0 <= i < dgv.data.len(),
                0 <= j <= item.revision_ids.len(),
                dgv == digest@,
                item@ == iv,
                iv == dgv.data[i as int],
                item.revision_ids@.len() == iv.revision_ids.len(),
                odv == out_data@.map_values(|d: DataRecord| d@),
                hyd_data_upto(store@, hive@, dgv.data, i as int) == Ok::<Seq<DataRecordV>, Error>(
                    odv,
                ),
                hyd_revs_upto(store@, hive@, iv.data_id, iv.revision_ids, j as int) == Ok::<
                    Seq<RevisionV>,
                    Error,
                >(revisions@.map_values(|r2: Revision| r2@)),
            decreases item.revision_ids.len() - j,
        {
            let ghost rid = iv.revision_ids[j as int];
            proof {
                assert(rid == item.revision_ids@[j as int]@);
            }
            let rkey = revision_key(
                hive.as_str(),
                item.data_id.as_str(),
                item.revision_ids[j].as_str(),
            );
            let cls = store.link_children(&rkey);
            let ghost clsv = cls@.map_values(|l: crate::store::Link| l@);
            proof {
                assert(clsv == spec_children(
                    store@,
                    revision_key_of(hive@, iv.data_id, rid),
                ));
            }
            let ghost rv0 = revisions@.map_values(|r2: Revision| r2@);
            let mut c: usize = 0;
            while c < cls.len()
                invariant
                    0 <= c <= cls.len(),
                    0 <= i < dgv.data.len(),
                    0 <= j < iv.revision_ids.len(),
                    dgv == digest@,
                    iv == dgv.data[i as int],
                    rid == iv.revision_ids[j as int],
                    cls@.map_values(|l: crate::store::Link| l@) == clsv,
                    clsv.len() == cls@.len(),
                    clsv == spec_children(store@, revision_key_of(hive@, iv.data_id, rid)),
                    odv == out_data@.map_values(|d: DataRecord| d@),
                    hyd_data_upto(store@, hive@, dgv.data, i as int) == Ok::<
                        Seq<DataRecordV>,
                        Error,
                    >(odv),
                    hyd_revs_upto(store@, hive@, iv.data_id, iv.revision_ids, j as int) == Ok::<
                        Seq<RevisionV>,
                        Error,
                    >(rv0),
                    hyd_rev_children_upto(store@, clsv, c as int) is Ok,
                    revisions@.map_values(|r2: Revision| r2@) == rv0 + hyd_rev_children_upto(
                        store@,
                        clsv,
                        c as int,
                    )->Ok_0,
                decreases cls.len() - c,
            {
                proof {
                    assert(clsv[c as int] == cls@[c as int]@);
                }
                match leaf_segment_of(cls[c].tag.as_str()) {
                    None => {
                        proof {
                            assert(hyd_rev_children_upto(store@, clsv, c as int + 1)
                                == hyd_rev_children_upto(store@, clsv, c as int));
                        }
                    },
                    Some(hstr) => {
                        proof {
                            assert(leaf_of(clsv[c as int].tag) == Some(hstr@));
                        }
                        match store.fetch_entry(&hstr) {
                            None => {
                                proof {
                                    assert(hyd_rev_children_upto(store@, clsv, c as int + 1)
                                        == Err::<Seq<RevisionV>, Error>(Error::MissingEntry));
                                    lemma_hyd_rev_children_err(
                                        store@,
                                        clsv,
                                        c as int + 1,
                                        clsv.len() as int,
                                    );
                                    assert(hyd_revs_upto(
                                        store@,
                                        hive@,
                                        iv.data_id,
                                        iv.revision_ids,
                                        j as int + 1,
                                    ) == Err::<Seq<RevisionV>, Error>(Error::MissingEntry));
                                    lemma_hyd_revs_err(
                                        store@,
                                        hive@,
                                        iv.data_id,
                                        iv.revision_ids,
                                        j as int + 1,
                                        iv.revision_ids.len() as int,
                                    );
                                    assert(hyd_data_upto(store@, hive@, dgv.data, i as int + 1)
                                        == Err::<Seq<DataRecordV>, Error>(Error::MissingEntry));
                                    lemma_hyd_data_err(
                                        store@,
                                        hive@,
                                        dgv.data,
                                        i as int + 1,
                                        dgv.data.len() as int,
                                    );
                                }
                                return Err(Error::MissingEntry);
                            },
                            Some(p) => match p {
                                EntryPayload::Revision(rev) => {
                                    proof {
                                        assert(spec_fetch(store@, hstr@) == Some(
                                            EntryPayloadV::Revision(rev@),
                                        ));
                                    }
                                    revisions.push(rev.duplicate());
                                    proof {
                                        let part = hyd_rev_children_upto(
                                            store@,
                                            clsv,
                                            c as int,
                                        )->Ok_0;
                                        assert(hyd_rev_children_upto(store@, clsv, c as int + 1)
                                            == Ok::<Seq<RevisionV>, Error>(part.push(rev@)));
                                        assert(revisions@.map_values(|r2: Revision| r2@) =~= (rv0
                                            + part).push(rev@));
                                        assert((rv0 + part).push(rev@) =~= rv0 + part.push(
                                            rev@,
                                        ));
                                    }
                                },
                                EntryPayload::Blob(_) => {
                                    proof {
                                        assert(hyd_rev_children_upto(store@, clsv, c as int + 1)
                                            == Err::<Seq<RevisionV>, Error>(Error::MalformedEntry));
                                        lemma_hyd_rev_children_err(
                                            store@,
                                            clsv,
                                            c as int + 1,
                                            clsv.len() as int,
                                        );
                                        assert(hyd_revs_upto(
                                            store@,
                                            hive@,
                                            iv.data_id,
                                            iv.revision_ids,
                                            j as int + 1,
                                        ) == Err::<Seq<RevisionV>, Error>(Error::MalformedEntry));
                                        lemma_hyd_revs_err(
                                            store@,
                                            hive@,
                                            iv.data_id,
                                            iv.revision_ids,
                                            j as int + 1,
                                            iv.revision_ids.len() as int,
                                        );
                                        assert(hyd_data_upto(
                                            store@,
                                            hive@,
                                            dgv.data,
                                            i as int + 1,
                                        ) == Err::<Seq<DataRecordV>, Error>(Error::MalformedEntry));
                                        lemma_hyd_data_err(
                                            store@,
                                            hive@,
                                            dgv.data,
                                            i as int + 1,
                                            dgv.data.len() as int,
                                        );
                                    }
                                    return Err(Error::MalformedEntry);
                                },
                            },
                        }
                    },
                }
                c += 1;
            }
            proof {
                assert(hyd_revs_upto(store@, hive@, iv.data_id, iv.revision_ids, j as int + 1)
                    == Ok::<Seq<RevisionV>, Error>(
                    revisions@.map_values(|r2: Revision| r2@),
                ));
            }
            j += 1;
        }
        let record = DataRecord { data_id: item.data_id.clone(), revisions };
        out_data.push(record);
        proof {
            assert(out_data@.map_values(|d: DataRecord| d@) =~= odv.push(
                DataRecordV {
                    data_id: iv.data_id,
                    revisions: hyd_revs_upto(
                        store@,
                        hive@,
                        iv.data_id,
                        iv.revision_ids,
                        iv.revision_ids.len() as int,
                    )->Ok_0,
                },
            ));
            assert(hyd_data_upto(store@, hive@, dgv.data, i as int + 1) == Ok::<
                Seq<DataRecordV>,
                Error,
            >(out_data@.map_values(|d: DataRecord| d@)));
        }
        i += 1;
    }
    let ghost odv_full = out_data@.map_values(|d: DataRecord| d@);
    let mut out_blobs: Vec<Blob> = Vec::new();
    proof {
        assert(out_blobs@.map_values(|b: Blob| b@) =~= Seq::<BlobV>::empty());
    }
    let mut k: usize = 0;
    while k < digest.blobs.len()
        invariant
            0 <= k <= digest.blobs.len(),
            dgv == digest@,
            digest.blobs@.len() == dgv.blobs.len(),
            odv_full == out_data@.map_values(|d: DataRecord| d@),
            hyd_data_upto(store@, hive@, dgv.data, dgv.data.len() as int) == Ok::<
                Seq<DataRecordV>,
                Error,
            >(odv_full),
            hyd_blobs_upto(store@, hive@, dgv.blobs, k as int) == Ok::<Seq<BlobV>, Error>(
                out_blobs@.map_values(|b: Blob| b@),
            ),
        decreases digest.blobs.len() - k,
    {
        let bid = &digest.blobs[k];
        let ghost bidv = dgv.blobs[k as int];
        proof {
            assert(bidv == digest.blobs@[k as int]@);
        }
        let bkey = blob_key(hive.as_str(), bid.content_hash.as_str(), bid.mime_type.as_str());
        let cls = store.link_children(&bkey);
        let ghost clsv = cls@.map_values(|l: crate::store::Link| l@);
        proof {
            assert(clsv == spec_children(
                store@,
                blob_key_of(hive@, bidv.content_hash, bidv.mime_type),
            ));
        }
        let ghost bv0 = out_blobs@.map_values(|b: Blob| b@);
        let mut c: usize = 0;
        while c < cls.len()
            invariant
                0 <= c <= cls.len(),
                0 <= k < dgv.blobs.len(),
                dgv == digest@,
                bidv == dgv.blobs[k as int],
                cls@.map_values(|l: crate::store::Link| l@) == clsv,
                clsv.len() == cls@.len(),
                clsv == spec_children(
                    store@,
                    blob_key_of(hive@, bidv.content_hash, bidv.mime_type),
                ),
                odv_full == out_data@.map_values(|d: DataRecord| d@),
                hyd_data_upto(store@, hive@, dgv.data, dgv.data.len() as int) == Ok::<
                    Seq<DataRecordV>,
                    Error,
                >(odv_full),
                hyd_blobs_upto(store@, hive@, dgv.blobs, k as int) == Ok::<Seq<BlobV>, Error>(
                    bv0,
                ),
                hyd_blob_children_upto(store@, clsv, c as int) is Ok,
                out_blobs@.map_values(|b: Blob| b@) == bv0 + hyd_blob_children_upto(
                    store@,
                    clsv,
                    c as int,
                )->Ok_0,
            decreases cls.len() - c,
        {
            proof {
                assert(clsv[c as int] == cls@[c as int]@);
            }
            match leaf_segment_of(cls[c].tag.as_str()) {
                None => {
                    proof {
                        assert(hyd_blob_children_upto(store@, clsv, c as int + 1)
                            == hyd_blob_children_upto(store@, clsv, c as int));
                    }
                },
                Some(hstr) => {
                    proof {
                        assert(leaf_of(clsv[c as int].tag) == Some(hstr@));
                    }
                    match store.fetch_entry(&hstr) {
                        None => {
                            proof {
                                assert(hyd_blob_children_upto(store@, clsv, c as int + 1)
                                    == Err::<Seq<BlobV>, Error>(Error::MissingEntry));
                                lemma_hyd_blob_children_err(
                                    store@,
                                    clsv,
                                    c as int + 1,
                                    clsv.len() as int,
                                );
                                assert(hyd_blobs_upto(store@, hive@, dgv.blobs, k as int + 1)
                                    == Err::<Seq<BlobV>, Error>(Error::MissingEntry));
                                lemma_hyd_blobs_err(
                                    store@,
                                    hive@,
                                    dgv.blobs,
                                    k as int + 1,
                                    dgv.blobs.len() as int,
                                );
                            }
                            return Err(Error::MissingEntry);
                        },
                        Some(p) => match p {
                            EntryPayload::Blob(b) => {
                                proof {
                                    assert(spec_fetch(store@, hstr@) == Some(
                                        EntryPayloadV::Blob(b@),
                                    ));
                                }
                                out_blobs.push(b.duplicate());
                                proof {
                                    let part = hyd_blob_children_upto(
                                        store@,
                                        clsv,
                                        c as int,
                                    )->Ok_0;
                                    assert(hyd_blob_children_upto(store@, clsv, c as int + 1)
                                        == Ok::<Seq<BlobV>, Error>(part.push(b@)));
                                    assert(out_blobs@.map_values(|b2: Blob| b2@) =~= (bv0
                                        + part).push(b@));
                                    assert((bv0 + part).push(b@) =~= bv0 + part.push(b@));
                                }
                            },
                            EntryPayload::Revision(_) => {
                                proof {
                                    assert(hyd_blob_children_upto(store@, clsv, c as int + 1)
                                        == Err::<Seq<BlobV>, Error>(Error::MalformedEntry));
                                    lemma_hyd_blob_children_err(
                                        store@,
                                        clsv,
                                        c as int + 1,
                                        clsv.len() as int,
                                    );
                                    assert(hyd_blobs_upto(store@, hive@, dgv.blobs, k as int + 1)
                                        == Err::<Seq<BlobV>, Error>(Error::MalformedEntry));
                                    lemma_hyd_blobs_err(
                                        store@,
                                        hive@,
                                        dgv.blobs,
                                        k as int + 1,
                                        dgv.blobs.len() as int,
                                    );
                                }
                                return Err(Error::MalformedEntry);
                            },
                        },
                    }
                },
            }
            c += 1;
        }
        proof {
            assert(hyd_blobs_upto(store@, hive@, dgv.blobs, k as int + 1) == Ok::<
                Seq<BlobV>,
                Error,
            >(out_blobs@.map_values(|b: Blob| b@)));
        }
        k += 1;
    }
    let out = RevisionData { data: out_data, blobs: out_blobs };
    proof {
        assert(out@ =~= spec_hydrate(store@, hive@, dgv)->Ok_0);
    }
    Ok(out)
}

// ------------------------------------------------------------------
// The writer, described write by write.
// ------------------------------------------------------------------

/// What writing one revision does: persist its content, then register
/// it under the hive's data root, its data item's key, and its own
/// revision key, the last link carrying the content address as both tag
/// and target.
pub open spec fn write_revision(
    s: StoreV,
    hive: Seq<char>,
    data_id: Seq<char>,
    rev: RevisionV,
) -> StoreV {
    let c = spec_create(s, EntryPayloadV::Revision(rev));
    let s2 = spec_ensure_link(c.0, data_root_of(hive), data_id, Seq::empty());
    let s3 = spec_ensure_link(s2, data_key_of(hive, data_id), rev.revision_id, Seq::empty());
    spec_ensure_link(s3, revision_key_of(hive, data_id, rev.revision_id), c.1, c.1)
}

/// Writing the first `n` revisions of one data item, in order.
pub open spec fn write_revs_upto(
    s: StoreV,
    hive: Seq<char>,
    data_id: Seq<char>,
    revs: Seq<RevisionV>,
    n: int,
) -> StoreV
    decreases n,
{
    if n <= 0 {
        s
    } else {
        write_revision(write_revs_upto(s, hive, data_id, revs, n - 1), hive, data_id, revs[n - 1])
    }
}

/// Writing the first `n` data records, in order.
pub open spec fn write_data_upto(s: StoreV, hive: Seq<char>, recs: Seq<DataRecordV>, n: int) -> StoreV
    decreases n,
{
    if n <= 0 {
        s
    } else {
        let prev = write_data_upto(s, hive, recs, n - 1);
        let rec = recs[n - 1];
        write_revs_upto(prev, hive, rec.data_id, rec.revisions, rec.revisions.len() as int)
    }
}

/// What writing one blob does: persist its content, then register it
/// under the hive's blob root and its own composite key.
pub open spec fn write_blob(s: StoreV, hive: Seq<char>, b: BlobV) -> StoreV {
    let c = spec_create(s, EntryPayloadV::Blob(b));
    let s2 = spec_ensure_link(
        c.0,
        blob_root_of(hive),
        blob_id_of(b.content_hash, b.mime_type),
        Seq::empty(),
    );
    spec_ensure_link(s2, blob_key_of(hive, b.content_hash, b.mime_type), c.1, c.1)
}

/// Writing the first `n` blobs, in order.
pub open spec fn write_blobs_upto(s: StoreV, hive: Seq<char>, blobs: Seq<BlobV>, n: int) -> StoreV
    decreases n,
{
    if n <= 0 {
        s
    } else {
        write_blob(write_blobs_upto(s, hive, blobs, n - 1), hive, blobs[n - 1])
    }
}

/// What `set_revision_data` leaves in the store, in full: every record's
/// revisions written in order, then every blob.
pub open spec fn spec_write(s: StoreV, hive: Seq<char>, d: RevisionDataV) -> StoreV {
    write_blobs_upto(
        write_data_upto(s, hive, d.data, d.data.len() as int),
        hive,
        d.blobs,
        d.blobs.len() as int,
    )
}

/// Persists every revision and blob of `data` under `hive`: each
/// revision's content becomes an entry whose address is linked under the
/// revision's key, and likewise for blobs under their composite keys.
/// Both persisting and linking are idempotent, so writing identical
/// content again changes nothing.
pub fn set_revision_data(store: &mut Store, hive: &String, data: &RevisionData)
    requires
        wf(old(store)@),
    ensures
        wf(final(store)@),
        final(store)@ == spec_write(old(store)@, hive@, data@),
        crate::laws::store_extends(final(store)@, old(store)@),
{
    let ghost s0 = store@;
    let ghost dv = data@;
    let mut i: usize = 0;
    while i < data.data.len()
        invariant
            0 <= i <= data.data.len(),
            s0 == old(store)@,
            dv == data@,
            data.data@.len() == dv.data.len(),
            wf(store@),
            store@ == write_data_upto(s0, hive@, dv.data, i as int),
        decreases data.data.len() - i,
    {
        let rec = &data.data[i];
        let ghost rv = dv.data[i as int];
        proof {
            assert(rv == data.data@[i as int]@);
        }
        let ghost sc = store@;
        let mut j: usize = 0;
        while j < rec.revisions.len()
            invariant
                0 <= i < dv.data.len(),
                0 <= j <= rec.revisions.len(),
                s0 == old(store)@,
                dv == data@,
                rec@ == rv,
                rv == dv.data[i as int],
                rec.revisions@.len() == rv.revisions.len(),
                wf(store@),
                sc == write_data_upto(s0, hive@, dv.data, i as int),
                store@ == write_revs_upto(sc, hive@, rv.data_id, rv.revisions, j as int),
            decreases rec.revisions.len() - j,
        {
            let rev = &rec.revisions[j];
            proof {
                assert(rv.revisions[j as int] == rec.revisions@[j as int]@);
            }
            let ghost sr = store@;
            let h = store.create_entry(EntryPayload::Revision(rev.duplicate()));
            let droot = data_root_key(hive.as_str());
            store.ensure_link(&droot, rec.data_id.clone(), String::new());
            let dkey = data_key(hive.as_str(), rec.data_id.as_str());
            store.ensure_link(&dkey, rev.revision_id.clone(), String::new());
            let rkey = revision_key(hive.as_str(), rec.data_id.as_str(), rev.revision_id.as_str());
            let target = h.clone();
            store.ensure_link(&rkey, h, target);
            proof {
                assert(store@ == write_revision(sr, hive@, rv.data_id, rv.revisions[j as int]));
                assert(store@ == write_revs_upto(
                    sc,
                    hive@,
                    rv.data_id,
                    rv.revisions,
                    j as int + 1,
                ));
            }
            j += 1;
        }
        proof {
            assert(store@ == write_data_upto(s0, hive@, dv.data, i as int + 1));
        }
        i += 1;
    }
    let ghost smid = store@;
    let mut k: usize = 0;
    while k < data.blobs.len()
        invariant
            0 <= k <= data.blobs.len(),
            s0 == old(store)@,
            dv == data@,
            data.blobs@.len() == dv.blobs.len(),
            wf(store@),
            smid == write_data_upto(s0, hive@, dv.data, dv.data.len() as int),
            store@ == write_blobs_upto(smid, hive@, dv.blobs, k as int),
        decreases data.blobs.len() - k,
    {
        let b = &data.blobs[k];
        proof {
            assert(dv.blobs[k as int] == data.blobs@[k as int]@);
        }
        let ghost sb = store@;
        let h = store.create_entry(EntryPayload::Blob(b.duplicate()));
        let broot = blob_root_key(hive.as_str());
        let bid = crate::codec::encode_blob_id(b.content_hash.as_str(), b.mime_type.as_str());
        store.ensure_link(&broot, bid, String::new());
        let bkey = blob_key(hive.as_str(), b.content_hash.as_str(), b.mime_type.as_str());
        let target = h.clone();
        store.ensure_link(&bkey, h, target);
        proof {
            assert(store@ == write_blob(sb, hive@, dv.blobs[k as int]));
            assert(store@ == write_blobs_upto(smid, hive@, dv.blobs, k as int + 1));
        }
        k += 1;
    }
    proof {
        assert(store@ == spec_write(s0, hive@, dv));
        crate::laws::lemma_write_append_only(s0, hive@, dv);
    }
}

} // verus!
