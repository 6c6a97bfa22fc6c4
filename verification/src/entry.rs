//! Entry content: revisions, blobs, and the validation rules applied to
//! them. Revisions and blobs are immutable once created: the update and
//! delete hooks reject unconditionally, which is what makes the store
//! append-only.

use vstd::prelude::*;

verus! {

/// The error kinds surfaced by this store.
#[derive(Debug, Clone, Copy, PartialEq, Eq, Structural)]
pub enum Error {
    /// A composite blob identifier cannot be split into (hash, mime).
    MalformedBlobId,
    /// Stored content for a revision or blob does not have the expected shape.
    MalformedEntry,
    /// A content hash named by the index cannot be fetched from the store.
    MissingEntry,
    /// An update of a revision or blob entry was attempted.
    UpdateAttempted,
    /// A deletion of a revision or blob entry was attempted.
    DeleteAttempted,
}

/// The description `message` returns for each error kind.
pub open spec fn spec_message(e: Error) -> Seq<char> {
    match e {
        Error::MalformedBlobId => "malformed blob id"@,
        Error::MalformedEntry => "malformed entry"@,
        Error::MissingEntry => "missing entry"@,
        Error::UpdateAttempted => "attempted to update an entry"@,
        Error::DeleteAttempted => "attempted to delete an entry"@,
    }
}

impl Error {
    /// A short description of the error.
    pub fn message(&self) -> (m: &'static str)
        ensures
            m@ == spec_message(*self),
    {
        match self {
            Error::MalformedBlobId => "malformed blob id",
            Error::MalformedEntry => "malformed entry",
            Error::MissingEntry => "missing entry",
            Error::UpdateAttempted => "attempted to update an entry",
            Error::DeleteAttempted => "attempted to delete an entry",
        }
    }
}

/// An immutable record revision: an opaque unique identifier and the
/// record content it carries.
#[derive(Debug)]
pub struct Revision {
    pub revision_id: String,
    pub payload: Vec<u8>,
}

/// The mathematical value of a `Revision`.
#[verifier::ext_equal]
pub struct RevisionV {
    pub revision_id: Seq<char>,
    pub payload: Seq<u8>,
}

impl View for Revision {
    type V = RevisionV;

    open spec fn view(&self) -> RevisionV {
        RevisionV { revision_id: self.revision_id@, payload: self.payload@ }
    }
}

/// An immutable binary attachment. `content_hash` is the caller-declared
/// cryptographic digest of `payload`; together with `mime_type` it forms
/// the blob's identity. Two blobs with equal bytes but different MIME
/// types are distinct.
#[derive(Debug)]
pub struct Blob {
    pub content_hash: String,
    pub payload: Vec<u8>,
    pub mime_type: String,
}

/// The mathematical value of a `Blob`.
#[verifier::ext_equal]
pub struct BlobV {
    pub content_hash: Seq<char>,
    pub payload: Seq<u8>,
    pub mime_type: Seq<char>,
}

impl View for Blob {
    type V = BlobV;

    open spec fn view(&self) -> BlobV {
        BlobV {
            content_hash: self.content_hash@,
            payload: self.payload@,
            mime_type: self.mime_type@,
        }
    }
}

/// What a content-addressed entry can hold.
#[derive(Debug)]
pub enum EntryPayload {
    Revision(Revision),
    Blob(Blob),
}

/// The mathematical value of an `EntryPayload`.
#[verifier::ext_equal]
pub enum EntryPayloadV {
    Revision(RevisionV),
    Blob(BlobV),
}

impl View for EntryPayload {
    type V = EntryPayloadV;

    open spec fn view(&self) -> EntryPayloadV {
        match self {
            EntryPayload::Revision(r) => EntryPayloadV::Revision(r@),
            EntryPayload::Blob(b) => EntryPayloadV::Blob(b@),
        }
    }
}

/// Copies a byte vector.
pub fn clone_bytes(v: &Vec<u8>) -> (r: Vec<u8>)
    ensures
        r@ == v@,
{
    let mut r: Vec<u8> = Vec::new();
    let mut i: usize = 0;
    while i < v.len()
        invariant
            0 <= i <= v.len(),
            r@ == v@.subrange(0, i as int),
        decreases v.len() - i,
    {
        r.push(v[i]);
        proof {
            assert(r@ =~= v@.subrange(0, i + 1));
        }
        i += 1;
    }
    proof {
        assert(v@.subrange(0, v@.len() as int) =~= v@);
    }
    r
}

/// Compares two byte vectors.
pub fn bytes_eq(a: &Vec<u8>, b: &Vec<u8>) -> (r: bool)
    ensures
        r == (a@ == b@),
{
    if a.len() != b.len() {
        return false;
    }
    let mut i: usize = 0;
    while i < a.len()
        invariant
            0 <= i <= a.len(),
            a.len() == b.len(),
            forall|j: int| 0 <= j < i ==> a@[j] == b@[j],
        decreases a.len() - i,
    {
        if a[i] != b[i] {
            return false;
        }
        i += 1;
    }
    proof {
        assert(a@ =~= b@);
    }
    true
}

impl Revision {
    /// A copy with the same identifier and payload.
    pub fn duplicate(&self) -> (r: Revision)
        ensures
            r@ == self@,
    {
        Revision { revision_id: self.revision_id.clone(), payload: clone_bytes(&self.payload) }
    }

    /// Value equality on revisions.
    pub fn same_as(&self, other: &Revision) -> (r: bool)
        ensures
            r == (self@ == other@),
    {
        self.revision_id == other.revision_id && bytes_eq(&self.payload, &other.payload)
    }
}

impl Blob {
    /// A copy with the same identity and payload.
    pub fn duplicate(&self) -> (r: Blob)
        ensures
            r@ == self@,
    {
        Blob {
            content_hash: self.content_hash.clone(),
            payload: clone_bytes(&self.payload),
            mime_type: self.mime_type.clone(),
        }
    }

    /// Value equality on blobs.
    pub fn same_as(&self, other: &Blob) -> (r: bool)
        ensures
            r == (self@ == other@),
    {
        self.content_hash == other.content_hash && bytes_eq(&self.payload, &other.payload)
            && self.mime_type == other.mime_type
    }
}

impl EntryPayload {
    /// A copy with the same content.
    pub fn duplicate(&self) -> (r: EntryPayload)
        ensures
            r@ == self@,
    {
        match self {
            EntryPayload::Revision(rev) => EntryPayload::Revision(rev.duplicate()),
            EntryPayload::Blob(b) => EntryPayload::Blob(b.duplicate()),
        }
    }

    /// Value equality on entry payloads.
    pub fn same_as(&self, other: &EntryPayload) -> (r: bool)
        ensures
            r == (self@ == other@),
    {
        match (self, other) {
            (EntryPayload::Revision(a), EntryPayload::Revision(b)) => a.same_as(b),
            (EntryPayload::Blob(a), EntryPayload::Blob(b)) => a.same_as(b),
            _ => false,
        }
    }
}

/// The host's verdict on an attempted entry operation.
#[derive(Debug, Clone, Copy, PartialEq, Eq, Structural)]
pub enum ValidationOutcome {
    Accepted,
    Rejected(Error),
}

/// Creation-time validation for revision entries: the submitted content
/// must have the shape of a revision.
pub fn validate_create_entry_revision(candidate: &EntryPayload) -> (r: ValidationOutcome)
    ensures
        r == if candidate@ is Revision {
            ValidationOutcome::Accepted
        } else {
            ValidationOutcome::Rejected(Error::MalformedEntry)
        },
{
    match candidate {
        EntryPayload::Revision(_) => ValidationOutcome::Accepted,
        _ => ValidationOutcome::Rejected(Error::MalformedEntry),
    }
}

/// Creation-time validation for blob entries: the submitted content must
/// have the shape of a blob.
pub fn validate_create_entry_blob(candidate: &EntryPayload) -> (r: ValidationOutcome)
    ensures
        r == if candidate@ is Blob {
            ValidationOutcome::Accepted
        } else {
            ValidationOutcome::Rejected(Error::MalformedEntry)
        },
{
    match candidate {
        EntryPayload::Blob(_) => ValidationOutcome::Accepted,
        _ => ValidationOutcome::Rejected(Error::MalformedEntry),
    }
}

/// Any attempted update of a revision or blob entry is rejected,
/// whatever the submitted content.
pub fn validate_update(_candidate: &EntryPayload) -> (r: ValidationOutcome)
    ensures
        r == ValidationOutcome::Rejected(Error::UpdateAttempted),
{
    ValidationOutcome::Rejected(Error::UpdateAttempted)
}

/// Any attempted deletion of a revision or blob entry is rejected,
/// whatever the submitted content.
pub fn validate_delete(_candidate: &EntryPayload) -> (r: ValidationOutcome)
    ensures
        r == ValidationOutcome::Rejected(Error::DeleteAttempted),
{
    ValidationOutcome::Rejected(Error::DeleteAttempted)
}

} // verus!
