//! Path codec: the deterministic, collision-free mapping between
//! (hive, kind, identifiers) and the string keys of the path index, the
//! composite blob identifier (content hash + MIME type), and the reverse
//! parse of a key's final segment. All reserved-character assumptions of
//! the addressing scheme live here: `.` separates path segments, `&`
//! separates the two components of a composite blob identifier.

use vstd::prelude::*;
use vstd::string::StrSliceExecFns;
use vstd::string::StringExecFns;

use crate::entry::Error;

verus! {

/// Does `s` contain the character `c`?
pub open spec fn has_char(s: Seq<char>, c: char) -> bool {
    exists|i: int| 0 <= i < s.len() && s[i] == c
}

/// A well-formed path segment: nonempty and free of the path separator.
pub open spec fn seg_ok(s: Seq<char>) -> bool {
    s.len() > 0 && !has_char(s, '.')
}

/// A well-formed blob-id component: a path segment free of the composite
/// separator as well.
pub open spec fn blob_part_ok(s: Seq<char>) -> bool {
    seg_ok(s) && !has_char(s, '&')
}

/// `prefix`, the path separator, then `seg`.
pub open spec fn dot(prefix: Seq<char>, seg: Seq<char>) -> Seq<char> {
    prefix + seq!['.'] + seg
}

pub open spec fn data_seg() -> Seq<char> {
    seq!['d', 'a', 't', 'a']
}

pub open spec fn blob_seg() -> Seq<char> {
    seq!['b', 'l', 'o', 'b']
}

/// The key under which a hive's data items are indexed.
pub open spec fn data_root_of(hive: Seq<char>) -> Seq<char> {
    dot(hive, data_seg())
}

/// The key under which one data item's revisions are indexed.
pub open spec fn data_key_of(hive: Seq<char>, data_id: Seq<char>) -> Seq<char> {
    dot(data_root_of(hive), data_id)
}

/// The key under which one revision's content link is registered.
pub open spec fn revision_key_of(hive: Seq<char>, data_id: Seq<char>, revision_id: Seq<char>) -> Seq<
    char,
> {
    dot(data_key_of(hive, data_id), revision_id)
}

/// The composite blob identifier: hash, separator, MIME type.
pub open spec fn blob_id_of(hash: Seq<char>, mime: Seq<char>) -> Seq<char> {
    hash + seq!['&'] + mime
}

/// The key under which a hive's blobs are indexed.
pub open spec fn blob_root_of(hive: Seq<char>) -> Seq<char> {
    dot(hive, blob_seg())
}

/// The key under which one blob's content link is registered.
pub open spec fn blob_key_of(hive: Seq<char>, hash: Seq<char>, mime: Seq<char>) -> Seq<char> {
    dot(blob_root_of(hive), blob_id_of(hash, mime))
}

/// Where the final path segment of `k` begins: just after the last
/// separator, or at the start when `k` holds none.
pub open spec fn leaf_start(k: Seq<char>) -> int
    decreases k.len(),
{
    if k.len() == 0 {
        0
    } else if k[k.len() - 1] == '.' {
        k.len() as int
    } else {
        leaf_start(k.drop_last())
    }
}

/// The final path segment of `k`; `None` when `k` is empty.
pub open spec fn leaf_of(k: Seq<char>) -> Option<Seq<char>> {
    if k.len() == 0 {
        None
    } else {
        Some(k.subrange(leaf_start(k), k.len() as int))
    }
}

/// If no separator stands at or after position `i`, and a separator
/// stands just before it (unless `i` is the start), the final segment
/// begins at `i`.
pub proof fn lemma_leaf_start_at(k: Seq<char>, i: int)
    requires
        0 <= i <= k.len(),
        forall|j: int| i <= j < k.len() ==> #[trigger] k[j] != '.',
        i > 0 ==> k[i - 1] == '.',
    ensures
        leaf_start(k) == i,
    decreases k.len(),
{
    if k.len() == 0 {
    } else if k[k.len() - 1] == '.' {
        assert(i == k.len());
    } else {
        assert(i < k.len());
        let kd = k.drop_last();
        assert(forall|j: int| 0 <= j < kd.len() ==> #[trigger] kd[j] == k[j]);
        lemma_leaf_start_at(kd, i);
    }
}

/// The final segment of a plain segment is the segment itself.
pub proof fn lemma_leaf_of_segment(s: Seq<char>)
    requires
        seg_ok(s),
    ensures
        leaf_of(s) == Some(s),
{
    assert(forall|j: int| 0 <= j < s.len() ==> #[trigger] s[j] != '.');
    lemma_leaf_start_at(s, 0);
    assert(s.subrange(0, s.len() as int) =~= s);
}

/// Appending a well-formed segment to any prefix leaves that segment as
/// the key's final segment.
pub proof fn lemma_leaf_of_dot(prefix: Seq<char>, s: Seq<char>)
    requires
        seg_ok(s),
    ensures
        leaf_of(dot(prefix, s)) == Some(s),
{
    let k = dot(prefix, s);
    assert(k.len() == prefix.len() + 1 + s.len());
    assert(k[prefix.len() as int] == '.');
    assert(forall|j: int|
        prefix.len() + 1 <= j < k.len() ==> #[trigger] k[j] == s[j - prefix.len() - 1]);
    assert(forall|j: int| prefix.len() + 1 <= j < k.len() ==> #[trigger] k[j] != '.');
    lemma_leaf_start_at(k, prefix.len() as int + 1);
    assert(k.subrange(prefix.len() as int + 1, k.len() as int) =~= s);
}

/// The position of the first composite separator in `s` (meaningful when
/// one is present).
pub open spec fn amp_index(s: Seq<char>) -> int
    decreases s.len(),
{
    if s.len() == 0 {
        0
    } else if s[0] == '&' {
        0
    } else {
        1 + amp_index(s.drop_first())
    }
}

/// Splitting a composite blob identifier on its first separator;
/// `None` when no separator is present.
pub open spec fn split_blob_id(s: Seq<char>) -> Option<(Seq<char>, Seq<char>)> {
    if has_char(s, '&') {
        Some((s.take(amp_index(s)), s.skip(amp_index(s) + 1)))
    } else {
        None
    }
}

pub proof fn lemma_amp_index_at(s: Seq<char>, i: int)
    requires
        0 <= i < s.len(),
        s[i] == '&',
        forall|j: int| 0 <= j < i ==> #[trigger] s[j] != '&',
    ensures
        amp_index(s) == i,
    decreases s.len(),
{
    if s[0] == '&' {
        assert(i == 0);
    } else {
        let sd = s.drop_first();
        assert(forall|j: int| 0 <= j < sd.len() ==> #[trigger] sd[j] == s[j + 1]);
        lemma_amp_index_at(sd, i - 1);
    }
}

/// The composite-id inverse law: encoding a (hash, mime) pair whose hash
/// holds no separator, then splitting it, gives the pair back.
pub proof fn lemma_blob_id_round_trip(hash: Seq<char>, mime: Seq<char>)
    requires
        !has_char(hash, '&'),
    ensures
        split_blob_id(blob_id_of(hash, mime)) == Some((hash, mime)),
{
    let s = blob_id_of(hash, mime);
    assert(s.len() == hash.len() + 1 + mime.len());
    assert(s[hash.len() as int] == '&');
    assert(forall|j: int| 0 <= j < hash.len() ==> #[trigger] s[j] == hash[j]);
    assert(forall|j: int| 0 <= j < hash.len() ==> #[trigger] s[j] != '&');
    lemma_amp_index_at(s, hash.len() as int);
    assert(has_char(s, '&'));
    assert(s.take(hash.len() as int) =~= hash);
    assert(s.skip(hash.len() as int + 1) =~= mime);
}

/// A Rust identifier for the pair a composite blob identifier names:
/// a content hash and a MIME type.
#[derive(Debug)]
pub struct BlobId {
    pub content_hash: String,
    pub mime_type: String,
}

/// The mathematical value of a `BlobId`.
#[verifier::ext_equal]
pub struct BlobIdV {
    pub content_hash: Seq<char>,
    pub mime_type: Seq<char>,
}

impl View for BlobId {
    type V = BlobIdV;

    open spec fn view(&self) -> BlobIdV {
        BlobIdV { content_hash: self.content_hash@, mime_type: self.mime_type@ }
    }
}

impl BlobId {
    /// A copy naming the same pair.
    pub fn duplicate(&self) -> (r: BlobId)
        ensures
            r@ == self@,
    {
        BlobId { content_hash: self.content_hash.clone(), mime_type: self.mime_type.clone() }
    }
}

/// `parent`, the separator, then `seg`.
pub fn child_key(parent: &str, seg: &str) -> (k: String)
    ensures
        k@ == dot(parent@, seg@),
{
    let mut k = parent.to_owned();
    k.append(".");
    k.append(seg);
    proof {
        reveal_strlit(".");
        assert(k@ =~= dot(parent@, seg@));
    }
    k
}

/// The key under which a hive's data items are indexed.
pub fn data_root_key(hive: &str) -> (k: String)
    ensures
        k@ == data_root_of(hive@),
{
    let k = child_key(hive, "data");
    proof {
        reveal_strlit("data");
        assert("data"@ =~= data_seg());
    }
    k
}

/// The key under which one data item's revisions are indexed.
pub fn data_key(hive: &str, data_id: &str) -> (k: String)
    ensures
        k@ == data_key_of(hive@, data_id@),
{
    let root = data_root_key(hive);
    child_key(root.as_str(), data_id)
}

/// The key under which one revision's content link is registered.
pub fn revision_key(hive: &str, data_id: &str, revision_id: &str) -> (k: String)
    ensures
        k@ == revision_key_of(hive@, data_id@, revision_id@),
{
    let parent = data_key(hive, data_id);
    child_key(parent.as_str(), revision_id)
}

/// The key under which a hive's blobs are indexed.
pub fn blob_root_key(hive: &str) -> (k: String)
    ensures
        k@ == blob_root_of(hive@),
{
    let k = child_key(hive, "blob");
    proof {
        reveal_strlit("blob");
        assert("blob"@ =~= blob_seg());
    }
    k
}

/// Joins a content hash and a MIME type into a composite blob identifier.
pub fn encode_blob_id(hash: &str, mime: &str) -> (s: String)
    ensures
        s@ == blob_id_of(hash@, mime@),
{
    let mut s = hash.to_owned();
    s.append("&");
    s.append(mime);
    proof {
        reveal_strlit("&");
        assert(s@ =~= blob_id_of(hash@, mime@));
    }
    s
}

/// The key under which one blob's content link is registered.
pub fn blob_key(hive: &str, hash: &str, mime: &str) -> (k: String)
    ensures
        k@ == blob_key_of(hive@, hash@, mime@),
{
    let root = blob_root_key(hive);
    let id = encode_blob_id(hash, mime);
    child_key(root.as_str(), id.as_str())
}

/// Splits a composite blob identifier on the first separator. Fails with
/// `MalformedBlobId` exactly when the separator is absent.
pub fn decode_blob_id(s: &str) -> (r: Result<BlobId, Error>)
    ensures
        r is Ok <==> split_blob_id(s@) is Some,
        r is Ok ==> r->Ok_0@.content_hash == (split_blob_id(s@)->0).0,
        r is Ok ==> r->Ok_0@.mime_type == (split_blob_id(s@)->0).1,
        r is Err ==> r->Err_0 == Error::MalformedBlobId,
{
    let n = s.unicode_len();
    let mut j: usize = 0;
    while j < n
        invariant
            0 <= j <= n,
            n == s@.len(),
            forall|m: int| 0 <= m < j ==> #[trigger] s@[m] != '&',
        decreases n - j,
    {
        if s.get_char(j) == '&' {
            proof {
                lemma_amp_index_at(s@, j as int);
                assert(has_char(s@, '&'));
            }
            let hash = s.substring_char(0, j).to_owned();
            let mime = s.substring_char(j + 1, n).to_owned();
            proof {
                assert(hash@ =~= s@.take(j as int));
                assert(mime@ =~= s@.skip(j + 1));
            }
            return Ok(BlobId { content_hash: hash, mime_type: mime });
        }
        j += 1;
    }
    proof {
        assert(!has_char(s@, '&'));
    }
    Err(Error::MalformedBlobId)
}

/// Extracts the final path segment of `k`: everything after the last
/// separator, or all of `k` when it holds none. `None` only for an empty
/// key, which callers treat as "nothing indexed here", never as a hard
/// failure.
pub fn leaf_segment_of(k: &str) -> (r: Option<String>)
    ensures
        r is Some <==> leaf_of(k@) is Some,
        r is Some ==> r->0@ == leaf_of(k@)->0,
{
    let n = k.unicode_len();
    if n == 0 {
        return None;
    }
    let mut start: usize = 0;
    let mut j: usize = 0;
    while j < n
        invariant
            0 <= start <= j <= n,
            n == k@.len(),
            forall|m: int| start <= m < j ==> #[trigger] k@[m] != '.',
            start > 0 ==> k@[start - 1] == '.',
        decreases n - j,
    {
        if k.get_char(j) == '.' {
            start = j + 1;
        }
        j += 1;
    }
    proof {
        lemma_leaf_start_at(k@, start as int);
    }
    let leaf = k.substring_char(start, n).to_owned();
    Some(leaf)
}

} // verus!
