//! Laws of the store as a whole. The central one: writing is
//! append-only — it never alters or removes an entry, and it only ever
//! appends to a key's children, so everything observable before a write
//! is still observable, unchanged and in the same order, after it.

use vstd::prelude::*;

use crate::entry::EntryPayloadV;
use crate::hive::{
    spec_write, write_blob, write_blobs_upto, write_data_upto, write_revision, write_revs_upto,
    RevisionDataV,
};
use crate::store::{
    find_node, spec_children, spec_create, spec_ensure_link, LinkV, NodeV, StoreV,
};

verus! {

/// `s2` extends `s1`: every entry of `s1` is still there, at the same
/// address with the same payload, and under every key the children of
/// `s1` are a prefix, in order, of the children of `s2`.
pub open spec fn store_extends(s2: StoreV, s1: StoreV) -> bool {
    &&& s1.entries.len() <= s2.entries.len()
    &&& forall|i: int| 0 <= i < s1.entries.len() ==> s2.entries[i] == s1.entries[i]
    &&& forall|k: Seq<char>|
        (#[trigger] spec_children(s1, k)).is_prefix_of(spec_children(s2, k))
}

pub proof fn lemma_extends_refl(s: StoreV)
    ensures
        store_extends(s, s),
{
    assert forall|k: Seq<char>|
        (#[trigger] spec_children(s, k)).is_prefix_of(spec_children(s, k)) by {
        assert(spec_children(s, k) =~= spec_children(s, k).subrange(
            0,
            spec_children(s, k).len() as int,
        ));
    }
}

pub proof fn lemma_extends_trans(s3: StoreV, s2: StoreV, s1: StoreV)
    requires
        store_extends(s3, s2),
        store_extends(s2, s1),
    ensures
        store_extends(s3, s1),
{
    assert forall|k: Seq<char>|
        (#[trigger] spec_children(s1, k)).is_prefix_of(spec_children(s3, k)) by {
        let c1 = spec_children(s1, k);
        let c2 = spec_children(s2, k);
        let c3 = spec_children(s3, k);
        assert(c1.is_prefix_of(c2));
        assert(c2.is_prefix_of(c3));
        assert(c1 =~= c3.subrange(0, c1.len() as int));
    }
}

/// Creating an entry never disturbs the link index and only ever
/// appends to the entries.
pub proof fn lemma_create_extends(s: StoreV, p: EntryPayloadV)
    ensures
        store_extends(spec_create(s, p).0, s),
{
    let s2 = spec_create(s, p).0;
    assert(s2.nodes == s.nodes);
    assert forall|k: Seq<char>|
        (#[trigger] spec_children(s, k)).is_prefix_of(spec_children(s2, k)) by {
        assert(spec_children(s2, k) == spec_children(s, k));
        assert(spec_children(s, k) =~= spec_children(s2, k).subrange(
            0,
            spec_children(s, k).len() as int,
        ));
    }
}

/// Replacing one node by one with the same key moves no search: every
/// key is found (or missed) at the same position.
pub proof fn lemma_find_node_update(nodes: Seq<NodeV>, i: int, node2: NodeV, k: Seq<char>, start: int)
    requires
        0 <= i < nodes.len(),
        node2.key == nodes[i].key,
        0 <= start <= nodes.len(),
    ensures
        find_node(nodes.update(i, node2), k, start) == find_node(nodes, k, start),
    decreases nodes.len() - start,
{
    if start < nodes.len() {
        assert(nodes.update(i, node2)[start].key == nodes[start].key);
        if nodes[start].key != k {
            lemma_find_node_update(nodes, i, node2, k, start + 1);
        }
    }
}

/// Appending a node moves no search that already succeeds, and a missed
/// key is now found only at the appended node.
pub proof fn lemma_find_node_push(nodes: Seq<NodeV>, node2: NodeV, k: Seq<char>, start: int)
    requires
        0 <= start <= nodes.len(),
    ensures
        find_node(nodes, k, start) < nodes.len() ==> find_node(nodes.push(node2), k, start)
            == find_node(nodes, k, start),
        find_node(nodes, k, start) == nodes.len() && node2.key == k ==> find_node(
            nodes.push(node2),
            k,
            start,
        ) == nodes.len(),
        find_node(nodes, k, start) == nodes.len() && node2.key != k ==> find_node(
            nodes.push(node2),
            k,
            start,
        ) == nodes.len() + 1,
    decreases nodes.len() - start,
{
    if start < nodes.len() {
        assert(nodes.push(node2)[start] == nodes[start]);
        if nodes[start].key != k {
            lemma_find_node_push(nodes, node2, k, start + 1);
        }
    } else {
        assert(nodes.push(node2)[nodes.len() as int] == node2);
        assert(find_node(nodes.push(node2), k, nodes.len() as int + 1) == nodes.len() + 1);
    }
}

/// Registering a link never disturbs the entries and only ever appends
/// to one key's children.
pub proof fn lemma_ensure_extends(s: StoreV, key: Seq<char>, tag: Seq<char>, target: Seq<char>)
    ensures
        store_extends(spec_ensure_link(s, key, tag, target), s),
{
    let s2 = spec_ensure_link(s, key, tag, target);
    let i = find_node(s.nodes, key, 0);
    crate::store::lemma_find_node(s.nodes, key, 0);
    assert(s2.entries == s.entries);
    if i < s.nodes.len() && crate::store::link_present(s.nodes[i].children, tag, target) {
        lemma_extends_refl(s);
    } else if i < s.nodes.len() {
        let node2 = NodeV {
            key: s.nodes[i].key,
            children: s.nodes[i].children.push(LinkV { tag, target }),
        };
        assert forall|k: Seq<char>|
            (#[trigger] spec_children(s, k)).is_prefix_of(spec_children(s2, k)) by {
            lemma_find_node_update(s.nodes, i, node2, k, 0);
            crate::store::lemma_find_node(s.nodes, k, 0);
            let f = find_node(s.nodes, k, 0);
            if f < s.nodes.len() {
                if f == i {
                    assert(spec_children(s2, k) == s.nodes[i].children.push(
                        LinkV { tag, target },
                    ));
                    assert(spec_children(s, k) =~= spec_children(s2, k).subrange(
                        0,
                        spec_children(s, k).len() as int,
                    ));
                } else {
                    assert(s2.nodes[f] == s.nodes[f]);
                    assert(spec_children(s, k) =~= spec_children(s2, k).subrange(
                        0,
                        spec_children(s, k).len() as int,
                    ));
                }
            } else {
                assert(spec_children(s, k) =~= Seq::<LinkV>::empty());
                assert(spec_children(s, k) =~= spec_children(s2, k).subrange(0, 0));
            }
        }
    } else {
        let node2 = NodeV { key, children: seq![LinkV { tag, target }] };
        assert forall|k: Seq<char>|
            (#[trigger] spec_children(s, k)).is_prefix_of(spec_children(s2, k)) by {
            lemma_find_node_push(s.nodes, node2, k, 0);
            crate::store::lemma_find_node(s.nodes, k, 0);
            let f = find_node(s.nodes, k, 0);
            if f < s.nodes.len() {
                assert(s2.nodes[f] == s.nodes[f]);
                assert(spec_children(s, k) =~= spec_children(s2, k).subrange(
                    0,
                    spec_children(s, k).len() as int,
                ));
            } else {
                assert(spec_children(s, k) =~= Seq::<LinkV>::empty());
                assert(spec_children(s, k) =~= spec_children(s2, k).subrange(0, 0));
            }
        }
    }
}

pub proof fn lemma_write_revision_extends(
    s: StoreV,
    hive: Seq<char>,
    data_id: Seq<char>,
    rev: crate::entry::RevisionV,
)
    ensures
        store_extends(write_revision(s, hive, data_id, rev), s),
{
    let c = spec_create(s, EntryPayloadV::Revision(rev));
    let s2 = spec_ensure_link(c.0, crate::codec::data_root_of(hive), data_id, Seq::empty());
    let s3 = spec_ensure_link(
        s2,
        crate::codec::data_key_of(hive, data_id),
        rev.revision_id,
        Seq::empty(),
    );
    lemma_create_extends(s, EntryPayloadV::Revision(rev));
    lemma_ensure_extends(c.0, crate::codec::data_root_of(hive), data_id, Seq::empty());
    lemma_ensure_extends(
        s2,
        crate::codec::data_key_of(hive, data_id),
        rev.revision_id,
        Seq::empty(),
    );
    lemma_ensure_extends(
        s3,
        crate::codec::revision_key_of(hive, data_id, rev.revision_id),
        c.1,
        c.1,
    );
    lemma_extends_trans(s2, c.0, s);
    lemma_extends_trans(s3, s2, s);
    lemma_extends_trans(write_revision(s, hive, data_id, rev), s3, s);
}

pub proof fn lemma_write_revs_upto_extends(
    s: StoreV,
    hive: Seq<char>,
    data_id: Seq<char>,
    revs: Seq<crate::entry::RevisionV>,
    n: int,
)
    ensures
        store_extends(write_revs_upto(s, hive, data_id, revs, n), s),
    decreases n,
{
    if n <= 0 {
        lemma_extends_refl(s);
    } else {
        let prev = write_revs_upto(s, hive, data_id, revs, n - 1);
        lemma_write_revs_upto_extends(s, hive, data_id, revs, n - 1);
        lemma_write_revision_extends(prev, hive, data_id, revs[n - 1]);
        lemma_extends_trans(write_revs_upto(s, hive, data_id, revs, n), prev, s);
    }
}

pub proof fn lemma_write_data_upto_extends(
    s: StoreV,
    hive: Seq<char>,
    recs: Seq<crate::hive::DataRecordV>,
    n: int,
)
    ensures
        store_extends(write_data_upto(s, hive, recs, n), s),
    decreases n,
{
    if n <= 0 {
        lemma_extends_refl(s);
    } else {
        let prev = write_data_upto(s, hive, recs, n - 1);
        let rec = recs[n - 1];
        lemma_write_data_upto_extends(s, hive, recs, n - 1);
        lemma_write_revs_upto_extends(
            prev,
            hive,
            rec.data_id,
            rec.revisions,
            rec.revisions.len() as int,
        );
        lemma_extends_trans(write_data_upto(s, hive, recs, n), prev, s);
    }
}

pub proof fn lemma_write_blob_extends(s: StoreV, hive: Seq<char>, b: crate::entry::BlobV)
    ensures
        store_extends(write_blob(s, hive, b), s),
{
    let c = spec_create(s, EntryPayloadV::Blob(b));
    let s2 = spec_ensure_link(
        c.0,
        crate::codec::blob_root_of(hive),
        crate::codec::blob_id_of(b.content_hash, b.mime_type),
        Seq::empty(),
    );
    lemma_create_extends(s, EntryPayloadV::Blob(b));
    lemma_ensure_extends(
        c.0,
        crate::codec::blob_root_of(hive),
        crate::codec::blob_id_of(b.content_hash, b.mime_type),
        Seq::empty(),
    );
    lemma_ensure_extends(
        s2,
        crate::codec::blob_key_of(hive, b.content_hash, b.mime_type),
        c.1,
        c.1,
    );
    lemma_extends_trans(s2, c.0, s);
    lemma_extends_trans(write_blob(s, hive, b), s2, s);
}

pub proof fn lemma_write_blobs_upto_extends(
    s: StoreV,
    hive: Seq<char>,
    blobs: Seq<crate::entry::BlobV>,
    n: int,
)
    ensures
        store_extends(write_blobs_upto(s, hive, blobs, n), s),
    decreases n,
{
    if n <= 0 {
        lemma_extends_refl(s);
    } else {
        let prev = write_blobs_upto(s, hive, blobs, n - 1);
        lemma_write_blobs_upto_extends(s, hive, blobs, n - 1);
        lemma_write_blob_extends(prev, hive, blobs[n - 1]);
        lemma_extends_trans(write_blobs_upto(s, hive, blobs, n), prev, s);
    }
}

/// Append-only: a write never alters or removes what is already stored.
/// Every entry present before keeps its address and payload, and under
/// every key the children present before stay, in insertion order, as a
/// prefix of the children after — so in particular an earlier revision
/// of a data item is still listed, before any newly written one.
pub proof fn lemma_write_append_only(s: StoreV, hive: Seq<char>, d: RevisionDataV)
    ensures
        store_extends(spec_write(s, hive, d), s),
{
    let mid = write_data_upto(s, hive, d.data, d.data.len() as int);
    lemma_write_data_upto_extends(s, hive, d.data, d.data.len() as int);
    lemma_write_blobs_upto_extends(mid, hive, d.blobs, d.blobs.len() as int);
    lemma_extends_trans(spec_write(s, hive, d), mid, s);
}

// ------------------------------------------------------------------
// Idempotence: writing identical content twice changes nothing.
// ------------------------------------------------------------------

/// A link already registered stays registered when the store grows.
pub proof fn lemma_link_present_extends(
    s2: StoreV,
    s1: StoreV,
    k: Seq<char>,
    tag: Seq<char>,
    target: Seq<char>,
)
    requires
        store_extends(s2, s1),
        crate::store::link_present(spec_children(s1, k), tag, target),
    ensures
        crate::store::link_present(spec_children(s2, k), tag, target),
{
    let c1 = spec_children(s1, k);
    let c2 = spec_children(s2, k);
    let j = choose|j: int| 0 <= j < c1.len() && c1[j].tag == tag && c1[j].target == target;
    assert(c1.is_prefix_of(c2));
    assert(c1[j] == c2.subrange(0, c1.len() as int)[j]);
    assert(c2[j].tag == tag && c2[j].target == target);
}

/// The first entry holding `p` is the one at `x`, when `x` holds `p`
/// and nothing before it does.
pub proof fn lemma_find_payload_at(entries: Seq<crate::store::EntryV>, p: EntryPayloadV, x: int)
    requires
        0 <= x < entries.len(),
        entries[x].payload == p,
        forall|j: int| 0 <= j < x ==> (#[trigger] entries[j]).payload != p,
    ensures
        crate::store::find_payload(entries, p, 0) == x,
{
    crate::store::lemma_find_payload(entries, p, 0);
}

/// Growing the store moves no content address: an entry found before is
/// found at the same place, with the same address, after.
pub proof fn lemma_extends_find_payload(s2: StoreV, s1: StoreV, p: EntryPayloadV)
    requires
        store_extends(s2, s1),
        crate::store::find_payload(s1.entries, p, 0) < s1.entries.len(),
    ensures
        crate::store::find_payload(s2.entries, p, 0) == crate::store::find_payload(
            s1.entries,
            p,
            0,
        ),
        s2.entries[crate::store::find_payload(s2.entries, p, 0)] == s1.entries[
            crate::store::find_payload(s1.entries, p, 0)],
{
    let f = crate::store::find_payload(s1.entries, p, 0);
    crate::store::lemma_find_payload(s1.entries, p, 0);
    assert(s2.entries[f] == s1.entries[f]);
    lemma_find_payload_at(s2.entries, p, f);
}

/// One revision of one data item is fully written into `s`: its content
/// is stored, and all three of its index links are registered.
pub open spec fn written_rev(
    s: StoreV,
    hive: Seq<char>,
    data_id: Seq<char>,
    rev: crate::entry::RevisionV,
) -> bool {
    let p = EntryPayloadV::Revision(rev);
    let f = crate::store::find_payload(s.entries, p, 0);
    &&& f < s.entries.len()
    &&& crate::store::link_present(
        spec_children(s, crate::codec::data_root_of(hive)),
        data_id,
        Seq::empty(),
    )
    &&& crate::store::link_present(
        spec_children(s, crate::codec::data_key_of(hive, data_id)),
        rev.revision_id,
        Seq::empty(),
    )
    &&& crate::store::link_present(
        spec_children(s, crate::codec::revision_key_of(hive, data_id, rev.revision_id)),
        s.entries[f].hash,
        s.entries[f].hash,
    )
}

/// One blob is fully written into `s`.
pub open spec fn written_blob(s: StoreV, hive: Seq<char>, b: crate::entry::BlobV) -> bool {
    let p = EntryPayloadV::Blob(b);
    let f = crate::store::find_payload(s.entries, p, 0);
    &&& f < s.entries.len()
    &&& crate::store::link_present(
        spec_children(s, crate::codec::blob_root_of(hive)),
        crate::codec::blob_id_of(b.content_hash, b.mime_type),
        Seq::empty(),
    )
    &&& crate::store::link_present(
        spec_children(s, crate::codec::blob_key_of(hive, b.content_hash, b.mime_type)),
        s.entries[f].hash,
        s.entries[f].hash,
    )
}

pub proof fn lemma_written_rev_extends(
    s2: StoreV,
    s1: StoreV,
    hive: Seq<char>,
    data_id: Seq<char>,
    rev: crate::entry::RevisionV,
)
    requires
        store_extends(s2, s1),
        written_rev(s1, hive, data_id, rev),
    ensures
        written_rev(s2, hive, data_id, rev),
{
    let p = EntryPayloadV::Revision(rev);
    lemma_extends_find_payload(s2, s1, p);
    lemma_link_present_extends(s2, s1, crate::codec::data_root_of(hive), data_id, Seq::empty());
    lemma_link_present_extends(
        s2,
        s1,
        crate::codec::data_key_of(hive, data_id),
        rev.revision_id,
        Seq::empty(),
    );
    let f = crate::store::find_payload(s1.entries, p, 0);
    lemma_link_present_extends(
        s2,
        s1,
        crate::codec::revision_key_of(hive, data_id, rev.revision_id),
        s1.entries[f].hash,
        s1.entries[f].hash,
    );
}

pub proof fn lemma_written_blob_extends(
    s2: StoreV,
    s1: StoreV,
    hive: Seq<char>,
    b: crate::entry::BlobV,
)
    requires
        store_extends(s2, s1),
        written_blob(s1, hive, b),
    ensures
        written_blob(s2, hive, b),
{
    let p = EntryPayloadV::Blob(b);
    lemma_extends_find_payload(s2, s1, p);
    lemma_link_present_extends(
        s2,
        s1,
        crate::codec::blob_root_of(hive),
        crate::codec::blob_id_of(b.content_hash, b.mime_type),
        Seq::empty(),
    );
    let f = crate::store::find_payload(s1.entries, p, 0);
    lemma_link_present_extends(
        s2,
        s1,
        crate::codec::blob_key_of(hive, b.content_hash, b.mime_type),
        s1.entries[f].hash,
        s1.entries[f].hash,
    );
}

/// After registering a link, it is registered.
pub proof fn lemma_ensure_establishes(s: StoreV, key: Seq<char>, tag: Seq<char>, target: Seq<char>)
    ensures
        crate::store::link_present(
            spec_children(spec_ensure_link(s, key, tag, target), key),
            tag,
            target,
        ),
{
    let s2 = spec_ensure_link(s, key, tag, target);
    let i = find_node(s.nodes, key, 0);
    crate::store::lemma_find_node(s.nodes, key, 0);
    if i < s.nodes.len() {
        if crate::store::link_present(s.nodes[i].children, tag, target) {
            assert(spec_children(s2, key) == s.nodes[i].children);
        } else {
            let node2 = NodeV {
                key: s.nodes[i].key,
                children: s.nodes[i].children.push(LinkV { tag, target }),
            };
            lemma_find_node_update(s.nodes, i, node2, key, 0);
            let cs = spec_children(s2, key);
            assert(cs == s.nodes[i].children.push(LinkV { tag, target }));
            assert(cs[cs.len() - 1].tag == tag && cs[cs.len() - 1].target == target);
        }
    } else {
        let node2 = NodeV { key, children: seq![LinkV { tag, target }] };
        lemma_find_node_push(s.nodes, node2, key, 0);
        let cs = spec_children(s2, key);
        assert(cs == seq![LinkV { tag, target }]);
        assert(cs[0].tag == tag && cs[0].target == target);
    }
}

/// Creating an entry leaves its content stored, first found where the
/// returned address says.
pub proof fn lemma_create_establishes(s: StoreV, p: EntryPayloadV)
    ensures
        ({
            let c = spec_create(s, p);
            let f = crate::store::find_payload(c.0.entries, p, 0);
            &&& f < c.0.entries.len()
            &&& c.0.entries[f].payload == p
            &&& c.0.entries[f].hash == c.1
        }),
{
    let c = spec_create(s, p);
    let f0 = crate::store::find_payload(s.entries, p, 0);
    crate::store::lemma_find_payload(s.entries, p, 0);
    if f0 < s.entries.len() {
        assert(c.0 == s);
    } else {
        let e2 = crate::store::EntryV { hash: crate::digits::dec(s.entries.len() as nat), payload: p };
        assert(c.0.entries == s.entries.push(e2));
        assert(c.0.entries[s.entries.len() as int] == e2);
        assert(forall|j: int|
            0 <= j < s.entries.len() ==> (#[trigger] c.0.entries[j]) == s.entries[j]);
        lemma_find_payload_at(c.0.entries, p, s.entries.len() as int);
    }
}

/// Writing one revision leaves it written.
pub proof fn lemma_write_revision_written(
    s: StoreV,
    hive: Seq<char>,
    data_id: Seq<char>,
    rev: crate::entry::RevisionV,
)
    ensures
        written_rev(write_revision(s, hive, data_id, rev), hive, data_id, rev),
{
    let p = EntryPayloadV::Revision(rev);
    let c = spec_create(s, p);
    let s2 = spec_ensure_link(c.0, crate::codec::data_root_of(hive), data_id, Seq::empty());
    let s3 = spec_ensure_link(
        s2,
        crate::codec::data_key_of(hive, data_id),
        rev.revision_id,
        Seq::empty(),
    );
    let s4 = spec_ensure_link(
        s3,
        crate::codec::revision_key_of(hive, data_id, rev.revision_id),
        c.1,
        c.1,
    );
    lemma_create_establishes(s, p);
    assert(s4.entries == c.0.entries);
    assert(crate::store::find_payload(s4.entries, p, 0) == crate::store::find_payload(
        c.0.entries,
        p,
        0,
    ));
    lemma_ensure_establishes(c.0, crate::codec::data_root_of(hive), data_id, Seq::empty());
    lemma_ensure_extends(s2, crate::codec::data_key_of(hive, data_id), rev.revision_id, Seq::empty());
    lemma_ensure_extends(
        s3,
        crate::codec::revision_key_of(hive, data_id, rev.revision_id),
        c.1,
        c.1,
    );
    lemma_extends_trans(s4, s3, s2);
    lemma_link_present_extends(s4, s2, crate::codec::data_root_of(hive), data_id, Seq::empty());
    lemma_ensure_establishes(
        s2,
        crate::codec::data_key_of(hive, data_id),
        rev.revision_id,
        Seq::empty(),
    );
    lemma_link_present_extends(
        s4,
        s3,
        crate::codec::data_key_of(hive, data_id),
        rev.revision_id,
        Seq::empty(),
    );
    lemma_ensure_establishes(
        s3,
        crate::codec::revision_key_of(hive, data_id, rev.revision_id),
        c.1,
        c.1,
    );
}

/// Writing one blob leaves it written.
pub proof fn lemma_write_blob_written(s: StoreV, hive: Seq<char>, b: crate::entry::BlobV)
    ensures
        written_blob(write_blob(s, hive, b), hive, b),
{
    let p = EntryPayloadV::Blob(b);
    let c = spec_create(s, p);
    let s2 = spec_ensure_link(
        c.0,
        crate::codec::blob_root_of(hive),
        crate::codec::blob_id_of(b.content_hash, b.mime_type),
        Seq::empty(),
    );
    let s3 = spec_ensure_link(s2, crate::codec::blob_key_of(hive, b.content_hash, b.mime_type), c.1, c.1);
    lemma_create_establishes(s, p);
    assert(s3.entries == c.0.entries);
    assert(crate::store::find_payload(s3.entries, p, 0) == crate::store::find_payload(
        c.0.entries,
        p,
        0,
    ));
    lemma_ensure_establishes(
        c.0,
        crate::codec::blob_root_of(hive),
        crate::codec::blob_id_of(b.content_hash, b.mime_type),
        Seq::empty(),
    );
    lemma_ensure_extends(
        s2,
        crate::codec::blob_key_of(hive, b.content_hash, b.mime_type),
        c.1,
        c.1,
    );
    lemma_link_present_extends(
        s3,
        s2,
        crate::codec::blob_root_of(hive),
        crate::codec::blob_id_of(b.content_hash, b.mime_type),
        Seq::empty(),
    );
    lemma_ensure_establishes(
        s2,
        crate::codec::blob_key_of(hive, b.content_hash, b.mime_type),
        c.1,
        c.1,
    );
}

/// Writing a revision that is already written changes nothing.
pub proof fn lemma_write_revision_noop(
    s: StoreV,
    hive: Seq<char>,
    data_id: Seq<char>,
    rev: crate::entry::RevisionV,
)
    requires
        written_rev(s, hive, data_id, rev),
    ensures
        write_revision(s, hive, data_id, rev) == s,
{
    let p = EntryPayloadV::Revision(rev);
    let f = crate::store::find_payload(s.entries, p, 0);
    crate::store::lemma_find_payload(s.entries, p, 0);
    let c = spec_create(s, p);
    assert(c.0 == s && c.1 == s.entries[f].hash);
    lemma_ensure_present_noop(s, crate::codec::data_root_of(hive), data_id, Seq::empty());
    lemma_ensure_present_noop(
        s,
        crate::codec::data_key_of(hive, data_id),
        rev.revision_id,
        Seq::empty(),
    );
    lemma_ensure_present_noop(
        s,
        crate::codec::revision_key_of(hive, data_id, rev.revision_id),
        c.1,
        c.1,
    );
}

/// Registering a link that is already registered changes nothing.
pub proof fn lemma_ensure_present_noop(s: StoreV, key: Seq<char>, tag: Seq<char>, target: Seq<char>)
    requires
        crate::store::link_present(spec_children(s, key), tag, target),
    ensures
        spec_ensure_link(s, key, tag, target) == s,
{
    let i = find_node(s.nodes, key, 0);
    crate::store::lemma_find_node(s.nodes, key, 0);
    if i < s.nodes.len() {
        assert(spec_children(s, key) == s.nodes[i].children);
    } else {
        assert(spec_children(s, key) =~= Seq::<LinkV>::empty());
    }
}

/// Writing a blob that is already written changes nothing.
pub proof fn lemma_write_blob_noop(s: StoreV, hive: Seq<char>, b: crate::entry::BlobV)
    requires
        written_blob(s, hive, b),
    ensures
        write_blob(s, hive, b) == s,
{
    let p = EntryPayloadV::Blob(b);
    let f = crate::store::find_payload(s.entries, p, 0);
    crate::store::lemma_find_payload(s.entries, p, 0);
    let c = spec_create(s, p);
    assert(c.0 == s && c.1 == s.entries[f].hash);
    lemma_ensure_present_noop(
        s,
        crate::codec::blob_root_of(hive),
        crate::codec::blob_id_of(b.content_hash, b.mime_type),
        Seq::empty(),
    );
    lemma_ensure_present_noop(
        s,
        crate::codec::blob_key_of(hive, b.content_hash, b.mime_type),
        c.1,
        c.1,
    );
}

/// After writing the first `n` revisions of a data item, all of them
/// are written.
pub proof fn lemma_write_revs_establishes(
    s: StoreV,
    hive: Seq<char>,
    data_id: Seq<char>,
    revs: Seq<crate::entry::RevisionV>,
    n: int,
)
    requires
        n <= revs.len(),
    ensures
        forall|j: int|
            0 <= j < n ==> written_rev(
                #[trigger] write_revs_upto(s, hive, data_id, revs, n),
                hive,
                data_id,
                revs[j],
            ),
    decreases n,
{
    if n > 0 {
        let prev = write_revs_upto(s, hive, data_id, revs, n - 1);
        let cur = write_revs_upto(s, hive, data_id, revs, n);
        lemma_write_revs_establishes(s, hive, data_id, revs, n - 1);
        lemma_write_revision_written(prev, hive, data_id, revs[n - 1]);
        lemma_write_revision_extends(prev, hive, data_id, revs[n - 1]);
        assert forall|j: int| 0 <= j < n implies written_rev(cur, hive, data_id, revs[j]) by {
            if j < n - 1 {
                lemma_written_rev_extends(cur, prev, hive, data_id, revs[j]);
            }
        }
    }
}

/// All revisions already written: rewriting them changes nothing.
pub proof fn lemma_write_revs_noop(
    s: StoreV,
    hive: Seq<char>,
    data_id: Seq<char>,
    revs: Seq<crate::entry::RevisionV>,
    n: int,
)
    requires
        n <= revs.len(),
        forall|j: int| 0 <= j < n ==> written_rev(s, hive, data_id, #[trigger] revs[j]),
    ensures
        write_revs_upto(s, hive, data_id, revs, n) == s,
    decreases n,
{
    if n > 0 {
        lemma_write_revs_noop(s, hive, data_id, revs, n - 1);
        lemma_write_revision_noop(s, hive, data_id, revs[n - 1]);
    }
}

/// Everything a write puts in is written when it returns.
pub proof fn lemma_write_establishes(s: StoreV, hive: Seq<char>, d: RevisionDataV)
    ensures
        forall|i: int, j: int|
            0 <= i < d.data.len() && 0 <= j < d.data[i].revisions.len() ==> written_rev(
                spec_write(s, hive, d),
                hive,
                d.data[i].data_id,
                #[trigger] d.data[i].revisions[j],
            ),
        forall|k: int|
            0 <= k < d.blobs.len() ==> written_blob(spec_write(s, hive, d), hive, #[trigger] d.blobs[k]),
{
    let sw = spec_write(s, hive, d);
    assert forall|i: int, j: int|
        0 <= i < d.data.len() && 0 <= j < d.data[i].revisions.len() implies written_rev(
        sw,
        hive,
        d.data[i].data_id,
        #[trigger] d.data[i].revisions[j],
    ) by {
        lemma_write_data_establishes_one(s, hive, d.data, d.data.len() as int, i, j);
        let mid = write_data_upto(s, hive, d.data, d.data.len() as int);
        lemma_write_blobs_upto_extends(mid, hive, d.blobs, d.blobs.len() as int);
        lemma_written_rev_extends(sw, mid, hive, d.data[i].data_id, d.data[i].revisions[j]);
    }
    assert forall|k: int|
        0 <= k < d.blobs.len() implies written_blob(sw, hive, #[trigger] d.blobs[k]) by {
        let mid = write_data_upto(s, hive, d.data, d.data.len() as int);
        lemma_write_blobs_establishes_one(mid, hive, d.blobs, d.blobs.len() as int, k);
    }
}

/// After writing the first `n` data records, each revision of each of
/// them is written.
pub proof fn lemma_write_data_establishes_one(
    s: StoreV,
    hive: Seq<char>,
    recs: Seq<crate::hive::DataRecordV>,
    n: int,
    i: int,
    j: int,
)
    requires
        n <= recs.len(),
        0 <= i < n,
        0 <= j < recs[i].revisions.len(),
    ensures
        written_rev(
            write_data_upto(s, hive, recs, n),
            hive,
            recs[i].data_id,
            recs[i].revisions[j],
        ),
    decreases n,
{
    let prev = write_data_upto(s, hive, recs, n - 1);
    let rec = recs[n - 1];
    let cur = write_data_upto(s, hive, recs, n);
    if i == n - 1 {
        lemma_write_revs_establishes(prev, hive, rec.data_id, rec.revisions, rec.revisions.len() as int);
    } else {
        lemma_write_data_establishes_one(s, hive, recs, n - 1, i, j);
        lemma_write_revs_upto_extends(prev, hive, rec.data_id, rec.revisions, rec.revisions.len() as int);
        lemma_written_rev_extends(cur, prev, hive, recs[i].data_id, recs[i].revisions[j]);
    }
}

/// After writing the first `n` blobs, each of them is written.
pub proof fn lemma_write_blobs_establishes_one(
    s: StoreV,
    hive: Seq<char>,
    blobs: Seq<crate::entry::BlobV>,
    n: int,
    k: int,
)
    requires
        n <= blobs.len(),
        0 <= k < n,
    ensures
        written_blob(write_blobs_upto(s, hive, blobs, n), hive, blobs[k]),
    decreases n,
{
    let prev = write_blobs_upto(s, hive, blobs, n - 1);
    let cur = write_blobs_upto(s, hive, blobs, n);
    if k == n - 1 {
        lemma_write_blob_written(prev, hive, blobs[n - 1]);
    } else {
        lemma_write_blobs_establishes_one(s, hive, blobs, n - 1, k);
        lemma_write_blob_extends(prev, hive, blobs[n - 1]);
        lemma_written_blob_extends(cur, prev, hive, blobs[k]);
    }
}

/// A store that already holds everything a write would put in is left
/// exactly as it is by that write.
pub proof fn lemma_write_noop(s: StoreV, hive: Seq<char>, d: RevisionDataV)
    requires
        forall|i: int, j: int|
            0 <= i < d.data.len() && 0 <= j < d.data[i].revisions.len() ==> written_rev(
                s,
                hive,
                d.data[i].data_id,
                #[trigger] d.data[i].revisions[j],
            ),
        forall|k: int| 0 <= k < d.blobs.len() ==> written_blob(s, hive, #[trigger] d.blobs[k]),
    ensures
        spec_write(s, hive, d) == s,
{
    lemma_write_data_noop(s, hive, d.data, d.data.len() as int);
    lemma_write_blobs_noop(s, hive, d.blobs, d.blobs.len() as int);
}

pub proof fn lemma_write_data_noop(
    s: StoreV,
    hive: Seq<char>,
    recs: Seq<crate::hive::DataRecordV>,
    n: int,
)
    requires
        n <= recs.len(),
        forall|i: int, j: int|
            0 <= i < n && 0 <= j < recs[i].revisions.len() ==> written_rev(
                s,
                hive,
                recs[i].data_id,
                #[trigger] recs[i].revisions[j],
            ),
    ensures
        write_data_upto(s, hive, recs, n) == s,
    decreases n,
{
    if n > 0 {
        lemma_write_data_noop(s, hive, recs, n - 1);
        let rec = recs[n - 1];
        assert(forall|j: int|
            0 <= j < rec.revisions.len() ==> written_rev(s, hive, rec.data_id, #[trigger] rec.revisions[j]));
        lemma_write_revs_noop(s, hive, rec.data_id, rec.revisions, rec.revisions.len() as int);
    }
}

pub proof fn lemma_write_blobs_noop(
    s: StoreV,
    hive: Seq<char>,
    blobs: Seq<crate::entry::BlobV>,
    n: int,
)
    requires
        n <= blobs.len(),
        forall|k: int| 0 <= k < n ==> written_blob(s, hive, #[trigger] blobs[k]),
    ensures
        write_blobs_upto(s, hive, blobs, n) == s,
    decreases n,
{
    if n > 0 {
        lemma_write_blobs_noop(s, hive, blobs, n - 1);
        lemma_write_blob_noop(s, hive, blobs[n - 1]);
    }
}

/// Idempotence: writing the same content twice leaves exactly the store
/// that one write leaves — so in particular the digest after two
/// identical writes equals the digest after one.
pub proof fn lemma_write_idempotent(s: StoreV, hive: Seq<char>, d: RevisionDataV)
    ensures
        spec_write(spec_write(s, hive, d), hive, d) == spec_write(s, hive, d),
{
    let s1 = spec_write(s, hive, d);
    lemma_write_establishes(s, hive, d);
    lemma_write_noop(s1, hive, d);
}

} // verus!
