//! The round-trip law: content written under a previously untouched
//! hive is returned, exactly and in order, by building the hive's
//! digest and hydrating it.

use vstd::prelude::*;

use crate::codec::{
    blob_id_of, blob_key_of, blob_root_of, blob_part_ok, data_key_of, data_root_of, data_seg,
    blob_seg, dot, has_char, leaf_of, revision_key_of, seg_ok, split_blob_id,
};
use crate::digits::{dec, is_digit_char, lemma_dec_digits, lemma_dec_len};
use crate::entry::EntryPayloadV;
use crate::laws::{lemma_create_establishes, lemma_create_extends, lemma_find_node_push, lemma_find_node_update};
use crate::store::{
    find_hash, find_node, find_payload, link_present, spec_children, spec_create,
    spec_ensure_link, spec_fetch, wf, LinkV, NodeV, StoreV,
};

verus! {

/// A decimal content address is a well-formed path segment.
pub proof fn lemma_dec_seg_ok(n: nat)
    ensures
        seg_ok(dec(n)),
        !has_char(dec(n), '&'),
{
    lemma_dec_len(n);
    lemma_dec_digits(n);
    assert(forall|i: int| 0 <= i < dec(n).len() ==> is_digit_char(#[trigger] dec(n)[i]));
    assert forall|i: int| 0 <= i < dec(n).len() implies #[trigger] dec(n)[i] != '.' by {
        assert(is_digit_char(dec(n)[i]));
    }
    assert forall|i: int| 0 <= i < dec(n).len() implies #[trigger] dec(n)[i] != '&' by {
        assert(is_digit_char(dec(n)[i]));
    }
}

pub proof fn lemma_data_seg_ok()
    ensures
        seg_ok(data_seg()),
        seg_ok(blob_seg()),
        data_seg() != blob_seg(),
{
    assert(data_seg()[0] == 'd');
    assert(data_seg()[1] == 'a');
    assert(data_seg()[2] == 't');
    assert(data_seg()[3] == 'a');
    assert(blob_seg()[0] == 'b');
    assert(blob_seg()[1] == 'l');
    assert(blob_seg()[2] == 'o');
    assert(blob_seg()[3] == 'b');
    assert forall|i: int| 0 <= i < data_seg().len() implies #[trigger] data_seg()[i] != '.' by {
        assert(data_seg().len() == 4);
    }
    assert forall|i: int| 0 <= i < blob_seg().len() implies #[trigger] blob_seg()[i] != '.' by {
        assert(blob_seg().len() == 4);
    }
}

/// A composite blob identifier with separator-free components is itself
/// a well-formed path segment.
pub proof fn lemma_blob_id_seg_ok(hash: Seq<char>, mime: Seq<char>)
    requires
        !has_char(hash, '.'),
        !has_char(mime, '.'),
    ensures
        seg_ok(blob_id_of(hash, mime)),
{
    let id = blob_id_of(hash, mime);
    assert(id.len() > 0);
    assert forall|i: int| 0 <= i < id.len() implies #[trigger] id[i] != '.' by {
        if i < hash.len() {
            assert(id[i] == hash[i]);
        } else if i == hash.len() {
            assert(id[i] == '&');
        } else {
            assert(id[i] == mime[i - hash.len() - 1]);
        }
    }
}

/// Joining is injective when the appended segments are well formed.
pub proof fn lemma_dot_injective(pre1: Seq<char>, s1: Seq<char>, pre2: Seq<char>, s2: Seq<char>)
    requires
        seg_ok(s1),
        seg_ok(s2),
        dot(pre1, s1) == dot(pre2, s2),
    ensures
        pre1 == pre2,
        s1 == s2,
{
    let k = dot(pre1, s1);
    crate::codec::lemma_leaf_of_dot(pre1, s1);
    crate::codec::lemma_leaf_of_dot(pre2, s2);
    assert(leaf_of(k)->0 == s1);
    assert(leaf_of(dot(pre2, s2))->0 == s2);
    assert(s1 == s2);
    assert(k.len() == pre1.len() + 1 + s1.len());
    assert(k.len() == pre2.len() + 1 + s2.len());
    assert(pre1.len() == pre2.len());
    assert(pre1 =~= k.subrange(0, pre1.len() as int));
    assert(pre2 =~= dot(pre2, s2).subrange(0, pre2.len() as int));
}

/// Creating an entry leaves every key's children untouched.
pub proof fn lemma_create_children(s: StoreV, p: EntryPayloadV, k: Seq<char>)
    ensures
        spec_children(spec_create(s, p).0, k) == spec_children(s, k),
{
    assert(spec_create(s, p).0.nodes == s.nodes);
}

/// Registering a link leaves every other key's children untouched.
pub proof fn lemma_ensure_other_key(
    s: StoreV,
    key: Seq<char>,
    tag: Seq<char>,
    target: Seq<char>,
    k: Seq<char>,
)
    requires
        k != key,
    ensures
        spec_children(spec_ensure_link(s, key, tag, target), k) == spec_children(s, k),
{
    let s2 = spec_ensure_link(s, key, tag, target);
    let i = find_node(s.nodes, key, 0);
    crate::store::lemma_find_node(s.nodes, key, 0);
    crate::store::lemma_find_node(s.nodes, k, 0);
    let f = find_node(s.nodes, k, 0);
    if i < s.nodes.len() {
        if link_present(s.nodes[i].children, tag, target) {
        } else {
            let node2 = NodeV {
                key: s.nodes[i].key,
                children: s.nodes[i].children.push(LinkV { tag, target }),
            };
            lemma_find_node_update(s.nodes, i, node2, k, 0);
            if f < s.nodes.len() {
                assert(f != i);
                assert(s2.nodes[f] == s.nodes[f]);
            }
        }
    } else {
        let node2 = NodeV { key, children: seq![LinkV { tag, target }] };
        lemma_find_node_push(s.nodes, node2, k, 0);
        if f < s.nodes.len() {
            assert(s2.nodes[f] == s.nodes[f]);
        } else {
            assert(spec_children(s, k) =~= Seq::<LinkV>::empty());
            assert(find_node(s2.nodes, k, 0) == s.nodes.len() + 1);
            assert(spec_children(s2, k) =~= Seq::<LinkV>::empty());
        }
    }
}

/// Registering a link not yet present appends it to its key's children.
pub proof fn lemma_ensure_same_key(s: StoreV, key: Seq<char>, tag: Seq<char>, target: Seq<char>)
    requires
        !link_present(spec_children(s, key), tag, target),
    ensures
        spec_children(spec_ensure_link(s, key, tag, target), key) == spec_children(s, key).push(
            LinkV { tag, target },
        ),
{
    let s2 = spec_ensure_link(s, key, tag, target);
    let i = find_node(s.nodes, key, 0);
    crate::store::lemma_find_node(s.nodes, key, 0);
    if i < s.nodes.len() {
        assert(spec_children(s, key) == s.nodes[i].children);
        let node2 = NodeV {
            key: s.nodes[i].key,
            children: s.nodes[i].children.push(LinkV { tag, target }),
        };
        lemma_find_node_update(s.nodes, i, node2, key, 0);
    } else {
        assert(spec_children(s, key) =~= Seq::<LinkV>::empty());
        let node2 = NodeV { key, children: seq![LinkV { tag, target }] };
        lemma_find_node_push(s.nodes, node2, key, 0);
        assert(spec_children(s2, key) == seq![LinkV { tag, target }]);
        assert(spec_children(s, key).push(LinkV { tag, target }) =~= seq![LinkV { tag, target }]);
    }
}

/// Creating an entry preserves well-formedness.
pub proof fn lemma_create_wf(s: StoreV, p: EntryPayloadV)
    requires
        wf(s),
    ensures
        wf(spec_create(s, p).0),
{
    let s2 = spec_create(s, p).0;
    let f = find_payload(s.entries, p, 0);
    crate::store::lemma_find_payload(s.entries, p, 0);
    if f < s.entries.len() {
    } else {
        let e2 = crate::store::EntryV { hash: dec(s.entries.len() as nat), payload: p };
        assert(s2.entries == s.entries.push(e2));
        assert(forall|i: int|
            0 <= i < s.entries.len() ==> (#[trigger] s2.entries[i]) == s.entries[i]);
        assert(s2.entries[s.entries.len() as int] == e2);
        assert forall|i: int, j: int|
            0 <= i < j < s2.entries.len() implies (#[trigger] s2.entries[i]).payload != (
        #[trigger] s2.entries[j]).payload by {
            if j == s.entries.len() {
                assert(s.entries[i].payload != p);
            }
        }
    }
}

/// Registering a link preserves well-formedness.
pub proof fn lemma_ensure_wf(s: StoreV, key: Seq<char>, tag: Seq<char>, target: Seq<char>)
    requires
        wf(s),
    ensures
        wf(spec_ensure_link(s, key, tag, target)),
{
    let s2 = spec_ensure_link(s, key, tag, target);
    let i = find_node(s.nodes, key, 0);
    crate::store::lemma_find_node(s.nodes, key, 0);
    if i < s.nodes.len() {
        if link_present(s.nodes[i].children, tag, target) {
        } else {
            assert forall|i2: int, j2: int|
                0 <= i2 < j2 < s2.nodes.len() implies (#[trigger] s2.nodes[i2]).key != (
            #[trigger] s2.nodes[j2]).key by {
                assert(s2.nodes[i2].key == s.nodes[i2].key);
                assert(s2.nodes[j2].key == s.nodes[j2].key);
            }
        }
    } else {
        assert forall|i2: int, j2: int|
            0 <= i2 < j2 < s2.nodes.len() implies (#[trigger] s2.nodes[i2]).key != (
        #[trigger] s2.nodes[j2]).key by {
            if j2 == s.nodes.len() {
                assert(s2.nodes[i2] == s.nodes[i2]);
                assert(s.nodes[i2].key != key);
            }
        }
    }
}

/// In a well-formed store, an entry's address resolves back to exactly
/// that entry.
pub proof fn lemma_wf_fetch_at(s: StoreV, f: int)
    requires
        wf(s),
        0 <= f < s.entries.len(),
    ensures
        spec_fetch(s, s.entries[f].hash) == Some(s.entries[f].payload),
{
    crate::store::lemma_wf_hashes_distinct(s);
    crate::store::lemma_find_hash(s.entries, s.entries[f].hash, 0);
    let g = find_hash(s.entries, s.entries[f].hash, 0);
    if g < f {
        assert(s.entries[g].hash == s.entries[f].hash);
    } else if g > f {
        assert(s.entries[f].hash != s.entries[f].hash);
    }
}

/// Key encodings are injective over well-formed identifiers.
pub proof fn lemma_data_key_injective(hive: Seq<char>, d1: Seq<char>, d2: Seq<char>)
    requires
        seg_ok(d1),
        seg_ok(d2),
        data_key_of(hive, d1) == data_key_of(hive, d2),
    ensures
        d1 == d2,
{
    lemma_dot_injective(data_root_of(hive), d1, data_root_of(hive), d2);
}

pub proof fn lemma_rev_key_injective(
    hive: Seq<char>,
    d1: Seq<char>,
    r1: Seq<char>,
    d2: Seq<char>,
    r2: Seq<char>,
)
    requires
        seg_ok(d1),
        seg_ok(r1),
        seg_ok(d2),
        seg_ok(r2),
        revision_key_of(hive, d1, r1) == revision_key_of(hive, d2, r2),
    ensures
        d1 == d2,
        r1 == r2,
{
    lemma_dot_injective(data_key_of(hive, d1), r1, data_key_of(hive, d2), r2);
    lemma_data_key_injective(hive, d1, d2);
}

/// A revision key never equals a data-item key, whatever the
/// identifiers.
pub proof fn lemma_rev_vs_data_key(hive: Seq<char>, d1: Seq<char>, r: Seq<char>, d2: Seq<char>)
    requires
        seg_ok(d1),
        seg_ok(r),
        seg_ok(d2),
    ensures
        revision_key_of(hive, d1, r) != data_key_of(hive, d2),
{
    if revision_key_of(hive, d1, r) == data_key_of(hive, d2) {
        lemma_dot_injective(data_key_of(hive, d1), r, data_root_of(hive), d2);
        assert(data_key_of(hive, d1).len() == hive.len() + 6 + d1.len());
        assert(data_root_of(hive).len() == hive.len() + 5);
    }
}

pub proof fn lemma_blob_key_injective(
    hive: Seq<char>,
    h1: Seq<char>,
    m1: Seq<char>,
    h2: Seq<char>,
    m2: Seq<char>,
)
    requires
        blob_part_ok(h1),
        seg_ok(m1),
        blob_part_ok(h2),
        seg_ok(m2),
        blob_key_of(hive, h1, m1) == blob_key_of(hive, h2, m2),
    ensures
        h1 == h2,
        m1 == m2,
{
    lemma_blob_id_seg_ok(h1, m1);
    lemma_blob_id_seg_ok(h2, m2);
    lemma_dot_injective(blob_root_of(hive), blob_id_of(h1, m1), blob_root_of(hive), blob_id_of(h2, m2));
    crate::codec::lemma_blob_id_round_trip(h1, m1);
    crate::codec::lemma_blob_id_round_trip(h2, m2);
    assert(split_blob_id(blob_id_of(h1, m1)) == Some((h1, m1)));
    assert(split_blob_id(blob_id_of(h2, m2)) == Some((h2, m2)));
}

/// Growing the store preserves every resolvable address.
pub proof fn lemma_extends_fetch(s2: StoreV, s1: StoreV, h: Seq<char>)
    requires
        crate::laws::store_extends(s2, s1),
        spec_fetch(s1, h) is Some,
    ensures
        spec_fetch(s2, h) == spec_fetch(s1, h),
{
    let f = find_hash(s1.entries, h, 0);
    crate::store::lemma_find_hash(s1.entries, h, 0);
    assert(s2.entries[f] == s1.entries[f]);
    crate::store::lemma_find_hash(s2.entries, h, 0);
    let g = find_hash(s2.entries, h, 0);
    if g < f {
        assert(s2.entries[g] == s1.entries[g]);
    }
    if g > f {
        assert(s2.entries[f].hash != h);
    }
}

/// One revision of one data item is resolvable in `s`: its revision key
/// holds exactly one link, whose tag is a well-formed address resolving
/// to exactly that revision.
pub open spec fn rev_resolved(
    s: StoreV,
    hive: Seq<char>,
    data_id: Seq<char>,
    rv: crate::entry::RevisionV,
) -> bool {
    exists|h: Seq<char>|
        #![auto]
        spec_children(s, revision_key_of(hive, data_id, rv.revision_id)) == seq![
            LinkV { tag: h, target: h }
        ] && seg_ok(h) && spec_fetch(s, h) == Some(EntryPayloadV::Revision(rv))
}

/// One blob is resolvable in `s`.
pub open spec fn blob_resolved(s: StoreV, hive: Seq<char>, b: crate::entry::BlobV) -> bool {
    exists|h: Seq<char>|
        #![auto]
        spec_children(s, blob_key_of(hive, b.content_hash, b.mime_type)) == seq![
            LinkV { tag: h, target: h }
        ] && seg_ok(h) && spec_fetch(s, h) == Some(EntryPayloadV::Blob(b))
}

/// The links the digest walk sees under a data item's key after its
/// revisions are written.
pub open spec fn rev_links(revs: Seq<crate::entry::RevisionV>) -> Seq<LinkV> {
    revs.map_values(|rv: crate::entry::RevisionV| LinkV { tag: rv.revision_id, target: Seq::empty() })
}

/// The links under the hive's data root after records are written.
pub open spec fn record_links(recs: Seq<crate::hive::DataRecordV>) -> Seq<LinkV> {
    recs.map_values(|rec: crate::hive::DataRecordV| LinkV { tag: rec.data_id, target: Seq::empty() })
}

/// The links under the hive's blob root after blobs are written.
pub open spec fn blob_links(blobs: Seq<crate::entry::BlobV>) -> Seq<LinkV> {
    blobs.map_values(
        |b: crate::entry::BlobV| LinkV {
            tag: blob_id_of(b.content_hash, b.mime_type),
            target: Seq::empty(),
        },
    )
}

/// The three data-side keys of one (data item, revision) pair are
/// pairwise distinct.
pub proof fn lemma_data_keys(hive: Seq<char>, d: Seq<char>, r: Seq<char>)
    requires
        seg_ok(d),
        seg_ok(r),
    ensures
        data_root_of(hive) != data_key_of(hive, d),
        data_root_of(hive) != revision_key_of(hive, d, r),
        data_key_of(hive, d) != revision_key_of(hive, d, r),
{
    lemma_data_seg_ok();
    assert(data_root_of(hive).len() == hive.len() + 5);
    assert(data_key_of(hive, d).len() == hive.len() + 6 + d.len());
    assert(revision_key_of(hive, d, r).len() == hive.len() + 7 + d.len() + r.len());
}

/// What writing the first `n` revisions of one data item does, in full:
/// the item's link appears once under the data root, its revision
/// identifiers pile up in order under its key, each written revision
/// becomes resolvable, and nothing else moves.
pub proof fn lemma_revs_effect(
    s: StoreV,
    hive: Seq<char>,
    did: Seq<char>,
    revs: Seq<crate::entry::RevisionV>,
    n: int,
)
    requires
        wf(s),
        seg_ok(did),
        forall|j: int| 0 <= j < revs.len() ==> seg_ok((#[trigger] revs[j]).revision_id),
        forall|j1: int, j2: int|
            0 <= j1 < j2 < revs.len() ==> (#[trigger] revs[j1]).revision_id != (
            #[trigger] revs[j2]).revision_id,
        0 <= n <= revs.len(),
        !link_present(spec_children(s, data_root_of(hive)), did, Seq::empty()),
        spec_children(s, data_key_of(hive, did)) == Seq::<LinkV>::empty(),
        forall|j: int|
            0 <= j < revs.len() ==> spec_children(
                s,
                revision_key_of(hive, did, (#[trigger] revs[j]).revision_id),
            ) == Seq::<LinkV>::empty(),
    ensures
        ({
            let sn = crate::hive::write_revs_upto(s, hive, did, revs, n);
            &&& wf(sn)
            &&& n == 0 ==> sn == s
            &&& n > 0 ==> spec_children(sn, data_root_of(hive)) == spec_children(
                s,
                data_root_of(hive),
            ).push(LinkV { tag: did, target: Seq::empty() })
            &&& spec_children(sn, data_key_of(hive, did)) == rev_links(revs.take(n))
            &&& forall|j: int| 0 <= j < n ==> #[trigger] rev_resolved(sn, hive, did, revs[j])
            &&& forall|j: int|
                n <= j < revs.len() ==> spec_children(
                    sn,
                    revision_key_of(hive, did, (#[trigger] revs[j]).revision_id),
                ) == Seq::<LinkV>::empty()
            &&& forall|k: Seq<char>|
                #![trigger spec_children(sn, k)]
                (k != data_root_of(hive) && k != data_key_of(hive, did) && (forall|j: int|
                    0 <= j < revs.len() ==> k != revision_key_of(
                        hive,
                        did,
                        (#[trigger] revs[j]).revision_id,
                    ))) ==> spec_children(sn, k) == spec_children(s, k)
            &&& forall|h2: Seq<char>|
                #![trigger spec_fetch(sn, h2)]
                spec_fetch(s, h2) is Some ==> spec_fetch(sn, h2) == spec_fetch(s, h2)
        }),
    decreases n,
{
    let kdr = data_root_of(hive);
    let kdk = data_key_of(hive, did);
    let sn = crate::hive::write_revs_upto(s, hive, did, revs, n);
    if n == 0 {
        assert(sn == s);
        assert(rev_links(revs.take(0)) =~= Seq::<LinkV>::empty());
    } else {
        lemma_revs_effect(s, hive, did, revs, n - 1);
        let prev = crate::hive::write_revs_upto(s, hive, did, revs, n - 1);
        let rv = revs[n - 1];
        let rid = rv.revision_id;
        let krv = revision_key_of(hive, did, rid);
        lemma_data_keys(hive, did, rid);
        let p = EntryPayloadV::Revision(rv);
        let c = spec_create(prev, p);
        let h = c.1;
        lemma_create_establishes(prev, p);
        lemma_create_wf(prev, p);
        crate::store::lemma_find_payload(c.0.entries, p, 0);
        let f = find_payload(c.0.entries, p, 0);
        assert(c.0.entries[f].hash == dec(f as nat));
        lemma_dec_seg_ok(f as nat);
        assert(seg_ok(h));
        assert(c.0.nodes == prev.nodes);
        lemma_create_extends(prev, p);

        let s2 = spec_ensure_link(c.0, kdr, did, Seq::empty());
        let dl = LinkV { tag: did, target: Seq::empty() };
        if n - 1 == 0 {
            assert(prev == s);
            assert(spec_children(c.0, kdr) == spec_children(s, kdr));
            lemma_ensure_same_key(c.0, kdr, did, Seq::empty());
            assert(spec_children(s2, kdr) == spec_children(s, kdr).push(dl));
        } else {
            assert(spec_children(c.0, kdr) == spec_children(s, kdr).push(dl));
            let cs = spec_children(c.0, kdr);
            assert(cs[cs.len() - 1] == dl);
            assert(link_present(cs, did, Seq::empty()));
            crate::store::lemma_find_node(c.0.nodes, kdr, 0);
            let i = find_node(c.0.nodes, kdr, 0);
            if i < c.0.nodes.len() {
                assert(spec_children(c.0, kdr) == c.0.nodes[i].children);
            } else {
                assert(spec_children(c.0, kdr) =~= Seq::<LinkV>::empty());
            }
            assert(s2 == c.0);
        }
        assert(spec_children(s2, kdr) == spec_children(s, kdr).push(dl));
        lemma_ensure_wf(c.0, kdr, did, Seq::empty());
        assert(s2.entries == c.0.entries);

        let s3 = spec_ensure_link(s2, kdk, rid, Seq::empty());
        lemma_ensure_other_key(c.0, kdr, did, Seq::empty(), kdk);
        assert(spec_children(s2, kdk) == rev_links(revs.take(n - 1)));
        let rl = rev_links(revs.take(n - 1));
        assert forall|j: int| 0 <= j < rl.len() implies (#[trigger] rl[j]).tag != rid by {
            assert(rl[j].tag == revs.take(n - 1)[j].revision_id);
            assert(revs.take(n - 1)[j] == revs[j]);
        }
        assert(!link_present(rl, rid, Seq::empty()));
        lemma_ensure_same_key(s2, kdk, rid, Seq::empty());
        assert(spec_children(s3, kdk) == rl.push(LinkV { tag: rid, target: Seq::empty() }));
        assert(rl.push(LinkV { tag: rid, target: Seq::empty() }) =~= rev_links(revs.take(n)));
        lemma_ensure_wf(s2, kdk, rid, Seq::empty());
        assert(s3.entries == c.0.entries);

        let s4 = spec_ensure_link(s3, krv, h, h);
        lemma_ensure_other_key(c.0, kdr, did, Seq::empty(), krv);
        lemma_ensure_other_key(s2, kdk, rid, Seq::empty(), krv);
        assert(spec_children(s3, krv) == spec_children(prev, krv));
        assert(spec_children(prev, krv) == Seq::<LinkV>::empty());
        assert(!link_present(Seq::<LinkV>::empty(), h, h));
        lemma_ensure_same_key(s3, krv, h, h);
        assert(spec_children(s4, krv) =~= seq![LinkV { tag: h, target: h }]);
        lemma_ensure_wf(s3, krv, h, h);
        assert(s4.entries == c.0.entries);
        assert(crate::hive::write_revision(prev, hive, did, rv) == s4);
        assert(sn == s4);

        // The data-root and data-key clauses.
        lemma_ensure_other_key(s2, kdk, rid, Seq::empty(), kdr);
        lemma_ensure_other_key(s3, krv, h, h, kdr);
        assert(spec_children(sn, kdr) == spec_children(s, kdr).push(dl));
        lemma_ensure_other_key(s3, krv, h, h, kdk);
        assert(spec_children(sn, kdk) == rev_links(revs.take(n)));

        // Fetch framing for this step.
        assert forall|h2: Seq<char>| spec_fetch(prev, h2) is Some implies #[trigger] spec_fetch(
            sn,
            h2,
        ) == spec_fetch(prev, h2) by {
            lemma_extends_fetch(c.0, prev, h2);
            assert(spec_fetch(sn, h2) == spec_fetch(c.0, h2));
        }

        // The newly written revision is resolvable.
        lemma_wf_fetch_at(c.0, f);
        assert(spec_fetch(c.0, h) == Some(p));
        assert(spec_fetch(sn, h) == Some(p));
        assert(rev_resolved(sn, hive, did, rv));

        // Earlier revisions stay resolvable: their keys and addresses
        // are untouched by this step.
        assert forall|j: int| 0 <= j < n - 1 implies #[trigger] rev_resolved(
            sn,
            hive,
            did,
            revs[j],
        ) by {
            assert(rev_resolved(prev, hive, did, revs[j]));
            let h0 = choose|h0: Seq<char>|
                #![auto]
                spec_children(prev, revision_key_of(hive, did, revs[j].revision_id)) == seq![
                    LinkV { tag: h0, target: h0 }
                ] && seg_ok(h0) && spec_fetch(prev, h0) == Some(
                    EntryPayloadV::Revision(revs[j]),
                );
            let kj = revision_key_of(hive, did, revs[j].revision_id);
            lemma_data_keys(hive, did, revs[j].revision_id);
            if kj == krv {
                lemma_rev_key_injective(hive, did, revs[j].revision_id, did, rid);
            }
            lemma_ensure_other_key(c.0, kdr, did, Seq::empty(), kj);
            lemma_ensure_other_key(s2, kdk, rid, Seq::empty(), kj);
            lemma_ensure_other_key(s3, krv, h, h, kj);
            assert(spec_children(sn, kj) == spec_children(prev, kj));
            lemma_extends_fetch(c.0, prev, h0);
            assert(spec_fetch(sn, h0) == spec_fetch(c.0, h0));
            assert(spec_children(sn, kj) == seq![LinkV { tag: h0, target: h0 }] && seg_ok(h0)
                && spec_fetch(sn, h0) == Some(EntryPayloadV::Revision(revs[j])));
        }

        // Future revision keys stay empty.
        assert forall|j: int| n <= j < revs.len() implies spec_children(
            sn,
            revision_key_of(hive, did, (#[trigger] revs[j]).revision_id),
        ) == Seq::<LinkV>::empty() by {
            let kj = revision_key_of(hive, did, revs[j].revision_id);
            lemma_data_keys(hive, did, revs[j].revision_id);
            if kj == krv {
                lemma_rev_key_injective(hive, did, revs[j].revision_id, did, rid);
            }
            lemma_ensure_other_key(c.0, kdr, did, Seq::empty(), kj);
            lemma_ensure_other_key(s2, kdk, rid, Seq::empty(), kj);
            lemma_ensure_other_key(s3, krv, h, h, kj);
            assert(spec_children(sn, kj) == spec_children(prev, kj));
        }

        // Every other key is untouched.
        assert forall|k: Seq<char>|
            (k != kdr && k != kdk && (forall|j: int|
                0 <= j < revs.len() ==> k != revision_key_of(
                    hive,
                    did,
                    (#[trigger] revs[j]).revision_id,
                ))) implies #[trigger] spec_children(sn, k) == spec_children(s, k) by {
            assert(k != krv);
            lemma_ensure_other_key(c.0, kdr, did, Seq::empty(), k);
            lemma_ensure_other_key(s2, kdk, rid, Seq::empty(), k);
            lemma_ensure_other_key(s3, krv, h, h, k);
            assert(spec_children(sn, k) == spec_children(prev, k));
            assert(spec_children(prev, k) == spec_children(s, k));
        }
    }
}

/// What writing the first `n` data records does, in full.
pub proof fn lemma_data_effect(
    s: StoreV,
    hive: Seq<char>,
    recs: Seq<crate::hive::DataRecordV>,
    n: int,
)
    requires
        wf(s),
        forall|i: int| 0 <= i < recs.len() ==> seg_ok((#[trigger] recs[i]).data_id),
        forall|i: int| 0 <= i < recs.len() ==> (#[trigger] recs[i]).revisions.len() >= 1,
        forall|i: int, j: int|
            0 <= i < recs.len() && 0 <= j < recs[i].revisions.len() ==> seg_ok(
                (#[trigger] recs[i].revisions[j]).revision_id,
            ),
        forall|i: int, j1: int, j2: int|
            0 <= i < recs.len() && 0 <= j1 < j2 < recs[i].revisions.len() ==> (
            #[trigger] recs[i].revisions[j1]).revision_id != (
            #[trigger] recs[i].revisions[j2]).revision_id,
        forall|i1: int, i2: int|
            0 <= i1 < i2 < recs.len() ==> (#[trigger] recs[i1]).data_id != (
            #[trigger] recs[i2]).data_id,
        0 <= n <= recs.len(),
        spec_children(s, data_root_of(hive)) == Seq::<LinkV>::empty(),
        forall|i: int|
            0 <= i < recs.len() ==> spec_children(
                s,
                data_key_of(hive, (#[trigger] recs[i]).data_id),
            ) == Seq::<LinkV>::empty(),
        forall|i: int, j: int|
            0 <= i < recs.len() && 0 <= j < recs[i].revisions.len() ==> spec_children(
                s,
                revision_key_of(
                    hive,
                    recs[i].data_id,
                    (#[trigger] recs[i].revisions[j]).revision_id,
                ),
            ) == Seq::<LinkV>::empty(),
    ensures
        ({
            let sn = crate::hive::write_data_upto(s, hive, recs, n);
            &&& wf(sn)
            &&& spec_children(sn, data_root_of(hive)) == record_links(recs.take(n))
            &&& forall|i: int|
                0 <= i < n ==> spec_children(
                    sn,
                    data_key_of(hive, (#[trigger] recs[i]).data_id),
                ) == rev_links(recs[i].revisions)
            &&& forall|i: int, j: int|
                0 <= i < n && 0 <= j < recs[i].revisions.len() ==> #[trigger] rev_resolved(
                    sn,
                    hive,
                    recs[i].data_id,
                    recs[i].revisions[j],
                )
            &&& forall|i: int|
                n <= i < recs.len() ==> spec_children(
                    sn,
                    data_key_of(hive, (#[trigger] recs[i]).data_id),
                ) == Seq::<LinkV>::empty()
            &&& forall|i: int, j: int|
                n <= i < recs.len() && 0 <= j < recs[i].revisions.len() ==> spec_children(
                    sn,
                    revision_key_of(
                        hive,
                        recs[i].data_id,
                        (#[trigger] recs[i].revisions[j]).revision_id,
                    ),
                ) == Seq::<LinkV>::empty()
            &&& forall|k: Seq<char>|
                #![trigger spec_children(sn, k)]
                (k != data_root_of(hive) && (forall|i: int|
                    0 <= i < recs.len() ==> k != data_key_of(
                        hive,
                        (#[trigger] recs[i]).data_id,
                    )) && (forall|i: int, j: int|
                    0 <= i < recs.len() && 0 <= j < recs[i].revisions.len() ==> k
                        != revision_key_of(
                        hive,
                        recs[i].data_id,
                        (#[trigger] recs[i].revisions[j]).revision_id,
                    ))) ==> spec_children(sn, k) == spec_children(s, k)
            &&& forall|h2: Seq<char>|
                #![trigger spec_fetch(sn, h2)]
                spec_fetch(s, h2) is Some ==> spec_fetch(sn, h2) == spec_fetch(s, h2)
        }),
    decreases n,
{
    let kdr = data_root_of(hive);
    let sn = crate::hive::write_data_upto(s, hive, recs, n);
    if n == 0 {
        assert(sn == s);
        assert(record_links(recs.take(0)) =~= Seq::<LinkV>::empty());
    } else {
        lemma_data_effect(s, hive, recs, n - 1);
        let prev = crate::hive::write_data_upto(s, hive, recs, n - 1);
        let rec = recs[n - 1];
        let did = rec.data_id;
        let m = rec.revisions.len() as int;
        // The new record's keys are still untouched in `prev`, and its
        // link is not yet under the data root.
        let pl = record_links(recs.take(n - 1));
        assert(spec_children(prev, kdr) == pl);
        assert forall|j: int| 0 <= j < pl.len() implies (#[trigger] pl[j]).tag != did by {
            assert(pl[j].tag == recs.take(n - 1)[j].data_id);
            assert(recs.take(n - 1)[j] == recs[j]);
        }
        assert(!link_present(pl, did, Seq::empty()));
        lemma_revs_effect(prev, hive, did, rec.revisions, m);
        assert(sn == crate::hive::write_revs_upto(prev, hive, did, rec.revisions, m));

        // The data root now lists the new record too.
        assert(spec_children(sn, kdr) == pl.push(LinkV { tag: did, target: Seq::empty() }));
        assert(pl.push(LinkV { tag: did, target: Seq::empty() }) =~= record_links(recs.take(n)));

        // The new record's own key and revisions.
        assert(rev_links(rec.revisions.take(m)) =~= rev_links(rec.revisions));
        assert(spec_children(sn, data_key_of(hive, did)) == rev_links(rec.revisions));

        // Earlier records keep their keys and stay resolvable.
        assert forall|i: int| 0 <= i < n - 1 implies spec_children(
            sn,
            data_key_of(hive, (#[trigger] recs[i]).data_id),
        ) == rev_links(recs[i].revisions) by {
            let ki = data_key_of(hive, recs[i].data_id);
            lemma_data_keys(hive, recs[i].data_id, rec.revisions[0].revision_id);
            if ki == data_key_of(hive, did) {
                lemma_data_key_injective(hive, recs[i].data_id, did);
            }
            assert forall|j: int| 0 <= j < rec.revisions.len() implies ki != revision_key_of(
                hive,
                did,
                (#[trigger] rec.revisions[j]).revision_id,
            ) by {
                lemma_rev_vs_data_key(hive, did, rec.revisions[j].revision_id, recs[i].data_id);
            }
            assert(spec_children(sn, ki) == spec_children(prev, ki));
        }
        assert forall|i: int, j: int|
            0 <= i < n - 1 && 0 <= j < recs[i].revisions.len() implies #[trigger] rev_resolved(
            sn,
            hive,
            recs[i].data_id,
            recs[i].revisions[j],
        ) by {
            assert(rev_resolved(prev, hive, recs[i].data_id, recs[i].revisions[j]));
            let h0 = choose|h0: Seq<char>|
                #![auto]
                spec_children(
                    prev,
                    revision_key_of(hive, recs[i].data_id, recs[i].revisions[j].revision_id),
                ) == seq![LinkV { tag: h0, target: h0 }] && seg_ok(h0) && spec_fetch(prev, h0)
                    == Some(EntryPayloadV::Revision(recs[i].revisions[j]));
            let kj = revision_key_of(hive, recs[i].data_id, recs[i].revisions[j].revision_id);
            lemma_data_keys(hive, recs[i].data_id, recs[i].revisions[j].revision_id);
            if kj == data_key_of(hive, did) {
                lemma_rev_vs_data_key(hive, recs[i].data_id, recs[i].revisions[j].revision_id, did);
            }
            assert forall|j2: int| 0 <= j2 < rec.revisions.len() implies kj != revision_key_of(
                hive,
                did,
                (#[trigger] rec.revisions[j2]).revision_id,
            ) by {
                if kj == revision_key_of(hive, did, rec.revisions[j2].revision_id) {
                    lemma_rev_key_injective(
                        hive,
                        recs[i].data_id,
                        recs[i].revisions[j].revision_id,
                        did,
                        rec.revisions[j2].revision_id,
                    );
                }
            }
            assert(spec_children(sn, kj) == spec_children(prev, kj));
            assert(spec_fetch(sn, h0) == spec_fetch(prev, h0));
            assert(spec_children(sn, kj) == seq![LinkV { tag: h0, target: h0 }] && seg_ok(h0)
                && spec_fetch(sn, h0) == Some(EntryPayloadV::Revision(recs[i].revisions[j])));
        }

        // Future records' keys stay empty.
        assert forall|i: int| n <= i < recs.len() implies spec_children(
            sn,
            data_key_of(hive, (#[trigger] recs[i]).data_id),
        ) == Seq::<LinkV>::empty() by {
            let ki = data_key_of(hive, recs[i].data_id);
            lemma_data_keys(hive, recs[i].data_id, rec.revisions[0].revision_id);
            if ki == data_key_of(hive, did) {
                lemma_data_key_injective(hive, recs[i].data_id, did);
            }
            assert forall|j: int| 0 <= j < rec.revisions.len() implies ki != revision_key_of(
                hive,
                did,
                (#[trigger] rec.revisions[j]).revision_id,
            ) by {
                lemma_rev_vs_data_key(hive, did, rec.revisions[j].revision_id, recs[i].data_id);
            }
            assert(spec_children(sn, ki) == spec_children(prev, ki));
        }
        assert forall|i: int, j: int|
            n <= i < recs.len() && 0 <= j < recs[i].revisions.len() implies spec_children(
            sn,
            revision_key_of(hive, recs[i].data_id, (#[trigger] recs[i].revisions[j]).revision_id),
        ) == Seq::<LinkV>::empty() by {
            let kj = revision_key_of(hive, recs[i].data_id, recs[i].revisions[j].revision_id);
            lemma_data_keys(hive, recs[i].data_id, recs[i].revisions[j].revision_id);
            if kj == data_key_of(hive, did) {
                lemma_rev_vs_data_key(hive, recs[i].data_id, recs[i].revisions[j].revision_id, did);
            }
            assert forall|j2: int| 0 <= j2 < rec.revisions.len() implies kj != revision_key_of(
                hive,
                did,
                (#[trigger] rec.revisions[j2]).revision_id,
            ) by {
                if kj == revision_key_of(hive, did, rec.revisions[j2].revision_id) {
                    lemma_rev_key_injective(
                        hive,
                        recs[i].data_id,
                        recs[i].revisions[j].revision_id,
                        did,
                        rec.revisions[j2].revision_id,
                    );
                }
            }
            assert(spec_children(sn, kj) == spec_children(prev, kj));
        }

        // Other keys untouched; addresses preserved.
        assert forall|k: Seq<char>|
            (k != kdr && (forall|i: int|
                0 <= i < recs.len() ==> k != data_key_of(hive, (#[trigger] recs[i]).data_id))
                && (forall|i: int, j: int|
                0 <= i < recs.len() && 0 <= j < recs[i].revisions.len() ==> k != revision_key_of(
                    hive,
                    recs[i].data_id,
                    (#[trigger] recs[i].revisions[j]).revision_id,
                ))) implies #[trigger] spec_children(sn, k) == spec_children(s, k) by {
            assert(k != data_key_of(hive, did));
            assert forall|j: int| 0 <= j < rec.revisions.len() implies k != revision_key_of(
                hive,
                did,
                (#[trigger] rec.revisions[j]).revision_id,
            ) by {
                assert(rec.revisions[j] == recs[n - 1].revisions[j]);
            }
            assert(spec_children(sn, k) == spec_children(prev, k));
            assert(spec_children(prev, k) == spec_children(s, k));
        }
        assert forall|h2: Seq<char>| spec_fetch(s, h2) is Some implies #[trigger] spec_fetch(
            sn,
            h2,
        ) == spec_fetch(s, h2) by {
            assert(spec_fetch(prev, h2) == spec_fetch(s, h2));
        }
    }
}

/// What writing the first `n` blobs does, in full.
pub proof fn lemma_blobs_effect(
    s: StoreV,
    hive: Seq<char>,
    blobs: Seq<crate::entry::BlobV>,
    n: int,
)
    requires
        wf(s),
        forall|k: int| 0 <= k < blobs.len() ==> blob_part_ok((#[trigger] blobs[k]).content_hash),
        forall|k: int| 0 <= k < blobs.len() ==> seg_ok((#[trigger] blobs[k]).mime_type),
        forall|k1: int, k2: int|
            0 <= k1 < k2 < blobs.len() ==> !((#[trigger] blobs[k1]).content_hash == (
            #[trigger] blobs[k2]).content_hash && blobs[k1].mime_type == blobs[k2].mime_type),
        0 <= n <= blobs.len(),
        spec_children(s, blob_root_of(hive)) == Seq::<LinkV>::empty(),
        forall|k: int|
            0 <= k < blobs.len() ==> spec_children(
                s,
                blob_key_of(hive, (#[trigger] blobs[k]).content_hash, blobs[k].mime_type),
            ) == Seq::<LinkV>::empty(),
    ensures
        ({
            let sn = crate::hive::write_blobs_upto(s, hive, blobs, n);
            &&& wf(sn)
            &&& spec_children(sn, blob_root_of(hive)) == blob_links(blobs.take(n))
            &&& forall|k: int| 0 <= k < n ==> #[trigger] blob_resolved(sn, hive, blobs[k])
            &&& forall|k: int|
                n <= k < blobs.len() ==> spec_children(
                    sn,
                    blob_key_of(hive, (#[trigger] blobs[k]).content_hash, blobs[k].mime_type),
                ) == Seq::<LinkV>::empty()
            &&& forall|k: Seq<char>|
                #![trigger spec_children(sn, k)]
                (k != blob_root_of(hive) && (forall|k2: int|
                    0 <= k2 < blobs.len() ==> k != blob_key_of(
                        hive,
                        (#[trigger] blobs[k2]).content_hash,
                        blobs[k2].mime_type,
                    ))) ==> spec_children(sn, k) == spec_children(s, k)
            &&& forall|h2: Seq<char>|
                #![trigger spec_fetch(sn, h2)]
                spec_fetch(s, h2) is Some ==> spec_fetch(sn, h2) == spec_fetch(s, h2)
        }),
    decreases n,
{
    let kbr = blob_root_of(hive);
    let sn = crate::hive::write_blobs_upto(s, hive, blobs, n);
    if n == 0 {
        assert(sn == s);
        assert(blob_links(blobs.take(0)) =~= Seq::<LinkV>::empty());
    } else {
        lemma_blobs_effect(s, hive, blobs, n - 1);
        let prev = crate::hive::write_blobs_upto(s, hive, blobs, n - 1);
        let b = blobs[n - 1];
        let bh = b.content_hash;
        let bm = b.mime_type;
        let id = blob_id_of(bh, bm);
        let kbk = blob_key_of(hive, bh, bm);
        lemma_blob_keys(hive, bh, bm);
        let p = EntryPayloadV::Blob(b);
        let c = spec_create(prev, p);
        let h = c.1;
        lemma_create_establishes(prev, p);
        lemma_create_wf(prev, p);
        crate::store::lemma_find_payload(c.0.entries, p, 0);
        let f = find_payload(c.0.entries, p, 0);
        assert(c.0.entries[f].hash == dec(f as nat));
        lemma_dec_seg_ok(f as nat);
        assert(seg_ok(h));
        assert(c.0.nodes == prev.nodes);
        lemma_create_extends(prev, p);

        // The blob's composite link is new under the root.
        let pl = blob_links(blobs.take(n - 1));
        assert(spec_children(c.0, kbr) == pl);
        crate::codec::lemma_blob_id_round_trip(bh, bm);
        assert forall|j: int| 0 <= j < pl.len() implies (#[trigger] pl[j]).tag != id by {
            let bj = blobs.take(n - 1)[j];
            assert(bj == blobs[j]);
            assert(pl[j].tag == blob_id_of(bj.content_hash, bj.mime_type));
            if blob_id_of(bj.content_hash, bj.mime_type) == id {
                crate::codec::lemma_blob_id_round_trip(bj.content_hash, bj.mime_type);
            }
        }
        assert(!link_present(pl, id, Seq::empty()));
        let s2 = spec_ensure_link(c.0, kbr, id, Seq::empty());
        lemma_ensure_same_key(c.0, kbr, id, Seq::empty());
        assert(spec_children(s2, kbr) == pl.push(LinkV { tag: id, target: Seq::empty() }));
        assert(pl.push(LinkV { tag: id, target: Seq::empty() }) =~= blob_links(blobs.take(n)));
        lemma_ensure_wf(c.0, kbr, id, Seq::empty());
        assert(s2.entries == c.0.entries);

        let s3 = spec_ensure_link(s2, kbk, h, h);
        lemma_ensure_other_key(c.0, kbr, id, Seq::empty(), kbk);
        assert(spec_children(s2, kbk) == spec_children(prev, kbk));
        assert(spec_children(prev, kbk) == Seq::<LinkV>::empty());
        assert(!link_present(Seq::<LinkV>::empty(), h, h));
        lemma_ensure_same_key(s2, kbk, h, h);
        assert(spec_children(s3, kbk) =~= seq![LinkV { tag: h, target: h }]);
        lemma_ensure_wf(s2, kbk, h, h);
        assert(s3.entries == c.0.entries);
        assert(crate::hive::write_blob(prev, hive, b) == s3);
        assert(sn == s3);

        lemma_ensure_other_key(s2, kbk, h, h, kbr);
        assert(spec_children(sn, kbr) == blob_links(blobs.take(n)));

        assert forall|h2: Seq<char>| spec_fetch(prev, h2) is Some implies #[trigger] spec_fetch(
            sn,
            h2,
        ) == spec_fetch(prev, h2) by {
            lemma_extends_fetch(c.0, prev, h2);
            assert(spec_fetch(sn, h2) == spec_fetch(c.0, h2));
        }

        lemma_wf_fetch_at(c.0, f);
        assert(spec_fetch(sn, h) == Some(p));
        assert(blob_resolved(sn, hive, b));

        assert forall|k: int| 0 <= k < n - 1 implies #[trigger] blob_resolved(
            sn,
            hive,
            blobs[k],
        ) by {
            assert(blob_resolved(prev, hive, blobs[k]));
            let h0 = choose|h0: Seq<char>|
                #![auto]
                spec_children(
                    prev,
                    blob_key_of(hive, blobs[k].content_hash, blobs[k].mime_type),
                ) == seq![LinkV { tag: h0, target: h0 }] && seg_ok(h0) && spec_fetch(prev, h0)
                    == Some(EntryPayloadV::Blob(blobs[k]));
            let kk = blob_key_of(hive, blobs[k].content_hash, blobs[k].mime_type);
            lemma_blob_keys(hive, blobs[k].content_hash, blobs[k].mime_type);
            if kk == kbk {
                lemma_blob_key_injective(hive, blobs[k].content_hash, blobs[k].mime_type, bh, bm);
            }
            lemma_ensure_other_key(c.0, kbr, id, Seq::empty(), kk);
            lemma_ensure_other_key(s2, kbk, h, h, kk);
            assert(spec_children(sn, kk) == spec_children(prev, kk));
            assert(spec_fetch(sn, h0) == spec_fetch(prev, h0));
            assert(spec_children(sn, kk) == seq![LinkV { tag: h0, target: h0 }] && seg_ok(h0)
                && spec_fetch(sn, h0) == Some(EntryPayloadV::Blob(blobs[k])));
        }

        assert forall|k: int| n <= k < blobs.len() implies spec_children(
            sn,
            blob_key_of(hive, (#[trigger] blobs[k]).content_hash, blobs[k].mime_type),
        ) == Seq::<LinkV>::empty() by {
            let kk = blob_key_of(hive, blobs[k].content_hash, blobs[k].mime_type);
            lemma_blob_keys(hive, blobs[k].content_hash, blobs[k].mime_type);
            if kk == kbk {
                lemma_blob_key_injective(hive, blobs[k].content_hash, blobs[k].mime_type, bh, bm);
            }
            lemma_ensure_other_key(c.0, kbr, id, Seq::empty(), kk);
            lemma_ensure_other_key(s2, kbk, h, h, kk);
            assert(spec_children(sn, kk) == spec_children(prev, kk));
        }

        assert forall|k: Seq<char>|
            (k != kbr && (forall|k2: int|
                0 <= k2 < blobs.len() ==> k != blob_key_of(
                    hive,
                    (#[trigger] blobs[k2]).content_hash,
                    blobs[k2].mime_type,
                ))) implies #[trigger] spec_children(sn, k) == spec_children(s, k) by {
            assert(k != kbk);
            lemma_ensure_other_key(c.0, kbr, id, Seq::empty(), k);
            lemma_ensure_other_key(s2, kbk, h, h, k);
            assert(spec_children(sn, k) == spec_children(prev, k));
            assert(spec_children(prev, k) == spec_children(s, k));
        }
    }
}

/// The blob root never equals a data-side key, nor a blob key.
pub proof fn lemma_blob_root_vs_data(hive: Seq<char>, d: Seq<char>, r: Seq<char>)
    requires
        seg_ok(d),
        seg_ok(r),
    ensures
        blob_root_of(hive) != data_root_of(hive),
        blob_root_of(hive) != data_key_of(hive, d),
        blob_root_of(hive) != revision_key_of(hive, d, r),
{
    lemma_data_seg_ok();
    if data_root_of(hive) == blob_root_of(hive) {
        lemma_dot_injective(hive, data_seg(), hive, blob_seg());
    }
    assert(blob_root_of(hive).len() == hive.len() + 5);
    assert(data_key_of(hive, d).len() == hive.len() + 6 + d.len());
    assert(revision_key_of(hive, d, r).len() == hive.len() + 7 + d.len() + r.len());
}

/// A blob key never equals a data-side key, nor the two roots.
pub proof fn lemma_blob_key_vs_data(
    hive: Seq<char>,
    d: Seq<char>,
    r: Seq<char>,
    bh: Seq<char>,
    bm: Seq<char>,
)
    requires
        seg_ok(d),
        seg_ok(r),
        blob_part_ok(bh),
        seg_ok(bm),
    ensures
        blob_key_of(hive, bh, bm) != data_root_of(hive),
        blob_key_of(hive, bh, bm) != blob_root_of(hive),
        blob_key_of(hive, bh, bm) != data_key_of(hive, d),
        blob_key_of(hive, bh, bm) != revision_key_of(hive, d, r),
{
    lemma_data_seg_ok();
    lemma_blob_id_seg_ok(bh, bm);
    let id = blob_id_of(bh, bm);
    assert(data_root_of(hive).len() == hive.len() + 5);
    assert(blob_root_of(hive).len() == hive.len() + 5);
    assert(blob_key_of(hive, bh, bm).len() == hive.len() + 6 + id.len());
    if data_key_of(hive, d) == blob_key_of(hive, bh, bm) {
        lemma_dot_injective(data_root_of(hive), d, blob_root_of(hive), id);
        lemma_dot_injective(hive, data_seg(), hive, blob_seg());
    }
    if revision_key_of(hive, d, r) == blob_key_of(hive, bh, bm) {
        lemma_dot_injective(data_key_of(hive, d), r, blob_root_of(hive), id);
        lemma_dot_injective(data_root_of(hive), d, hive, blob_seg());
    }
}

/// A blob key never equals either root, whatever the identifiers.
pub proof fn lemma_blob_keys(hive: Seq<char>, bh: Seq<char>, bm: Seq<char>)
    requires
        blob_part_ok(bh),
        seg_ok(bm),
    ensures
        blob_key_of(hive, bh, bm) != blob_root_of(hive),
        blob_key_of(hive, bh, bm) != data_root_of(hive),
{
    lemma_blob_id_seg_ok(bh, bm);
    assert(blob_root_of(hive).len() == hive.len() + 5);
    assert(data_root_of(hive).len() == hive.len() + 5);
    assert(blob_key_of(hive, bh, bm).len() == hive.len() + 6 + blob_id_of(bh, bm).len());
}

/// The identifiers a value's digest carries.
pub open spec fn rids_of(revs: Seq<crate::entry::RevisionV>) -> Seq<Seq<char>> {
    revs.map_values(|rv: crate::entry::RevisionV| rv.revision_id)
}

pub open spec fn entries_of(recs: Seq<crate::hive::DataRecordV>) -> Seq<crate::hive::DataEntryV> {
    recs.map_values(
        |rec: crate::hive::DataRecordV| crate::hive::DataEntryV {
            data_id: rec.data_id,
            revision_ids: rids_of(rec.revisions),
        },
    )
}

pub open spec fn bids_of(blobs: Seq<crate::entry::BlobV>) -> Seq<crate::codec::BlobIdV> {
    blobs.map_values(
        |b: crate::entry::BlobV| crate::codec::BlobIdV {
            content_hash: b.content_hash,
            mime_type: b.mime_type,
        },
    )
}

/// The digest that written content deserves: the same identifiers, in
/// the same order, with no content embedded.
pub open spec fn digest_of(d: crate::hive::RevisionDataV) -> crate::hive::DigestV {
    crate::hive::DigestV { data: entries_of(d.data), blobs: bids_of(d.blobs) }
}

/// Walking a data item's links yields its revision identifiers.
pub proof fn lemma_digest_rev_ids(revs: Seq<crate::entry::RevisionV>, m: int)
    requires
        0 <= m <= revs.len(),
        forall|j: int| 0 <= j < revs.len() ==> seg_ok((#[trigger] revs[j]).revision_id),
    ensures
        crate::hive::digest_rev_ids_upto(rev_links(revs), m) == rids_of(revs.take(m)),
    decreases m,
{
    if m == 0 {
        assert(crate::hive::digest_rev_ids_upto(rev_links(revs), 0) =~= rids_of(revs.take(0)));
    } else {
        lemma_digest_rev_ids(revs, m - 1);
        let rid = revs[m - 1].revision_id;
        assert(rev_links(revs)[m - 1].tag == rid);
        crate::codec::lemma_leaf_of_segment(rid);
        assert(crate::hive::digest_rev_ids_upto(rev_links(revs), m) == rids_of(
            revs.take(m - 1),
        ).push(rid));
        assert(rids_of(revs.take(m - 1)).push(rid) =~= rids_of(revs.take(m)));
    }
}

/// Walking the data root yields one digest entry per record.
pub proof fn lemma_digest_data(
    sw: StoreV,
    hive: Seq<char>,
    recs: Seq<crate::hive::DataRecordV>,
    m: int,
)
    requires
        0 <= m <= recs.len(),
        forall|i: int| 0 <= i < recs.len() ==> seg_ok((#[trigger] recs[i]).data_id),
        forall|i: int, j: int|
            0 <= i < recs.len() && 0 <= j < recs[i].revisions.len() ==> seg_ok(
                (#[trigger] recs[i].revisions[j]).revision_id,
            ),
        forall|i: int|
            0 <= i < recs.len() ==> spec_children(
                sw,
                data_key_of(hive, (#[trigger] recs[i]).data_id),
            ) == rev_links(recs[i].revisions),
    ensures
        crate::hive::digest_data_upto(sw, hive, record_links(recs), m) == entries_of(recs.take(m)),
    decreases m,
{
    if m == 0 {
        assert(crate::hive::digest_data_upto(sw, hive, record_links(recs), 0) =~= entries_of(
            recs.take(0),
        ));
    } else {
        lemma_digest_data(sw, hive, recs, m - 1);
        let rec = recs[m - 1];
        let did = rec.data_id;
        assert(record_links(recs)[m - 1].tag == did);
        crate::codec::lemma_leaf_of_segment(did);
        assert(spec_children(sw, data_key_of(hive, did)) == rev_links(rec.revisions));
        lemma_digest_rev_ids(rec.revisions, rec.revisions.len() as int);
        assert(rids_of(rec.revisions.take(rec.revisions.len() as int)) =~= rids_of(rec.revisions));
        assert(crate::hive::digest_rev_ids(sw, hive, did) == rids_of(rec.revisions));
        let de = crate::hive::DataEntryV { data_id: did, revision_ids: rids_of(rec.revisions) };
        assert(crate::hive::digest_data_upto(sw, hive, record_links(recs), m) == entries_of(
            recs.take(m - 1),
        ).push(de));
        assert(entries_of(recs.take(m - 1)).push(de) =~= entries_of(recs.take(m)));
    }
}

/// Walking the blob root yields each blob's composite identity.
pub proof fn lemma_digest_blobs(blobs: Seq<crate::entry::BlobV>, m: int)
    requires
        0 <= m <= blobs.len(),
        forall|k: int| 0 <= k < blobs.len() ==> blob_part_ok((#[trigger] blobs[k]).content_hash),
        forall|k: int| 0 <= k < blobs.len() ==> seg_ok((#[trigger] blobs[k]).mime_type),
    ensures
        crate::hive::digest_blobs_upto(blob_links(blobs), m) == Ok::<
            Seq<crate::codec::BlobIdV>,
            crate::entry::Error,
        >(bids_of(blobs.take(m))),
    decreases m,
{
    if m == 0 {
        assert(bids_of(blobs.take(0)) =~= Seq::<crate::codec::BlobIdV>::empty());
    } else {
        lemma_digest_blobs(blobs, m - 1);
        let b = blobs[m - 1];
        let id = blob_id_of(b.content_hash, b.mime_type);
        assert(blob_links(blobs)[m - 1].tag == id);
        lemma_blob_id_seg_ok(b.content_hash, b.mime_type);
        crate::codec::lemma_leaf_of_segment(id);
        crate::codec::lemma_blob_id_round_trip(b.content_hash, b.mime_type);
        let bi = crate::codec::BlobIdV { content_hash: b.content_hash, mime_type: b.mime_type };
        assert(crate::hive::digest_blobs_upto(blob_links(blobs), m) == Ok::<
            Seq<crate::codec::BlobIdV>,
            crate::entry::Error,
        >(bids_of(blobs.take(m - 1)).push(bi)));
        assert(bids_of(blobs.take(m - 1)).push(bi) =~= bids_of(blobs.take(m)));
    }
}

/// Hydrating a data item's revision identifiers returns its revisions.
pub proof fn lemma_hyd_revs(
    sw: StoreV,
    hive: Seq<char>,
    did: Seq<char>,
    revs: Seq<crate::entry::RevisionV>,
    m: int,
)
    requires
        0 <= m <= revs.len(),
        forall|j: int| 0 <= j < revs.len() ==> #[trigger] rev_resolved(sw, hive, did, revs[j]),
    ensures
        crate::hive::hyd_revs_upto(sw, hive, did, rids_of(revs), m) == Ok::<
            Seq<crate::entry::RevisionV>,
            crate::entry::Error,
        >(revs.take(m)),
    decreases m,
{
    if m == 0 {
        assert(revs.take(0) =~= Seq::<crate::entry::RevisionV>::empty());
    } else {
        lemma_hyd_revs(sw, hive, did, revs, m - 1);
        let rv = revs[m - 1];
        assert(rids_of(revs)[m - 1] == rv.revision_id);
        assert(rev_resolved(sw, hive, did, rv));
        let h = choose|h: Seq<char>|
            #![auto]
            spec_children(sw, revision_key_of(hive, did, rv.revision_id)) == seq![
                LinkV { tag: h, target: h }
            ] && seg_ok(h) && spec_fetch(sw, h) == Some(EntryPayloadV::Revision(rv));
        let links = spec_children(sw, revision_key_of(hive, did, rv.revision_id));
        assert(links == seq![LinkV { tag: h, target: h }]);
        assert(links[0].tag == h);
        crate::codec::lemma_leaf_of_segment(h);
        assert(crate::hive::hyd_rev_children_upto(sw, links, 1) == Ok::<
            Seq<crate::entry::RevisionV>,
            crate::entry::Error,
        >(seq![rv]) ) by {
            assert(crate::hive::hyd_rev_children_upto(sw, links, 0) == Ok::<
                Seq<crate::entry::RevisionV>,
                crate::entry::Error,
            >(Seq::empty()));
            assert(Seq::<crate::entry::RevisionV>::empty().push(rv) =~= seq![rv]);
        }
        assert(crate::hive::hyd_revs_upto(sw, hive, did, rids_of(revs), m) == Ok::<
            Seq<crate::entry::RevisionV>,
            crate::entry::Error,
        >(revs.take(m - 1) + seq![rv]));
        assert(revs.take(m - 1) + seq![rv] =~= revs.take(m));
    }
}

/// Hydrating the digest's data entries returns the written records.
pub proof fn lemma_hyd_data(
    sw: StoreV,
    hive: Seq<char>,
    recs: Seq<crate::hive::DataRecordV>,
    m: int,
)
    requires
        0 <= m <= recs.len(),
        forall|i: int, j: int|
            0 <= i < recs.len() && 0 <= j < recs[i].revisions.len() ==> #[trigger] rev_resolved(
                sw,
                hive,
                recs[i].data_id,
                recs[i].revisions[j],
            ),
    ensures
        crate::hive::hyd_data_upto(sw, hive, entries_of(recs), m) == Ok::<
            Seq<crate::hive::DataRecordV>,
            crate::entry::Error,
        >(recs.take(m)),
    decreases m,
{
    if m == 0 {
        assert(recs.take(0) =~= Seq::<crate::hive::DataRecordV>::empty());
    } else {
        lemma_hyd_data(sw, hive, recs, m - 1);
        let rec = recs[m - 1];
        assert(entries_of(recs)[m - 1] == crate::hive::DataEntryV {
            data_id: rec.data_id,
            revision_ids: rids_of(rec.revisions),
        });
        assert forall|j: int| 0 <= j < rec.revisions.len() implies #[trigger] rev_resolved(
            sw,
            hive,
            rec.data_id,
            rec.revisions[j],
        ) by {
            assert(rev_resolved(sw, hive, recs[m - 1].data_id, recs[m - 1].revisions[j]));
        }
        lemma_hyd_revs(sw, hive, rec.data_id, rec.revisions, rec.revisions.len() as int);
        assert(rec.revisions.take(rec.revisions.len() as int) =~= rec.revisions);
        let dr = crate::hive::DataRecordV { data_id: rec.data_id, revisions: rec.revisions };
        assert(dr =~= rec);
        assert(crate::hive::hyd_data_upto(sw, hive, entries_of(recs), m) == Ok::<
            Seq<crate::hive::DataRecordV>,
            crate::entry::Error,
        >(recs.take(m - 1).push(rec)));
        assert(recs.take(m - 1).push(rec) =~= recs.take(m));
    }
}

/// Hydrating the digest's blob identities returns the written blobs.
pub proof fn lemma_hyd_blobs(sw: StoreV, hive: Seq<char>, blobs: Seq<crate::entry::BlobV>, m: int)
    requires
        0 <= m <= blobs.len(),
        forall|k: int| 0 <= k < blobs.len() ==> #[trigger] blob_resolved(sw, hive, blobs[k]),
    ensures
        crate::hive::hyd_blobs_upto(sw, hive, bids_of(blobs), m) == Ok::<
            Seq<crate::entry::BlobV>,
            crate::entry::Error,
        >(blobs.take(m)),
    decreases m,
{
    if m == 0 {
        assert(blobs.take(0) =~= Seq::<crate::entry::BlobV>::empty());
    } else {
        lemma_hyd_blobs(sw, hive, blobs, m - 1);
        let b = blobs[m - 1];
        assert(bids_of(blobs)[m - 1] == crate::codec::BlobIdV {
            content_hash: b.content_hash,
            mime_type: b.mime_type,
        });
        assert(blob_resolved(sw, hive, b));
        let h = choose|h: Seq<char>|
            #![auto]
            spec_children(sw, blob_key_of(hive, b.content_hash, b.mime_type)) == seq![
                LinkV { tag: h, target: h }
            ] && seg_ok(h) && spec_fetch(sw, h) == Some(EntryPayloadV::Blob(b));
        let links = spec_children(sw, blob_key_of(hive, b.content_hash, b.mime_type));
        assert(links == seq![LinkV { tag: h, target: h }]);
        assert(links[0].tag == h);
        crate::codec::lemma_leaf_of_segment(h);
        assert(crate::hive::hyd_blob_children_upto(sw, links, 1) == Ok::<
            Seq<crate::entry::BlobV>,
            crate::entry::Error,
        >(seq![b]) ) by {
            assert(crate::hive::hyd_blob_children_upto(sw, links, 0) == Ok::<
                Seq<crate::entry::BlobV>,
                crate::entry::Error,
            >(Seq::empty()));
            assert(Seq::<crate::entry::BlobV>::empty().push(b) =~= seq![b]);
        }
        assert(crate::hive::hyd_blobs_upto(sw, hive, bids_of(blobs), m) == Ok::<
            Seq<crate::entry::BlobV>,
            crate::entry::Error,
        >(blobs.take(m - 1) + seq![b]));
        assert(blobs.take(m - 1) + seq![b] =~= blobs.take(m));
    }
}

/// The round-trip law: writing any records and blobs with well-formed,
/// distinct identifiers under a hive whose keys are untouched, then
/// building the hive's digest and hydrating it, returns exactly the
/// written content — the same identifiers, payload bytes and MIME
/// types, in the same order.
pub proof fn lemma_round_trip(s: StoreV, hive: Seq<char>, d: crate::hive::RevisionDataV)
    requires
        wf(s),
        forall|i: int| 0 <= i < d.data.len() ==> seg_ok((#[trigger] d.data[i]).data_id),
        forall|i: int| 0 <= i < d.data.len() ==> (#[trigger] d.data[i]).revisions.len() >= 1,
        forall|i: int, j: int|
            0 <= i < d.data.len() && 0 <= j < d.data[i].revisions.len() ==> seg_ok(
                (#[trigger] d.data[i].revisions[j]).revision_id,
            ),
        forall|i: int, j1: int, j2: int|
            0 <= i < d.data.len() && 0 <= j1 < j2 < d.data[i].revisions.len() ==> (
            #[trigger] d.data[i].revisions[j1]).revision_id != (
            #[trigger] d.data[i].revisions[j2]).revision_id,
        forall|i1: int, i2: int|
            0 <= i1 < i2 < d.data.len() ==> (#[trigger] d.data[i1]).data_id != (
            #[trigger] d.data[i2]).data_id,
        forall|k: int| 0 <= k < d.blobs.len() ==> blob_part_ok((#[trigger] d.blobs[k]).content_hash),
        forall|k: int| 0 <= k < d.blobs.len() ==> seg_ok((#[trigger] d.blobs[k]).mime_type),
        forall|k1: int, k2: int|
            0 <= k1 < k2 < d.blobs.len() ==> !((#[trigger] d.blobs[k1]).content_hash == (
            #[trigger] d.blobs[k2]).content_hash && d.blobs[k1].mime_type == d.blobs[k2].mime_type),
        spec_children(s, data_root_of(hive)) == Seq::<LinkV>::empty(),
        spec_children(s, blob_root_of(hive)) == Seq::<LinkV>::empty(),
        forall|i: int|
            0 <= i < d.data.len() ==> spec_children(
                s,
                data_key_of(hive, (#[trigger] d.data[i]).data_id),
            ) == Seq::<LinkV>::empty(),
        forall|i: int, j: int|
            0 <= i < d.data.len() && 0 <= j < d.data[i].revisions.len() ==> spec_children(
                s,
                revision_key_of(
                    hive,
                    d.data[i].data_id,
                    (#[trigger] d.data[i].revisions[j]).revision_id,
                ),
            ) == Seq::<LinkV>::empty(),
        forall|k: int|
            0 <= k < d.blobs.len() ==> spec_children(
                s,
                blob_key_of(hive, (#[trigger] d.blobs[k]).content_hash, d.blobs[k].mime_type),
            ) == Seq::<LinkV>::empty(),
    ensures
        crate::hive::spec_digest(crate::hive::spec_write(s, hive, d), hive) == Ok::<
            crate::hive::DigestV,
            crate::entry::Error,
        >(digest_of(d)),
        crate::hive::spec_hydrate(crate::hive::spec_write(s, hive, d), hive, digest_of(d)) == Ok::<
            crate::hive::RevisionDataV,
            crate::entry::Error,
        >(d),
{
    let recs = d.data;
    let blobs = d.blobs;
    let nd = recs.len() as int;
    let nb = blobs.len() as int;
    let mid = crate::hive::write_data_upto(s, hive, recs, nd);
    let sw = crate::hive::write_blobs_upto(mid, hive, blobs, nb);
    assert(crate::hive::spec_write(s, hive, d) == sw);
    lemma_data_effect(s, hive, recs, nd);

    // The blob-side keys were not touched by the data phase.
    assert forall|k: int| 0 <= k < nb implies spec_children(
        mid,
        blob_key_of(hive, (#[trigger] blobs[k]).content_hash, blobs[k].mime_type),
    ) == Seq::<LinkV>::empty() by {
        let kk = blob_key_of(hive, blobs[k].content_hash, blobs[k].mime_type);
        assert forall|i: int| 0 <= i < recs.len() implies kk != data_key_of(
            hive,
            (#[trigger] recs[i]).data_id,
        ) by {
            lemma_blob_key_vs_data(
                hive,
                recs[i].data_id,
                recs[i].revisions[0].revision_id,
                blobs[k].content_hash,
                blobs[k].mime_type,
            );
        }
        assert forall|i: int, j: int|
            0 <= i < recs.len() && 0 <= j < recs[i].revisions.len() implies kk != revision_key_of(
            hive,
            recs[i].data_id,
            (#[trigger] recs[i].revisions[j]).revision_id,
        ) by {
            lemma_blob_key_vs_data(
                hive,
                recs[i].data_id,
                recs[i].revisions[j].revision_id,
                blobs[k].content_hash,
                blobs[k].mime_type,
            );
        }
        if recs.len() > 0 {
            lemma_blob_key_vs_data(
                hive,
                recs[0].data_id,
                recs[0].revisions[0].revision_id,
                blobs[k].content_hash,
                blobs[k].mime_type,
            );
        } else {
            assert(mid == s);
        }
        assert(spec_children(mid, kk) == spec_children(s, kk));
    }
    assert(spec_children(mid, blob_root_of(hive)) == Seq::<LinkV>::empty()) by {
        let kk = blob_root_of(hive);
        assert forall|i: int| 0 <= i < recs.len() implies kk != data_key_of(
            hive,
            (#[trigger] recs[i]).data_id,
        ) by {
            lemma_blob_root_vs_data(hive, recs[i].data_id, recs[i].revisions[0].revision_id);
        }
        assert forall|i: int, j: int|
            0 <= i < recs.len() && 0 <= j < recs[i].revisions.len() implies kk != revision_key_of(
            hive,
            recs[i].data_id,
            (#[trigger] recs[i].revisions[j]).revision_id,
        ) by {
            lemma_blob_root_vs_data(hive, recs[i].data_id, recs[i].revisions[j].revision_id);
        }
        if recs.len() > 0 {
            lemma_blob_root_vs_data(hive, recs[0].data_id, recs[0].revisions[0].revision_id);
            assert(spec_children(mid, kk) == spec_children(s, kk));
        } else {
            assert(mid == s);
        }
    }
    lemma_blobs_effect(mid, hive, blobs, nb);

    // The data-side state survives the blob phase.
    assert(spec_children(sw, data_root_of(hive)) == record_links(recs)) by {
        let kk = data_root_of(hive);
        assert forall|k2: int| 0 <= k2 < blobs.len() implies kk != blob_key_of(
            hive,
            (#[trigger] blobs[k2]).content_hash,
            blobs[k2].mime_type,
        ) by {
            lemma_blob_keys(hive, blobs[k2].content_hash, blobs[k2].mime_type);
        }
        lemma_data_seg_ok();
        if kk == blob_root_of(hive) {
            lemma_dot_injective(hive, data_seg(), hive, blob_seg());
        }
        assert(spec_children(sw, kk) == spec_children(mid, kk));
        assert(record_links(recs.take(nd)) =~= record_links(recs));
    }
    assert forall|i: int| 0 <= i < nd implies spec_children(
        sw,
        data_key_of(hive, (#[trigger] recs[i]).data_id),
    ) == rev_links(recs[i].revisions) by {
        let kk = data_key_of(hive, recs[i].data_id);
        assert forall|k2: int| 0 <= k2 < blobs.len() implies kk != blob_key_of(
            hive,
            (#[trigger] blobs[k2]).content_hash,
            blobs[k2].mime_type,
        ) by {
            lemma_blob_key_vs_data(
                hive,
                recs[i].data_id,
                recs[i].revisions[0].revision_id,
                blobs[k2].content_hash,
                blobs[k2].mime_type,
            );
        }
        lemma_blob_root_vs_data(hive, recs[i].data_id, recs[i].revisions[0].revision_id);
        assert(spec_children(sw, kk) == spec_children(mid, kk));
    }
    assert forall|i: int, j: int|
        0 <= i < nd && 0 <= j < recs[i].revisions.len() implies #[trigger] rev_resolved(
        sw,
        hive,
        recs[i].data_id,
        recs[i].revisions[j],
    ) by {
        assert(rev_resolved(mid, hive, recs[i].data_id, recs[i].revisions[j]));
        let h0 = choose|h0: Seq<char>|
            #![auto]
            spec_children(
                mid,
                revision_key_of(hive, recs[i].data_id, recs[i].revisions[j].revision_id),
            ) == seq![LinkV { tag: h0, target: h0 }] && seg_ok(h0) && spec_fetch(mid, h0) == Some(
                EntryPayloadV::Revision(recs[i].revisions[j]),
            );
        let kj = revision_key_of(hive, recs[i].data_id, recs[i].revisions[j].revision_id);
        assert forall|k2: int| 0 <= k2 < blobs.len() implies kj != blob_key_of(
            hive,
            (#[trigger] blobs[k2]).content_hash,
            blobs[k2].mime_type,
        ) by {
            lemma_blob_key_vs_data(
                hive,
                recs[i].data_id,
                recs[i].revisions[j].revision_id,
                blobs[k2].content_hash,
                blobs[k2].mime_type,
            );
        }
        lemma_blob_root_vs_data(hive, recs[i].data_id, recs[i].revisions[j].revision_id);
        assert(spec_children(sw, kj) == spec_children(mid, kj));
        assert(spec_fetch(sw, h0) == spec_fetch(mid, h0));
        assert(spec_children(sw, kj) == seq![LinkV { tag: h0, target: h0 }] && seg_ok(h0)
            && spec_fetch(sw, h0) == Some(EntryPayloadV::Revision(recs[i].revisions[j])));
    }
    assert(spec_children(sw, blob_root_of(hive)) == blob_links(blobs)) by {
        assert(blob_links(blobs.take(nb)) =~= blob_links(blobs));
    }

    // The digest is exactly the written identifiers.
    lemma_digest_data(sw, hive, recs, nd);
    assert(entries_of(recs.take(nd)) =~= entries_of(recs));
    lemma_digest_blobs(blobs, nb);
    assert(bids_of(blobs.take(nb)) =~= bids_of(blobs));
    assert(record_links(recs).len() == nd);
    assert(blob_links(blobs).len() == nb);
    assert(crate::hive::spec_digest(sw, hive) == Ok::<
        crate::hive::DigestV,
        crate::entry::Error,
    >(digest_of(d)));

    // Hydrating it returns exactly the written content.
    lemma_hyd_data(sw, hive, recs, nd);
    assert(recs.take(nd) =~= recs);
    lemma_hyd_blobs(sw, hive, blobs, nb);
    assert(blobs.take(nb) =~= blobs);
    assert(digest_of(d).data == entries_of(recs));
    assert(digest_of(d).blobs == bids_of(blobs));
    assert(entries_of(recs).len() == nd);
    assert(bids_of(blobs).len() == nb);
    let out = crate::hive::RevisionDataV { data: recs, blobs: blobs };
    assert(out =~= d);
    assert(crate::hive::spec_hydrate(sw, hive, digest_of(d)) == Ok::<
        crate::hive::RevisionDataV,
        crate::entry::Error,
    >(d));
}

} // verus!
