//! The content-addressed entry store and its hierarchical link index.
//!
//! An entry is an immutable payload filed under a deterministic content
//! address; re-creating identical content is a no-op that returns the
//! existing address. A link node is a path key with an ordered list of
//! child links, each carrying an opaque tag and a target address;
//! registering a link twice with identical arguments is a no-op, and
//! enumeration preserves insertion order. Nothing here ever updates or
//! removes an entry or a link: the store only grows.

use vstd::prelude::*;

use crate::digits::{dec, lemma_dec_injective, u64_to_dec};
use crate::entry::{EntryPayload, EntryPayloadV};

verus! {

/// A child link: an opaque tag and the content address it points at.
#[derive(Debug)]
pub struct Link {
    pub tag: String,
    pub target: String,
}

/// The mathematical value of a `Link`.
#[verifier::ext_equal]
pub struct LinkV {
    pub tag: Seq<char>,
    pub target: Seq<char>,
}

impl View for Link {
    type V = LinkV;

    open spec fn view(&self) -> LinkV {
        LinkV { tag: self.tag@, target: self.target@ }
    }
}

impl Link {
    /// A copy carrying the same tag and target.
    pub fn duplicate(&self) -> (r: Link)
        ensures
            r@ == self@,
    {
        Link { tag: self.tag.clone(), target: self.target.clone() }
    }
}

pub struct Entry {
    pub hash: String,
    pub payload: EntryPayload,
}

/// The mathematical value of a stored entry.
#[verifier::ext_equal]
pub struct EntryV {
    pub hash: Seq<char>,
    pub payload: EntryPayloadV,
}

impl View for Entry {
    type V = EntryV;

    open spec fn view(&self) -> EntryV {
        EntryV { hash: self.hash@, payload: self.payload@ }
    }
}

pub struct LinkNode {
    pub key: String,
    pub children: Vec<Link>,
}

/// The mathematical value of a path-index node.
#[verifier::ext_equal]
pub struct NodeV {
    pub key: Seq<char>,
    pub children: Seq<LinkV>,
}

impl View for LinkNode {
    type V = NodeV;

    open spec fn view(&self) -> NodeV {
        NodeV { key: self.key@, children: self.children@.map_values(|l: Link| l@) }
    }
}

/// The mathematical value of the whole store: the entries in creation
/// order, and the path-index nodes in creation order.
#[verifier::ext_equal]
pub struct StoreV {
    pub entries: Seq<EntryV>,
    pub nodes: Seq<NodeV>,
}

/// The content-addressed entry store with its link index.
pub struct Store {
    entries: Vec<Entry>,
    nodes: Vec<LinkNode>,
}

impl View for Store {
    type V = StoreV;

    closed spec fn view(&self) -> StoreV {
        StoreV {
            entries: self.entries@.map_values(|e: Entry| e@),
            nodes: self.nodes@.map_values(|n: LinkNode| n@),
        }
    }
}

/// The first position at or after `i` whose entry holds `p`, or the
/// length when none does.
pub open spec fn find_payload(entries: Seq<EntryV>, p: EntryPayloadV, i: int) -> int
    decreases entries.len() - i,
{
    if i < 0 || i >= entries.len() {
        entries.len() as int
    } else if entries[i].payload == p {
        i
    } else {
        find_payload(entries, p, i + 1)
    }
}

/// The first position at or after `i` whose entry is addressed by `h`,
/// or the length when none is.
pub open spec fn find_hash(entries: Seq<EntryV>, h: Seq<char>, i: int) -> int
    decreases entries.len() - i,
{
    if i < 0 || i >= entries.len() {
        entries.len() as int
    } else if entries[i].hash == h {
        i
    } else {
        find_hash(entries, h, i + 1)
    }
}

/// The first position at or after `i` whose node is keyed by `key`, or
/// the length when none is.
pub open spec fn find_node(nodes: Seq<NodeV>, key: Seq<char>, i: int) -> int
    decreases nodes.len() - i,
{
    if i < 0 || i >= nodes.len() {
        nodes.len() as int
    } else if nodes[i].key == key {
        i
    } else {
        find_node(nodes, key, i + 1)
    }
}

pub proof fn lemma_find_payload(entries: Seq<EntryV>, p: EntryPayloadV, i: int)
    requires
        0 <= i <= entries.len(),
    ensures
        i <= find_payload(entries, p, i) <= entries.len(),
        find_payload(entries, p, i) < entries.len() ==> entries[find_payload(
            entries,
            p,
            i,
        )].payload == p,
        forall|j: int| i <= j < find_payload(entries, p, i) ==> entries[j].payload != p,
    decreases entries.len() - i,
{
    if i < entries.len() && entries[i].payload != p {
        lemma_find_payload(entries, p, i + 1);
    }
}

pub proof fn lemma_find_hash(entries: Seq<EntryV>, h: Seq<char>, i: int)
    requires
        0 <= i <= entries.len(),
    ensures
        i <= find_hash(entries, h, i) <= entries.len(),
        find_hash(entries, h, i) < entries.len() ==> entries[find_hash(entries, h, i)].hash == h,
        forall|j: int| i <= j < find_hash(entries, h, i) ==> entries[j].hash != h,
    decreases entries.len() - i,
{
    if i < entries.len() && entries[i].hash != h {
        lemma_find_hash(entries, h, i + 1);
    }
}

pub proof fn lemma_find_node(nodes: Seq<NodeV>, key: Seq<char>, i: int)
    requires
        0 <= i <= nodes.len(),
    ensures
        i <= find_node(nodes, key, i) <= nodes.len(),
        find_node(nodes, key, i) < nodes.len() ==> nodes[find_node(nodes, key, i)].key == key,
        forall|j: int| i <= j < find_node(nodes, key, i) ==> nodes[j].key != key,
    decreases nodes.len() - i,
{
    if i < nodes.len() && nodes[i].key != key {
        lemma_find_node(nodes, key, i + 1);
    }
}

/// The payload filed under the address `h`, if any.
pub open spec fn spec_fetch(s: StoreV, h: Seq<char>) -> Option<EntryPayloadV> {
    let i = find_hash(s.entries, h, 0);
    if i < s.entries.len() {
        Some(s.entries[i].payload)
    } else {
        None
    }
}

/// The ordered children registered under `key`; empty when the key was
/// never linked under.
pub open spec fn spec_children(s: StoreV, key: Seq<char>) -> Seq<LinkV> {
    let i = find_node(s.nodes, key, 0);
    if i < s.nodes.len() {
        s.nodes[i].children
    } else {
        Seq::empty()
    }
}

/// Is the link (tag, target) among `cs`?
pub open spec fn link_present(cs: Seq<LinkV>, tag: Seq<char>, target: Seq<char>) -> bool {
    exists|j: int| 0 <= j < cs.len() && cs[j].tag == tag && cs[j].target == target
}

/// What creating an entry does: a no-op returning the existing address
/// when the payload is already stored, otherwise an append under the
/// next address in creation order.
pub open spec fn spec_create(s: StoreV, p: EntryPayloadV) -> (StoreV, Seq<char>) {
    let i = find_payload(s.entries, p, 0);
    if i < s.entries.len() {
        (s, s.entries[i].hash)
    } else {
        let h = dec(s.entries.len() as nat);
        (StoreV { entries: s.entries.push(EntryV { hash: h, payload: p }), nodes: s.nodes }, h)
    }
}

/// What registering a link does: a no-op when the identical link is
/// already under the key, otherwise an append to the key's children
/// (creating the node when the key was never linked under).
pub open spec fn spec_ensure_link(
    s: StoreV,
    key: Seq<char>,
    tag: Seq<char>,
    target: Seq<char>,
) -> StoreV {
    let i = find_node(s.nodes, key, 0);
    if i < s.nodes.len() {
        if link_present(s.nodes[i].children, tag, target) {
            s
        } else {
            StoreV {
                entries: s.entries,
                nodes: s.nodes.update(
                    i,
                    NodeV {
                        key: s.nodes[i].key,
                        children: s.nodes[i].children.push(LinkV { tag, target }),
                    },
                ),
            }
        }
    } else {
        StoreV {
            entries: s.entries,
            nodes: s.nodes.push(NodeV { key, children: seq![LinkV { tag, target }] }),
        }
    }
}

/// Well-formedness of the store: addresses follow creation order (so
/// they are pairwise distinct), payloads are pairwise distinct (content
/// addressing), and node keys are pairwise distinct.
pub open spec fn wf(s: StoreV) -> bool {
    &&& forall|i: int|
        0 <= i < s.entries.len() ==> (#[trigger] s.entries[i]).hash == dec(i as nat)
    &&& forall|i: int, j: int|
        0 <= i < j < s.entries.len() ==> (#[trigger] s.entries[i]).payload != (
        #[trigger] s.entries[j]).payload
    &&& forall|i: int, j: int|
        0 <= i < j < s.nodes.len() ==> (#[trigger] s.nodes[i]).key != (#[trigger] s.nodes[j]).key
}

impl Store {
    /// An empty store: no entries, no links.
    pub fn new() -> (s: Store)
        ensures
            s@.entries.len() == 0,
            s@.nodes.len() == 0,
            wf(s@),
    {
        Store { entries: Vec::new(), nodes: Vec::new() }
    }

    /// Persists `payload` and returns its content address. Idempotent:
    /// identical content keeps its existing address and nothing changes.
    pub fn create_entry(&mut self, payload: EntryPayload) -> (h: String)
        requires
            wf(old(self)@),
        ensures
            wf(final(self)@),
            final(self)@ == spec_create(old(self)@, payload@).0,
            h@ == spec_create(old(self)@, payload@).1,
    {
        let ghost s0 = self@;
        let mut i: usize = 0;
        while i < self.entries.len()
            invariant
                self@ == s0,
                s0 == old(self)@,
                wf(s0),
                0 <= i <= self.entries.len(),
                self.entries.len() == s0.entries.len(),
                find_payload(s0.entries, payload@, 0) == find_payload(
                    s0.entries,
                    payload@,
                    i as int,
                ),
            decreases self.entries.len() - i,
        {
            proof {
                assert(s0.entries[i as int] == self.entries@[i as int]@);
            }
            if self.entries[i].payload.same_as(&payload) {
                proof {
                    assert(find_payload(s0.entries, payload@, i as int) == i);
                }
                return self.entries[i].hash.clone();
            }
            proof {
                assert(find_payload(s0.entries, payload@, i as int) == find_payload(
                    s0.entries,
                    payload@,
                    i as int + 1,
                ));
            }
            i += 1;
        }
        proof {
            assert(find_payload(s0.entries, payload@, 0) == s0.entries.len());
        }
        let h = u64_to_dec(self.entries.len() as u64);
        let hc = h.clone();
        let ghost p = payload@;
        self.entries.push(Entry { hash: h, payload });
        proof {
            assert(self@.entries =~= s0.entries.push(
                EntryV { hash: dec(s0.entries.len()), payload: p },
            ));
            assert(self@ =~= spec_create(s0, p).0);
            lemma_find_payload(s0.entries, p, 0);
            assert forall|i2: int, j2: int| 0 <= i2 < j2 < self@.entries.len() implies (
            #[trigger] self@.entries[i2]).payload != (#[trigger] self@.entries[j2]).payload by {
                if j2 == s0.entries.len() {
                    assert(self@.entries[i2] == s0.entries[i2]);
                }
            }
        }
        hc
    }

    /// Resolves a content address to the payload stored under it.
    pub fn fetch_entry(&self, h: &String) -> (r: Option<&EntryPayload>)
        ensures
            r is Some <==> spec_fetch(self@, h@) is Some,
            r is Some ==> r->0@ == spec_fetch(self@, h@)->0,
    {
        let ghost s0 = self@;
        let mut i: usize = 0;
        while i < self.entries.len()
            invariant
                self@ == s0,
                0 <= i <= self.entries.len(),
                self.entries.len() == s0.entries.len(),
                find_hash(s0.entries, h@, 0) == find_hash(s0.entries, h@, i as int),
                forall|j: int| 0 <= j < i ==> s0.entries[j].hash != h@,
            decreases self.entries.len() - i,
        {
            proof {
                assert(s0.entries[i as int] == self.entries@[i as int]@);
            }
            if self.entries[i].hash == *h {
                proof {
                    assert(find_hash(s0.entries, h@, i as int) == i);
                }
                return Some(&self.entries[i].payload);
            }
            proof {
                assert(find_hash(s0.entries, h@, i as int) == find_hash(
                    s0.entries,
                    h@,
                    i as int + 1,
                ));
            }
            i += 1;
        }
        None
    }

    /// Enumerates the children registered under `key`, in insertion
    /// order; empty when the key was never linked under.
    pub fn link_children(&self, key: &String) -> (r: Vec<Link>)
        ensures
            r@.map_values(|l: Link| l@) == spec_children(self@, key@),
    {
        let ghost s0 = self@;
        let mut i: usize = 0;
        while i < self.nodes.len()
            invariant
                self@ == s0,
                0 <= i <= self.nodes.len(),
                self.nodes.len() == s0.nodes.len(),
                find_node(s0.nodes, key@, 0) == find_node(s0.nodes, key@, i as int),
            decreases self.nodes.len() - i,
        {
            proof {
                assert(s0.nodes[i as int] == self.nodes@[i as int]@);
            }
            if self.nodes[i].key == *key {
                proof {
                    assert(find_node(s0.nodes, key@, i as int) == i);
                }
                let ghost cs = s0.nodes[i as int].children;
                let node = &self.nodes[i];
                let mut out: Vec<Link> = Vec::new();
                let mut j: usize = 0;
                while j < node.children.len()
                    invariant
                        0 <= j <= node.children.len(),
                        node@.children == cs,
                        node.children@.len() == cs.len(),
                        out@.len() == j,
                        forall|m: int| 0 <= m < j ==> (#[trigger] out@[m])@ == cs[m],
                    decreases node.children.len() - j,
                {
                    proof {
                        assert(cs[j as int] == node.children@[j as int]@);
                    }
                    out.push(node.children[j].duplicate());
                    j += 1;
                }
                proof {
                    assert(cs == spec_children(s0, key@));
                    assert(out@.map_values(|l: Link| l@) =~= cs);
                }
                return out;
            }
            proof {
                assert(find_node(s0.nodes, key@, i as int) == find_node(
                    s0.nodes,
                    key@,
                    i as int + 1,
                ));
            }
            i += 1;
        }
        proof {
            assert(spec_children(s0, key@) =~= Seq::<LinkV>::empty());
        }
        Vec::new()
    }

    /// Registers the child link (tag, target) under `key`. Idempotent:
    /// an identical registration leaves the index unchanged.
    pub fn ensure_link(&mut self, key: &String, tag: String, target: String)
        requires
            wf(old(self)@),
        ensures
            wf(final(self)@),
            final(self)@ == spec_ensure_link(old(self)@, key@, tag@, target@),
    {
        let ghost s0 = self@;
        let ghost tg = tag@;
        let ghost tt = target@;
        let mut i: usize = 0;
        while i < self.nodes.len()
            invariant
                self@ == s0,
                s0 == old(self)@,
                wf(s0),
                0 <= i <= self.nodes.len(),
                self.nodes.len() == s0.nodes.len(),
                tag@ == tg,
                target@ == tt,
                find_node(s0.nodes, key@, 0) == find_node(s0.nodes, key@, i as int),
            decreases self.nodes.len() - i,
        {
            proof {
                assert(s0.nodes[i as int] == self.nodes@[i as int]@);
            }
            if self.nodes[i].key == *key {
                proof {
                    assert(find_node(s0.nodes, key@, i as int) == i);
                }
                let ghost cs = s0.nodes[i as int].children;
                let node = &self.nodes[i];
                let mut j: usize = 0;
                let mut present = false;
                while j < node.children.len()
                    invariant
                        0 <= j <= node.children.len(),
                        tag@ == tg,
                        target@ == tt,
                        node@.children == cs,
                        node.children@.len() == cs.len(),
                        !present ==> forall|m: int|
                            0 <= m < j ==> !((#[trigger] cs[m]).tag == tg && cs[m].target == tt),
                        present ==> link_present(cs, tg, tt),
                    decreases node.children.len() - j,
                {
                    proof {
                        assert(cs[j as int] == node.children@[j as int]@);
                    }
                    if node.children[j].tag == tag && node.children[j].target == target {
                        present = true;
                    }
                    j += 1;
                }
                if present {
                    proof {
                        assert(spec_ensure_link(s0, key@, tg, tt) == s0);
                    }
                    return ;
                }
                proof {
                    assert(!link_present(cs, tg, tt));
                }
                let node_mut = &mut self.nodes[i];
                node_mut.children.push(Link { tag, target });
                proof {
                    assert(node_mut@.children =~= cs.push(LinkV { tag: tg, target: tt }));
                    assert(node_mut@ =~= NodeV {
                        key: s0.nodes[i as int].key,
                        children: cs.push(LinkV { tag: tg, target: tt }),
                    });
                    assert(self@.nodes =~= s0.nodes.update(
                        i as int,
                        NodeV {
                            key: s0.nodes[i as int].key,
                            children: cs.push(LinkV { tag: tg, target: tt }),
                        },
                    ));
                    assert(self@ =~= spec_ensure_link(s0, key@, tg, tt));
                    assert forall|i2: int, j2: int| 0 <= i2 < j2 < self@.nodes.len() implies (
                    #[trigger] self@.nodes[i2]).key != (#[trigger] self@.nodes[j2]).key by {
                        assert(self@.nodes[i2].key == s0.nodes[i2].key);
                        assert(self@.nodes[j2].key == s0.nodes[j2].key);
                    }
                }
                return ;
            }
            proof {
                assert(find_node(s0.nodes, key@, i as int) == find_node(
                    s0.nodes,
                    key@,
                    i as int + 1,
                ));
            }
            i += 1;
        }
        proof {
            lemma_find_node(s0.nodes, key@, 0);
        }
        let mut children: Vec<Link> = Vec::new();
        children.push(Link { tag, target });
        proof {
            assert(children@.map_values(|l: Link| l@) =~= seq![LinkV { tag: tg, target: tt }]);
        }
        self.nodes.push(LinkNode { key: key.clone(), children });
        proof {
            assert(self@.nodes =~= s0.nodes.push(
                NodeV { key: key@, children: seq![LinkV { tag: tg, target: tt }] },
            ));
            assert(self@ =~= spec_ensure_link(s0, key@, tg, tt));
            assert forall|i2: int, j2: int| 0 <= i2 < j2 < self@.nodes.len() implies (
            #[trigger] self@.nodes[i2]).key != (#[trigger] self@.nodes[j2]).key by {
                if j2 == s0.nodes.len() {
                    assert(self@.nodes[i2] == s0.nodes[i2]);
                }
            }
        }
    }
}

/// Distinct creation-order addresses are distinct strings, so a
/// well-formed store resolves each address to at most one payload.
pub proof fn lemma_wf_hashes_distinct(s: StoreV)
    requires
        wf(s),
    ensures
        forall|i: int, j: int|
            0 <= i < j < s.entries.len() ==> (#[trigger] s.entries[i]).hash != (
            #[trigger] s.entries[j]).hash,
{
    assert forall|i: int, j: int|
        0 <= i < j < s.entries.len() implies (#[trigger] s.entries[i]).hash != (
    #[trigger] s.entries[j]).hash by {
        if s.entries[i].hash == s.entries[j].hash {
            lemma_dec_injective(i as nat, j as nat);
        }
    }
}

} // verus!
