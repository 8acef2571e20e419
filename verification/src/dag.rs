//! The event DAG of one topic: per-author chain integrity, cross-author
//! dependencies and insertion order.
//!
//! [`EventDag::insert`] validates an event in a fixed order: signature,
//! duplicate, genesis checks (seq 1), equivocation and chain integrity,
//! dependency presence, then commit. Every rejection is a [`DagError`];
//! missing dependencies are not an error but [`Inserted::Pending`]. The
//! DAG changes only when an event is newly applied.
use vstd::prelude::*;
use vstd::string::StringSliceAdditionalSpecFns;

use std::collections::BTreeMap;

use crate::crypto::{blake3_digest, ed25519_verifies, ed25519_verify_strict};
use crate::event::{
    body_hash_of, genesis_bytes, lemma_genesis_bytes_injective, topic_preimage, wire_hash_of,
    AuthorHead, AuthorSeq, Event, EventView, GenesisV1,
};
use crate::bytes::bytes32_lt;
use crate::ids::{id_eq, AuthorPubkey, BundleHash, EventHash, IdMap, IdSet, Topic};
use crate::topo::{
    canonical_order, depths_ok, hashes_of, key_before, lemma_canonical_unique, lemma_depths_unique,
    lemma_depths_insert, lemma_pairs_place, pair_before, pairs_match, pairs_sorted, parents_of,
};

verus! {

broadcast use {vstd::std_specs::btree::group_btree_axioms, vstd::laws_cmp::group_laws_cmp};

/// Why [`EventDag::insert`] rejected an event. A rejected event is not
/// inserted and the DAG is unchanged.
#[derive(Debug, Clone, PartialEq, Eq)]
pub enum DagError {
    /// The signature does not verify against the body hash.
    InvalidSignature,
    /// A genesis-specific invariant is violated; the message says which.
    InvalidGenesis(&'static str),
    /// The genesis payload decodes, but the topic it derives is not the
    /// DAG's topic.
    InvalidTopic {
        /// Topic the DAG is bound to.
        expected: Topic,
        /// Topic derived from the bundle hash, the genesis seed and the
        /// topic name.
        derived: Topic,
    },
    /// The event does not extend its author's chain: its seq or prev
    /// differs from the author's head.
    InvalidChain {
        /// The author.
        author: AuthorPubkey,
        /// `head_seq + 1`.
        expected_seq: u64,
        /// The event's seq.
        got_seq: u64,
        /// The author's head hash.
        expected_prev: EventHash,
        /// The event's prev.
        got_prev: EventHash,
    },
    /// The author already published a different event at this seq.
    Equivocation {
        /// The author.
        author: AuthorPubkey,
        /// The seq published twice.
        seq: u64,
        /// Wire hash already on file.
        local_hash: EventHash,
        /// Wire hash of the newcomer.
        remote_hash: EventHash,
    },
}

/// One author's chain: its head and the hash at every seq.
#[derive(Debug)]
pub struct AuthorChain {
    /// Highest seq the author has published (0 when empty).
    pub head_seq: u64,
    /// Wire hash at `head_seq` (all zero when empty).
    pub head_hash: EventHash,
    /// Wire hash at each seq `1..=head_seq`.
    pub seq_to_hash: BTreeMap<u64, EventHash>,
}

impl AuthorChain {
    /// The chain of an author with no events yet.
    pub fn empty() -> (r: Self)
        ensures
            r.head_seq == 0,
            r.head_hash.spec_is_zero(),
            r.seq_to_hash@ == Map::<u64, EventHash>::empty(),
    {
        AuthorChain { head_seq: 0, head_hash: EventHash::zero(), seq_to_hash: BTreeMap::new() }
    }

    /// The chain holds exactly the seqs `1..=head_seq`, its head hash is
    /// the hash at `head_seq` (zero for the empty chain).
    pub open spec fn wf(&self) -> bool {
        &&& forall|s: u64| #[trigger] self.seq_to_hash@.contains_key(s) <==> 1 <= s <= self.head_seq
        &&& self.head_seq == 0 ==> self.head_hash.spec_is_zero()
        &&& self.head_seq > 0 ==> self.seq_to_hash@[self.head_seq] == self.head_hash
    }
}

impl Default for AuthorChain {
    fn default() -> (r: Self)
        ensures
            r.head_seq == 0,
            r.head_hash.spec_is_zero(),
            r.seq_to_hash@ == Map::<u64, EventHash>::empty(),
    {
        Self::empty()
    }
}

/// Success outcome of [`EventDag::insert`].
#[derive(Debug, Clone)]
pub enum Inserted {
    /// The event was committed at `topo_index` (insertion order, from 0).
    NewlyApplied {
        /// Position in insertion order.
        topo_index: u64,
        /// Wire hash of the event.
        hash: EventHash,
    },
    /// The event was already in the DAG.
    AlreadyKnown,
    /// The event is well formed but these dependencies are not known yet.
    Pending(IdSet<EventHash>),
}

struct DagEntry {
    hash: EventHash,
    event: Event,
    /// The event's parents: its deps and its prev (unless zero).
    parents: IdSet<EventHash>,
}

/// The in-memory event DAG of one topic.
pub struct EventDag {
    entries: Vec<DagEntry>,
    by_author: IdMap<AuthorPubkey, AuthorChain>,
    /// The authors with a chain, in ascending key order.
    authors: IdSet<AuthorPubkey>,
    topic: Topic,
    app_bundle_hash: BundleHash,
    topic_name: String,
    next_topo_index: u64,
    /// (depth, wire hash) of every event, in canonical order.
    canonical: Vec<(u64, EventHash)>,
    /// The causal depth of every event.
    depth_map: Ghost<Map<EventHash, u64>>,
}

/// Whether the signature of `ev` verifies over its body hash under its
/// author's key.
pub open spec fn signature_ok(ev: EventView) -> bool {
    ed25519_verifies(ev.author.bytes@, body_hash_of(ev), ev.signature)
}

/// Whether `payload` is the canonical encoding of a genesis payload.
pub open spec fn is_genesis_payload(payload: Seq<u8>) -> bool {
    exists|seed: Seq<u8>, founder: AuthorPubkey, p: Seq<u8>|
        seed.len() == 32 && #[trigger] genesis_bytes(seed, founder, p) == payload
}

/// The seed and founder of a canonical genesis payload.
pub open spec fn genesis_fields(payload: Seq<u8>) -> (Seq<u8>, AuthorPubkey) {
    let (seed, founder, p) = choose|seed: Seq<u8>, founder: AuthorPubkey, p: Seq<u8>|
        seed.len() == 32 && #[trigger] genesis_bytes(seed, founder, p) == payload;
    (seed, founder)
}

impl EventDag {
    /// The events, keyed by wire hash.
    pub closed spec fn events(&self) -> Map<EventHash, EventView> {
        Map::new(
            |h: EventHash| exists|i: int| 0 <= i < self.entries@.len() && #[trigger] self.entries@[i].hash == h,
            |h: EventHash|
                self.entries@[choose|i: int| 0 <= i < self.entries@.len() && #[trigger] self.entries@[i].hash == h].event@,
        )
    }

    /// Whether an event with wire hash bytes `w` is in the DAG.
    pub open spec fn knows(&self, w: Seq<u8>) -> bool {
        exists|h: EventHash| #[trigger] self.events().contains_key(h) && h.bytes@ == w
    }

    /// The author chains.
    pub closed spec fn chains(&self) -> Map<AuthorPubkey, AuthorChain> {
        self.by_author@
    }

    /// Number of events inserted so far; the next topo index.
    pub closed spec fn size(&self) -> nat {
        self.next_topo_index as nat
    }

    /// The topic the DAG is bound to.
    pub closed spec fn topic(&self) -> Topic {
        self.topic
    }

    /// The bundle hash of the application.
    pub closed spec fn bundle(&self) -> BundleHash {
        self.app_bundle_hash
    }

    /// The UTF-8 bytes of the topic name.
    pub closed spec fn name_bytes(&self) -> Seq<u8> {
        vstd::utf8::encode_utf8(self.topic_name@)
    }

    /// Structural invariant.
    pub closed spec fn wf(&self) -> bool {
        &&& self.by_author.wf()
        &&& self.next_topo_index == self.entries@.len()
        &&& forall|i: int, j: int|
            0 <= i < j < self.entries@.len() ==> #[trigger] self.entries@[i].hash
                != #[trigger] self.entries@[j].hash
        &&& forall|i: int|
            0 <= i < self.entries@.len() ==> (#[trigger] self.entries@[i]).hash.bytes@
                == wire_hash_of(self.entries@[i].event@)
        &&& forall|a: AuthorPubkey| #[trigger]
            self.by_author@.contains_key(a) ==> {
                let c = self.by_author@[a];
                &&& c.wf()
                &&& c.head_seq <= self.next_topo_index
                &&& forall|s: u64| #[trigger]
                    c.seq_to_hash@.contains_key(s) ==> {
                        &&& self.events().contains_key(c.seq_to_hash@[s])
                        &&& self.events()[c.seq_to_hash@[s]].author == a
                        &&& self.events()[c.seq_to_hash@[s]].seq == s
                    }
            }
        &&& self.causal()
        &&& self.order_wf()
        &&& self.authors.wf()
        &&& self.authors@ == self.by_author@.dom()
    }

    /// The canonical order is kept: the depths are those of the events,
    /// the pairs are sorted, carry each event's depth, and list exactly
    /// the events.
    closed spec fn order_wf(&self) -> bool {
        &&& depths_ok(self.events(), self.depth_map@)
        &&& pairs_sorted(self.canonical@)
        &&& pairs_match(self.canonical@, self.depth_map@)
        &&& forall|h: EventHash| #[trigger] hashes_of(self.canonical@).contains(h) <==> self.events().contains_key(h)
        &&& forall|h: EventHash| #[trigger] self.depth_map@.contains_key(h) ==> self.depth_map@[h] <= self.entries@.len()
    }

    /// The causal depth of every event: one more than its deepest parent.
    pub closed spec fn depths(&self) -> Map<EventHash, u64> {
        self.depth_map@
    }

    /// The events' wire hashes in canonical topological order: by causal
    /// depth, ties broken by the smaller hash.
    pub closed spec fn topo(&self) -> Seq<EventHash> {
        hashes_of(self.canonical@)
    }

    /// Every dependency and the (non-zero) prev of each entry is the
    /// hash of an earlier entry.
    closed spec fn causal(&self) -> bool {
        &&& forall|i: int, d: EventHash|
            0 <= i < self.entries@.len() && #[trigger] self.entries@[i].event@.deps.contains(d) ==> exists|j: int|
                0 <= j < i && #[trigger] self.entries@[j].hash == d
        &&& forall|i: int|
            0 <= i < self.entries@.len() && !(#[trigger] self.entries@[i].event@.prev.spec_is_zero()) ==> exists|
                j: int,
            |
                0 <= j < i && #[trigger] self.entries@[j].hash == self.entries@[i].event@.prev
    }

    /// The wire hashes of the events, in the order they were applied:
    /// the event at topological index `i` is `order()[i]`.
    pub closed spec fn order(&self) -> Seq<EventHash> {
        self.entries@.map_values(|e: DagEntry| e.hash)
    }
}


/// The bytes hashed into the topic derived from a genesis payload.
pub open spec fn derived_topic_bytes(dag: &EventDag, payload: Seq<u8>) -> Seq<u8> {
    blake3_digest(topic_preimage(dag.bundle(), genesis_fields(payload).0, dag.name_bytes()))
}

/// The seq-to-hash map of `a`'s chain (empty when the author is
/// unknown).
pub open spec fn chain_map(dag: &EventDag, a: AuthorPubkey) -> Map<u64, EventHash> {
    if dag.chains().contains_key(a) {
        dag.chains()[a].seq_to_hash@
    } else {
        Map::empty()
    }
}

/// The head seq of `a`'s chain (0 when the author is unknown).
pub open spec fn head_seq_of(dag: &EventDag, a: AuthorPubkey) -> u64 {
    if dag.chains().contains_key(a) {
        dag.chains()[a].head_seq
    } else {
        0
    }
}

/// Whether `ev`'s prev is the head hash of its author's chain (the zero
/// hash when the author is unknown).
pub open spec fn prev_matches(dag: &EventDag, ev: EventView) -> bool {
    if dag.chains().contains_key(ev.author) {
        ev.prev == dag.chains()[ev.author].head_hash
    } else {
        ev.prev.spec_is_zero()
    }
}

/// Whether the author already has a different event at `ev.seq`.
pub open spec fn equivocates(dag: &EventDag, ev: EventView) -> bool {
    &&& dag.chains().contains_key(ev.author)
    &&& dag.chains()[ev.author].seq_to_hash@.contains_key(ev.seq)
    &&& dag.chains()[ev.author].seq_to_hash@[ev.seq].bytes@ != wire_hash_of(ev)
}

/// Whether the genesis-specific checks pass (vacuous for seq other than 1).
pub open spec fn genesis_ok(dag: &EventDag, ev: EventView) -> bool {
    ev.seq == 1 ==> {
        &&& ev.prev.spec_is_zero()
        &&& ev.deps.len() == 0
        &&& is_genesis_payload(ev.payload)
        &&& derived_topic_bytes(dag, ev.payload) == dag.topic().bytes@
        &&& genesis_fields(ev.payload).1 == ev.author
    }
}

/// Whether `ev` passes every check before the dependency check.
pub open spec fn admissible(dag: &EventDag, ev: EventView) -> bool {
    &&& signature_ok(ev)
    &&& !dag.knows(wire_hash_of(ev))
    &&& genesis_ok(dag, ev)
    &&& !equivocates(dag, ev)
    &&& ev.seq == head_seq_of(dag, ev.author) + 1
    &&& prev_matches(dag, ev)
}

/// The dependencies of `ev` that are not in the DAG.
pub open spec fn missing_deps(dag: &EventDag, ev: EventView) -> Set<EventHash> {
    ev.deps.to_set().filter(|d: EventHash| !dag.events().contains_key(d))
}

impl EventDag {
    /// An empty DAG bound to `topic`, for the application `app_bundle_hash`
    /// whose (already normalized) topic name is `topic_name`.
    pub fn new(topic: Topic, app_bundle_hash: BundleHash, topic_name: String) -> (r: Self)
        ensures
            r.wf(),
            r.events() == Map::<EventHash, EventView>::empty(),
            r.chains() == Map::<AuthorPubkey, AuthorChain>::empty(),
            r.size() == 0,
            r.topic() == topic,
            r.bundle() == app_bundle_hash,
            r.name_bytes() == vstd::utf8::encode_utf8(topic_name@),
    {
        let r = EventDag {
            entries: Vec::new(),
            by_author: IdMap::new(),
            authors: IdSet::new(),
            topic,
            app_bundle_hash,
            topic_name,
            next_topo_index: 0,
            canonical: Vec::new(),
            depth_map: Ghost(Map::empty()),
        };
        assert(r.events() =~= Map::<EventHash, EventView>::empty());
        assert(r.authors@ =~= r.by_author@.dom());
        assert(r.depth_map@.dom() =~= r.events().dom());
        assert(hashes_of(r.canonical@) =~= Seq::<EventHash>::empty());
        r
    }

    /// Number of events in the DAG.
    pub fn len(&self) -> (r: usize)
        requires
            self.wf(),
        ensures
            r == self.size(),
            r == self.events().len(),
    {
        proof {
            self.lemma_events_len();
        }
        self.entries.len()
    }

    /// The number of events is the number of entries.
    proof fn lemma_events_len(&self)
        requires
            self.wf(),
        ensures
            self.events().dom().finite(),
            self.events().len() == self.entries@.len(),
    {
        let hs = self.entries@.map_values(|e: DagEntry| e.hash);
        assert(hs.no_duplicates()) by {
            assert forall|i: int, j: int| 0 <= i < hs.len() && 0 <= j < hs.len() && i != j implies hs[i] != hs[j] by {
                if i < j {
                    assert(self.entries@[i].hash != self.entries@[j].hash);
                } else {
                    assert(self.entries@[j].hash != self.entries@[i].hash);
                }
            }
        }
        assert(self.events().dom() =~= hs.to_set()) by {
            assert forall|h: EventHash| #[trigger] self.events().dom().contains(h) <==> hs.to_set().contains(h) by {
                if self.events().dom().contains(h) {
                    let i = choose|i: int| 0 <= i < self.entries@.len() && #[trigger] self.entries@[i].hash == h;
                    assert(hs[i] == h);
                }
                if hs.to_set().contains(h) {
                    let i = choose|i: int| 0 <= i < hs.len() && hs[i] == h;
                    assert(self.entries@[i].hash == h);
                }
            }
        }
        hs.unique_seq_to_set();
    }

    /// The entry at index `i` is the event its hash maps to.
    proof fn lemma_entry(&self, i: int)
        requires
            self.wf(),
            0 <= i < self.entries@.len(),
        ensures
            self.events().contains_key(self.entries@[i].hash),
            self.events()[self.entries@[i].hash] == self.entries@[i].event@,
    {
        let h = self.entries@[i].hash;
        assert(self.events().dom().contains(h));
        let c = choose|j: int| 0 <= j < self.entries@.len() && #[trigger] self.entries@[j].hash == h;
        if c != i {
            if c < i {
                assert(self.entries@[c].hash != self.entries@[i].hash);
            } else {
                assert(self.entries@[i].hash != self.entries@[c].hash);
            }
        }
    }

    /// Entry hashes are distinct.
    closed spec fn wf_entries_partial(&self) -> bool {
        forall|i: int, j: int|
            0 <= i < j < self.entries@.len() ==> #[trigger] self.entries@[i].hash
                != #[trigger] self.entries@[j].hash
    }

    proof fn lemma_entry_partial(&self, i: int)
        requires
            self.wf_entries_partial(),
            0 <= i < self.entries@.len(),
        ensures
            self.events().contains_key(self.entries@[i].hash),
            self.events()[self.entries@[i].hash] == self.entries@[i].event@,
    {
        let h = self.entries@[i].hash;
        assert(self.events().dom().contains(h));
        let c = choose|j: int| 0 <= j < self.entries@.len() && #[trigger] self.entries@[j].hash == h;
        if c != i {
            if c < i {
                assert(self.entries@[c].hash != self.entries@[i].hash);
            } else {
                assert(self.entries@[i].hash != self.entries@[c].hash);
            }
        }
    }

    /// `knows` is membership of the hash.
    pub proof fn lemma_knows(&self, h: EventHash)
        ensures
            self.knows(h.bytes@) <==> self.events().contains_key(h),
    {
        if self.knows(h.bytes@) {
            let h2 = choose|h2: EventHash| #[trigger] self.events().contains_key(h2) && h2.bytes@ == h.bytes@;
            assert(h2.bytes == h.bytes);
        }
    }

    /// No author's head seq exceeds the number of events.
    pub proof fn lemma_head_seq_bounded(&self, a: AuthorPubkey)
        requires
            self.wf(),
        ensures
            head_seq_of(self, a) <= self.size(),
    {
    }

    /// The order lists every event once: its length is the number of
    /// events, and a hash is in it exactly when it is an event's.
    pub proof fn lemma_order_lists_events(&self)
        requires
            self.wf(),
        ensures
            self.order().len() == self.size(),
            self.order().no_duplicates(),
            forall|h: EventHash| #[trigger] self.order().contains(h) <==> self.events().contains_key(h),
    {
        let o = self.order();
        assert forall|i: int, j: int| 0 <= i < o.len() && 0 <= j < o.len() && i != j implies o[i] != o[j] by {
            if i < j {
                assert(self.entries@[i].hash != self.entries@[j].hash);
            } else {
                assert(self.entries@[j].hash != self.entries@[i].hash);
            }
        }
        assert forall|h: EventHash| #[trigger] o.contains(h) <==> self.events().contains_key(h) by {
            if o.contains(h) {
                let i = choose|i: int| 0 <= i < o.len() && o[i] == h;
                assert(self.entries@[i].hash == h);
            }
            if self.events().contains_key(h) {
                let i = choose|i: int| 0 <= i < self.entries@.len() && #[trigger] self.entries@[i].hash == h;
                assert(o[i] == h);
            }
        }
    }

    /// The order is causal: every dependency and the (non-zero) prev of
    /// the event at topological index `i` come earlier in it.
    pub proof fn lemma_order_is_causal(&self, i: int)
        requires
            self.wf(),
            0 <= i < self.order().len(),
        ensures
            self.events().contains_key(self.order()[i]),
            forall|d: EventHash| #[trigger]
                self.events()[self.order()[i]].deps.contains(d) ==> exists|j: int| 0 <= j < i && self.order()[j] == d,
            !self.events()[self.order()[i]].prev.spec_is_zero() ==> exists|j: int|
                0 <= j < i && self.order()[j] == self.events()[self.order()[i]].prev,
    {
        self.lemma_entry(i);
        let o = self.order();
        assert(o[i] == self.entries@[i].hash);
        assert forall|d: EventHash| #[trigger] self.events()[o[i]].deps.contains(d) implies exists|j: int|
            0 <= j < i && o[j] == d by {
            assert(self.entries@[i].event@.deps.contains(d));
            let j = choose|j: int| 0 <= j < i && #[trigger] self.entries@[j].hash == d;
            assert(o[j] == d);
        }
        if !self.events()[o[i]].prev.spec_is_zero() {
            assert(!self.entries@[i].event@.prev.spec_is_zero());
            let j = choose|j: int| 0 <= j < i && #[trigger] self.entries@[j].hash == self.entries@[i].event@.prev;
            assert(o[j] == self.entries@[i].event@.prev);
        }
    }

    /// Every author chain holds exactly its seqs `1..=head_seq`.
    pub proof fn lemma_chain_wf(&self, a: AuthorPubkey)
        requires
            self.wf(),
            self.chains().contains_key(a),
        ensures
            self.chains()[a].wf(),
    {
    }

    /// Every hash recorded in a chain is an event of the DAG.
    pub proof fn lemma_chain_hashes_known(&self, a: AuthorPubkey, s: u64)
        requires
            self.wf(),
            self.chains().contains_key(a),
            self.chains()[a].seq_to_hash@.contains_key(s),
        ensures
            self.events().contains_key(self.chains()[a].seq_to_hash@[s]),
    {
    }

    /// An author's chain lists that author's events: the hash at seq `s`
    /// is the hash of an event in the DAG by that author at seq `s`.
    pub proof fn lemma_chain_lists_author_events(&self, a: AuthorPubkey, s: u64)
        requires
            self.wf(),
            self.chains().contains_key(a),
            self.chains()[a].seq_to_hash@.contains_key(s),
        ensures
            self.events().contains_key(self.chains()[a].seq_to_hash@[s]),
            self.events()[self.chains()[a].seq_to_hash@[s]].author == a,
            self.events()[self.chains()[a].seq_to_hash@[s]].seq == s,
    {
    }

    /// Every event in the DAG is stored under its wire hash.
    pub proof fn lemma_keys_are_wire_hashes(&self, h: EventHash)
        requires
            self.wf(),
            self.events().contains_key(h),
        ensures
            h.bytes@ == wire_hash_of(self.events()[h]),
    {
        let i = choose|i: int| 0 <= i < self.entries@.len() && #[trigger] self.entries@[i].hash == h;
        self.lemma_entry(i);
    }

    fn position(&self, h: &EventHash) -> (r: Option<usize>)
        requires
            self.wf(),
        ensures
            match r {
                Some(i) => i < self.entries@.len() && self.entries@[i as int].hash == *h,
                None => !self.events().contains_key(*h),
            },
    {
        let mut i: usize = 0;
        while i < self.entries.len()
            invariant
                i <= self.entries@.len(),
                forall|j: int| 0 <= j < i ==> self.entries@[j].hash != *h,
            decreases self.entries@.len() - i,
        {
            if id_eq(&self.entries[i].hash, h) {
                return Some(i);
            }
            i = i + 1;
        }
        proof {
            if self.events().contains_key(*h) {
                let j = choose|j: int| 0 <= j < self.entries@.len() && #[trigger] self.entries@[j].hash == *h;
                assert(false);
            }
        }
        None
    }

    /// The canonical order is kept by a commit that places the new pair
    /// at its slot.
    proof fn lemma_commit_order(&self, o: &EventDag, wire: EventHash, ev: EventView, d: u64, slot: int)
        requires
            o.wf(),
            self.events() == o.events().insert(wire, ev),
            !o.events().contains_key(wire),
            self.entries@.len() == o.entries@.len() + 1,
            forall|p: EventHash| #[trigger] parents_of(ev).contains(p) ==> o.events().contains_key(p) && o.depths()[p] < d,
            parents_of(ev).is_empty() ==> d == 1,
            !parents_of(ev).is_empty() ==> exists|p: EventHash|
                #[trigger] parents_of(ev).contains(p) && o.depths()[p] == d - 1,
            1 <= d <= o.entries@.len() + 1,
            0 <= slot <= o.canonical@.len(),
            forall|q: int| 0 <= q < slot ==> !pair_before((d, wire), #[trigger] o.canonical@[q]),
            slot < o.canonical@.len() ==> pair_before((d, wire), o.canonical@[slot]),
            self.canonical@ == o.canonical@.insert(slot, (d, wire)),
            self.depth_map@ == o.depth_map@.insert(wire, d),
        ensures
            self.order_wf(),
    {
        lemma_depths_insert(o.events(), o.depth_map@, wire, ev, d);
        assert(pairs_match(o.canonical@, o.depth_map@));
        lemma_pairs_place(o.canonical@, o.depth_map@, o.events().dom(), wire, d, slot);
        assert(o.events().dom().insert(wire) =~= self.events().dom());
        assert forall|h: EventHash| #[trigger] self.depth_map@.contains_key(h) implies self.depth_map@[h]
            <= self.entries@.len() by {
            if h != wire {
                assert(o.depth_map@.contains_key(h));
            }
        }
    }

    /// The wire hashes in canonical topological order (see [`EventDag::topo`]).
    pub fn topo_sort(&self) -> (r: Vec<EventHash>)
        ensures
            r@ == self.topo(),
    {
        let mut out: Vec<EventHash> = Vec::new();
        let mut i: usize = 0;
        while i < self.canonical.len()
            invariant
                i <= self.canonical@.len(),
                out@.len() == i,
                forall|j: int| 0 <= j < i ==> out@[j] == #[trigger] self.canonical@[j].1,
            decreases self.canonical@.len() - i,
        {
            out.push(self.canonical[i].1);
            i = i + 1;
        }
        assert(out@ =~= self.topo());
        out
    }

    /// The depth of a known event.
    fn depth_lookup(&self, h: &EventHash) -> (r: u64)
        requires
            self.wf(),
            self.events().contains_key(*h),
        ensures
            r == self.depths()[*h],
    {
        assert(hashes_of(self.canonical@).contains(*h));
        let mut i: usize = 0;
        while i < self.canonical.len()
            invariant
                self.wf(),
                i <= self.canonical@.len(),
                forall|j: int| 0 <= j < i ==> self.canonical@[j].1 != *h,
                hashes_of(self.canonical@).contains(*h),
            decreases self.canonical@.len() - i,
        {
            if id_eq(&self.canonical[i].1, h) {
                return self.canonical[i].0;
            }
            i = i + 1;
        }
        proof {
            let k = choose|k: int| 0 <= k < hashes_of(self.canonical@).len() && hashes_of(self.canonical@)[k] == *h;
            assert(self.canonical@[k].1 == *h);
        }
        0
    }

    /// The depth a new event takes: one more than its deepest parent,
    /// all of which are known.
    fn new_depth(&self, event: &Event) -> (d: u64)
        requires
            self.wf(),
            self.size() < u64::MAX,
            forall|p: EventHash| #[trigger] parents_of(event@).contains(p) ==> self.events().contains_key(p),
        ensures
            1 <= d <= self.size() + 1,
            forall|p: EventHash| #[trigger] parents_of(event@).contains(p) ==> self.depths()[p] < d,
            parents_of(event@).is_empty() ==> d == 1,
            !parents_of(event@).is_empty() ==> exists|p: EventHash|
                #[trigger] parents_of(event@).contains(p) && self.depths()[p] == d - 1,
    {
        let ds = event.deps.as_slice();
        let mut m: u64 = 0;
        let mut i: usize = 0;
        let ghost ps = parents_of(event@);
        while i < ds.len()
            invariant
                self.wf(),
                ds@ == event.deps.elems(),
                ps == parents_of(event@),
                forall|p: EventHash| #[trigger] ps.contains(p) ==> self.events().contains_key(p),
                i <= ds@.len(),
                m <= self.size(),
                forall|j: int| 0 <= j < i ==> self.depths()[#[trigger] ds@[j]] <= m,
                m == 0 || exists|j: int| 0 <= j < i && self.depths()[#[trigger] ds@[j]] == m,
            decreases ds@.len() - i,
        {
            proof {
                assert(event@.deps.contains(ds@[i as int]));
                assert(ps.contains(ds@[i as int]));
            }
            let x = self.depth_lookup(&ds[i]);
            proof {
                assert(self.depth_map@.contains_key(ds@[i as int]));
            }
            if x > m {
                m = x;
            }
            i = i + 1;
        }
        if !event.prev.is_zero() {
            proof {
                assert(ps.contains(event.prev));
            }
            let x = self.depth_lookup(&event.prev);
            proof {
                assert(self.depth_map@.contains_key(event.prev));
            }
            if x > m {
                m = x;
            }
        }
        proof {
            assert forall|p: EventHash| #[trigger] ps.contains(p) implies self.depths()[p] <= m by {
                if event@.deps.to_set().contains(p) {
                    let j = choose|j: int| 0 <= j < ds@.len() && ds@[j] == p;
                    assert(self.depths()[ds@[j]] <= m);
                }
            }
            if m == 0 {
                if !ps.is_empty() {
                    let p = ps.choose();
                    assert(ps.contains(p));
                    assert(self.events().contains_key(p));
                    assert(self.depths()[p] >= 1) by {
                        let e = self.events();
                        if parents_of(e[p]).is_empty() {
                        } else {
                            let q = choose|q: EventHash| #[trigger] parents_of(e[p]).contains(q) && self.depths()[q] == self.depths()[p] - 1;
                        }
                    }
                }
            } else {
                if !event.prev.spec_is_zero() && self.depths()[event.prev] == m {
                    assert(ps.contains(event.prev));
                } else {
                    let j = choose|j: int| 0 <= j < ds@.len() && self.depths()[#[trigger] ds@[j]] == m;
                    assert(ps.contains(ds@[j]));
                }
            }
        }
        m + 1
    }

    /// The position at which the pair `(d, wire)` goes in the canonical
    /// order: after every pair it does not precede.
    fn canonical_slot(&self, d: u64, wire: &EventHash) -> (p: usize)
        ensures
            p <= self.canonical@.len(),
            forall|q: int| 0 <= q < p ==> !pair_before((d, *wire), #[trigger] self.canonical@[q]),
            p < self.canonical@.len() ==> pair_before((d, *wire), self.canonical@[p as int]),
    {
        let mut p: usize = 0;
        while p < self.canonical.len()
            invariant
                p <= self.canonical@.len(),
                forall|q: int| 0 <= q < p ==> !pair_before((d, *wire), #[trigger] self.canonical@[q]),
            decreases self.canonical@.len() - p,
        {
            let c = self.canonical[p];
            if d < c.0 || (d == c.0 && bytes32_lt(&wire.bytes, &c.1.bytes)) {
                return p;
            }
            p = p + 1;
        }
        p
    }

    /// The canonical order is determined by the events: it lists each
    /// event once, by depth then hash, and every parent of an event comes
    /// before it.
    pub proof fn lemma_topo_is_canonical(&self)
        requires
            self.wf(),
        ensures
            depths_ok(self.events(), self.depths()),
            canonical_order(self.events().dom(), self.depths(), self.topo()),
    {
        let t = self.topo();
        let c = self.canonical@;
        assert forall|i: int, j: int| 0 <= i < j < t.len() implies key_before(self.depths(), #[trigger] t[i], #[trigger] t[j]) by {
            assert(pair_before(c[i], c[j]));
            assert(c[i].0 == self.depth_map@[c[i].1]);
            assert(c[j].0 == self.depth_map@[c[j].1]);
        }
        assert forall|h: EventHash| #[trigger] t.contains(h) <==> self.events().dom().contains(h) by {
            assert(hashes_of(c).contains(h) <==> self.events().contains_key(h));
        }
    }

    /// The canonical order is topological: a parent of an event comes
    /// before it.
    pub proof fn lemma_topo_parents_first(&self, i: int, j: int)
        requires
            self.wf(),
            0 <= i < self.topo().len(),
            0 <= j < self.topo().len(),
            parents_of(self.events()[self.topo()[j]]).contains(self.topo()[i]),
        ensures
            i < j,
    {
        self.lemma_topo_is_canonical();
        let t = self.topo();
        assert(t.contains(t[j]));
        assert(self.events().contains_key(t[j]));
        assert(self.depths()[t[i]] < self.depths()[t[j]]);
        if j < i {
            assert(key_before(self.depths(), t[j], t[i]));
        }
    }

    /// Two DAGs that hold the same events have the same depths and the
    /// same topological order, whatever order the events arrived in.
    pub proof fn lemma_topo_determined_by_events(&self, other: &EventDag)
        requires
            self.wf(),
            other.wf(),
            self.events() == other.events(),
        ensures
            self.depths() == other.depths(),
            self.topo() == other.topo(),
    {
        self.lemma_topo_is_canonical();
        other.lemma_topo_is_canonical();
        lemma_depths_unique(self.events(), self.depths(), other.depths());
        lemma_canonical_unique(self.events().dom(), self.depths(), self.topo(), other.topo());
    }

    /// Look up an event by its wire hash.
    pub fn get(&self, hash: &EventHash) -> (r: Option<&Event>)
        requires
            self.wf(),
        ensures
            match r {
                Some(e) => self.events().contains_key(*hash) && e@ == self.events()[*hash],
                None => !self.events().contains_key(*hash),
            },
    {
        match self.position(hash) {
            Some(i) => {
                proof {
                    self.lemma_entry(i as int);
                }
                Some(&self.entries[i].event)
            },
            None => None,
        }
    }

    /// Whether an event with this wire hash is in the DAG.
    pub fn contains(&self, hash: &EventHash) -> (r: bool)
        requires
            self.wf(),
        ensures
            r == self.events().contains_key(*hash),
    {
        match self.position(hash) {
            Some(i) => {
                proof {
                    self.lemma_entry(i as int);
                }
                true
            },
            None => false,
        }
    }

    /// The wire hashes of all events in the DAG.
    pub fn known_hashes(&self) -> (r: IdSet<EventHash>)
        requires
            self.wf(),
        ensures
            r.wf(),
            r@ == self.events().dom(),
    {
        let mut out: IdSet<EventHash> = IdSet::new();
        let mut i: usize = 0;
        while i < self.entries.len()
            invariant
                self.wf(),
                i <= self.entries@.len(),
                out.wf(),
                out@ == Set::new(|h: EventHash| exists|j: int| 0 <= j < i && #[trigger] self.entries@[j].hash == h),
            decreases self.entries@.len() - i,
        {
            out.insert(self.entries[i].hash);
            i = i + 1;
            assert(out@ =~= Set::new(|h: EventHash| exists|j: int| 0 <= j < i && #[trigger] self.entries@[j].hash == h)) by {
                assert(self.entries@[i - 1].hash == self.entries@[i - 1].hash);
            }
        }
        assert(out@ =~= self.events().dom());
        out
    }

    /// The authors with a chain, in the order their first event arrived.
    pub closed spec fn author_order(&self) -> Seq<AuthorPubkey> {
        self.authors.elems()
    }

    /// Every author with a chain occurs exactly once in `author_order`,
    /// which is in ascending key order.
    pub proof fn lemma_author_order(&self)
        requires
            self.wf(),
        ensures
            self.author_order().no_duplicates(),
            crate::ids::strictly_sorted(self.author_order()),
            forall|a: AuthorPubkey| #[trigger] self.author_order().contains(a) <==> self.chains().contains_key(a),
    {
        crate::ids::lemma_sorted_no_duplicates(self.author_order());
        assert forall|a: AuthorPubkey| #[trigger] self.author_order().contains(a) <==> self.chains().contains_key(a) by {
            assert(self.authors@.contains(a) <==> self.author_order().contains(a));
        }
    }

    /// The head of every author's chain, in `author_order`.
    pub fn author_heads(&self) -> (r: Vec<AuthorHead>)
        requires
            self.wf(),
        ensures
            r@.len() == self.author_order().len(),
            forall|i: int|
                0 <= i < r@.len() ==> #[trigger] r@[i] == (AuthorHead {
                    author: self.author_order()[i],
                    seq: self.chains()[self.author_order()[i]].head_seq,
                    hash: self.chains()[self.author_order()[i]].head_hash,
                }),
    {
        let mut out: Vec<AuthorHead> = Vec::new();
        let keys = self.authors.as_slice();
        proof {
            self.lemma_author_order();
        }
        let mut i: usize = 0;
        while i < keys.len()
            invariant
                self.wf(),
                keys@ == self.author_order(),
                forall|a: AuthorPubkey| #[trigger] self.author_order().contains(a) <==> self.chains().contains_key(a),
                i <= keys@.len(),
                out@.len() == i,
                forall|j: int|
                    0 <= j < i ==> #[trigger] out@[j] == (AuthorHead {
                        author: self.author_order()[j],
                        seq: self.chains()[self.author_order()[j]].head_seq,
                        hash: self.chains()[self.author_order()[j]].head_hash,
                    }),
            decreases keys@.len() - i,
        {
            let a = keys[i];
            assert(self.author_order().contains(a));
            let c = self.by_author.get(&a).unwrap();
            out.push(AuthorHead { author: a, seq: c.head_seq, hash: c.head_hash });
            i = i + 1;
        }
        out
    }

    /// Every author's head seq, in `author_order`.
    pub fn author_seq_vec(&self) -> (r: Vec<AuthorSeq>)
        requires
            self.wf(),
        ensures
            r@.len() == self.author_order().len(),
            forall|i: int|
                0 <= i < r@.len() ==> #[trigger] r@[i] == (AuthorSeq {
                    author: self.author_order()[i],
                    max_seq: self.chains()[self.author_order()[i]].head_seq,
                }),
    {
        let mut out: Vec<AuthorSeq> = Vec::new();
        let keys = self.authors.as_slice();
        proof {
            self.lemma_author_order();
        }
        let mut i: usize = 0;
        while i < keys.len()
            invariant
                self.wf(),
                keys@ == self.author_order(),
                forall|a: AuthorPubkey| #[trigger] self.author_order().contains(a) <==> self.chains().contains_key(a),
                i <= keys@.len(),
                out@.len() == i,
                forall|j: int|
                    0 <= j < i ==> #[trigger] out@[j] == (AuthorSeq {
                        author: self.author_order()[j],
                        max_seq: self.chains()[self.author_order()[j]].head_seq,
                    }),
            decreases keys@.len() - i,
        {
            let a = keys[i];
            assert(self.author_order().contains(a));
            let c = self.by_author.get(&a).unwrap();
            out.push(AuthorSeq { author: a, max_seq: c.head_seq });
            i = i + 1;
        }
        out
    }

    /// The chain of `author`, if the author has events in the DAG.
    pub fn author_chain(&self, author: &AuthorPubkey) -> (r: Option<&AuthorChain>)
        requires
            self.wf(),
        ensures
            match r {
                Some(c) => self.chains().contains_key(*author) && *c == self.chains()[*author],
                None => !self.chains().contains_key(*author),
            },
    {
        self.by_author.get(author)
    }

    /// Insert an event. See the module documentation for the order of
    /// the checks. The DAG changes only on `Ok(NewlyApplied)`.
    pub fn insert(&mut self, event: Event) -> (r: Result<Inserted, DagError>)
        requires
            old(self).wf(),
            old(self).size() < u64::MAX,
        ensures
            final(self).wf(),
            final(self).topic() == old(self).topic(),
            final(self).bundle() == old(self).bundle(),
            final(self).name_bytes() == old(self).name_bytes(),
            !(r matches Ok(Inserted::NewlyApplied { .. })) ==> {
                &&& final(self).events() == old(self).events()
                &&& final(self).chains() == old(self).chains()
                &&& final(self).size() == old(self).size()
                &&& final(self).order() == old(self).order()
            },
            !signature_ok(event@) ==> r == Err::<Inserted, DagError>(DagError::InvalidSignature),
            signature_ok(event@) && old(self).knows(wire_hash_of(event@)) ==> r matches Ok(
                Inserted::AlreadyKnown,
            ),
            signature_ok(event@) && !old(self).knows(wire_hash_of(event@)) && event.seq == 1 ==> {
                if !event.prev.spec_is_zero() {
                    r == Err::<Inserted, DagError>(DagError::InvalidGenesis("prev != ZERO"))
                } else if event.deps.elems().len() != 0 {
                    r == Err::<Inserted, DagError>(DagError::InvalidGenesis("deps != empty"))
                } else if !is_genesis_payload(event.payload@) {
                    r == Err::<Inserted, DagError>(
                        DagError::InvalidGenesis("payload not a canonical GenesisV1"),
                    )
                } else if derived_topic_bytes(old(self), event.payload@) != old(self).topic().bytes@ {
                    &&& r matches Err(DagError::InvalidTopic { expected, derived })
                    &&& expected == old(self).topic()
                    &&& derived.bytes@ == derived_topic_bytes(old(self), event.payload@)
                } else if genesis_fields(event.payload@).1 != event.author {
                    r == Err::<Inserted, DagError>(DagError::InvalidGenesis("author != founder_pubkey"))
                } else {
                    true
                }
            },
            signature_ok(event@) && !old(self).knows(wire_hash_of(event@)) && genesis_ok(old(self), event@)
                && equivocates(old(self), event@) ==> {
                &&& r matches Err(DagError::Equivocation { author, seq, local_hash, remote_hash })
                &&& author == event.author
                &&& seq == event.seq
                &&& local_hash == old(self).chains()[event.author].seq_to_hash@[event.seq]
                &&& remote_hash.bytes@ == wire_hash_of(event@)
            },
            signature_ok(event@) && !old(self).knows(wire_hash_of(event@)) && genesis_ok(old(self), event@)
                && !equivocates(old(self), event@) && !(event.seq == head_seq_of(old(self), event.author) + 1
                && prev_matches(old(self), event@)) ==> {
                &&& r matches Err(
                    DagError::InvalidChain { author, expected_seq, got_seq, expected_prev, got_prev },
                )
                &&& author == event.author
                &&& expected_seq == head_seq_of(old(self), event.author) + 1
                &&& got_seq == event.seq
                &&& got_prev == event.prev
                &&& if old(self).chains().contains_key(event.author) {
                    expected_prev == old(self).chains()[event.author].head_hash
                } else {
                    expected_prev.spec_is_zero()
                }
            },
            admissible(old(self), event@) && !missing_deps(old(self), event@).is_empty() ==> {
                &&& r matches Ok(Inserted::Pending(m))
                &&& m.wf()
                &&& m@ == missing_deps(old(self), event@)
            },
            admissible(old(self), event@) && missing_deps(old(self), event@).is_empty() ==> {
                &&& r matches Ok(Inserted::NewlyApplied { topo_index, hash })
                &&& topo_index == old(self).size()
                &&& hash.bytes@ == wire_hash_of(event@)
                &&& final(self).events() == old(self).events().insert(hash, event@)
                &&& final(self).order() == old(self).order().push(hash)
                &&& final(self).size() == old(self).size() + 1
                &&& final(self).chains().dom() == old(self).chains().dom().insert(event.author)
                &&& forall|a: AuthorPubkey|
                    a != event.author && #[trigger] old(self).chains().contains_key(a) ==> final(self).chains()[a] == old(self).chains()[a]
                &&& final(self).chains()[event.author].head_seq == event.seq
                &&& final(self).chains()[event.author].head_hash.bytes@ == wire_hash_of(event@)
                &&& final(self).chains()[event.author].seq_to_hash@ == chain_map(old(self), event.author).insert(
                    event.seq,
                    hash,
                )
            },
    {
        let wire = event.wire_hash();
        let body_hash = event.hash_signed_body();
        // Step 1: signature over the body hash.
        if !ed25519_verify_strict(&event.author.bytes, &body_hash.bytes, &event.signature) {
            return Err(DagError::InvalidSignature);
        }
        // Step 2: duplicate.
        proof {
            self.lemma_knows(wire);
        }
        if self.contains(&wire) {
            return Ok(Inserted::AlreadyKnown);
        }
        // Step 3: genesis-specific checks.
        if event.seq == 1 {
            match self.check_genesis(&event) {
                Ok(()) => {},
                Err(e) => {
                    return Err(e);
                },
            }
        }
        // Step 4: equivocation and chain integrity.
        match self.check_chain(&event, wire) {
            Ok(()) => {},
            Err(e) => {
                return Err(e);
            },
        }
        // Step 5: dependency presence.
        let missing = self.missing_of(&event.deps);
        if !missing.is_empty() {
            return Ok(Inserted::Pending(missing));
        }
        // Step 6: commit.
        proof {
            assert forall|d: EventHash| #[trigger] event@.deps.contains(d) implies self.events().contains_key(d) by {
                assert(event.deps@.contains(d));
                if !self.events().contains_key(d) {
                    assert(missing@.contains(d));
                }
            }
        }
        let topo_index = self.commit(event, wire);
        Ok(Inserted::NewlyApplied { topo_index, hash: wire })
    }

    /// The genesis-specific checks of an event at seq 1.
    fn check_genesis(&self, event: &Event) -> (r: Result<(), DagError>)
        requires
            self.wf(),
            event.seq == 1,
        ensures
            r is Ok <==> genesis_ok(self, event@),
            if !event.prev.spec_is_zero() {
                r == Err::<(), DagError>(DagError::InvalidGenesis("prev != ZERO"))
            } else if event.deps.elems().len() != 0 {
                r == Err::<(), DagError>(DagError::InvalidGenesis("deps != empty"))
            } else if !is_genesis_payload(event.payload@) {
                r == Err::<(), DagError>(DagError::InvalidGenesis("payload not a canonical GenesisV1"))
            } else if derived_topic_bytes(self, event.payload@) != self.topic().bytes@ {
                &&& r matches Err(DagError::InvalidTopic { expected, derived })
                &&& expected == self.topic()
                &&& derived.bytes@ == derived_topic_bytes(self, event.payload@)
            } else if genesis_fields(event.payload@).1 != event.author {
                r == Err::<(), DagError>(DagError::InvalidGenesis("author != founder_pubkey"))
            } else {
                r is Ok
            },
    {
        if !event.prev.is_zero() {
            return Err(DagError::InvalidGenesis("prev != ZERO"));
        }
        if !event.deps.is_empty() {
            return Err(DagError::InvalidGenesis("deps != empty"));
        }
        let genesis = match GenesisV1::decode(event.payload.as_slice()) {
            Some(g) => g,
            None => {
                return Err(DagError::InvalidGenesis("payload not a canonical GenesisV1"));
            },
        };
        proof {
            assert(is_genesis_payload(event.payload@));
            let (s1, f1, p1) = choose|seed: Seq<u8>, founder: AuthorPubkey, p: Seq<u8>|
                seed.len() == 32 && #[trigger] genesis_bytes(seed, founder, p) == event.payload@;
            lemma_genesis_bytes_injective(
                s1,
                f1,
                p1,
                genesis.seed@,
                genesis.founder_pubkey,
                genesis.app_payload@,
            );
            assert(genesis_fields(event.payload@) == (genesis.seed@, genesis.founder_pubkey));
        }
        let derived = Topic::derive(&self.app_bundle_hash, &genesis.seed, self.topic_name.as_str());
        if !id_eq(&derived, &self.topic) {
            proof {
                if derived.bytes@ == self.topic.bytes@ {
                    assert(derived.bytes == self.topic.bytes);
                }
            }
            return Err(DagError::InvalidTopic { expected: self.topic, derived });
        }
        if !id_eq(&event.author, &genesis.founder_pubkey) {
            return Err(DagError::InvalidGenesis("author != founder_pubkey"));
        }
        Ok(())
    }

    /// Equivocation and chain-integrity checks of an event not yet in the
    /// DAG.
    fn check_chain(&self, event: &Event, wire: EventHash) -> (r: Result<(), DagError>)
        requires
            self.wf(),
            self.size() < u64::MAX,
            wire.bytes@ == wire_hash_of(event@),
            !self.events().contains_key(wire),
        ensures
            r is Ok <==> (!equivocates(self, event@) && event.seq == head_seq_of(self, event.author)
                + 1 && prev_matches(self, event@)),
            equivocates(self, event@) ==> {
                &&& r matches Err(DagError::Equivocation { author, seq, local_hash, remote_hash })
                &&& author == event.author
                &&& seq == event.seq
                &&& local_hash == self.chains()[event.author].seq_to_hash@[event.seq]
                &&& remote_hash.bytes@ == wire_hash_of(event@)
            },
            !equivocates(self, event@) && !(event.seq == head_seq_of(self, event.author) + 1
                && prev_matches(self, event@)) ==> {
                &&& r matches Err(
                    DagError::InvalidChain { author, expected_seq, got_seq, expected_prev, got_prev },
                )
                &&& author == event.author
                &&& expected_seq == head_seq_of(self, event.author) + 1
                &&& got_seq == event.seq
                &&& got_prev == event.prev
                &&& if self.chains().contains_key(event.author) {
                    expected_prev == self.chains()[event.author].head_hash
                } else {
                    expected_prev.spec_is_zero()
                }
            },
    {
        let author = event.author;
        let (head_seq, head_hash) = match self.by_author.get(&author) {
            Some(chain) => {
                match chain.seq_to_hash.get(&event.seq) {
                    Some(existing) => {
                        if !id_eq(existing, &wire) {
                            proof {
                                if existing.bytes@ == wire.bytes@ {
                                    assert(existing.bytes == wire.bytes);
                                }
                            }
                            return Err(
                                DagError::Equivocation {
                                    author,
                                    seq: event.seq,
                                    local_hash: *existing,
                                    remote_hash: wire,
                                },
                            );
                        }
                        proof {
                            self.lemma_chain_hashes_known(author, event.seq);
                        }
                    },
                    None => {},
                }
                proof {
                    assert(chain.head_seq <= self.next_topo_index);
                }
                (chain.head_seq, chain.head_hash)
            },
            None => (0u64, EventHash::zero()),
        };
        proof {
            if !self.chains().contains_key(author) {
                assert(head_hash.spec_is_zero());
                if event.prev.spec_is_zero() {
                    assert(event.prev.bytes == head_hash.bytes);
                }
            }
        }
        let expected_seq = head_seq + 1;
        if event.seq != expected_seq || !id_eq(&event.prev, &head_hash) {
            return Err(
                DagError::InvalidChain {
                    author,
                    expected_seq,
                    got_seq: event.seq,
                    expected_prev: head_hash,
                    got_prev: event.prev,
                },
            );
        }
        Ok(())
    }

    /// The members of `deps` that are not in the DAG.
    fn missing_of(&self, deps: &IdSet<EventHash>) -> (r: IdSet<EventHash>)
        requires
            self.wf(),
        ensures
            r.wf(),
            r@ == deps@.filter(|d: EventHash| !self.events().contains_key(d)),
    {
        let mut missing: IdSet<EventHash> = IdSet::new();
        let ds = deps.as_slice();
        let mut i: usize = 0;
        while i < ds.len()
            invariant
                self.wf(),
                i <= ds@.len(),
                ds@ == deps.elems(),
                missing.wf(),
                missing@ == ds@.subrange(0, i as int).to_set().filter(
                    |d: EventHash| !self.events().contains_key(d),
                ),
            decreases ds@.len() - i,
        {
            let d = ds[i];
            let ghost before = ds@.subrange(0, i as int);
            if !self.contains(&d) {
                missing.insert(d);
            }
            i = i + 1;
            proof {
                assert(ds@.subrange(0, i as int) =~= before.push(d));
                lemma_filter_push(before, d, |d: EventHash| !self.events().contains_key(d));
            }
        }
        assert(ds@.subrange(0, ds@.len() as int) =~= ds@);
        missing
    }

    /// Commit an admissible event with no missing dependencies; returns
    /// its topo index.
    #[verifier::rlimit(80)]
    fn commit(&mut self, event: Event, wire: EventHash) -> (topo_index: u64)
        requires
            old(self).wf(),
            old(self).size() < u64::MAX,
            wire.bytes@ == wire_hash_of(event@),
            !old(self).events().contains_key(wire),
            !equivocates(old(self), event@),
            event.seq == head_seq_of(old(self), event.author) + 1,
            prev_matches(old(self), event@),
            forall|d: EventHash| #[trigger] event@.deps.contains(d) ==> old(self).events().contains_key(d),
        ensures
            final(self).wf(),
            final(self).order() == old(self).order().push(wire),
            topo_index == old(self).size(),
            final(self).topic() == old(self).topic(),
            final(self).bundle() == old(self).bundle(),
            final(self).name_bytes() == old(self).name_bytes(),
            final(self).events() == old(self).events().insert(wire, event@),
            final(self).size() == old(self).size() + 1,
            final(self).chains().dom() == old(self).chains().dom().insert(event.author),
            forall|a: AuthorPubkey|
                a != event.author && #[trigger] old(self).chains().contains_key(a) ==> final(self).chains()[a]
                    == old(self).chains()[a],
            final(self).chains()[event.author].head_seq == event.seq,
            final(self).chains()[event.author].head_hash == wire,
            final(self).chains()[event.author].seq_to_hash@ == chain_map(old(self), event.author).insert(event.seq, wire),
    {
        proof {
            let o = old(self);
            assert forall|p: EventHash| #[trigger] parents_of(event@).contains(p) implies o.events().contains_key(p) by {
                if !event@.deps.to_set().contains(p) {
                    assert(p == event.prev && !event.prev.spec_is_zero());
                    assert(o.chains().contains_key(event.author));
                    let c0 = o.chains()[event.author];
                    assert(c0.wf());
                    assert(c0.head_seq > 0);
                    assert(c0.seq_to_hash@.contains_key(c0.head_seq));
                } else {
                    assert(event@.deps.contains(p));
                }
            }
        }
        let new_depth = self.new_depth(&event);
        let slot = self.canonical_slot(new_depth, &wire);
        let author = event.author;
        let mut parents: IdSet<EventHash> = IdSet::new();
        let ds = event.deps.as_slice();
        let mut j: usize = 0;
        while j < ds.len()
            invariant
                j <= ds@.len(),
                parents.wf(),
            decreases ds@.len() - j,
        {
            parents.insert(ds[j]);
            j = j + 1;
        }
        if !event.prev.is_zero() {
            parents.insert(event.prev);
        }
        let mut chain = match self.by_author.remove(&author) {
            Some(c) => c,
            None => AuthorChain::empty(),
        };
        let ghost old_chain = chain;
        proof {
            if old(self).by_author@.contains_key(author) {
                assert(old_chain == old(self).by_author@[author]);
            }
            assert(old_chain.wf());
        }
        chain.head_seq = event.seq;
        chain.head_hash = wire;
        chain.seq_to_hash.insert(event.seq, wire);
        self.by_author.insert(author, chain);
        self.authors.insert(author);
        assert(self.authors@ =~= self.by_author@.dom());
        let topo_index = self.next_topo_index;
        let ghost ev = event@;
        self.entries.push(DagEntry { hash: wire, event, parents });
        self.next_topo_index = self.next_topo_index + 1;
        proof {
            let o = old(self);
            let n = o.entries@.len() as int;
            assert forall|i: int| 0 <= i < n implies #[trigger] self.entries@[i] == o.entries@[i] by {}
            assert(self.entries@[n].hash == wire && self.entries@[n].event@ == ev);
            assert forall|i: int, j: int| 0 <= i < j < self.entries@.len() implies #[trigger] self.entries@[i].hash
                != #[trigger] self.entries@[j].hash by {
                if j == n {
                    o.lemma_entry(i);
                } else {
                    assert(o.entries@[i].hash != o.entries@[j].hash);
                }
            }
            assert(self.wf_entries_partial());
            assert forall|i: int| 0 <= i < self.entries@.len() implies (#[trigger] self.entries@[i]).hash.bytes@
                == wire_hash_of(self.entries@[i].event@) by {
                if i < n {
                    assert(o.entries@[i].hash.bytes@ == wire_hash_of(o.entries@[i].event@));
                }
            }
            assert(self.events() =~= o.events().insert(wire, ev)) by {
                assert forall|h: EventHash| #[trigger] self.events().dom().contains(h) <==> o.events().insert(wire, ev).dom().contains(h) by {
                    if self.events().dom().contains(h) {
                        let i = choose|i: int| 0 <= i < self.entries@.len() && #[trigger] self.entries@[i].hash == h;
                        if i < n {
                            o.lemma_entry(i);
                        }
                    }
                    if o.events().dom().contains(h) {
                        let i = choose|i: int| 0 <= i < o.entries@.len() && #[trigger] o.entries@[i].hash == h;
                        assert(self.entries@[i].hash == h);
                    }
                    if h == wire {
                        assert(self.entries@[n].hash == h);
                    }
                }
                assert forall|h: EventHash| #[trigger] self.events().dom().contains(h) implies self.events()[h] == o.events().insert(wire, ev)[h] by {
                    let i = choose|i: int| 0 <= i < self.entries@.len() && #[trigger] self.entries@[i].hash == h;
                    self.lemma_entry_partial(i);
                    if i < n {
                        o.lemma_entry(i);
                    }
                }
            }
            assert forall|i: int, d: EventHash|
                0 <= i < self.entries@.len() && #[trigger] self.entries@[i].event@.deps.contains(d) implies exists|j: int|
                0 <= j < i && #[trigger] self.entries@[j].hash == d by {
                if i < n {
                    assert(o.entries@[i].event@.deps.contains(d));
                    let j = choose|j: int| 0 <= j < i && #[trigger] o.entries@[j].hash == d;
                    assert(self.entries@[j] == o.entries@[j]);
                } else {
                    assert(o.events().contains_key(d));
                    let j = choose|j: int| 0 <= j < o.entries@.len() && #[trigger] o.entries@[j].hash == d;
                    assert(self.entries@[j] == o.entries@[j]);
                }
            }
            assert forall|i: int|
                0 <= i < self.entries@.len() && !(#[trigger] self.entries@[i].event@.prev.spec_is_zero()) implies exists|
                j: int,
            |
                0 <= j < i && #[trigger] self.entries@[j].hash == self.entries@[i].event@.prev by {
                if i < n {
                    assert(!o.entries@[i].event@.prev.spec_is_zero());
                    let j = choose|j: int| 0 <= j < i && #[trigger] o.entries@[j].hash == o.entries@[i].event@.prev;
                    assert(self.entries@[j] == o.entries@[j]);
                } else {
                    assert(o.chains().contains_key(author));
                    let c0 = o.chains()[author];
                    assert(c0.wf());
                    assert(c0.head_seq > 0);
                    assert(c0.seq_to_hash@.contains_key(c0.head_seq));
                    assert(o.events().contains_key(c0.head_hash));
                    let j = choose|j: int| 0 <= j < o.entries@.len() && #[trigger] o.entries@[j].hash == c0.head_hash;
                    assert(self.entries@[j] == o.entries@[j]);
                }
            }
            assert(self.order() =~= o.order().push(wire));
            assert forall|a: AuthorPubkey| #[trigger] self.by_author@.contains_key(a) implies {
                let c = self.by_author@[a];
                &&& c.wf()
                &&& c.head_seq <= self.next_topo_index
                &&& forall|s: u64| #[trigger]
                    c.seq_to_hash@.contains_key(s) ==> {
                        &&& self.events().contains_key(c.seq_to_hash@[s])
                        &&& self.events()[c.seq_to_hash@[s]].author == a
                        &&& self.events()[c.seq_to_hash@[s]].seq == s
                    }
            } by {
                if a == author {
                    let c = self.by_author@[a];
                    assert(c.seq_to_hash@ == old_chain.seq_to_hash@.insert(ev.seq, wire));
                    assert forall|s: u64| #[trigger] c.seq_to_hash@.contains_key(s) implies {
                        &&& self.events().contains_key(c.seq_to_hash@[s])
                        &&& self.events()[c.seq_to_hash@[s]].author == a
                        &&& self.events()[c.seq_to_hash@[s]].seq == s
                    } by {
                        if s != ev.seq {
                            assert(old_chain.seq_to_hash@.contains_key(s));
                            if !o.by_author@.contains_key(author) {
                                assert(false);
                            }
                            let h = old_chain.seq_to_hash@[s];
                            assert(o.events().contains_key(h));
                            assert(h != wire);
                        }
                    }
                } else {
                    assert(o.by_author@.contains_key(a));
                    assert(self.by_author@[a] == o.by_author@[a]);
                    let c = o.by_author@[a];
                    assert forall|s: u64| #[trigger] c.seq_to_hash@.contains_key(s) implies {
                        &&& self.events().contains_key(c.seq_to_hash@[s])
                        &&& self.events()[c.seq_to_hash@[s]].author == a
                        &&& self.events()[c.seq_to_hash@[s]].seq == s
                    } by {
                        let h = c.seq_to_hash@[s];
                        assert(o.events().contains_key(h));
                        assert(h != wire);
                    }
                }
            }
        }
        self.canonical.insert(slot, (new_depth, wire));
        proof {
            self.depth_map@ = self.depth_map@.insert(wire, new_depth);
            self.lemma_commit_order(old(self), wire, ev, new_depth, slot as int);
        }
        topo_index
    }
}

/// Appending `d` to a sequence adds `d` to the filtered set when `p(d)`.
pub proof fn lemma_filter_push(s: Seq<EventHash>, d: EventHash, p: spec_fn(EventHash) -> bool)
    ensures
        s.push(d).to_set().filter(p) == (if p(d) {
            s.to_set().filter(p).insert(d)
        } else {
            s.to_set().filter(p)
        }),
{
    let lhs = s.push(d).to_set().filter(p);
    let rhs = if p(d) {
        s.to_set().filter(p).insert(d)
    } else {
        s.to_set().filter(p)
    };
    assert forall|x: EventHash| #[trigger] lhs.contains(x) <==> rhs.contains(x) by {
        if s.push(d).to_set().contains(x) {
            let i = choose|i: int| 0 <= i < s.push(d).len() && s.push(d)[i] == x;
            if i < s.len() {
                assert(s[i] == x);
            }
        }
        if s.to_set().contains(x) {
            let i = choose|i: int| 0 <= i < s.len() && s[i] == x;
            assert(s.push(d)[i] == x);
        }
        if x == d {
            assert(s.push(d)[s.len() as int] == d);
        }
    }
    assert(lhs =~= rhs);
}

/// Idempotence: once an event has been applied, inserting it again
/// finds it known with a valid signature, so `insert` answers
/// [`Inserted::AlreadyKnown`] and changes nothing.
pub proof fn lemma_applied_event_is_known(before: &EventDag, after: &EventDag, ev: EventView, h: EventHash)
    requires
        admissible(before, ev),
        h.bytes@ == wire_hash_of(ev),
        after.events() == before.events().insert(h, ev),
    ensures
        signature_ok(ev),
        after.knows(wire_hash_of(ev)),
{
    assert(after.events().contains_key(h));
}

/// A fork is caught whichever branch arrives first: once one of two
/// events by the same author at the same seq, with different wire
/// hashes, has been applied (its author's head is now it), the other
/// equivocates.
pub proof fn lemma_fork_detected(after: &EventDag, e1: EventView, e2: EventView)
    requires
        after.wf(),
        e1.author == e2.author,
        e1.seq == e2.seq,
        e1.seq >= 1,
        wire_hash_of(e1) != wire_hash_of(e2),
        after.chains().contains_key(e1.author),
        after.chains()[e1.author].head_seq == e1.seq,
        after.chains()[e1.author].head_hash.bytes@ == wire_hash_of(e1),
    ensures
        equivocates(after, e2),
{
    after.lemma_chain_wf(e1.author);
}

} // verus!
