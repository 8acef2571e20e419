//! 32-byte identifiers (hashes and public keys) and the small
//! collections keyed by them.
//!
//! Every identifier is a newtype around `[u8; 32]`. [`IdSet`] keeps its
//! members strictly increasing in byte-lexicographic order (the order a
//! `BTreeSet` of these identifiers iterates in), so its canonical
//! encoding does not depend on insertion order. [`IdMap`] is an
//! association list with unique keys.
use vstd::prelude::*;

use crate::crypto::{blake3_digest, blake3_hash};
use crate::bytes::{bytes32_eq, bytes32_lt, lemma_lex_lt_total, lemma_lex_lt_transitive, lex_lt};

verus! {

broadcast use vstd::array::group_array_axioms;

/// Identifier types made of exactly 32 bytes.
pub trait Id32: Sized + Copy {
    /// The 32 bytes of the identifier.
    spec fn id(&self) -> Seq<u8>;

    /// Borrow the 32 bytes of the identifier.
    fn id_bytes(&self) -> (r: &[u8; 32])
        ensures
            r@ == self.id(),
    ;

    /// The identifier is determined by its bytes.
    proof fn lemma_id(a: Self, b: Self)
        ensures
            a.id().len() == 32,
            (a.id() == b.id()) <==> (a == b),
    ;
}

/// Equality of two identifiers, decided on their bytes.
pub fn id_eq<K: Id32>(a: &K, b: &K) -> (r: bool)
    ensures
        r == (*a == *b),
{
    proof {
        K::lemma_id(*a, *b);
    }
    bytes32_eq(a.id_bytes(), b.id_bytes())
}

/// Strict byte-lexicographic order of two identifiers.
pub fn id_lt<K: Id32>(a: &K, b: &K) -> (r: bool)
    ensures
        r == lex_lt(a.id(), b.id()),
{
    bytes32_lt(a.id_bytes(), b.id_bytes())
}

/// Thirty-two zero bytes.
pub open spec fn zero_bytes() -> Seq<u8> {
    Seq::new(32, |i: int| 0u8)
}

/// Content hash of an event envelope.
#[derive(Clone, Copy, PartialEq, Eq, Debug, Hash, PartialOrd, Ord)]
pub struct EventHash {
    pub bytes: [u8; 32],
}

/// Ed25519 verifying key of an event author.
#[derive(Clone, Copy, PartialEq, Eq, Debug, Hash, PartialOrd, Ord)]
pub struct AuthorPubkey {
    pub bytes: [u8; 32],
}

/// Ed25519 verifying key of a peer.
#[derive(Clone, Copy, PartialEq, Eq, Debug, Hash, PartialOrd, Ord)]
pub struct PeerPubkey {
    pub bytes: [u8; 32],
}

/// Content hash of a blob (manifest or component bytes).
#[derive(Clone, Copy, PartialEq, Eq, Debug, Hash, PartialOrd, Ord)]
pub struct BlobHash {
    pub bytes: [u8; 32],
}

/// Content hash of an application bundle.
#[derive(Clone, Copy, PartialEq, Eq, Debug, Hash, PartialOrd, Ord)]
pub struct BundleHash {
    pub bytes: [u8; 32],
}

/// Gossip topic identifier.
#[derive(Clone, Copy, PartialEq, Eq, Debug, Hash, PartialOrd, Ord)]
pub struct Topic {
    pub bytes: [u8; 32],
}

impl EventHash {
    /// Wrap 32 bytes.
    pub fn from_bytes(bytes: [u8; 32]) -> (r: Self)
        ensures
            r.bytes == bytes,
    {
        EventHash { bytes }
    }

    /// The 32 bytes.
    pub fn as_bytes(&self) -> (r: &[u8; 32])
        ensures
            *r == self.bytes,
    {
        &self.bytes
    }

    /// The all-zero hash, used as the `prev` of a genesis event and as
    /// the head of an empty author chain.
    pub fn zero() -> (r: Self)
        ensures
            r.spec_is_zero(),
    {
        let r = EventHash { bytes: [0u8; 32] };
        assert(r.bytes@ =~= zero_bytes());
        r
    }

    /// Whether every byte is zero.
    pub open spec fn spec_is_zero(&self) -> bool {
        self.bytes@ == zero_bytes()
    }

    /// Whether this is the all-zero hash.
    pub fn is_zero(&self) -> (r: bool)
        ensures
            r == self.spec_is_zero(),
    {
        let z = Self::zero();
        bytes32_eq(&self.bytes, &z.bytes)
    }

    /// The BLAKE3 hash of `data`.
    pub fn blake3(data: &[u8]) -> (r: Self)
        ensures
            r.bytes@ == blake3_digest(data@),
    {
        EventHash { bytes: blake3_hash(data) }
    }
}

impl Id32 for EventHash {
    open spec fn id(&self) -> Seq<u8> {
        self.bytes@
    }

    fn id_bytes(&self) -> (r: &[u8; 32]) {
        &self.bytes
    }

    proof fn lemma_id(a: Self, b: Self) {
        if a.bytes@ == b.bytes@ {
            assert(a.bytes == b.bytes);
        }
    }
}

impl AuthorPubkey {
    /// Wrap 32 bytes.
    pub fn from_bytes(bytes: [u8; 32]) -> (r: Self)
        ensures
            r.bytes == bytes,
    {
        AuthorPubkey { bytes }
    }

    /// The 32 bytes.
    pub fn as_bytes(&self) -> (r: &[u8; 32])
        ensures
            *r == self.bytes,
    {
        &self.bytes
    }
}

impl Id32 for AuthorPubkey {
    open spec fn id(&self) -> Seq<u8> {
        self.bytes@
    }

    fn id_bytes(&self) -> (r: &[u8; 32]) {
        &self.bytes
    }

    proof fn lemma_id(a: Self, b: Self) {
        if a.bytes@ == b.bytes@ {
            assert(a.bytes == b.bytes);
        }
    }
}

impl PeerPubkey {
    /// Wrap 32 bytes.
    pub fn from_bytes(bytes: [u8; 32]) -> (r: Self)
        ensures
            r.bytes == bytes,
    {
        PeerPubkey { bytes }
    }

    /// The 32 bytes.
    pub fn as_bytes(&self) -> (r: &[u8; 32])
        ensures
            *r == self.bytes,
    {
        &self.bytes
    }
}

impl Id32 for PeerPubkey {
    open spec fn id(&self) -> Seq<u8> {
        self.bytes@
    }

    fn id_bytes(&self) -> (r: &[u8; 32]) {
        &self.bytes
    }

    proof fn lemma_id(a: Self, b: Self) {
        if a.bytes@ == b.bytes@ {
            assert(a.bytes == b.bytes);
        }
    }
}

impl BlobHash {
    /// Wrap 32 bytes.
    pub fn from_bytes(bytes: [u8; 32]) -> (r: Self)
        ensures
            r.bytes == bytes,
    {
        BlobHash { bytes }
    }

    /// The 32 bytes.
    pub fn as_bytes(&self) -> (r: &[u8; 32])
        ensures
            *r == self.bytes,
    {
        &self.bytes
    }

    /// The BLAKE3 hash of `data`.
    pub fn blake3(data: &[u8]) -> (r: Self)
        ensures
            r.bytes@ == blake3_digest(data@),
    {
        BlobHash { bytes: blake3_hash(data) }
    }
}

impl Id32 for BlobHash {
    open spec fn id(&self) -> Seq<u8> {
        self.bytes@
    }

    fn id_bytes(&self) -> (r: &[u8; 32]) {
        &self.bytes
    }

    proof fn lemma_id(a: Self, b: Self) {
        if a.bytes@ == b.bytes@ {
            assert(a.bytes == b.bytes);
        }
    }
}

impl BundleHash {
    /// Wrap 32 bytes.
    pub fn from_bytes(bytes: [u8; 32]) -> (r: Self)
        ensures
            r.bytes == bytes,
    {
        BundleHash { bytes }
    }

    /// The 32 bytes.
    pub fn as_bytes(&self) -> (r: &[u8; 32])
        ensures
            *r == self.bytes,
    {
        &self.bytes
    }
}

impl Topic {
    /// Wrap 32 bytes.
    pub fn from_bytes(bytes: [u8; 32]) -> (r: Self)
        ensures
            r.bytes == bytes,
    {
        Topic { bytes }
    }

    /// The 32 bytes.
    pub fn as_bytes(&self) -> (r: &[u8; 32])
        ensures
            *r == self.bytes,
    {
        &self.bytes
    }
}

impl Id32 for Topic {
    open spec fn id(&self) -> Seq<u8> {
        self.bytes@
    }

    fn id_bytes(&self) -> (r: &[u8; 32]) {
        &self.bytes
    }

    proof fn lemma_id(a: Self, b: Self) {
        if a.bytes@ == b.bytes@ {
            assert(a.bytes == b.bytes);
        }
    }
}

/// Members strictly increasing in byte-lexicographic order.
pub open spec fn strictly_sorted<K: Id32>(s: Seq<K>) -> bool {
    forall|i: int, j: int| 0 <= i < j < s.len() ==> lex_lt(#[trigger] s[i].id(), #[trigger] s[j].id())
}

/// A strictly sorted sequence holds no element twice.
pub proof fn lemma_sorted_no_duplicates<K: Id32>(s: Seq<K>)
    requires
        strictly_sorted(s),
    ensures
        s.no_duplicates(),
{
    assert forall|i: int, j: int| 0 <= i < s.len() && 0 <= j < s.len() && i != j implies s[i]
        != s[j] by {
        if i < j {
            crate::bytes::lemma_lex_lt_irreflexive(s[i].id());
        } else {
            crate::bytes::lemma_lex_lt_irreflexive(s[j].id());
        }
    }
}

/// A set of identifiers, kept in byte-lexicographic order.
#[derive(Debug, PartialEq, Eq, Hash)]
pub struct IdSet<K> {
    items: Vec<K>,
}

impl<K: Id32> Clone for IdSet<K> {
    fn clone(&self) -> (r: Self)
        ensures
            r.elems() == self.elems(),
    {
        let mut items: Vec<K> = Vec::new();
        let mut i: usize = 0;
        while i < self.items.len()
            invariant
                i <= self.items@.len(),
                items@ == self.items@.subrange(0, i as int),
            decreases self.items@.len() - i,
        {
            items.push(self.items[i]);
            i = i + 1;
            assert(items@ =~= self.items@.subrange(0, i as int));
        }
        assert(items@ =~= self.items@);
        IdSet { items }
    }
}

impl<K: Id32> IdSet<K> {
    /// The members, in increasing byte-lexicographic order.
    pub closed spec fn elems(&self) -> Seq<K> {
        self.items@
    }

    /// The members as a set.
    pub open spec fn view(&self) -> Set<K> {
        self.elems().to_set()
    }

    /// Well-formedness: the members are strictly increasing.
    pub open spec fn wf(&self) -> bool {
        strictly_sorted(self.elems())
    }

    /// The empty set.
    pub fn new() -> (r: Self)
        ensures
            r.wf(),
            r.elems() == Seq::<K>::empty(),
            r@ == Set::<K>::empty(),
    {
        let r = IdSet { items: Vec::new() };
        assert(r.elems().to_set() =~= Set::<K>::empty());
        r
    }

    /// Number of members.
    pub fn len(&self) -> (r: usize)
        ensures
            r == self.elems().len(),
    {
        self.items.len()
    }

    /// Whether the set has no members.
    pub fn is_empty(&self) -> (r: bool)
        ensures
            r == (self.elems().len() == 0),
            r == (self@ == Set::<K>::empty()),
    {
        if self.items.len() == 0 {
            assert(self@ =~= Set::<K>::empty());
            true
        } else {
            assert(self@.contains(self.elems()[0]));
            false
        }
    }

    /// The members, in increasing order.
    pub fn as_slice(&self) -> (r: &[K])
        ensures
            r@ == self.elems(),
    {
        self.items.as_slice()
    }

    /// Whether `k` is a member.
    pub fn contains(&self, k: &K) -> (r: bool)
        ensures
            r == self@.contains(*k),
    {
        let mut i: usize = 0;
        while i < self.items.len()
            invariant
                i <= self.items@.len(),
                forall|j: int| 0 <= j < i ==> self.items@[j] != *k,
            decreases self.items@.len() - i,
        {
            if id_eq(&self.items[i], k) {
                assert(self.elems()[i as int] == *k);
                return true;
            }
            i = i + 1;
        }
        proof {
            if self@.contains(*k) {
                let j = choose|j: int| 0 <= j < self.elems().len() && self.elems()[j] == *k;
                assert(false);
            }
        }
        false
    }

    /// Insert `k`; returns whether it was newly added.
    pub fn insert(&mut self, k: K) -> (r: bool)
        requires
            old(self).wf(),
        ensures
            final(self).wf(),
            final(self)@ == old(self)@.insert(k),
            r == !old(self)@.contains(k),
    {
        let n = self.items.len();
        let mut pos: usize = 0;
        while pos < n
            invariant
                n == self.items@.len(),
                pos <= n,
                forall|j: int| 0 <= j < pos ==> lex_lt(#[trigger] self.items@[j].id(), k.id()),
            ensures
                pos <= n,
                forall|j: int| 0 <= j < pos ==> lex_lt(#[trigger] self.items@[j].id(), k.id()),
                pos < n ==> !lex_lt(self.items@[pos as int].id(), k.id()),
            decreases n - pos,
        {
            if !id_lt(&self.items[pos], &k) {
                break;
            }
            pos = pos + 1;
        }
        proof {
            assert forall|j: int| 0 <= j < pos implies self.items@[j] != k by {
                crate::bytes::lemma_lex_lt_irreflexive(k.id());
            }
        }
        if pos < n && id_eq(&self.items[pos], &k) {
            proof {
                assert(self@.contains(k));
            }
            return false;
        }
        proof {
            // every member at or after `pos` is strictly greater than `k`
            if pos < n {
                K::lemma_id(self.items@[pos as int], k);
                K::lemma_id(k, k);
                lemma_lex_lt_total(self.items@[pos as int].id(), k.id());
                assert(lex_lt(k.id(), self.items@[pos as int].id()));
                assert forall|j: int| pos < j < n implies lex_lt(k.id(), #[trigger] self.items@[j].id()) by {
                    lemma_lex_lt_transitive(k.id(), self.items@[pos as int].id(), self.items@[j].id());
                }
            }
            assert(!self@.contains(k)) by {
                if self@.contains(k) {
                    let j = choose|j: int| 0 <= j < self.elems().len() && self.elems()[j] == k;
                    if j >= pos {
                        if j == pos {
                        } else {
                            crate::bytes::lemma_lex_lt_irreflexive(k.id());
                        }
                    }
                }
            }
        }
        let ghost old_items = self.items@;
        self.items.insert(pos, k);
        proof {
            let s = self.items@;
            assert(s == old_items.insert(pos as int, k));
            assert forall|i: int, j: int| 0 <= i < j < s.len() implies lex_lt(
                #[trigger] s[i].id(),
                #[trigger] s[j].id(),
            ) by {
                if j < pos {
                } else if j == pos {
                } else if i < pos {
                    lemma_lex_lt_transitive(s[i].id(), k.id(), s[j].id());
                } else if i == pos {
                } else {
                }
            }
            assert(self@ =~= old(self)@.insert(k)) by {
                assert forall|x: K| #[trigger] self@.contains(x) <==> old(self)@.insert(k).contains(x) by {
                    if self@.contains(x) {
                        let j = choose|j: int| 0 <= j < s.len() && s[j] == x;
                        if j < pos {
                            assert(old_items[j] == x);
                        } else if j > pos {
                            assert(old_items[j - 1] == x);
                        }
                    }
                    if old(self)@.contains(x) {
                        let j = choose|j: int| 0 <= j < old_items.len() && old_items[j] == x;
                        if j < pos {
                            assert(s[j] == x);
                        } else {
                            assert(s[j + 1] == x);
                        }
                    }
                    if x == k {
                        assert(s[pos as int] == k);
                    }
                }
            }
        }
        true
    }

    /// Whether every member of `self` is a member of `other`.
    pub fn is_subset(&self, other: &Self) -> (r: bool)
        ensures
            r == self@.subset_of(other@),
    {
        let mut i: usize = 0;
        while i < self.items.len()
            invariant
                i <= self.items@.len(),
                forall|j: int| 0 <= j < i ==> other@.contains(#[trigger] self.items@[j]),
            decreases self.items@.len() - i,
        {
            if !other.contains(&self.items[i]) {
                assert(self@.contains(self.items@[i as int]));
                return false;
            }
            i = i + 1;
        }
        assert forall|x: K| #[trigger] self@.contains(x) implies other@.contains(x) by {
            let j = choose|j: int| 0 <= j < self.elems().len() && self.elems()[j] == x;
        }
        true
    }
}

/// An association list from identifiers to values, with unique keys.
#[derive(Clone, Debug)]
pub struct IdMap<K, V> {
    entries: Vec<(K, V)>,
}

impl<K: Id32, V> IdMap<K, V> {
    /// The entries, in insertion order.
    pub closed spec fn entries(&self) -> Seq<(K, V)> {
        self.entries@
    }

    /// Well-formedness: no key occurs twice.
    pub open spec fn wf(&self) -> bool {
        forall|i: int, j: int|
            0 <= i < j < self.entries().len() ==> #[trigger] self.entries()[i].0
                != #[trigger] self.entries()[j].0
    }

    /// The map from keys to values.
    pub open spec fn view(&self) -> Map<K, V> {
        Map::new(
            |k: K| exists|i: int| 0 <= i < self.entries().len() && #[trigger] self.entries()[i].0 == k,
            |k: K|
                self.entries()[choose|i: int|
                    0 <= i < self.entries().len() && #[trigger] self.entries()[i].0 == k].1,
        )
    }

    /// If `entries[i]` has key `k`, the map sends `k` to its value.
    pub proof fn lemma_entry(&self, i: int)
        requires
            self.wf(),
            0 <= i < self.entries().len(),
        ensures
            self@.contains_key(self.entries()[i].0),
            self@[self.entries()[i].0] == self.entries()[i].1,
    {
        let k = self.entries()[i].0;
        assert(self@.dom().contains(k));
        let c = choose|j: int| 0 <= j < self.entries().len() && #[trigger] self.entries()[j].0 == k;
        if c != i {
            if c < i {
                assert(self.entries()[c].0 != self.entries()[i].0);
            } else {
                assert(self.entries()[i].0 != self.entries()[c].0);
            }
        }
    }

    /// The empty map.
    pub fn new() -> (r: Self)
        ensures
            r.wf(),
            r@ == Map::<K, V>::empty(),
            r.entries().len() == 0,
    {
        let r = IdMap { entries: Vec::new() };
        assert(r@ =~= Map::<K, V>::empty());
        r
    }

    /// Number of entries.
    pub fn len(&self) -> (r: usize)
        requires
            self.wf(),
        ensures
            r == self@.len(),
            r == self.entries().len(),
    {
        proof {
            self.lemma_len();
        }
        self.entries.len()
    }

    /// The number of keys equals the number of entries.
    pub proof fn lemma_len(&self)
        requires
            self.wf(),
        ensures
            self@.dom().finite(),
            self@.len() == self.entries().len(),
        decreases self.entries().len(),
    {
        let keys = self.entries().map_values(|e: (K, V)| e.0);
        assert(keys.no_duplicates()) by {
            assert forall|i: int, j: int| 0 <= i < keys.len() && 0 <= j < keys.len() && i != j implies keys[i] != keys[j] by {
                if i < j {
                    assert(self.entries()[i].0 != self.entries()[j].0);
                } else {
                    assert(self.entries()[j].0 != self.entries()[i].0);
                }
            }
        }
        assert(self@.dom() =~= keys.to_set()) by {
            assert forall|k: K| #[trigger] self@.dom().contains(k) <==> keys.to_set().contains(k) by {
                if self@.dom().contains(k) {
                    let i = choose|i: int| 0 <= i < self.entries().len() && #[trigger] self.entries()[i].0 == k;
                    assert(keys[i] == k);
                }
                if keys.to_set().contains(k) {
                    let i = choose|i: int| 0 <= i < keys.len() && keys[i] == k;
                    assert(self.entries()[i].0 == k);
                }
            }
        }
        keys.unique_seq_to_set();
    }

    /// The index of the entry for `k`, if any.
    pub fn position(&self, k: &K) -> (r: Option<usize>)
        ensures
            match r {
                Some(i) => i < self.entries().len() && self.entries()[i as int].0 == *k,
                None => !self@.contains_key(*k),
            },
    {
        let mut i: usize = 0;
        while i < self.entries.len()
            invariant
                i <= self.entries@.len(),
                forall|j: int| 0 <= j < i ==> self.entries@[j].0 != *k,
            decreases self.entries@.len() - i,
        {
            if id_eq(&self.entries[i].0, k) {
                return Some(i);
            }
            i = i + 1;
        }
        proof {
            if self@.contains_key(*k) {
                let j = choose|j: int| 0 <= j < self.entries().len() && #[trigger] self.entries()[j].0 == *k;
                assert(false);
            }
        }
        None
    }

    /// The value stored for `k`, if any.
    pub fn get(&self, k: &K) -> (r: Option<&V>)
        requires
            self.wf(),
        ensures
            match r {
                Some(v) => self@.contains_key(*k) && *v == self@[*k],
                None => !self@.contains_key(*k),
            },
    {
        match self.position(k) {
            Some(i) => {
                proof {
                    self.lemma_entry(i as int);
                }
                Some(&self.entries[i].1)
            },
            None => None,
        }
    }

    /// Whether `k` has an entry.
    pub fn contains_key(&self, k: &K) -> (r: bool)
        ensures
            r == self@.contains_key(*k),
    {
        match self.position(k) {
            Some(i) => {
                assert(self@.dom().contains(*k));
                true
            },
            None => false,
        }
    }

    /// The entry at index `i`.
    pub fn entry_at(&self, i: usize) -> (r: (&K, &V))
        requires
            i < self.entries().len(),
        ensures
            *r.0 == self.entries()[i as int].0,
            *r.1 == self.entries()[i as int].1,
    {
        (&self.entries[i].0, &self.entries[i].1)
    }

    /// Remove the entry for `k`, returning its value.
    pub fn remove(&mut self, k: &K) -> (r: Option<V>)
        requires
            old(self).wf(),
        ensures
            final(self).wf(),
            final(self)@ == old(self)@.remove(*k),
            match r {
                Some(v) => old(self)@.contains_key(*k) && v == old(self)@[*k],
                None => !old(self)@.contains_key(*k),
            },
            final(self).entries().len() == old(self).entries().len() - (if r is Some { 1int } else { 0int }),
    {
        match self.position(k) {
            None => {
                assert(self@ =~= old(self)@.remove(*k));
                None
            },
            Some(i) => {
                proof {
                    self.lemma_entry(i as int);
                }
                let ghost old_e = self.entries@;
                let e = self.entries.remove(i);
                proof {
                    let s = self.entries@;
                    assert(s == old_e.remove(i as int));
                    assert forall|a: int, b: int| 0 <= a < b < s.len() implies #[trigger] s[a].0
                        != #[trigger] s[b].0 by {
                        let oa = if a < i { a } else { a + 1 };
                        let ob = if b < i { b } else { b + 1 };
                        assert(old_e[oa].0 != old_e[ob].0);
                    }
                    assert forall|x: K| #[trigger] self@.dom().contains(x) <==> old(self)@.remove(*k).dom().contains(x) by {
                        if self@.dom().contains(x) {
                            let j = choose|j: int| 0 <= j < s.len() && #[trigger] s[j].0 == x;
                            let oj = if j < i { j } else { j + 1 };
                            assert(old_e[oj].0 == x);
                            if x == *k {
                                assert(old_e[oj].0 != old_e[i as int].0);
                            }
                        }
                        if old(self)@.remove(*k).dom().contains(x) {
                            let j = choose|j: int| 0 <= j < old_e.len() && #[trigger] old_e[j].0 == x;
                            assert(j != i);
                            let nj = if j < i { j } else { j - 1 };
                            assert(s[nj].0 == x);
                        }
                    }
                    assert forall|x: K| #[trigger] self@.dom().contains(x) implies self@[x] == old(self)@[x] by {
                        let j = choose|j: int| 0 <= j < s.len() && #[trigger] s[j].0 == x;
                        self.lemma_entry(j);
                        let oj = if j < i { j } else { j + 1 };
                        old(self).lemma_entry(oj);
                    }
                    assert(self@ =~= old(self)@.remove(*k));
                }
                Some(e.1)
            },
        }
    }

    /// Set the value for `k`, returning the value it replaced.
    pub fn insert(&mut self, k: K, v: V) -> (r: Option<V>)
        requires
            old(self).wf(),
        ensures
            final(self).wf(),
            final(self)@ == old(self)@.insert(k, v),
            match r {
                Some(w) => old(self)@.contains_key(k) && w == old(self)@[k],
                None => !old(self)@.contains_key(k),
            },
    {
        let ghost old_e = self.entries@;
        match self.position(&k) {
            Some(i) => {
                proof {
                    self.lemma_entry(i as int);
                }
                let mut tmp = (k, v);
                std::mem::swap(&mut self.entries[i], &mut tmp);
                proof {
                    let s = self.entries@;
                    assert(s == old_e.update(i as int, (k, v)));
                    assert forall|a: int, b: int| 0 <= a < b < s.len() implies #[trigger] s[a].0
                        != #[trigger] s[b].0 by {
                        assert(old_e[a].0 != old_e[b].0);
                    }
                    assert forall|x: K| #[trigger] self@.dom().contains(x) <==> old(self)@.insert(k, v).dom().contains(x) by {
                        if self@.dom().contains(x) {
                            let j = choose|j: int| 0 <= j < s.len() && #[trigger] s[j].0 == x;
                            if j != i {
                                assert(old_e[j].0 == x);
                            }
                        }
                        if old(self)@.dom().contains(x) {
                            let j = choose|j: int| 0 <= j < old_e.len() && #[trigger] old_e[j].0 == x;
                            assert(s[j].0 == x);
                        }
                        if x == k {
                            assert(s[i as int].0 == k);
                        }
                    }
                    assert forall|x: K| #[trigger] self@.dom().contains(x) implies self@[x] == old(self)@.insert(k, v)[x] by {
                        let j = choose|j: int| 0 <= j < s.len() && #[trigger] s[j].0 == x;
                        self.lemma_entry(j);
                        if j != i {
                            old(self).lemma_entry(j);
                        }
                    }
                    assert(self@ =~= old(self)@.insert(k, v));
                }
                Some(tmp.1)
            },
            None => {
                self.entries.push((k, v));
                proof {
                    let s = self.entries@;
                    let n = old_e.len() as int;
                    assert(s == old_e.push((k, v)));
                    assert forall|a: int, b: int| 0 <= a < b < s.len() implies #[trigger] s[a].0
                        != #[trigger] s[b].0 by {
                        if b == n {
                            if s[a].0 == k {
                                assert(old(self).entries()[a].0 == k);
                                assert(old(self)@.dom().contains(k));
                            }
                        } else {
                            assert(old_e[a].0 != old_e[b].0);
                        }
                    }
                    assert forall|x: K| #[trigger] self@.dom().contains(x) <==> old(self)@.insert(k, v).dom().contains(x) by {
                        if self@.dom().contains(x) {
                            let j = choose|j: int| 0 <= j < s.len() && #[trigger] s[j].0 == x;
                            if j < n {
                                assert(old(self).entries()[j].0 == x);
                            }
                        }
                        if old(self)@.dom().contains(x) {
                            let j = choose|j: int| 0 <= j < old_e.len() && #[trigger] old_e[j].0 == x;
                            assert(s[j].0 == x);
                        }
                        if x == k {
                            assert(s[n].0 == k);
                        }
                    }
                    assert forall|x: K| #[trigger] self@.dom().contains(x) implies self@[x] == old(self)@.insert(k, v)[x] by {
                        let j = choose|j: int| 0 <= j < s.len() && #[trigger] s[j].0 == x;
                        self.lemma_entry(j);
                        if j < n {
                            old(self).lemma_entry(j);
                        }
                    }
                    assert(self@ =~= old(self)@.insert(k, v));
                }
                None
            },
        }
    }
}

} // verus!
