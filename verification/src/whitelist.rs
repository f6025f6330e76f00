//! Persistent set of trusted peer identities with one-hop recommendation
//! trust.
//!
//! A row records one peer: its identity, an optional label, an optional
//! protobuf-encoded public key (which must derive to the row's identity),
//! when it was added, an optional expiry, and the set of whitelisted peers
//! that vouched for it. A peer is *whitelisted* when an operator added it
//! directly and the row has not expired; a row created only by
//! recommendations is visible in enumerations but conveys no direct trust.
//! A peer is *trusted by chain* when it is whitelisted, or when some
//! currently-whitelisted peer appears among its recommenders — one hop,
//! never two.
//!
//! Rows are kept newest first. A thin positive cache holds the identities
//! of non-expired directly-added peers; when a cached peer turns out to
//! have expired, its row is evicted and removed.

use vstd::prelude::*;

verus! {

use crate::crypto::{pk_decodes, peer_id_of, derive_peer_id};
use crate::strings::str_eq_chars;

/// One whitelist row.
#[derive(Debug)]
pub struct WhitelistEntry {
    /// Peer identity (primary key).
    pub peer_id: String,
    /// Optional human label.
    pub name: Option<String>,
    /// Optional protobuf-encoded public key; always derives to `peer_id`.
    pub public_key: Option<Vec<u8>>,
    /// When the row was created (seconds since the epoch).
    pub added_at: i64,
    /// Optional expiry; a row past it conveys no trust.
    pub expires_at: Option<i64>,
    /// Whitelisted peers that vouched for this peer, oldest first, no
    /// duplicates.
    pub recommended_by: Vec<String>,
    /// Cardinality of `recommended_by`.
    pub recommendation_count: u64,
    /// Whether an operator added this row directly; rows created only by
    /// recommendations carry `false` and are not whitelisted.
    pub directly_added: bool,
}

/// Whether a row has expired at time `now` (expiry must be strictly in the
/// future to count as live).
pub open spec fn entry_expired(e: WhitelistEntry, now: int) -> bool {
    match e.expires_at {
        Option::Some(t) => t <= now,
        Option::None => false,
    }
}

/// Whether some row holds peer `p`.
pub open spec fn wl_has(s: Seq<WhitelistEntry>, p: Seq<char>) -> bool {
    exists|i: int| 0 <= i < s.len() && #[trigger] s[i].peer_id@ == p
}

/// Index of the row holding `p` (meaningful when identities are unique).
pub open spec fn wl_idx(s: Seq<WhitelistEntry>, p: Seq<char>) -> int {
    choose|i: int| 0 <= i < s.len() && #[trigger] s[i].peer_id@ == p
}

/// Whether `p` is directly whitelisted at `now`: its row exists, was added
/// directly, and has not expired.
pub open spec fn wl_active(s: Seq<WhitelistEntry>, p: Seq<char>, now: int) -> bool {
    exists|i: int|
        0 <= i < s.len() && #[trigger] s[i].peer_id@ == p && s[i].directly_added && !entry_expired(
            s[i],
            now,
        )
}

/// Whether a directly-added row holds peer `p`.
pub open spec fn wl_direct_row(s: Seq<WhitelistEntry>, p: Seq<char>) -> bool {
    exists|i: int| 0 <= i < s.len() && #[trigger] s[i].peer_id@ == p && s[i].directly_added
}

/// Whether a recommender with identity `r` appears in the row's list.
pub open spec fn rec_listed(e: WhitelistEntry, r: Seq<char>) -> bool {
    exists|j: int| 0 <= j < e.recommended_by@.len() && #[trigger] e.recommended_by@[j]@ == r
}

/// Whether `p` is trusted by the one-hop chain at `now`: directly
/// whitelisted, or named in a live row whose recommenders include a
/// currently-whitelisted peer. Trust never chains further.
pub open spec fn chain_trusted(s: Seq<WhitelistEntry>, p: Seq<char>, now: int) -> bool {
    wl_active(s, p, now) || (exists|i: int, j: int|
        0 <= i < s.len() && #[trigger] s[i].peer_id@ == p && !entry_expired(s[i], now) && 0 <= j
            < s[i].recommended_by@.len() && wl_active(s, #[trigger] s[i].recommended_by@[j]@, now))
}

/// Failures of whitelist mutations.
#[derive(Debug, Clone, Copy, PartialEq, Eq, Structural)]
pub enum WhitelistError {
    /// A supplied public key does not derive to the claimed peer identity.
    KeyMismatch,
    /// The recommender of a trust recommendation is not whitelisted.
    RecommenderNotWhitelisted,
    /// A peer tried to recommend itself.
    SelfRecommendation,
}

/// The in-memory whitelist. Durability is the surrounding process's
/// concern: it loads rows at startup and writes mutations through.
pub struct PeerWhitelist {
    entries: Vec<WhitelistEntry>,
    cache: Vec<String>,
}

impl View for PeerWhitelist {
    type V = Seq<WhitelistEntry>;

    closed spec fn view(&self) -> Seq<WhitelistEntry> {
        self.entries@
    }
}

/// The rows that remain after an upsert of peer `p` replaced its old row.
pub open spec fn wl_rest(s: Seq<WhitelistEntry>, p: Seq<char>) -> Seq<WhitelistEntry> {
    if wl_has(s, p) {
        s.remove(wl_idx(s, p))
    } else {
        s
    }
}

/// Whether a row is exactly the one `add_peer` creates.
pub open spec fn fresh_entry(
    e: WhitelistEntry,
    peer_id: Seq<char>,
    name: Option<String>,
    public_key: Option<Seq<u8>>,
    expires_at: Option<i64>,
    now: int,
) -> bool {
    &&& e.peer_id@ == peer_id
    &&& e.name == name
    &&& match public_key {
        Option::Some(b) => e.public_key matches Option::Some(b2) && b2@ == b,
        Option::None => e.public_key is None,
    }
    &&& e.added_at == now
    &&& e.expires_at == expires_at
    &&& e.recommended_by@.len() == 0
    &&& e.recommendation_count == 0
    &&& e.directly_added
}

impl PeerWhitelist {
    /// Well-formedness: identities are unique; stored keys derive to their
    /// rows' identities; recommendation counts match their lists, which
    /// hold no duplicates; cached identities name directly-added rows.
    pub closed spec fn wf(&self) -> bool {
        &&& forall|i: int, j: int|
            0 <= i < j < self.entries@.len() ==> (#[trigger] self.entries@[i].peer_id@)
                != (#[trigger] self.entries@[j].peer_id@)
        &&& forall|i: int|
            0 <= i < self.entries@.len() ==> match #[trigger] self.entries@[i].public_key {
                Option::Some(b) => pk_decodes(b@) && peer_id_of(b@) == self.entries@[i].peer_id@,
                Option::None => true,
            }
        &&& forall|i: int|
            0 <= i < self.entries@.len() ==> (#[trigger] self.entries@[i].recommendation_count)
                as int == self.entries@[i].recommended_by@.len()
        &&& forall|i: int, a: int, b: int|
            0 <= i < self.entries@.len() && 0 <= a < b < self.entries@[i].recommended_by@.len()
                ==> (#[trigger] self.entries@[i].recommended_by@[a]@) != (
            #[trigger] self.entries@[i].recommended_by@[b]@)
        &&& forall|c: int|
            0 <= c < self.cache@.len() ==> wl_direct_row(
                self.entries@,
                (#[trigger] self.cache@[c])@,
            )
    }

    /// A well-formed whitelist never repeats an identity.
    pub proof fn lemma_wf_unique(&self)
        requires
            self.wf(),
        ensures
            forall|a: int, b: int|
                0 <= a < b < self@.len() ==> (#[trigger] self@[a].peer_id@) != (
                #[trigger] self@[b].peer_id@),
    {
    }

    /// Whether `p` is in the positive cache.
    pub closed spec fn in_cache(&self, p: Seq<char>) -> bool {
        exists|c: int| 0 <= c < self.cache@.len() && #[trigger] self.cache@[c]@ == p
    }

    /// Create an empty whitelist.
    pub fn new() -> (r: PeerWhitelist)
        ensures
            r.wf(),
            r@ =~= Seq::<WhitelistEntry>::empty(),
            forall|q: Seq<char>| !r.in_cache(q),
    {
        PeerWhitelist { entries: Vec::new(), cache: Vec::new() }
    }

    /// Index of the row holding `peer_id`, if any.
    fn find_index(&self, peer_id: &str) -> (r: Option<usize>)
        requires
            self.wf(),
        ensures
            r matches Some(i) ==> i < self@.len() && self@[i as int].peer_id@ == peer_id@ && wl_idx(
                self@,
                peer_id@,
            ) == i && wl_has(self@, peer_id@),
            r is None <==> !wl_has(self@, peer_id@),
    {
        let n = self.entries.len();
        let mut i: usize = 0;
        while i < n
            invariant
                self.wf(),
                n == self@.len(),
                i <= n,
                forall|j: int| 0 <= j < i ==> (#[trigger] self@[j].peer_id@) != peer_id@,
            decreases n - i,
        {
            if str_eq_chars(self.entries[i].key_str(), peer_id) {
                proof {
                    assert(wl_has(self@, peer_id@));
                    let k = wl_idx(self@, peer_id@);
                    assert(0 <= k < self@.len() && self@[k].peer_id@ == peer_id@);
                }
                return Some(i);
            }
            i += 1;
        }
        None
    }

    /// Whether `p` is in the cache (run-time check).
    fn cache_contains(&self, peer_id: &str) -> (r: bool)
        ensures
            r == self.in_cache(peer_id@),
    {
        let n = self.cache.len();
        let mut i: usize = 0;
        while i < n
            invariant
                n == self.cache@.len(),
                i <= n,
                forall|j: int| 0 <= j < i ==> (#[trigger] self.cache@[j]@) != peer_id@,
            decreases n - i,
        {
            if str_eq_chars(self.cache[i].as_str(), peer_id) {
                return true;
            }
            i += 1;
        }
        false
    }

    /// Drop `p` from the cache.
    fn cache_evict(&mut self, peer_id: &str)
        ensures
            final(self).entries == old(self).entries,
            forall|q: Seq<char>|
                #[trigger] final(self).in_cache(q) == (q != peer_id@ && old(self).in_cache(q)),
    {
        let n = self.cache.len();
        let mut kept: Vec<String> = Vec::new();
        let mut i: usize = 0;
        while i < n
            invariant
                n == self.cache@.len(),
                i <= n,
                forall|j: int| 0 <= j < kept@.len() ==> (#[trigger] kept@[j])@ != peer_id@,
                forall|j: int|
                    0 <= j < kept@.len() ==> exists|c: int|
                        0 <= c < self.cache@.len() && (#[trigger] kept@[j])@ == self.cache@[c]@,
                forall|c: int|
                    0 <= c < i && (#[trigger] self.cache@[c])@ != peer_id@ ==> exists|j: int|
                        0 <= j < kept@.len() && (#[trigger] kept@[j])@ == self.cache@[c]@,
            decreases n - i,
        {
            let ghost kept0 = kept@;
            if !str_eq_chars(self.cache[i].as_str(), peer_id) {
                let s = self.cache[i].clone();
                kept.push(s);
                proof {
                    assert(kept@[kept@.len() - 1]@ == self.cache@[i as int]@);
                    assert forall|c: int|
                        0 <= c < i + 1 && (#[trigger] self.cache@[c])@ != peer_id@ implies exists|
                        j: int,
                    |
                        0 <= j < kept@.len() && (#[trigger] kept@[j])@ == self.cache@[c]@ by {
                        if c < i {
                            let j0 = choose|j: int|
                                0 <= j < kept0.len() && (kept0[j])@ == self.cache@[c]@;
                            assert(kept@[j0]@ == self.cache@[c]@);
                        } else {
                            assert(kept@[kept@.len() - 1]@ == self.cache@[c]@);
                        }
                    }
                }
            }
            i += 1;
        }
        self.cache = kept;
        proof {
            assert forall|q: Seq<char>|
                #[trigger] self.in_cache(q) == (q != peer_id@ && old(self).in_cache(q)) by {
                if self.in_cache(q) {
                    let j = choose|j: int|
                        0 <= j < self.cache@.len() && (self.cache@[j])@ == q;
                    assert(kept@[j]@ == q);
                    let c = choose|c: int|
                        0 <= c < old(self).cache@.len() && (kept@[j])@ == old(self).cache@[c]@;
                    assert(old(self).cache@[c]@ == q);
                    assert(old(self).in_cache(q));
                } else {
                    if q != peer_id@ && old(self).in_cache(q) {
                        let c = choose|c: int|
                            0 <= c < old(self).cache@.len() && (old(self).cache@[c])@ == q;
                        let j = choose|j: int|
                            0 <= j < kept@.len() && (kept@[j])@ == old(self).cache@[c]@;
                        assert(self.cache@[j]@ == q);
                    }
                }
            }
        }
    }

    /// Put `p` into the cache if it is not there yet. The caller must make
    /// sure `p` names a directly-added row, so that well-formedness holds.
    fn cache_insert(&mut self, peer_id: &str)
        ensures
            final(self).entries == old(self).entries,
            forall|q: Seq<char>|
                #[trigger] final(self).in_cache(q) == (q == peer_id@ || old(self).in_cache(q)),
    {
        if !self.cache_contains(peer_id) {
            self.cache.push(peer_id.to_owned());
            proof {
                assert forall|q: Seq<char>|
                    #[trigger] final(self).in_cache(q) == (q == peer_id@ || old(self).in_cache(
                        q,
                    )) by {
                    if q == peer_id@ {
                        assert(self.cache@.last()@ == peer_id@);
                        assert(self.in_cache(q));
                    } else {
                        if old(self).in_cache(q) {
                            let c = choose|c: int|
                                0 <= c < old(self).cache@.len() && old(self).cache@[c]@ == q;
                            assert(self.cache@[c]@ == q);
                        } else {
                            if self.in_cache(q) {
                                let c = choose|c: int|
                                    0 <= c < self.cache@.len() && self.cache@[c]@ == q;
                                assert(c < self.cache@.len() - 1 ==> old(self).cache@[c]@ == q);
                            }
                        }
                    }
                }
            }
        }
    }

    /// Whether `p` is directly whitelisted at `now`, without touching the
    /// cache or the rows.
    pub fn is_active(&self, peer_id: &str, now: i64) -> (r: bool)
        requires
            self.wf(),
        ensures
            r == wl_active(self@, peer_id@, now as int),
    {
        let n = self.entries.len();
        let mut i: usize = 0;
        while i < n
            invariant
                self.wf(),
                n == self@.len(),
                i <= n,
                forall|j: int|
                    0 <= j < i ==> !((#[trigger] self@[j].peer_id@) == peer_id@
                        && self@[j].directly_added && !entry_expired(self@[j], now as int)),
            decreases n - i,
        {
            if str_eq_chars(self.entries[i].key_str(), peer_id) {
                if self.entries[i].directly_added && !self.entries[i].expired_now(now) {
                    return true;
                }
            }
            i += 1;
        }
        false
    }
}

/// Byte-for-byte copy of a byte vector.
pub(crate) fn clone_bytes(v: &Vec<u8>) -> (r: Vec<u8>)
    ensures
        r@ == v@,
{
    let n = v.len();
    let mut r: Vec<u8> = Vec::new();
    let mut i: usize = 0;
    while i < n
        invariant
            n == v@.len(),
            i <= n,
            r@ == v@.subrange(0, i as int),
        decreases n - i,
    {
        r.push(v[i]);
        proof {
            assert(r@ =~= v@.subrange(0, i + 1));
        }
        i += 1;
    }
    proof {
        assert(v@.subrange(0, v@.len() as int) =~= v@);
    }
    r
}

/// Copy of an optional string, equal as a value.
pub(crate) fn clone_opt_string(o: &Option<String>) -> (r: Option<String>)
    ensures
        r == *o,
{
    match o {
        Option::Some(s) => Some(s.clone()),
        Option::None => None,
    }
}

/// Copy of a string vector with the same view.
pub(crate) fn clone_string_vec(v: &Vec<String>) -> (r: Vec<String>)
    ensures
        r@ == v@,
{
    let n = v.len();
    let mut r: Vec<String> = Vec::new();
    let mut i: usize = 0;
    while i < n
        invariant
            n == v@.len(),
            i <= n,
            r@ =~= v@.subrange(0, i as int),
        decreases n - i,
    {
        r.push(v[i].clone());
        proof {
            assert(r@ =~= v@.subrange(0, i + 1));
        }
        i += 1;
    }
    proof {
        assert(v@.subrange(0, v@.len() as int) =~= v@);
    }
    r
}

/// Field-wise sameness of two rows: equal except that byte buffers are
/// compared by contents.
pub open spec fn entry_equiv(a: WhitelistEntry, b: WhitelistEntry) -> bool {
    &&& a.peer_id == b.peer_id
    &&& a.name == b.name
    &&& match b.public_key {
        Option::Some(bb) => a.public_key matches Option::Some(ab) && ab@ == bb@,
        Option::None => a.public_key is None,
    }
    &&& a.added_at == b.added_at
    &&& a.expires_at == b.expires_at
    &&& a.recommended_by@ == b.recommended_by@
    &&& a.recommendation_count == b.recommendation_count
    &&& a.directly_added == b.directly_added
}

/// Identities are unique, so the row found at an index is the row the
/// lookup functions speak about.
proof fn lemma_wl_unique_at(s: Seq<WhitelistEntry>, i: int)
    requires
        forall|a: int, b: int|
            0 <= a < b < s.len() ==> (#[trigger] s[a].peer_id@) != (#[trigger] s[b].peer_id@),
        0 <= i < s.len(),
    ensures
        wl_has(s, s[i].peer_id@),
        wl_idx(s, s[i].peer_id@) == i,
{
    assert(wl_has(s, s[i].peer_id@));
    let j = wl_idx(s, s[i].peer_id@);
    if j != i {
        if j < i {
            assert(s[j].peer_id@ != s[i].peer_id@);
        } else {
            assert(s[i].peer_id@ != s[j].peer_id@);
        }
    }
}

/// Cache membership depends only on the cached identifier views.
proof fn lemma_in_cache_congruent(a: PeerWhitelist, b: PeerWhitelist)
    requires
        a.cache@.len() == b.cache@.len(),
        forall|c: int|
            0 <= c < a.cache@.len() ==> (#[trigger] a.cache@[c])@ == (
            #[trigger] b.cache@[c])@,
    ensures
        forall|q: Seq<char>| #[trigger] a.in_cache(q) == b.in_cache(q),
{
    assert forall|q: Seq<char>| #[trigger] a.in_cache(q) == b.in_cache(q) by {
        if a.in_cache(q) {
            let c = choose|c: int| 0 <= c < a.cache@.len() && (a.cache@[c])@ == q;
            assert(b.cache@[c]@ == q);
            assert(b.in_cache(q));
        }
        if b.in_cache(q) {
            let c = choose|c: int| 0 <= c < b.cache@.len() && (b.cache@[c])@ == q;
            assert(a.cache@[c]@ == q);
            assert(a.in_cache(q));
        }
    }
}

/// Law: a peer whose fresh, unexpired row heads the list is whitelisted
/// and appears in every enumeration.
pub proof fn lemma_add_then_whitelisted(s: Seq<WhitelistEntry>, p: Seq<char>, now: int)
    requires
        s.len() > 0,
        s[0].peer_id@ == p,
        s[0].directly_added,
        !entry_expired(s[0], now),
    ensures
        wl_active(s, p, now),
        wl_has(s, p),
{
}

/// Law: once a peer's row is removed, the peer is neither listed nor
/// whitelisted, at any time.
pub proof fn lemma_remove_then_not_whitelisted(s: Seq<WhitelistEntry>, p: Seq<char>, now: int)
    requires
        forall|a: int, b: int|
            0 <= a < b < s.len() ==> (#[trigger] s[a].peer_id@) != (#[trigger] s[b].peer_id@),
        wl_has(s, p),
    ensures
        !wl_has(s.remove(wl_idx(s, p)), p),
        !wl_active(s.remove(wl_idx(s, p)), p, now),
{
    let idx = wl_idx(s, p);
    assert(0 <= idx < s.len() && s[idx].peer_id@ == p);
    s.remove_ensures(idx);
    let u = s.remove(idx);
    assert forall|k: int| 0 <= k < u.len() implies (#[trigger] u[k].peer_id@) != p by {
        let k0 = if k < idx {
            k
        } else {
            k + 1
        };
        assert(u[k] == s[k0]);
        if k0 < idx {
            assert(s[k0].peer_id@ != s[idx].peer_id@);
        } else {
            assert(s[idx].peer_id@ != s[k0].peer_id@);
        }
    }
}

impl PeerWhitelist {
    /// Add or replace a peer row: the row is created afresh (labels and
    /// expiry as given, no recommendations), stamped with `now`, marked as
    /// directly added, and placed first. A supplied public key must derive
    /// to `peer_id`, otherwise nothing changes and the call fails.
    pub fn add_peer(
        &mut self,
        peer_id: &str,
        name: Option<String>,
        public_key: Option<&Vec<u8>>,
        expires_at: Option<i64>,
        now: i64,
    ) -> (r: Result<(), WhitelistError>)
        requires
            old(self).wf(),
        ensures
            final(self).wf(),
            r is Ok <==> match public_key {
                Option::Some(b) => pk_decodes(b@) && peer_id_of(b@) == peer_id@,
                Option::None => true,
            },
            r is Err ==> final(self)@ == old(self)@ && *final(self) == *old(self),
            r is Ok ==> final(self)@.len() == wl_rest(old(self)@, peer_id@).len() + 1
                && fresh_entry(
                final(self)@[0],
                peer_id@,
                name,
                match public_key {
                    Option::Some(b) => Option::Some(b@),
                    Option::None => Option::None,
                },
                expires_at,
                now as int,
            ) && final(self)@.skip(1) == wl_rest(old(self)@, peer_id@),
            r is Ok ==> forall|q: Seq<char>|
                q != peer_id@ ==> final(self).in_cache(q) == old(self).in_cache(q),
            r is Ok ==> final(self).in_cache(peer_id@) == !entry_expired(
                final(self)@[0],
                now as int,
            ),
    {
        let pk_clone: Option<Vec<u8>> = match public_key {
            Option::Some(b) => {
                match derive_peer_id(b) {
                    Option::Some(derived) => {
                        if !str_eq_chars(derived.as_str(), peer_id) {
                            return Err(WhitelistError::KeyMismatch);
                        }
                    },
                    Option::None => {
                        return Err(WhitelistError::KeyMismatch);
                    },
                }
                Some(clone_bytes(b))
            },
            Option::None => None,
        };
        let e = WhitelistEntry {
            peer_id: peer_id.to_owned(),
            name,
            public_key: pk_clone,
            added_at: now,
            expires_at,
            recommended_by: Vec::new(),
            recommendation_count: 0,
            directly_added: true,
        };
        let expired_now = e.expired_now(now);
        let ghost s0 = self.entries@;
        match self.find_index(peer_id) {
            Option::Some(i) => {
                self.entries.remove(i);
            },
            Option::None => {
            },
        }
        let ghost s1 = self.entries@;
        proof {
            assert(s1 == wl_rest(s0, peer_id@));
            if wl_has(s0, peer_id@) {
                lemma_remove_then_not_whitelisted(s0, peer_id@, now as int);
            }
            assert(!wl_has(s1, peer_id@));
            s1.insert_ensures(0, e);
        }
        self.entries.insert(0, e);
        proof {
            lemma_in_cache_congruent(*self, *old(self));
        }
        let ghost mid = *self;
        if expired_now {
            self.cache_evict(peer_id);
        } else {
            self.cache_insert(peer_id);
        }
        proof {
            assert(self.entries@.skip(1) =~= s1);
            assert forall|q: Seq<char>| q != peer_id@ implies self.in_cache(q) == old(
                self,
            ).in_cache(q) by {
                assert(mid.in_cache(q) == old(self).in_cache(q));
            }
            assert forall|c: int|
                0 <= c < self.cache@.len() implies (#[trigger] self.cache@[c])@
                    == peer_id@ || exists|i: int|
                    0 <= i < s0.len() && (self.cache@[c])@ == s0[i].peer_id@
                        && s0[i].directly_added by {
                let q = self.cache@[c]@;
                assert(self.in_cache(q));
                if q != peer_id@ {
                    assert(old(self).in_cache(q));
                    let c0 = choose|c0: int|
                        0 <= c0 < old(self).cache@.len() && (old(self).cache@[c0])@ == q;
                    assert(exists|i: int|
                        0 <= i < s0.len() && s0[i].peer_id@ == (old(self).cache@[c0])@
                            && s0[i].directly_added);
                }
            }
            self.lemma_restore_wf_after_upsert(s0, s1, peer_id@);
        }
        Ok(())
    }

    /// Well-formedness carries over an upsert at the front; proved here so
    /// the mutators stay readable.
    proof fn lemma_restore_wf_after_upsert(
        &self,
        s0: Seq<WhitelistEntry>,
        s1: Seq<WhitelistEntry>,
        p: Seq<char>,
    )
        requires
            forall|a: int, b: int|
                0 <= a < b < s0.len() ==> (#[trigger] s0[a].peer_id@) != (
                #[trigger] s0[b].peer_id@),
            forall|i: int|
                0 <= i < s0.len() ==> match #[trigger] s0[i].public_key {
                    Option::Some(b) => pk_decodes(b@) && peer_id_of(b@) == s0[i].peer_id@,
                    Option::None => true,
                },
            forall|i: int|
                0 <= i < s0.len() ==> (#[trigger] s0[i].recommendation_count) as int
                    == s0[i].recommended_by@.len(),
            forall|i: int, a: int, b: int|
                0 <= i < s0.len() && 0 <= a < b < s0[i].recommended_by@.len() ==> (
                #[trigger] s0[i].recommended_by@[a]@) != (#[trigger] s0[i].recommended_by@[b]@),
            s1 == wl_rest(s0, p),
            self@.len() == s1.len() + 1,
            self@.skip(1) == s1,
            self@[0].peer_id@ == p,
            self@[0].directly_added,
            self@[0].recommended_by@.len() == 0,
            self@[0].recommendation_count == 0,
            match self@[0].public_key {
                Option::Some(b) => pk_decodes(b@) && peer_id_of(b@) == p,
                Option::None => true,
            },
            forall|c: int|
                0 <= c < self.cache@.len() ==> (#[trigger] self.cache@[c])@ == p
                    || exists|i: int|
                    0 <= i < s0.len() && (#[trigger] self.cache@[c])@ == s0[i].peer_id@
                        && s0[i].directly_added,
        ensures
            self.wf(),
    {
        let s = self@;
        let ghost idx = wl_idx(s0, p);
        if wl_has(s0, p) {
            s0.remove_ensures(idx);
            lemma_remove_then_not_whitelisted(s0, p, 0);
        }
        assert forall|k: int| 0 <= k < s1.len() implies s[k + 1] == s1[k] by {
            assert(s.skip(1)[k] == s[k + 1]);
        }
        assert forall|i: int, j: int|
            0 <= i < j < s.len() implies (#[trigger] s[i].peer_id@) != (
        #[trigger] s[j].peer_id@) by {
            if i == 0 {
                assert(s[j] == s1[j - 1]);
                assert(!wl_has(s1, p));
                if s[j].peer_id@ == p {
                    assert(wl_has(s1, p));
                }
            } else {
                if wl_has(s0, p) {
                    let ia = if i - 1 < idx {
                        i - 1
                    } else {
                        i
                    };
                    let ib = if j - 1 < idx {
                        j - 1
                    } else {
                        j
                    };
                    assert(s[i] == s1[i - 1] && s1[i - 1] == s0[ia]);
                    assert(s[j] == s1[j - 1] && s1[j - 1] == s0[ib]);
                    assert(ia < ib);
                    assert(s0[ia].peer_id@ != s0[ib].peer_id@);
                } else {
                    assert(s[i] == s0[i - 1] && s[j] == s0[j - 1]);
                    assert(s0[i - 1].peer_id@ != s0[j - 1].peer_id@);
                }
            }
        }
        assert forall|i: int| #![trigger s[i]] 1 <= i < s.len() implies exists|i0: int|
            0 <= i0 < s0.len() && s[i] == (#[trigger] s0[i0]) by {
            if wl_has(s0, p) {
                let i0 = if i - 1 < idx {
                    i - 1
                } else {
                    i
                };
                assert(s[i] == s1[i - 1] && s1[i - 1] == s0[i0]);
            } else {
                assert(s[i] == s0[i - 1]);
            }
        }
        assert forall|i: int|
            0 <= i < s.len() implies match #[trigger] s[i].public_key {
                Option::Some(b) => pk_decodes(b@) && peer_id_of(b@) == s[i].peer_id@,
                Option::None => true,
            } by {
            if i >= 1 {
                let i0 = choose|i0: int| 0 <= i0 < s0.len() && s[i] == (#[trigger] s0[i0]);
                assert(match s0[i0].public_key {
                    Option::Some(b) => pk_decodes(b@) && peer_id_of(b@) == s0[i0].peer_id@,
                    Option::None => true,
                });
            }
        }
        assert forall|i: int|
            0 <= i < s.len() implies (#[trigger] s[i].recommendation_count) as int
                == s[i].recommended_by@.len() by {
            if i >= 1 {
                let i0 = choose|i0: int| 0 <= i0 < s0.len() && s[i] == (#[trigger] s0[i0]);
                assert(s0[i0].recommendation_count as int == s0[i0].recommended_by@.len());
            }
        }
        assert forall|i: int, a: int, b: int|
            0 <= i < s.len() && 0 <= a < b < s[i].recommended_by@.len() implies (
        #[trigger] s[i].recommended_by@[a]@) != (#[trigger] s[i].recommended_by@[b]@) by {
            if i >= 1 {
                let i0 = choose|i0: int| 0 <= i0 < s0.len() && s[i] == (#[trigger] s0[i0]);
                assert(s0[i0].recommended_by@[a]@ != s0[i0].recommended_by@[b]@);
            }
        }
        assert forall|c: int|
            0 <= c < self.cache@.len() implies wl_direct_row(
                self.entries@,
                (#[trigger] self.cache@[c])@,
            ) by {
            if self.cache@[c]@ == p {
                assert(s[0].peer_id@ == self.cache@[c]@ && s[0].directly_added);
                assert(self.entries@[0].peer_id@ == self.cache@[c]@
                    && self.entries@[0].directly_added);
            } else {
                let i0 = choose|i: int|
                    0 <= i < s0.len() && (self.cache@[c])@ == s0[i].peer_id@
                        && s0[i].directly_added;
                if wl_has(s0, p) {
                    lemma_wl_unique_at(s0, i0);
                    assert(i0 != idx);
                    let k = if i0 < idx {
                        i0
                    } else {
                        i0 - 1
                    };
                    assert(s1[k] == s0[i0]);
                    assert(s[k + 1] == s0[i0]);
                    assert(self.entries@[k + 1].peer_id@ == self.cache@[c]@
                        && self.entries@[k + 1].directly_added);
                } else {
                    assert(s[i0 + 1] == s0[i0]);
                    assert(self.entries@[i0 + 1].peer_id@ == self.cache@[c]@
                        && self.entries@[i0 + 1].directly_added);
                }
            }
        }
    }

    /// Remove a peer's row and evict it from the cache.
    pub fn remove_peer(&mut self, peer_id: &str)
        requires
            old(self).wf(),
        ensures
            final(self).wf(),
            final(self)@ == wl_rest(old(self)@, peer_id@),
            !final(self).in_cache(peer_id@),
            forall|q: Seq<char>|
                q != peer_id@ ==> final(self).in_cache(q) == old(self).in_cache(q),
            !wl_has(final(self)@, peer_id@),
    {
        let ghost s0 = self.entries@;
        match self.find_index(peer_id) {
            Option::Some(i) => {
                self.entries.remove(i);
            },
            Option::None => {
            },
        }
        proof {
            lemma_in_cache_congruent(*self, *old(self));
        }
        let ghost mid = *self;
        self.cache_evict(peer_id);
        proof {
            assert forall|q: Seq<char>| q != peer_id@ implies self.in_cache(q) == old(
                self,
            ).in_cache(q) by {
                assert(mid.in_cache(q) == old(self).in_cache(q));
            }
            if wl_has(s0, peer_id@) {
                lemma_remove_then_not_whitelisted(s0, peer_id@, 0);
                s0.remove_ensures(wl_idx(s0, peer_id@));
            }
            let s = self.entries@;
            assert forall|i: int, j: int|
                0 <= i < j < s.len() implies (#[trigger] s[i].peer_id@) != (
            #[trigger] s[j].peer_id@) by {
                if wl_has(s0, peer_id@) {
                    let idx = wl_idx(s0, peer_id@);
                    let ia = if i < idx {
                        i
                    } else {
                        i + 1
                    };
                    let ib = if j < idx {
                        j
                    } else {
                        j + 1
                    };
                    assert(s[i] == s0[ia] && s[j] == s0[ib]);
                    assert(s0[ia].peer_id@ != s0[ib].peer_id@);
                }
            }
            assert forall|i: int|
                0 <= i < s.len() implies match #[trigger] s[i].public_key {
                    Option::Some(b) => pk_decodes(b@) && peer_id_of(b@) == s[i].peer_id@,
                    Option::None => true,
                } by {
                if wl_has(s0, peer_id@) {
                    let idx = wl_idx(s0, peer_id@);
                    let i0 = if i < idx {
                        i
                    } else {
                        i + 1
                    };
                    assert(s[i] == s0[i0]);
                }
            }
            assert forall|i: int, a: int, b: int|
                0 <= i < s.len() && 0 <= a < b < s[i].recommended_by@.len() implies (
            #[trigger] s[i].recommended_by@[a]@) != (#[trigger] s[i].recommended_by@[b]@) by {
                if wl_has(s0, peer_id@) {
                    let idx = wl_idx(s0, peer_id@);
                    let i0 = if i < idx {
                        i
                    } else {
                        i + 1
                    };
                    assert(s[i] == s0[i0]);
                }
            }
            assert forall|i: int|
                0 <= i < s.len() implies (#[trigger] s[i].recommendation_count) as int
                    == s[i].recommended_by@.len() by {
                if wl_has(s0, peer_id@) {
                    let idx = wl_idx(s0, peer_id@);
                    let i0 = if i < idx {
                        i
                    } else {
                        i + 1
                    };
                    assert(s[i] == s0[i0]);
                }
            }
            assert forall|c: int|
                0 <= c < self.cache@.len() implies wl_direct_row(
                    self.entries@,
                    (#[trigger] self.cache@[c])@,
                ) by {
                let q = self.cache@[c]@;
                assert(self.in_cache(q));
                assert(q != peer_id@);
                assert(mid.in_cache(q) == old(self).in_cache(q));
                assert(old(self).in_cache(q));
                let c0 = choose|c0: int|
                    0 <= c0 < old(self).cache@.len() && (old(self).cache@[c0])@ == q;
                assert(exists|i: int|
                    0 <= i < s0.len() && s0[i].peer_id@ == (old(self).cache@[c0])@
                        && s0[i].directly_added);
                let i0 = choose|i: int|
                    0 <= i < s0.len() && s0[i].peer_id@ == (old(self).cache@[c0])@
                        && s0[i].directly_added;
                if wl_has(s0, peer_id@) {
                    let idx = wl_idx(s0, peer_id@);
                    lemma_wl_unique_at(s0, i0);
                    assert(i0 != idx);
                    let k = if i0 < idx {
                        i0
                    } else {
                        i0 - 1
                    };
                    assert(s[k] == s0[i0]);
                    assert(0 <= k < self.entries@.len() && self.entries@[k].peer_id@ == q
                        && self.entries@[k].directly_added);
                } else {
                    assert(s[i0] == s0[i0]);
                    assert(0 <= i0 < self.entries@.len() && self.entries@[i0].peer_id@ == q
                        && self.entries@[i0].directly_added);
                }
            }
        }
    }

    /// Whether the peer is currently whitelisted. The positive cache is
    /// consulted first; a cached peer found to have expired is evicted and
    /// its row removed. A fresh positive answer populates the cache.
    pub fn is_whitelisted(&mut self, peer_id: &str, now: i64) -> (r: bool)
        requires
            old(self).wf(),
        ensures
            final(self).wf(),
            r == wl_active(old(self)@, peer_id@, now as int),
            r || !old(self).in_cache(peer_id@) ==> final(self)@ == old(self)@,
            !r && old(self).in_cache(peer_id@) ==> final(self)@ == wl_rest(
                old(self)@,
                peer_id@,
            ),
            forall|q: Seq<char>|
                q != peer_id@ ==> final(self).in_cache(q) == old(self).in_cache(q),
            final(self).in_cache(peer_id@) == r,
    {
        if self.cache_contains(peer_id) {
            let found = self.find_index(peer_id);
            match found {
                Option::Some(i) => {
                    proof {
                        let c = choose|c: int|
                            0 <= c < self.cache@.len() && self.cache@[c]@ == peer_id@;
                        assert(wl_direct_row(self.entries@, self.cache@[c]@));
                        let k = choose|k: int|
                            0 <= k < self.entries@.len() && self.entries@[k].peer_id@ == peer_id@
                                && self.entries@[k].directly_added;
                        lemma_wl_unique_at(self.entries@, k);
                        assert(k == i);
                        assert(self.entries@[i as int].directly_added);
                    }
                    if self.entries[i].expired_now(now) {
                        self.remove_peer(peer_id);
                        proof {
                            assert forall|k: int|
                                0 <= k < old(self)@.len() implies !(old(
                                self,
                            )@[k].peer_id@ == peer_id@ && old(self)@[k].directly_added
                                && !entry_expired(old(self)@[k], now as int)) by {
                                if old(self)@[k].peer_id@ == peer_id@ {
                                    lemma_wl_unique_at(old(self)@, k);
                                }
                            }
                        }
                        false
                    } else {
                        true
                    }
                },
                Option::None => {
                    proof {
                        let c = choose|c: int|
                            0 <= c < self.cache@.len() && self.cache@[c]@ == peer_id@;
                        assert(wl_direct_row(self.entries@, self.cache@[c]@));
                        assert(false);
                    }
                    false
                },
            }
        } else {
            let found = self.find_index(peer_id);
            match found {
                Option::Some(i) => {
                    if self.entries[i].directly_added && !self.entries[i].expired_now(now) {
                        proof {
                            lemma_in_cache_congruent(*self, *old(self));
                        }
                        let ghost mid = *self;
                        self.cache_insert(peer_id);
                        proof {
                            assert forall|q: Seq<char>|
                                q != peer_id@ implies self.in_cache(q) == old(self).in_cache(
                                q,
                            ) by {
                                assert(mid.in_cache(q) == old(self).in_cache(q));
                            }
                            assert forall|c: int|
                                0 <= c < self.cache@.len() implies wl_direct_row(
                                    self.entries@,
                                    (#[trigger] self.cache@[c])@,
                                ) by {
                                let q = self.cache@[c]@;
                                assert(self.in_cache(q));
                                if q == peer_id@ {
                                    assert(self.entries@[i as int].peer_id@ == q
                                        && self.entries@[i as int].directly_added);
                                } else {
                                    assert(mid.in_cache(q) == old(self).in_cache(q));
                                    let c0 = choose|c0: int|
                                        0 <= c0 < old(self).cache@.len() && (old(
                                            self,
                                        ).cache@[c0])@ == q;
                                    assert(wl_direct_row(self.entries@, (old(
                                        self,
                                    ).cache@[c0])@));
                                }
                            }
                        }
                        true
                    } else {
                        proof {
                            assert forall|k: int|
                                0 <= k < self@.len() implies !(self@[k].peer_id@ == peer_id@
                                    && self@[k].directly_added && !entry_expired(
                                    self@[k],
                                    now as int,
                                )) by {
                                if self@[k].peer_id@ == peer_id@ {
                                    lemma_wl_unique_at(self@, k);
                                }
                            }
                        }
                        false
                    }
                },
                Option::None => {
                    false
                },
            }
        }
    }

    /// Whether the peer is trusted by the one-hop chain: directly
    /// whitelisted, or vouched for by a currently-whitelisted peer in a
    /// live row. This check reads only; expiry pruning happens in
    /// `is_whitelisted`.
    pub fn is_trusted_by_chain(&self, peer_id: &str, now: i64) -> (r: bool)
        requires
            self.wf(),
        ensures
            r == chain_trusted(self@, peer_id@, now as int),
    {
        if self.is_active(peer_id, now) {
            return true;
        }
        let found = self.find_index(peer_id);
        match found {
            Option::None => {
                false
            },
            Option::Some(i) => {
                if self.entries[i].expired_now(now) {
                    proof {
                        assert forall|k: int, j: int|
                            #![trigger self@[k].recommended_by@[j]]
                            0 <= k < self@.len() && self@[k].peer_id@ == peer_id@ && 0 <= j
                                < self@[k].recommended_by@.len() implies entry_expired(
                            self@[k],
                            now as int,
                        ) by {
                            lemma_wl_unique_at(self@, k);
                        }
                    }
                    return false;
                }
                let m = self.entries[i].recommended_by.len();
                let mut j: usize = 0;
                while j < m
                    invariant
                        self.wf(),
                        i < self@.len(),
                        self@[i as int].peer_id@ == peer_id@,
                        !entry_expired(self@[i as int], now as int),
                        m == self@[i as int].recommended_by@.len(),
                        j <= m,
                        forall|j2: int|
                            0 <= j2 < j ==> !wl_active(
                                self@,
                                (#[trigger] self@[i as int].recommended_by@[j2])@,
                                now as int,
                            ),
                    decreases m - j,
                {
                    if self.is_active(self.entries[i].recommended_by[j].as_str(), now) {
                        proof {
                            assert(wl_active(
                                self@,
                                self@[i as int].recommended_by@[j as int]@,
                                now as int,
                            ));
                            assert(chain_trusted(self@, peer_id@, now as int));
                        }
                        return true;
                    }
                    j += 1;
                }
                proof {
                    assert forall|k: int, j2: int|
                        #![trigger self@[k].recommended_by@[j2]]
                        0 <= k < self@.len() && self@[k].peer_id@ == peer_id@ && !entry_expired(
                            self@[k],
                            now as int,
                        ) && 0 <= j2 < self@[k].recommended_by@.len() implies !wl_active(
                        self@,
                        self@[k].recommended_by@[j2]@,
                        now as int,
                    ) by {
                        lemma_wl_unique_at(self@, k);
                        assert(k == i);
                        assert(!wl_active(
                            self@,
                            (self@[i as int].recommended_by@[j2])@,
                            now as int,
                        ));
                    }
                }
                false
            },
        }
    }

    /// Enumerate all rows, newest first.
    pub fn list_peers(&self) -> (r: Vec<WhitelistEntry>)
        requires
            self.wf(),
        ensures
            r@.len() == self@.len(),
            forall|i: int| 0 <= i < r@.len() ==> entry_equiv(#[trigger] r@[i], self@[i]),
            forall|i: int|
                0 <= i < r@.len() ==> (#[trigger] r@[i]).recommendation_count as int
                    == r@[i].recommended_by@.len(),
            forall|i: int, a: int, b: int|
                0 <= i < r@.len() && 0 <= a < b < r@[i].recommended_by@.len() ==> (
                #[trigger] r@[i].recommended_by@[a])@ != (#[trigger] r@[i].recommended_by@[b])@,
    {
        let n = self.entries.len();
        let mut r: Vec<WhitelistEntry> = Vec::new();
        let mut i: usize = 0;
        while i < n
            invariant
                self.wf(),
                n == self@.len(),
                i <= n,
                r@.len() == i,
                forall|k: int| 0 <= k < i ==> entry_equiv(#[trigger] r@[k], self@[k]),
            decreases n - i,
        {
            let e = &self.entries[i];
            let copy = WhitelistEntry {
                peer_id: e.peer_id.clone(),
                name: clone_opt_string(&e.name),
                public_key: match &e.public_key {
                    Option::Some(b) => Some(clone_bytes(b)),
                    Option::None => None,
                },
                added_at: e.added_at,
                expires_at: e.expires_at,
                recommended_by: clone_string_vec(&e.recommended_by),
                recommendation_count: e.recommendation_count,
                directly_added: e.directly_added,
            };
            proof {
                assert(entry_equiv(copy, self@[i as int]));
            }
            r.push(copy);
            i += 1;
        }
        proof {
            assert forall|i2: int|
                0 <= i2 < r@.len() implies (#[trigger] r@[i2]).recommendation_count as int
                    == r@[i2].recommended_by@.len() by {
                assert(entry_equiv(r@[i2], self@[i2]));
                assert(self.entries@[i2].recommendation_count as int
                    == self.entries@[i2].recommended_by@.len());
            }
            assert forall|i2: int, a: int, b: int|
                0 <= i2 < r@.len() && 0 <= a < b < r@[i2].recommended_by@.len() implies (
            #[trigger] r@[i2].recommended_by@[a])@ != (#[trigger] r@[i2].recommended_by@[b])@ by {
                assert(entry_equiv(r@[i2], self@[i2]));
                assert(r@[i2].recommended_by@ == self.entries@[i2].recommended_by@);
                assert(self.entries@[i2].recommended_by@[a]@
                    != self.entries@[i2].recommended_by@[b]@);
            }
        }
        r
    }

    /// The stored public key of a peer, when one is present. Stored keys
    /// always decode and derive to their row's identity.
    pub fn get_public_key(&self, peer_id: &str) -> (r: Option<Vec<u8>>)
        requires
            self.wf(),
        ensures
            r is Some <==> wl_has(self@, peer_id@) && self@[wl_idx(self@, peer_id@)].public_key
                is Some,
            r matches Some(b) ==> self@[wl_idx(self@, peer_id@)].public_key matches Option::Some(
                b0,
            ) && b@ == b0@ && pk_decodes(b@) && peer_id_of(b@) == peer_id@,
    {
        let found = self.find_index(peer_id);
        match found {
            Option::Some(i) => {
                match &self.entries[i].public_key {
                    Option::Some(b) => Some(clone_bytes(b)),
                    Option::None => None,
                }
            },
            Option::None => None,
        }
    }

    /// The label and expiry of a peer's row, when one exists.
    pub fn get_entry_meta(&self, peer_id: &str) -> (r: Option<(Option<String>, Option<i64>)>)
        requires
            self.wf(),
        ensures
            r is Some <==> wl_has(self@, peer_id@),
            r matches Some(p) ==> p.0 == self@[wl_idx(self@, peer_id@)].name && p.1 == self@[
                wl_idx(self@, peer_id@)
            ].expires_at,
    {
        let found = self.find_index(peer_id);
        match found {
            Option::Some(i) => Some(
                (clone_opt_string(&self.entries[i].name), self.entries[i].expires_at),
            ),
            Option::None => None,
        }
    }

    /// Rebuild the positive cache from the live directly-added rows.
    pub fn reload_cache(&mut self, now: i64)
        requires
            old(self).wf(),
        ensures
            final(self).wf(),
            final(self)@ == old(self)@,
            forall|q: Seq<char>|
                #[trigger] final(self).in_cache(q) == wl_active(old(self)@, q, now as int),
    {
        let n = self.entries.len();
        let mut fresh: Vec<String> = Vec::new();
        let mut i: usize = 0;
        while i < n
            invariant
                self.wf(),
                n == self@.len(),
                i <= n,
                forall|c: int|
                    0 <= c < fresh@.len() ==> wl_active(
                        self@,
                        (#[trigger] fresh@[c])@,
                        now as int,
                    ),
                forall|k: int|
                    0 <= k < i && self@[k].directly_added && !entry_expired(
                        #[trigger] self@[k],
                        now as int,
                    ) ==> exists|c: int|
                        0 <= c < fresh@.len() && (#[trigger] fresh@[c])@ == self@[k].peer_id@,
            decreases n - i,
        {
            if self.entries[i].directly_added && !self.entries[i].expired_now(now) {
                let ghost fresh0 = fresh@;
                fresh.push(self.entries[i].peer_id.clone());
                proof {
                    assert(fresh@[fresh@.len() - 1]@ == self@[i as int].peer_id@);
                    assert forall|c: int|
                        0 <= c < fresh@.len() implies wl_active(
                            self@,
                            (#[trigger] fresh@[c])@,
                            now as int,
                        ) by {
                        if c < fresh@.len() - 1 {
                            assert(fresh@[c] == fresh0[c]);
                        } else {
                            assert(self@[i as int].peer_id@ == fresh@[c]@
                                && self@[i as int].directly_added && !entry_expired(
                                self@[i as int],
                                now as int,
                            ));
                        }
                    }
                    assert forall|k: int|
                        0 <= k < i + 1 && self@[k].directly_added && !entry_expired(
                            #[trigger] self@[k],
                            now as int,
                        ) implies exists|c: int|
                        0 <= c < fresh@.len() && (#[trigger] fresh@[c])@
                            == self@[k].peer_id@ by {
                        if k < i {
                            let c0 = choose|c: int|
                                0 <= c < fresh0.len() && (fresh0[c])@ == self@[k].peer_id@;
                            assert(fresh@[c0]@ == self@[k].peer_id@);
                        } else {
                            assert(fresh@[fresh@.len() - 1]@ == self@[k].peer_id@);
                        }
                    }
                }
            }
            i += 1;
        }
        self.cache = fresh;
        proof {
            assert forall|q: Seq<char>|
                #[trigger] self.in_cache(q) == wl_active(old(self)@, q, now as int) by {
                if self.in_cache(q) {
                    let c = choose|c: int|
                        0 <= c < self.cache@.len() && (self.cache@[c])@ == q;
                    assert(wl_active(self@, (self.cache@[c])@, now as int));
                    assert(wl_active(old(self)@, q, now as int));
                } else {
                    if wl_active(old(self)@, q, now as int) {
                        let k = choose|k: int|
                            0 <= k < self@.len() && self@[k].peer_id@ == q
                                && self@[k].directly_added && !entry_expired(
                                self@[k],
                                now as int,
                            );
                        let c = choose|c: int|
                            0 <= c < self.cache@.len() && (self.cache@[c])@ == self@[k].peer_id@;
                        assert(self.in_cache(q));
                    }
                }
            }
            assert forall|c: int|
                0 <= c < self.cache@.len() implies wl_direct_row(
                    self.entries@,
                    (#[trigger] self.cache@[c])@,
                ) by {
                assert(wl_active(self@, (self.cache@[c])@, now as int));
                let k = choose|k: int|
                    0 <= k < self@.len() && self@[k].peer_id@ == (self.cache@[c])@
                        && self@[k].directly_added && !entry_expired(self@[k], now as int);
                assert(self.entries@[k].peer_id@ == self.cache@[c]@
                    && self.entries@[k].directly_added);
            }
        }
    }

    /// Record that `recommender_id` vouches for `peer_id`. Fails when the
    /// recommender is not currently whitelisted or recommends itself.
    /// Creates a non-direct row for an unknown peer; otherwise adds the
    /// recommender to the row's set if absent, filling in a missing label
    /// but never overwriting one.
    pub fn add_recommendation(
        &mut self,
        peer_id: &str,
        recommender_id: &str,
        name: Option<String>,
        now: i64,
    ) -> (r: Result<(), WhitelistError>)
        requires
            old(self).wf(),
        ensures
            final(self).wf(),
            forall|q: Seq<char>| final(self).in_cache(q) == old(self).in_cache(q),
            r is Err ==> r == Err::<(), WhitelistError>(WhitelistError::RecommenderNotWhitelisted)
                || r == Err::<(), WhitelistError>(WhitelistError::SelfRecommendation),
            r == Err::<(), WhitelistError>(WhitelistError::RecommenderNotWhitelisted)
                <==> !wl_active(old(self)@, recommender_id@, now as int),
            r == Err::<(), WhitelistError>(WhitelistError::SelfRecommendation) <==> wl_active(
                old(self)@,
                recommender_id@,
                now as int,
            ) && peer_id@ == recommender_id@,
            r is Err ==> final(self)@ == old(self)@,
            r is Ok && wl_has(old(self)@, peer_id@) && rec_listed(
                old(self)@[wl_idx(old(self)@, peer_id@)],
                recommender_id@,
            ) ==> final(self)@ == old(self)@,
            r is Ok && wl_has(old(self)@, peer_id@) && !rec_listed(
                old(self)@[wl_idx(old(self)@, peer_id@)],
                recommender_id@,
            ) ==> {
                let idx = wl_idx(old(self)@, peer_id@);
                let e0 = old(self)@[idx];
                let e1 = final(self)@[idx];
                &&& final(self)@.len() == old(self)@.len()
                &&& forall|k: int| 0 <= k < old(self)@.len() && k != idx ==> final(self)@[k] == old(self)@[k]
                &&& e1.peer_id == e0.peer_id
                &&& e1.name == (if e0.name is Some { e0.name } else { name })
                &&& e1.public_key == e0.public_key
                &&& e1.added_at == e0.added_at
                &&& e1.expires_at == e0.expires_at
                &&& e1.directly_added == e0.directly_added
                &&& e1.recommended_by@.len() == e0.recommended_by@.len() + 1
                &&& e1.recommended_by@.subrange(0, e0.recommended_by@.len() as int) == e0.recommended_by@
                &&& e1.recommended_by@.last()@ == recommender_id@
                &&& e1.recommendation_count == e0.recommendation_count + 1
            },
            r is Ok && !wl_has(old(self)@, peer_id@) ==> {
                let e1 = final(self)@[0];
                &&& final(self)@.len() == old(self)@.len() + 1
                &&& final(self)@.skip(1) == old(self)@
                &&& e1.peer_id@ == peer_id@
                &&& e1.name == name
                &&& e1.public_key is None
                &&& e1.added_at == now
                &&& e1.expires_at is None
                &&& e1.recommended_by@.len() == 1
                &&& e1.recommended_by@[0]@ == recommender_id@
                &&& e1.recommendation_count == 1
                &&& !e1.directly_added
            },
    {
        if !self.is_active(recommender_id, now) {
            return Err(WhitelistError::RecommenderNotWhitelisted);
        }
        if str_eq_chars(peer_id, recommender_id) {
            return Err(WhitelistError::SelfRecommendation);
        }
        let found = self.find_index(peer_id);
        match found {
            Option::Some(i) => {
                let m = self.entries[i].recommended_by.len();
                let mut j: usize = 0;
                while j < m
                    invariant
                        self.wf(),
                        *self == *old(self),
                        wl_active(self@, recommender_id@, now as int),
                        peer_id@ != recommender_id@,
                        i < self@.len(),
                        self@[i as int].peer_id@ == peer_id@,
                        wl_idx(self@, peer_id@) == i,
                        m == self@[i as int].recommended_by@.len(),
                        j <= m,
                        forall|j2: int|
                            0 <= j2 < j ==> (#[trigger] self@[i as int].recommended_by@[j2])@
                                != recommender_id@,
                    decreases m - j,
                {
                    if str_eq_chars(self.entries[i].recommended_by[j].as_str(), recommender_id) {
                        proof {
                            assert(rec_listed(self@[i as int], recommender_id@));
                        }
                        return Ok(());
                    }
                    j += 1;
                }
                proof {
                    assert(!rec_listed(self@[i as int], recommender_id@));
                }
                let ghost s0 = self.entries@;
                let mut row = self.entries.remove(i);
                row.recommended_by.push(recommender_id.to_owned());
                row.recommendation_count = row.recommended_by.len() as u64;
                if row.name.is_none() {
                    row.name = name;
                }
                self.entries.insert(i, row);
                proof {
                    lemma_in_cache_congruent(*self, *old(self));
                    s0.remove_ensures(i as int);
                    s0.remove(i as int).insert_ensures(i as int, self.entries@[i as int]);
                    assert forall|k: int|
                        0 <= k < s0.len() && k != i implies self.entries@[k] == s0[k] by {
                        if k < i {
                            assert(s0.remove(i as int)[k] == s0[k]);
                        } else {
                            assert(s0.remove(i as int)[k - 1] == s0[k]);
                        }
                    }
                    assert(self.entries@[i as int].recommended_by@.subrange(
                        0,
                        s0[i as int].recommended_by@.len() as int,
                    ) =~= s0[i as int].recommended_by@);
                    lemma_wl_unique_at(s0, i as int);
                    self.lemma_wf_after_row_update(s0, i as int);
                }
                Ok(())
            },
            Option::None => {
                let mut recs: Vec<String> = Vec::new();
                recs.push(recommender_id.to_owned());
                let e = WhitelistEntry {
                    peer_id: peer_id.to_owned(),
                    name,
                    public_key: None,
                    added_at: now,
                    expires_at: None,
                    recommended_by: recs,
                    recommendation_count: 1,
                    directly_added: false,
                };
                let ghost s0 = self.entries@;
                proof {
                    s0.insert_ensures(0, e);
                }
                self.entries.insert(0, e);
                proof {
                    lemma_in_cache_congruent(*self, *old(self));
                    assert(self.entries@.skip(1) =~= s0);
                    self.lemma_wf_after_prepend(s0, peer_id@);
                }
                Ok(())
            },
        }
    }

    /// Well-formedness carries over an in-place row update that keeps the
    /// identity, appends one new recommender, and keeps the count in step.
    proof fn lemma_wf_after_row_update(&self, s0: Seq<WhitelistEntry>, i: int)
        requires
            forall|a: int, b: int|
                0 <= a < b < s0.len() ==> (#[trigger] s0[a].peer_id@) != (
                #[trigger] s0[b].peer_id@),
            forall|k: int|
                0 <= k < s0.len() ==> match #[trigger] s0[k].public_key {
                    Option::Some(bb) => pk_decodes(bb@) && peer_id_of(bb@) == s0[k].peer_id@,
                    Option::None => true,
                },
            forall|k: int|
                0 <= k < s0.len() ==> (#[trigger] s0[k].recommendation_count) as int
                    == s0[k].recommended_by@.len(),
            forall|k: int, a: int, b: int|
                0 <= k < s0.len() && 0 <= a < b < s0[k].recommended_by@.len() ==> (
                #[trigger] s0[k].recommended_by@[a]@) != (#[trigger] s0[k].recommended_by@[b]@),
            forall|c: int|
                0 <= c < self.cache@.len() ==> wl_direct_row(s0, (#[trigger] self.cache@[c])@),
            0 <= i < s0.len(),
            self.entries@.len() == s0.len(),
            forall|k: int| 0 <= k < s0.len() && k != i ==> #[trigger] self.entries@[k] == s0[k],
            self.entries@[i].peer_id == s0[i].peer_id,
            self.entries@[i].public_key == s0[i].public_key,
            self.entries@[i].directly_added == s0[i].directly_added,
            self.entries@[i].recommendation_count as int
                == self.entries@[i].recommended_by@.len(),
            self.entries@[i].recommended_by@.len() == s0[i].recommended_by@.len() + 1,
            self.entries@[i].recommended_by@.subrange(0, s0[i].recommended_by@.len() as int)
                == s0[i].recommended_by@,
            forall|a: int|
                0 <= a < s0[i].recommended_by@.len() ==> (
                #[trigger] s0[i].recommended_by@[a]@) != self.entries@[i].recommended_by@.last()@,
        ensures
            self.wf(),
    {
        let s = self.entries@;
        assert forall|a: int, b: int|
            0 <= a < b < s.len() implies (#[trigger] s[a].peer_id@) != (
        #[trigger] s[b].peer_id@) by {
            assert(s[a].peer_id@ == s0[a].peer_id@);
            assert(s[b].peer_id@ == s0[b].peer_id@);
        }
        assert forall|k: int, a: int, b: int|
            0 <= k < s.len() && 0 <= a < b < s[k].recommended_by@.len() implies (
        #[trigger] s[k].recommended_by@[a]@) != (#[trigger] s[k].recommended_by@[b]@) by {
            if k == i {
                let n0 = s0[i].recommended_by@.len() as int;
                if b < n0 {
                    assert(s[k].recommended_by@[a] == s0[i].recommended_by@[a]);
                    assert(s[k].recommended_by@[b] == s0[i].recommended_by@[b]);
                } else {
                    assert(s[k].recommended_by@[a] == s0[i].recommended_by@[a]);
                    assert(s[k].recommended_by@[b] == s[k].recommended_by@.last());
                }
            }
        }
        assert forall|c: int|
            0 <= c < self.cache@.len() implies wl_direct_row(
                self.entries@,
                (#[trigger] self.cache@[c])@,
            ) by {
            let k = choose|k: int|
                0 <= k < s0.len() && s0[k].peer_id@ == (self.cache@[c])@ && s0[k].directly_added;
            assert(s[k].peer_id@ == s0[k].peer_id@ && s[k].directly_added == s0[k].directly_added);
        }
    }

    /// Well-formedness carries over prepending a row for a peer that had
    /// none, with a single recommender and no public key.
    proof fn lemma_wf_after_prepend(&self, s0: Seq<WhitelistEntry>, p: Seq<char>)
        requires
            forall|a: int, b: int|
                0 <= a < b < s0.len() ==> (#[trigger] s0[a].peer_id@) != (
                #[trigger] s0[b].peer_id@),
            forall|k: int|
                0 <= k < s0.len() ==> match #[trigger] s0[k].public_key {
                    Option::Some(bb) => pk_decodes(bb@) && peer_id_of(bb@) == s0[k].peer_id@,
                    Option::None => true,
                },
            forall|k: int|
                0 <= k < s0.len() ==> (#[trigger] s0[k].recommendation_count) as int
                    == s0[k].recommended_by@.len(),
            forall|k: int, a: int, b: int|
                0 <= k < s0.len() && 0 <= a < b < s0[k].recommended_by@.len() ==> (
                #[trigger] s0[k].recommended_by@[a]@) != (#[trigger] s0[k].recommended_by@[b]@),
            forall|c: int|
                0 <= c < self.cache@.len() ==> wl_direct_row(s0, (#[trigger] self.cache@[c])@),
            !wl_has(s0, p),
            self.entries@.len() == s0.len() + 1,
            self.entries@.skip(1) == s0,
            self.entries@[0].peer_id@ == p,
            self.entries@[0].public_key is None,
            self.entries@[0].recommended_by@.len() == 1,
            self.entries@[0].recommendation_count == 1,
        ensures
            self.wf(),
    {
        let s = self.entries@;
        assert forall|k: int| 0 <= k < s0.len() implies s[k + 1] == s0[k] by {
            assert(s.skip(1)[k] == s[k + 1]);
        }
        assert forall|a: int, b: int|
            0 <= a < b < s.len() implies (#[trigger] s[a].peer_id@) != (
        #[trigger] s[b].peer_id@) by {
            if a == 0 {
                assert(s[b] == s0[b - 1]);
                if s[b].peer_id@ == p {
                    assert(wl_has(s0, p));
                }
            } else {
                assert(s[a] == s0[a - 1] && s[b] == s0[b - 1]);
                assert(s0[a - 1].peer_id@ != s0[b - 1].peer_id@);
            }
        }
        assert forall|k: int|
            0 <= k < s.len() implies match #[trigger] s[k].public_key {
                Option::Some(bb) => pk_decodes(bb@) && peer_id_of(bb@) == s[k].peer_id@,
                Option::None => true,
            } by {
            if k >= 1 {
                assert(s[k] == s0[k - 1]);
            }
        }
        assert forall|k: int|
            0 <= k < s.len() implies (#[trigger] s[k].recommendation_count) as int
                == s[k].recommended_by@.len() by {
            if k >= 1 {
                assert(s[k] == s0[k - 1]);
            }
        }
        assert forall|k: int, a: int, b: int|
            0 <= k < s.len() && 0 <= a < b < s[k].recommended_by@.len() implies (
        #[trigger] s[k].recommended_by@[a]@) != (#[trigger] s[k].recommended_by@[b]@) by {
            if k >= 1 {
                assert(s[k] == s0[k - 1]);
            }
        }
        assert forall|c: int|
            0 <= c < self.cache@.len() implies wl_direct_row(
                self.entries@,
                (#[trigger] self.cache@[c])@,
            ) by {
            let k = choose|k: int|
                0 <= k < s0.len() && s0[k].peer_id@ == (self.cache@[c])@ && s0[k].directly_added;
            assert(s[k + 1] == s0[k]);
        }
    }
}

impl WhitelistEntry {
    /// The row's identity as a string slice.
    fn key_str(&self) -> (r: &str)
        ensures
            r@ == self.peer_id@,
    {
        self.peer_id.as_str()
    }

    /// Whether the row has expired at `now`.
    fn expired_now(&self, now: i64) -> (r: bool)
        ensures
            r == entry_expired(*self, now as int),
    {
        match &self.expires_at {
            Option::Some(t) => *t <= now,
            Option::None => false,
        }
    }
}

} // verus!
