//! Key-distribution protocol: message types, configuration, and the manager
//! that answers inbound protocol messages and produces outbound ones.
//!
//! Every message carries a wall-clock timestamp (seconds since the epoch).
//! The manager drops messages older than the configured age, suppresses
//! replays through a fingerprint cache, and enforces the protocol's identity
//! rules (a sender may only speak for itself) before it touches the
//! whitelist.

use vstd::prelude::*;

verus! {

use crate::codec::{spec_encode_kd, encode_kd};
use crate::crypto::{pk_decodes, peer_id_of, is_peer_id, keypair_public_bytes, derive_peer_id,
    peer_id_str_valid};
use crate::strings::str_eq_chars;
use crate::whitelist::{PeerWhitelist, WhitelistEntry, wl_active, wl_has, wl_idx, wl_rest,
    fresh_entry, rec_listed, chain_trusted, clone_bytes, clone_opt_string, entry_expired};

/// Messages exchanged between peers to spread public keys and trust.
#[derive(Debug, Clone)]
pub enum KeyDistributionMessage {
    /// Ask for a peer's public key.
    KeyRequest { requestor: String, target: String, timestamp: i64 },
    /// Answer with a peer's protobuf-encoded public key.
    KeyResponse { target: String, public_key: Vec<u8>, timestamp: i64 },
    /// Announce one's own public key.
    KeyAnnouncement { peer_id: String, public_key: Vec<u8>, timestamp: i64 },
    /// Ask to be added to the receiver's whitelist.
    WhitelistRequest { peer_id: String, public_key: Vec<u8>, name: Option<String>, timestamp: i64 },
    /// Vouch for another peer.
    TrustRecommendation { recommender: String, recommended: String, name: Option<String>, timestamp: i64 },
}

/// Timestamp carried by a key-distribution message.
pub open spec fn kd_timestamp(m: KeyDistributionMessage) -> int {
    match m {
        KeyDistributionMessage::KeyRequest { timestamp, .. } => timestamp as int,
        KeyDistributionMessage::KeyResponse { timestamp, .. } => timestamp as int,
        KeyDistributionMessage::KeyAnnouncement { timestamp, .. } => timestamp as int,
        KeyDistributionMessage::WhitelistRequest { timestamp, .. } => timestamp as int,
        KeyDistributionMessage::TrustRecommendation { timestamp, .. } => timestamp as int,
    }
}

/// Behaviour switches for the key-distribution manager.
#[derive(Debug, Clone)]
pub struct KeyDistributionConfig {
    /// Answer key requests from whitelisted peers.
    pub auto_share_keys: bool,
    /// Ask whitelisted peers for keys the whitelist lacks.
    pub auto_request_keys: bool,
    /// Take note of whitelist requests from unknown peers.
    pub accept_whitelist_requests: bool,
    /// Maximum age of an acceptable message, in hours.
    pub max_message_age_hours: u64,
}

impl Default for KeyDistributionConfig {
    /// Conservative defaults: share and request keys automatically, ignore
    /// whitelist requests, accept messages up to a day old.
    fn default() -> (c: KeyDistributionConfig)
        ensures
            c.auto_share_keys,
            c.auto_request_keys,
            !c.accept_whitelist_requests,
            c.max_message_age_hours == 24,
    {
        KeyDistributionConfig {
            auto_share_keys: true,
            auto_request_keys: true,
            accept_whitelist_requests: false,
            max_message_age_hours: 24,
        }
    }
}

/// Maximum acceptable message age in seconds.
pub open spec fn max_age_secs(c: KeyDistributionConfig) -> int {
    c.max_message_age_hours as int * 3600
}

/// Whether a message stamped `ts` is fresh at `now`: its age must not
/// exceed the limit.
pub open spec fn kd_fresh(ts: int, now: int, age: int) -> bool {
    now - ts <= age
}

/// Replay fingerprint of a signed key-distribution message: the stable
/// encoding of the message followed by its signature bytes.
pub open spec fn kd_fingerprint(m: KeyDistributionMessage, sig: Seq<u8>) -> Seq<u8> {
    spec_encode_kd(m) + sig
}

/// The replay cache with entries at or before `cutoff` evicted.
pub open spec fn kd_evict(m: Map<Seq<u8>, int>, cutoff: int) -> Map<Seq<u8>, int> {
    Map::new(|k: Seq<u8>| m.contains_key(k) && m[k] > cutoff, |k: Seq<u8>| m[k])
}

/// The admission decision of the replay/freshness preamble: `None` means
/// the message is dropped (stale or replayed) and the cache is untouched;
/// otherwise the cache is evicted and the fingerprint recorded at `now`.
pub open spec fn kd_admit(m: Map<Seq<u8>, int>, fp: Seq<u8>, ts: int, now: int, age: int) -> Option<
    Map<Seq<u8>, int>,
> {
    if !kd_fresh(ts, now, age) {
        Option::None
    } else if m.contains_key(fp) {
        Option::None
    } else {
        Option::Some(kd_evict(m, now - age).insert(fp, now))
    }
}

/// Law: a message admitted once is refused on every later delivery, at
/// any time: its fingerprint sits in the cache, and the replay check runs
/// before any eviction.
pub proof fn lemma_replay_immunity(
    m: Map<Seq<u8>, int>,
    fp: Seq<u8>,
    ts: int,
    now1: int,
    now2: int,
    age: int,
)
    requires
        kd_admit(m, fp, ts, now1, age) matches Some(m1),
    ensures
        kd_admit(kd_admit(m, fp, ts, now1, age).unwrap(), fp, ts, now2, age) is None,
{
}

/// Law: an admitted fingerprint survives the eviction a later admission
/// performs, as long as that admission happens within the age limit of
/// the first.
pub proof fn lemma_fingerprint_survives(
    m: Map<Seq<u8>, int>,
    fp: Seq<u8>,
    ts: int,
    now1: int,
    fp2: Seq<u8>,
    ts2: int,
    now2: int,
    age: int,
)
    requires
        kd_admit(m, fp, ts, now1, age) matches Some(m1),
        kd_admit(kd_admit(m, fp, ts, now1, age).unwrap(), fp2, ts2, now2, age) matches Some(m2),
        now2 < now1 + age,
    ensures
        kd_admit(kd_admit(m, fp, ts, now1, age).unwrap(), fp2, ts2, now2, age).unwrap().contains_key(
            fp,
        ),
        kd_admit(kd_admit(m, fp, ts, now1, age).unwrap(), fp2, ts2, now2, age).unwrap()[fp]
            == now1,
{
    let m1 = kd_admit(m, fp, ts, now1, age).unwrap();
    assert(m1.contains_key(fp) && m1[fp] == now1);
    let m2 = kd_admit(m1, fp2, ts2, now2, age).unwrap();
    assert(kd_evict(m1, now2 - age).contains_key(fp));
}

/// The pending-request rows read as a map from target to instant.
pub open spec fn pending_map(s: Seq<(String, i64)>) -> Map<Seq<char>, int> {
    Map::new(
        |p: Seq<char>| exists|i: int| 0 <= i < s.len() && (#[trigger] s[i].0)@ == p,
        |p: Seq<char>| s[choose|i: int| 0 <= i < s.len() && (#[trigger] s[i].0)@ == p].1 as int,
    )
}

/// The replay rows read as a map from fingerprint to first-seen instant.
pub open spec fn processed_map(s: Seq<(Vec<u8>, i64)>) -> Map<Seq<u8>, int> {
    Map::new(
        |f: Seq<u8>| exists|i: int| 0 <= i < s.len() && (#[trigger] s[i].0)@ == f,
        |f: Seq<u8>| s[choose|i: int| 0 <= i < s.len() && (#[trigger] s[i].0)@ == f].1 as int,
    )
}

/// Rows with unique pending keys.
pub open spec fn pending_unique(s: Seq<(String, i64)>) -> bool {
    forall|a: int, b: int| 0 <= a < b < s.len() ==> (#[trigger] s[a].0)@ != (#[trigger] s[b].0)@
}

/// Rows with unique fingerprints.
pub open spec fn processed_unique(s: Seq<(Vec<u8>, i64)>) -> bool {
    forall|a: int, b: int| 0 <= a < b < s.len() ==> (#[trigger] s[a].0)@ != (#[trigger] s[b].0)@
}

/// With unique keys, the pending row at an index is its key's entry.
proof fn lemma_pending_at(s: Seq<(String, i64)>, i: int)
    requires
        pending_unique(s),
        0 <= i < s.len(),
    ensures
        pending_map(s).contains_key(s[i].0@),
        pending_map(s)[s[i].0@] == s[i].1 as int,
{
    let p = s[i].0@;
    assert(exists|j: int| 0 <= j < s.len() && (#[trigger] s[j].0)@ == p);
    let j = choose|j: int| 0 <= j < s.len() && (#[trigger] s[j].0)@ == p;
    if j != i {
        if j < i {
            assert(s[j].0@ != s[i].0@);
        } else {
            assert(s[i].0@ != s[j].0@);
        }
    }
}

/// With unique fingerprints, the replay row at an index is its entry.
proof fn lemma_processed_at(s: Seq<(Vec<u8>, i64)>, i: int)
    requires
        processed_unique(s),
        0 <= i < s.len(),
    ensures
        processed_map(s).contains_key(s[i].0@),
        processed_map(s)[s[i].0@] == s[i].1 as int,
{
    let f = s[i].0@;
    assert(exists|j: int| 0 <= j < s.len() && (#[trigger] s[j].0)@ == f);
    let j = choose|j: int| 0 <= j < s.len() && (#[trigger] s[j].0)@ == f;
    if j != i {
        if j < i {
            assert(s[j].0@ != s[i].0@);
        } else {
            assert(s[i].0@ != s[j].0@);
        }
    }
}

/// Filtering the pending rows by a time cutoff keeps keys unique and
/// reads, as a map, as the restriction to entries after the cutoff.
proof fn lemma_filter_pending(s: Seq<(String, i64)>, f: Seq<(String, i64)>, cutoff: i64)
    requires
        pending_unique(s),
        f == s.filter(|pr: (String, i64)| pr.1 > cutoff),
    ensures
        pending_unique(f),
        forall|p: Seq<char>|
            #[trigger] pending_map(f).contains_key(p) == (pending_map(s).contains_key(p)
                && pending_map(s)[p] > cutoff as int),
        forall|p: Seq<char>|
            pending_map(f).contains_key(p) ==> #[trigger] pending_map(f)[p] == pending_map(s)[p],
    decreases s.len(),
{
    reveal(Seq::filter);
    let pred = |pr: (String, i64)| pr.1 > cutoff;
    if s.len() == 0 {
        assert forall|p: Seq<char>| !(#[trigger] pending_map(f).contains_key(p)) by {}
        assert forall|p: Seq<char>| !(#[trigger] pending_map(s).contains_key(p)) by {}
    } else {
        let d = s.drop_last();
        let fd = d.filter(pred);
        lemma_filter_pending(d, fd, cutoff);
        s.filter_lemma(pred);
        d.filter_lemma(pred);
        assert forall|a: int, b: int|
            0 <= a < b < f.len() implies (#[trigger] f[a].0)@ != (#[trigger] f[b].0)@ by {
            if pred(s.last()) && b == f.len() - 1 {
                assert(f[a] == fd[a]);
                assert(fd.contains(fd[a]));
                assert(pending_map(fd).contains_key(fd[a].0@)) by {
                    let k = choose|k: int| 0 <= k < fd.len() && fd[k] == fd[a];
                    assert(fd[k].0@ == fd[a].0@);
                }
                assert(pending_map(d).contains_key(fd[a].0@));
                let j = choose|j: int| 0 <= j < d.len() && (#[trigger] d[j].0)@ == fd[a].0@;
                assert(s[j].0@ == f[a].0@);
                assert(s[j].0@ != s[s.len() - 1].0@);
                assert(f[b] == s.last());
            } else {
                assert(f[a] == fd[a] && f[b] == fd[b]);
            }
        }
        assert forall|p: Seq<char>|
            #[trigger] pending_map(f).contains_key(p) == (pending_map(s).contains_key(p)
                && pending_map(s)[p] > cutoff as int) && (pending_map(f).contains_key(p)
                ==> pending_map(f)[p] == pending_map(s)[p]) by {
            if pred(s.last()) {
                assert(f =~= fd.push(s.last()));
            } else {
                assert(f =~= fd);
            }
            if pending_map(f).contains_key(p) {
                let k = choose|k: int| 0 <= k < f.len() && (#[trigger] f[k].0)@ == p;
                lemma_pending_at(f, k);
                if k == f.len() - 1 && pred(s.last()) {
                    lemma_pending_at(s, s.len() - 1);
                } else {
                    assert(f[k] == fd[k]);
                    assert(pending_map(fd).contains_key(p)) by {
                        assert(fd[k].0@ == p);
                    }
                    let j = choose|j: int| 0 <= j < d.len() && (#[trigger] d[j].0)@ == p;
                    lemma_pending_at(d, j);
                    lemma_pending_at(s, j);
                    lemma_pending_at(fd, k);
                }
            } else {
                if pending_map(s).contains_key(p) && pending_map(s)[p] > cutoff as int {
                    let j = choose|j: int| 0 <= j < s.len() && (#[trigger] s[j].0)@ == p;
                    lemma_pending_at(s, j);
                    if j == s.len() - 1 {
                        assert(pred(s.last()));
                        assert(f[f.len() - 1].0@ == p);
                        assert(pending_map(f).contains_key(p));
                    } else {
                        lemma_pending_at(d, j);
                        assert(pending_map(d).contains_key(p) && pending_map(d)[p] > cutoff
                            as int);
                        assert(pending_map(fd).contains_key(p));
                        let k = choose|k: int| 0 <= k < fd.len() && (#[trigger] fd[k].0)@ == p;
                        assert(f[k].0@ == p);
                        assert(pending_map(f).contains_key(p));
                    }
                }
            }
        }
    }
}

/// Filtering the replay rows by a time cutoff keeps fingerprints unique
/// and reads, as a map, as the restriction to entries after the cutoff.
proof fn lemma_filter_processed(s: Seq<(Vec<u8>, i64)>, f: Seq<(Vec<u8>, i64)>, cutoff: i64)
    requires
        processed_unique(s),
        f == s.filter(|pr: (Vec<u8>, i64)| pr.1 > cutoff),
    ensures
        processed_unique(f),
        forall|p: Seq<u8>|
            #[trigger] processed_map(f).contains_key(p) == (processed_map(s).contains_key(p)
                && processed_map(s)[p] > cutoff as int),
        forall|p: Seq<u8>|
            processed_map(f).contains_key(p) ==> #[trigger] processed_map(f)[p]
                == processed_map(s)[p],
    decreases s.len(),
{
    reveal(Seq::filter);
    let pred = |pr: (Vec<u8>, i64)| pr.1 > cutoff;
    if s.len() == 0 {
        assert forall|p: Seq<u8>| !(#[trigger] processed_map(f).contains_key(p)) by {}
        assert forall|p: Seq<u8>| !(#[trigger] processed_map(s).contains_key(p)) by {}
    } else {
        let d = s.drop_last();
        let fd = d.filter(pred);
        lemma_filter_processed(d, fd, cutoff);
        s.filter_lemma(pred);
        d.filter_lemma(pred);
        assert forall|a: int, b: int|
            0 <= a < b < f.len() implies (#[trigger] f[a].0)@ != (#[trigger] f[b].0)@ by {
            if pred(s.last()) && b == f.len() - 1 {
                assert(f[a] == fd[a]);
                assert(processed_map(fd).contains_key(fd[a].0@)) by {
                    assert(fd[a].0@ == fd[a].0@);
                }
                assert(processed_map(d).contains_key(fd[a].0@));
                let j = choose|j: int| 0 <= j < d.len() && (#[trigger] d[j].0)@ == fd[a].0@;
                assert(s[j].0@ == f[a].0@);
                assert(s[j].0@ != s[s.len() - 1].0@);
                assert(f[b] == s.last());
            } else {
                assert(f[a] == fd[a] && f[b] == fd[b]);
            }
        }
        assert forall|p: Seq<u8>|
            #[trigger] processed_map(f).contains_key(p) == (processed_map(s).contains_key(p)
                && processed_map(s)[p] > cutoff as int) && (processed_map(f).contains_key(p)
                ==> processed_map(f)[p] == processed_map(s)[p]) by {
            if pred(s.last()) {
                assert(f =~= fd.push(s.last()));
            } else {
                assert(f =~= fd);
            }
            if processed_map(f).contains_key(p) {
                let k = choose|k: int| 0 <= k < f.len() && (#[trigger] f[k].0)@ == p;
                lemma_processed_at(f, k);
                if k == f.len() - 1 && pred(s.last()) {
                    lemma_processed_at(s, s.len() - 1);
                } else {
                    assert(f[k] == fd[k]);
                    assert(processed_map(fd).contains_key(p)) by {
                        assert(fd[k].0@ == p);
                    }
                    let j = choose|j: int| 0 <= j < d.len() && (#[trigger] d[j].0)@ == p;
                    lemma_processed_at(d, j);
                    lemma_processed_at(s, j);
                    lemma_processed_at(fd, k);
                }
            } else {
                if processed_map(s).contains_key(p) && processed_map(s)[p] > cutoff as int {
                    let j = choose|j: int| 0 <= j < s.len() && (#[trigger] s[j].0)@ == p;
                    lemma_processed_at(s, j);
                    if j == s.len() - 1 {
                        assert(pred(s.last()));
                        assert(f[f.len() - 1].0@ == p);
                        assert(processed_map(f).contains_key(p));
                    } else {
                        lemma_processed_at(d, j);
                        assert(processed_map(d).contains_key(p) && processed_map(d)[p] > cutoff
                            as int);
                        assert(processed_map(fd).contains_key(p));
                        let k = choose|k: int| 0 <= k < fd.len() && (#[trigger] fd[k].0)@ == p;
                        assert(f[k].0@ == p);
                        assert(processed_map(f).contains_key(p));
                    }
                }
            }
        }
    }
}

/// Whether some request in the batch asks for `q`'s key.
pub open spec fn kd_requests_target(rs: Seq<KeyDistributionMessage>, q: Seq<char>) -> bool {
    exists|i: int|
        0 <= i < rs.len() && ((#[trigger] rs[i]) matches KeyDistributionMessage::KeyRequest {
            target,
            ..
        } && target@ == q)
}

/// In a well-formed whitelist view, the row at an index is the row its
/// identity looks up.
proof fn lemma_wl_unique_entry(s: Seq<WhitelistEntry>, i: int)
    requires
        forall|a: int, b: int|
            0 <= a < b < s.len() ==> (#[trigger] s[a].peer_id@) != (#[trigger] s[b].peer_id@),
        0 <= i < s.len(),
    ensures
        wl_has(s, s[i].peer_id@),
        wl_idx(s, s[i].peer_id@) == i,
{
    assert(wl_has(s, s[i].peer_id@));
    let j = wl_idx(s, s[i].peer_id@);
    if j != i {
        if j < i {
            assert(s[j].peer_id@ != s[i].peer_id@);
        } else {
            assert(s[i].peer_id@ != s[j].peer_id@);
        }
    }
}

/// A screened whitelist request, recorded for the operator to adjudicate:
/// the protocol layer never adds to the whitelist on its own.
#[derive(Debug)]
pub struct WhitelistCandidate {
    /// The requesting peer's identity.
    pub peer_id: String,
    /// Its protobuf-encoded public key, which derives to `peer_id`.
    pub public_key: Vec<u8>,
    /// The label it asked to be recorded under.
    pub name: Option<String>,
}

/// Protocol state: the local identity and key, behaviour switches, the
/// outstanding key requests, and the replay cache.
pub struct KeyDistributionManager {
    config: KeyDistributionConfig,
    local_keypair: libp2p::identity::Keypair,
    local_peer_id: String,
    local_public_key: Vec<u8>,
    pending_requests: Vec<(String, i64)>,
    processed_messages: Vec<(Vec<u8>, i64)>,
    whitelist_requests: Vec<WhitelistCandidate>,
}

impl KeyDistributionManager {
    /// The manager's behaviour switches.
    pub closed spec fn cfg(&self) -> KeyDistributionConfig {
        self.config
    }

    /// The local peer identity.
    pub closed spec fn local_id(&self) -> Seq<char> {
        self.local_peer_id@
    }

    /// The local protobuf-encoded public key.
    pub closed spec fn local_pk(&self) -> Seq<u8> {
        self.local_public_key@
    }

    /// The outstanding key requests, as `target -> instant`.
    pub closed spec fn pending(&self) -> Map<Seq<char>, int> {
        pending_map(self.pending_requests@)
    }

    /// The replay cache, as `fingerprint -> first seen`.
    pub closed spec fn processed(&self) -> Map<Seq<u8>, int> {
        processed_map(self.processed_messages@)
    }

    /// The screened whitelist requests awaiting the operator.
    pub closed spec fn candidates(&self) -> Seq<WhitelistCandidate> {
        self.whitelist_requests@
    }

    /// Entries are keyed at most once; the local identity derives from the
    /// local key.
    pub closed spec fn wf(&self) -> bool {
        &&& pending_unique(self.pending_requests@)
        &&& processed_unique(self.processed_messages@)
        &&& pk_decodes(self.local_public_key@)
        &&& self.local_peer_id@ == peer_id_of(self.local_public_key@)
    }

    /// Create a manager around the local keypair.
    pub fn new(config: KeyDistributionConfig, local_keypair: libp2p::identity::Keypair) -> (r:
        KeyDistributionManager)
        ensures
            r.wf(),
            r.cfg() == config,
            r.local_id() == peer_id_of(r.local_pk()),
            pk_decodes(r.local_pk()),
            r.pending() =~= Map::<Seq<char>, int>::empty(),
            r.processed() =~= Map::<Seq<u8>, int>::empty(),
            r.candidates() =~= Seq::<WhitelistCandidate>::empty(),
    {
        let local_public_key = keypair_public_bytes(&local_keypair);
        let local_peer_id = match derive_peer_id(&local_public_key) {
            Option::Some(s) => s,
            Option::None => {
                proof {
                    assert(false);
                }
                String::new()
            },
        };
        let r = KeyDistributionManager {
            config,
            local_keypair,
            local_peer_id,
            local_public_key,
            pending_requests: Vec::new(),
            processed_messages: Vec::new(),
            whitelist_requests: Vec::new(),
        };
        proof {
            assert(r.pending() =~= Map::<Seq<char>, int>::empty());
            assert(r.processed() =~= Map::<Seq<u8>, int>::empty());
        }
        r
    }

    /// The local keypair, for signing outbound envelopes.
    pub fn local_keypair(&self) -> (r: &libp2p::identity::Keypair) {
        &self.local_keypair
    }

    /// The local peer identity as a string.
    pub fn local_peer_id_str(&self) -> (r: &str)
        ensures
            r@ == self.local_id(),
    {
        self.local_peer_id.as_str()
    }

    /// Announce the local public key.
    pub fn create_key_announcement(&self, now: i64) -> (r: KeyDistributionMessage)
        ensures
            r matches KeyDistributionMessage::KeyAnnouncement { peer_id, public_key, timestamp }
                && peer_id@ == self.local_id() && public_key@ == self.local_pk() && timestamp
                == now,
    {
        KeyDistributionMessage::KeyAnnouncement {
            peer_id: self.local_peer_id.clone(),
            public_key: clone_bytes(&self.local_public_key),
            timestamp: now,
        }
    }

    /// Ask to be added to the receivers' whitelists.
    pub fn create_whitelist_request(&self, name: Option<String>, now: i64) -> (r:
        KeyDistributionMessage)
        ensures
            r matches KeyDistributionMessage::WhitelistRequest { peer_id, public_key, name: n, timestamp }
                && peer_id@ == self.local_id() && public_key@ == self.local_pk() && n == name
                && timestamp == now,
    {
        KeyDistributionMessage::WhitelistRequest {
            peer_id: self.local_peer_id.clone(),
            public_key: clone_bytes(&self.local_public_key),
            name,
            timestamp: now,
        }
    }

    /// Evict pending requests recorded at or before `cutoff`.
    fn evict_pending(&mut self, cutoff: i64)
        requires
            old(self).wf(),
        ensures
            final(self).wf(),
            *final(self) == (KeyDistributionManager {
                pending_requests: final(self).pending_requests,
                ..*old(self)
            }),
            forall|p: Seq<char>|
                #[trigger] final(self).pending().contains_key(p) == (old(self).pending().contains_key(p) && old(self).pending()[p] > cutoff),
            forall|p: Seq<char>|
                final(self).pending().contains_key(p) ==> #[trigger] final(self).pending()[p]
                    == old(self).pending()[p],
    {
        let mut orig: Vec<(String, i64)> = Vec::new();
        core::mem::swap(&mut orig, &mut self.pending_requests);
        let ghost full = orig@;
        proof {
            reveal(Seq::filter);
            assert(full.subrange(0, 0).filter(|pr: (String, i64)| pr.1 > cutoff) =~= Seq::<
                (String, i64),
            >::empty());
            assert(full.subrange(0, full.len() as int) =~= full);
        }
        while orig.len() > 0
            invariant
                orig@.len() <= full.len(),
                orig@ == full.subrange(full.len() - orig@.len(), full.len() as int),
                self.pending_requests@ == full.subrange(0, full.len() - orig@.len()).filter(
                    |pr: (String, i64)| pr.1 > cutoff,
                ),
                self.config == old(self).config,
                self.local_keypair == old(self).local_keypair,
                self.local_peer_id == old(self).local_peer_id,
                self.local_public_key == old(self).local_public_key,
                self.processed_messages == old(self).processed_messages,
                self.whitelist_requests == old(self).whitelist_requests,
            decreases orig@.len(),
        {
            let ghost k = full.len() - orig@.len();
            let row = orig.remove(0);
            proof {
                reveal(Seq::filter);
                let pred = |pr: (String, i64)| pr.1 > cutoff;
                assert(row == full[k]);
                assert(orig@ =~= full.subrange(full.len() - orig@.len(), full.len() as int));
                let ss = full.subrange(0, k + 1);
                assert(ss.drop_last() =~= full.subrange(0, k));
                assert(ss.last() == full[k]);
                assert(ss.filter(pred) == if pred(ss.last()) {
                    ss.drop_last().filter(pred).push(ss.last())
                } else {
                    ss.drop_last().filter(pred)
                });
            }
            if row.1 > cutoff {
                self.pending_requests.push(row);
            }
        }
        proof {
            lemma_filter_pending(full, self.pending_requests@, cutoff);
        }
    }

    /// Evict replay-cache entries recorded at or before `cutoff`.
    fn evict_processed(&mut self, cutoff: i64)
        requires
            old(self).wf(),
        ensures
            final(self).wf(),
            *final(self) == (KeyDistributionManager {
                processed_messages: final(self).processed_messages,
                ..*old(self)
            }),
            forall|f: Seq<u8>|
                #[trigger] final(self).processed().contains_key(f) == (old(self).processed().contains_key(f) && old(self).processed()[f] > cutoff),
            forall|f: Seq<u8>|
                final(self).processed().contains_key(f) ==> #[trigger] final(self).processed()[f]
                    == old(self).processed()[f],
    {
        let mut orig: Vec<(Vec<u8>, i64)> = Vec::new();
        core::mem::swap(&mut orig, &mut self.processed_messages);
        let ghost full = orig@;
        proof {
            reveal(Seq::filter);
            assert(full.subrange(0, 0).filter(|pr: (Vec<u8>, i64)| pr.1 > cutoff) =~= Seq::<
                (Vec<u8>, i64),
            >::empty());
            assert(full.subrange(0, full.len() as int) =~= full);
        }
        while orig.len() > 0
            invariant
                orig@.len() <= full.len(),
                orig@ == full.subrange(full.len() - orig@.len(), full.len() as int),
                self.processed_messages@ == full.subrange(0, full.len() - orig@.len()).filter(
                    |pr: (Vec<u8>, i64)| pr.1 > cutoff,
                ),
                self.config == old(self).config,
                self.local_keypair == old(self).local_keypair,
                self.local_peer_id == old(self).local_peer_id,
                self.local_public_key == old(self).local_public_key,
                self.pending_requests == old(self).pending_requests,
                self.whitelist_requests == old(self).whitelist_requests,
            decreases orig@.len(),
        {
            let ghost k = full.len() - orig@.len();
            let row = orig.remove(0);
            proof {
                reveal(Seq::filter);
                let pred = |pr: (Vec<u8>, i64)| pr.1 > cutoff;
                assert(row == full[k]);
                assert(orig@ =~= full.subrange(full.len() - orig@.len(), full.len() as int));
                let ss = full.subrange(0, k + 1);
                assert(ss.drop_last() =~= full.subrange(0, k));
                assert(ss.last() == full[k]);
                assert(ss.filter(pred) == if pred(ss.last()) {
                    ss.drop_last().filter(pred).push(ss.last())
                } else {
                    ss.drop_last().filter(pred)
                });
            }
            if row.1 > cutoff {
                self.processed_messages.push(row);
            }
        }
        proof {
            lemma_filter_processed(full, self.processed_messages@, cutoff);
        }
    }

    /// Whether a fingerprint is in the replay cache (run-time check).
    fn processed_contains(&self, fp: &Vec<u8>) -> (r: bool)
        requires
            self.wf(),
        ensures
            r == self.processed().contains_key(fp@),
    {
        let n = self.processed_messages.len();
        let mut i: usize = 0;
        while i < n
            invariant
                self.wf(),
                n == self.processed_messages@.len(),
                i <= n,
                forall|j: int|
                    0 <= j < i ==> (#[trigger] self.processed_messages@[j].0)@ != fp@,
            decreases n - i,
        {
            let eq = bytes_eq(&self.processed_messages[i].0, fp);
            if eq {
                proof {
                    lemma_processed_at(self.processed_messages@, i as int);
                }
                return true;
            }
            i += 1;
        }
        false
    }

    /// Record a fresh fingerprint at `now`.
    fn record_fingerprint(&mut self, fp: Vec<u8>, now: i64)
        requires
            old(self).wf(),
            !old(self).processed().contains_key(fp@),
        ensures
            final(self).wf(),
            *final(self) == (KeyDistributionManager {
                processed_messages: final(self).processed_messages,
                ..*old(self)
            }),
            final(self).processed() == old(self).processed().insert(fp@, now as int),
    {
        let ghost s0 = self.processed_messages@;
        self.processed_messages.push((fp, now));
        proof {
            let s = self.processed_messages@;
            assert forall|a: int, b: int|
                0 <= a < b < s.len() implies (#[trigger] s[a].0)@ != (#[trigger] s[b].0)@ by {
                if b == s.len() - 1 {
                    assert(s[a] == s0[a]);
                    if s0[a].0@ == fp@ {
                        lemma_processed_at(s0, a);
                    }
                }
            }
            assert forall|g: Seq<u8>|
                #[trigger] processed_map(s).contains_key(g) == old(self).processed().insert(fp@, now as int).contains_key(g) && (processed_map(
                s,
            ).contains_key(g) ==> processed_map(s)[g] == old(self).processed().insert(
                fp@,
                now as int,
            )[g]) by {
                if g == fp@ {
                    assert(s[s.len() - 1].0@ == g);
                    lemma_processed_at(s, s.len() - 1);
                } else {
                    if processed_map(s).contains_key(g) {
                        let k = choose|k: int| 0 <= k < s.len() && (#[trigger] s[k].0)@ == g;
                        lemma_processed_at(s, k);
                        assert(s[k] == s0[k]);
                        lemma_processed_at(s0, k);
                    } else {
                        if processed_map(s0).contains_key(g) {
                            let k = choose|k: int|
                                0 <= k < s0.len() && (#[trigger] s0[k].0)@ == g;
                            assert(s[k].0@ == g);
                        }
                    }
                }
            }
            assert(final(self).processed() =~= old(self).processed().insert(fp@, now as int));
        }
    }

    /// Drop a target from the pending-request map.
    fn pending_remove(&mut self, target: &str)
        requires
            old(self).wf(),
        ensures
            final(self).wf(),
            *final(self) == (KeyDistributionManager {
                pending_requests: final(self).pending_requests,
                ..*old(self)
            }),
            final(self).pending() == old(self).pending().remove(target@),
    {
        let found = self.pending_find(target);
        let ghost s0 = self.pending_requests@;
        match found {
            Option::Some(k) => {
                self.pending_requests.remove(k);
                proof {
                    s0.remove_ensures(k as int);
                    let s = self.pending_requests@;
                    assert forall|a: int, b: int|
                        0 <= a < b < s.len() implies (#[trigger] s[a].0)@ != (
                    #[trigger] s[b].0)@ by {
                        let a0 = if a < k {
                            a
                        } else {
                            a + 1
                        };
                        let b0 = if b < k {
                            b
                        } else {
                            b + 1
                        };
                        assert(s[a] == s0[a0] && s[b] == s0[b0]);
                        assert(s0[a0].0@ != s0[b0].0@);
                    }
                    assert forall|q: Seq<char>|
                        #[trigger] pending_map(s).contains_key(q) == old(self).pending().remove(
                            target@,
                        ).contains_key(q) && (pending_map(s).contains_key(q) ==> pending_map(s)[q]
                            == old(self).pending().remove(target@)[q]) by {
                        if pending_map(s).contains_key(q) {
                            let j = choose|j: int|
                                0 <= j < s.len() && (#[trigger] s[j].0)@ == q;
                            lemma_pending_at(s, j);
                            let j0 = if j < k {
                                j
                            } else {
                                j + 1
                            };
                            assert(s[j] == s0[j0]);
                            lemma_pending_at(s0, j0);
                            if q == target@ {
                                if j0 < k {
                                    assert(s0[j0].0@ != s0[k as int].0@);
                                } else {
                                    assert(s0[k as int].0@ != s0[j0].0@);
                                }
                            }
                        } else {
                            if old(self).pending().remove(target@).contains_key(q) {
                                let j0 = choose|j0: int|
                                    0 <= j0 < s0.len() && (#[trigger] s0[j0].0)@ == q;
                                assert(j0 != k);
                                let j = if j0 < k {
                                    j0
                                } else {
                                    j0 - 1
                                };
                                assert(s[j] == s0[j0]);
                                assert(s[j].0@ == q);
                            }
                        }
                    }
                    assert(final(self).pending() =~= old(self).pending().remove(target@));
                }
            },
            Option::None => {
                proof {
                    assert(final(self).pending() =~= old(self).pending().remove(target@));
                }
            },
        }
    }

    /// Answer a key request: only for a whitelisted requestor speaking
    /// for itself, only with auto-sharing on, and only for the local key
    /// or a key the whitelist holds.
    fn handle_key_request(
        &self,
        whitelist: &PeerWhitelist,
        requestor: &str,
        target: &str,
        sender: &str,
        now: i64,
    ) -> (r: Option<KeyDistributionMessage>)
        requires
            self.wf(),
            whitelist.wf(),
        ensures
            r is Some <==> is_peer_id(requestor@) && is_peer_id(target@) && sender@ == requestor@
                && wl_active(whitelist@, requestor@, now as int) && self.cfg().auto_share_keys && (
            target@ == self.local_id() || (wl_has(whitelist@, target@) && whitelist@[wl_idx(
                whitelist@,
                target@,
            )].public_key is Some)),
            r matches Some(resp) ==> (resp matches KeyDistributionMessage::KeyResponse {
                target: t2,
                public_key: pk2,
                timestamp: ts2,
            } && t2@ == target@ && ts2 == now && (target@ == self.local_id() ==> pk2@
                == self.local_pk()) && (target@ != self.local_id() ==> (whitelist@[wl_idx(
                whitelist@,
                target@,
            )].public_key matches Option::Some(b) && pk2@ == b@))),
    {
        if !peer_id_str_valid(requestor) {
            return None;
        }
        if !peer_id_str_valid(target) {
            return None;
        }
        if !str_eq_chars(sender, requestor) {
            return None;
        }
        if !whitelist.is_active(requestor, now) {
            return None;
        }
        if !self.config.auto_share_keys {
            return None;
        }
        if str_eq_chars(target, self.local_peer_id.as_str()) {
            return Some(
                KeyDistributionMessage::KeyResponse {
                    target: self.local_peer_id.clone(),
                    public_key: clone_bytes(&self.local_public_key),
                    timestamp: now,
                },
            );
        }
        match whitelist.get_public_key(target) {
            Option::Some(pk) => Some(
                KeyDistributionMessage::KeyResponse {
                    target: target.to_owned(),
                    public_key: pk,
                    timestamp: now,
                },
            ),
            Option::None => None,
        }
    }

    /// Take in a key response: the sender must be whitelisted and the key
    /// must derive to the claimed target; the pending request is cleared,
    /// and a whitelisted target's row gets the key, keeping its label and
    /// expiry.
    fn handle_key_response(
        &mut self,
        whitelist: &mut PeerWhitelist,
        target: &str,
        public_key: &Vec<u8>,
        sender: &str,
        now: i64,
    )
        requires
            old(self).wf(),
            old(whitelist).wf(),
        ensures
            final(self).wf(),
            final(whitelist).wf(),
            *final(self) == (KeyDistributionManager {
                pending_requests: final(self).pending_requests,
                ..*old(self)
            }),
            ({
                let ok = is_peer_id(target@) && wl_active(old(whitelist)@, sender@, now as int)
                    && pk_decodes(public_key@) && peer_id_of(public_key@) == target@;
                &&& (!ok ==> *final(whitelist) == *old(whitelist) && final(self).pending() == old(self).pending())
                &&& (ok ==> final(self).pending() == old(self).pending().remove(target@))
                &&& (ok && wl_active(old(whitelist)@, target@, now as int) ==> final(whitelist)@.len() == wl_rest(old(whitelist)@, target@).len() + 1 && fresh_entry(
                    final(whitelist)@[0],
                    target@,
                    old(whitelist)@[wl_idx(old(whitelist)@, target@)].name,
                    Option::Some(public_key@),
                    old(whitelist)@[wl_idx(old(whitelist)@, target@)].expires_at,
                    now as int,
                ) && final(whitelist)@.skip(1) == wl_rest(old(whitelist)@, target@))
                &&& (ok && !wl_active(old(whitelist)@, target@, now as int) ==> final(whitelist)@ == old(whitelist)@)
            }),
    {
        if !peer_id_str_valid(target) {
            return ;
        }
        if !whitelist.is_active(sender, now) {
            return ;
        }
        match derive_peer_id(public_key) {
            Option::None => {
                return ;
            },
            Option::Some(d) => {
                if !str_eq_chars(d.as_str(), target) {
                    return ;
                }
            },
        }
        self.pending_remove(target);
        if whitelist.is_active(target, now) {
            match whitelist.get_entry_meta(target) {
                Option::Some((name, expires_at)) => {
                    let res = whitelist.add_peer(target, name, Some(public_key), expires_at, now);
                    proof {
                        assert(res is Ok);
                    }
                },
                Option::None => {
                    proof {
                        assert(false);
                    }
                },
            }
        }
    }

    /// Take in a self-announced key: the sender must be whitelisted and
    /// announce its own identity with a key that derives to it; its row
    /// gets the key, keeping its label and expiry.
    fn handle_key_announcement(
        whitelist: &mut PeerWhitelist,
        peer_id: &str,
        public_key: &Vec<u8>,
        sender: &str,
        now: i64,
    )
        requires
            old(whitelist).wf(),
        ensures
            final(whitelist).wf(),
            ({
                let ok = is_peer_id(peer_id@) && sender@ == peer_id@ && wl_active(
                    old(whitelist)@,
                    sender@,
                    now as int,
                ) && pk_decodes(public_key@) && peer_id_of(public_key@) == peer_id@;
                &&& (!ok ==> *final(whitelist) == *old(whitelist))
                &&& (ok ==> final(whitelist)@.len() == wl_rest(old(whitelist)@, peer_id@).len()
                    + 1 && fresh_entry(
                    final(whitelist)@[0],
                    peer_id@,
                    old(whitelist)@[wl_idx(old(whitelist)@, peer_id@)].name,
                    Option::Some(public_key@),
                    old(whitelist)@[wl_idx(old(whitelist)@, peer_id@)].expires_at,
                    now as int,
                ) && final(whitelist)@.skip(1) == wl_rest(old(whitelist)@, peer_id@))
            }),
    {
        if !peer_id_str_valid(peer_id) {
            return ;
        }
        if !str_eq_chars(sender, peer_id) {
            return ;
        }
        if !whitelist.is_active(sender, now) {
            return ;
        }
        match derive_peer_id(public_key) {
            Option::None => {
                return ;
            },
            Option::Some(d) => {
                if !str_eq_chars(d.as_str(), peer_id) {
                    return ;
                }
            },
        }
        match whitelist.get_entry_meta(peer_id) {
            Option::Some((name, expires_at)) => {
                let res = whitelist.add_peer(peer_id, name, Some(public_key), expires_at, now);
                proof {
                    assert(res is Ok);
                }
            },
            Option::None => {
                proof {
                    assert(false);
                }
            },
        }
    }

    /// Take in a trust recommendation: the sender must be the whitelisted
    /// recommender and may not vouch for itself; the recommendation is
    /// recorded, after which the recommended peer (if its row is live) is
    /// trusted by the chain.
    fn handle_trust_recommendation(
        whitelist: &mut PeerWhitelist,
        recommender: &str,
        recommended: &str,
        name: Option<String>,
        sender: &str,
        now: i64,
    )
        requires
            old(whitelist).wf(),
        ensures
            final(whitelist).wf(),
            ({
                let ok = is_peer_id(recommender@) && is_peer_id(recommended@) && sender@
                    == recommender@ && wl_active(old(whitelist)@, recommender@, now as int)
                    && recommender@ != recommended@;
                &&& (!ok ==> *final(whitelist) == *old(whitelist))
                &&& (ok && wl_has(old(whitelist)@, recommended@) && rec_listed(
                    old(whitelist)@[wl_idx(old(whitelist)@, recommended@)],
                    recommender@,
                ) ==> final(whitelist)@ == old(whitelist)@)
                &&& (ok && wl_has(old(whitelist)@, recommended@) && !rec_listed(
                    old(whitelist)@[wl_idx(old(whitelist)@, recommended@)],
                    recommender@,
                ) ==> ({
                    let idx = wl_idx(old(whitelist)@, recommended@);
                    let e0 = old(whitelist)@[idx];
                    let e1 = final(whitelist)@[idx];
                    &&& final(whitelist)@.len() == old(whitelist)@.len()
                    &&& forall|k: int|
                        0 <= k < old(whitelist)@.len() && k != idx ==> final(whitelist)@[k]
                            == old(whitelist)@[k]
                    &&& e1.peer_id == e0.peer_id
                    &&& e1.name == (if e0.name is Some {
                        e0.name
                    } else {
                        name
                    })
                    &&& e1.public_key == e0.public_key
                    &&& e1.added_at == e0.added_at
                    &&& e1.expires_at == e0.expires_at
                    &&& e1.directly_added == e0.directly_added
                    &&& e1.recommended_by@.len() == e0.recommended_by@.len() + 1
                    &&& e1.recommended_by@.subrange(0, e0.recommended_by@.len() as int)
                        == e0.recommended_by@
                    &&& e1.recommended_by@.last()@ == recommender@
                    &&& e1.recommendation_count == e0.recommendation_count + 1
                }))
                &&& (ok && !wl_has(old(whitelist)@, recommended@) ==> ({
                    let e1 = final(whitelist)@[0];
                    &&& final(whitelist)@.len() == old(whitelist)@.len() + 1
                    &&& final(whitelist)@.skip(1) == old(whitelist)@
                    &&& e1.peer_id@ == recommended@
                    &&& e1.name == name
                    &&& e1.public_key is None
                    &&& e1.added_at == now
                    &&& e1.expires_at is None
                    &&& e1.recommended_by@.len() == 1
                    &&& e1.recommended_by@[0]@ == recommender@
                    &&& e1.recommendation_count == 1
                    &&& !e1.directly_added
                }))
                &&& (ok ==> forall|q: Seq<char>, t: int|
                    wl_active(final(whitelist)@, q, t) == wl_active(old(whitelist)@, q, t))
                &&& (ok && !(wl_has(old(whitelist)@, recommended@) && entry_expired(
                    old(whitelist)@[wl_idx(old(whitelist)@, recommended@)],
                    now as int,
                )) ==> chain_trusted(final(whitelist)@, recommended@, now as int))
            }),
    {
        if !peer_id_str_valid(recommender) {
            return ;
        }
        if !peer_id_str_valid(recommended) {
            return ;
        }
        if !str_eq_chars(sender, recommender) {
            return ;
        }
        if !whitelist.is_active(recommender, now) {
            return ;
        }
        if str_eq_chars(recommender, recommended) {
            return ;
        }
        let ghost w0 = whitelist@;
        let res = whitelist.add_recommendation(recommended, recommender, name, now);
        proof {
            assert(res is Ok);
            let wl = whitelist@;
            assert forall|q: Seq<char>, t: int|
                wl_active(wl, q, t) == wl_active(w0, q, t) by {
                if wl_has(w0, recommended@) {
                    let idx = wl_idx(w0, recommended@);
                    if wl == w0 {
                    } else {
                        if wl_active(wl, q, t) {
                            let k = choose|k: int|
                                0 <= k < wl.len() && (#[trigger] wl[k].peer_id@) == q
                                    && wl[k].directly_added && !entry_expired(wl[k], t);
                            if k == idx {
                                assert(w0[k].peer_id@ == q && w0[k].directly_added
                                    && !entry_expired(w0[k], t));
                            } else {
                                assert(wl[k] == w0[k]);
                            }
                            assert(wl_active(w0, q, t));
                        }
                        if wl_active(w0, q, t) {
                            let k = choose|k: int|
                                0 <= k < w0.len() && (#[trigger] w0[k].peer_id@) == q
                                    && w0[k].directly_added && !entry_expired(w0[k], t);
                            if k == idx {
                                assert(wl[k].peer_id@ == q && wl[k].directly_added
                                    && !entry_expired(wl[k], t));
                            } else {
                                assert(wl[k] == w0[k]);
                            }
                            assert(wl_active(wl, q, t));
                        }
                    }
                } else {
                    // a non-direct row was prepended; it never carries trust
                    if wl_active(wl, q, t) {
                        let k = choose|k: int|
                            0 <= k < wl.len() && (#[trigger] wl[k].peer_id@) == q
                                && wl[k].directly_added && !entry_expired(wl[k], t);
                        assert(k != 0);
                        assert(wl.skip(1)[k - 1] == wl[k]);
                        assert(w0[k - 1].peer_id@ == q && w0[k - 1].directly_added
                            && !entry_expired(w0[k - 1], t));
                        assert(wl_active(w0, q, t));
                    }
                    if wl_active(w0, q, t) {
                        let k = choose|k: int|
                            0 <= k < w0.len() && (#[trigger] w0[k].peer_id@) == q
                                && w0[k].directly_added && !entry_expired(w0[k], t);
                        assert(wl.skip(1)[k] == wl[k + 1]);
                        assert(wl[k + 1].peer_id@ == q && wl[k + 1].directly_added
                            && !entry_expired(wl[k + 1], t));
                        assert(wl_active(wl, q, t));
                    }
                }
            }
            if !(wl_has(w0, recommended@) && entry_expired(
                w0[wl_idx(w0, recommended@)],
                now as int,
            )) {
                if wl_has(w0, recommended@) {
                    let idx = wl_idx(w0, recommended@);
                    if rec_listed(w0[idx], recommender@) {
                        assert(wl == w0);
                        let j = choose|j: int|
                            0 <= j < w0[idx].recommended_by@.len() && (
                            #[trigger] w0[idx].recommended_by@[j])@ == recommender@;
                        assert(wl[idx].peer_id@ == recommended@ && !entry_expired(
                            wl[idx],
                            now as int,
                        ) && 0 <= j < wl[idx].recommended_by@.len()
                            && wl_active(wl, wl[idx].recommended_by@[j]@, now as int));
                        assert(chain_trusted(wl, recommended@, now as int));
                    } else {
                        // the row gained the recommender at the end
                        let j = wl[idx].recommended_by@.len() - 1;
                        assert(wl[idx].recommended_by@.last()@ == recommender@);
                        assert(wl[idx].peer_id == w0[idx].peer_id);
                        assert(wl[idx].expires_at == w0[idx].expires_at);
                        assert(wl_active(wl, recommender@, now as int)) by {
                            let k = choose|k: int|
                                0 <= k < w0.len() && (#[trigger] w0[k].peer_id@) == recommender@
                                    && w0[k].directly_added && !entry_expired(w0[k], now as int);
                            if k == idx {
                                assert(wl[k].directly_added == w0[k].directly_added);
                            } else {
                                assert(wl[k] == w0[k]);
                            }
                            assert(wl[k].peer_id@ == recommender@ && wl[k].directly_added
                                && !entry_expired(wl[k], now as int));
                        }
                        assert(wl[idx].peer_id@ == recommended@ && !entry_expired(
                            wl[idx],
                            now as int,
                        ) && 0 <= j < wl[idx].recommended_by@.len()
                            && wl_active(wl, wl[idx].recommended_by@[j]@, now as int));
                        assert(chain_trusted(wl, recommended@, now as int));
                    }
                } else {
                    // a fresh non-direct row heads the list
                    assert(wl[0].peer_id@ == recommended@ && wl[0].expires_at is None);
                    assert(wl[0].recommended_by@[0]@ == recommender@);
                    assert(wl_active(wl, recommender@, now as int)) by {
                        let k = choose|k: int|
                            0 <= k < w0.len() && (#[trigger] w0[k].peer_id@) == recommender@
                                && w0[k].directly_added && !entry_expired(w0[k], now as int);
                        assert(wl.skip(1)[k] == wl[k + 1]);
                        assert(wl[k + 1] == w0[k]);
                        assert(wl[k + 1].peer_id@ == recommender@ && wl[k + 1].directly_added
                            && !entry_expired(wl[k + 1], now as int));
                    }
                    assert(wl[0].peer_id@ == recommended@ && !entry_expired(wl[0], now as int)
                        && 0 <= 0 < wl[0].recommended_by@.len() && wl_active(
                        wl,
                        wl[0].recommended_by@[0]@,
                        now as int,
                    ));
                    assert(chain_trusted(wl, recommended@, now as int));
                }
            }
        }
    }

    /// Screen a whitelist request: accepted exactly when the switch is
    /// on, the claimed identity is valid, the sender asks for itself, and
    /// the supplied key derives to that identity. The validated record is
    /// returned for the operator to adjudicate; nothing is whitelisted.
    pub fn screen_whitelist_request(
        &self,
        peer_id: &str,
        public_key: &Vec<u8>,
        name: Option<String>,
        sender: &str,
    ) -> (r: Option<WhitelistCandidate>)
        ensures
            r is Some <==> self.cfg().accept_whitelist_requests && is_peer_id(peer_id@)
                && sender@ == peer_id@ && pk_decodes(public_key@) && peer_id_of(public_key@)
                == peer_id@,
            r matches Some(c) ==> c.peer_id@ == peer_id@ && c.public_key@ == public_key@
                && c.name == name,
    {
        if !self.config.accept_whitelist_requests {
            return None;
        }
        if !peer_id_str_valid(peer_id) {
            return None;
        }
        if !str_eq_chars(sender, peer_id) {
            return None;
        }
        match derive_peer_id(public_key) {
            Option::None => None,
            Option::Some(d) => {
                if !str_eq_chars(d.as_str(), peer_id) {
                    None
                } else {
                    Some(
                        WhitelistCandidate {
                            peer_id: peer_id.to_owned(),
                            public_key: clone_bytes(public_key),
                            name,
                        },
                    )
                }
            },
        }
    }

    /// Hand the screened whitelist requests to the caller, leaving none
    /// behind.
    pub fn take_whitelist_requests(&mut self) -> (r: Vec<WhitelistCandidate>)
        requires
            old(self).wf(),
        ensures
            final(self).wf(),
            final(self).cfg() == old(self).cfg(),
            final(self).local_id() == old(self).local_id(),
            final(self).local_pk() == old(self).local_pk(),
            final(self).pending() == old(self).pending(),
            final(self).processed() == old(self).processed(),
            r@ == old(self).candidates(),
            final(self).candidates() =~= Seq::<WhitelistCandidate>::empty(),
    {
        let mut out: Vec<WhitelistCandidate> = Vec::new();
        core::mem::swap(&mut out, &mut self.whitelist_requests);
        out
    }

    /// Handle one inbound key-distribution message, already unwrapped and
    /// trust-checked by the pipeline. The message is dropped when it is
    /// older than the configured age or its fingerprint was already seen;
    /// otherwise the fingerprint is recorded (evicting stale ones) and the
    /// variant's protocol rules run. Only a key request can produce a
    /// reply.
    pub fn handle_message(
        &mut self,
        whitelist: &mut PeerWhitelist,
        data: &KeyDistributionMessage,
        signature: &Vec<u8>,
        sender_peer_id: &str,
        now: i64,
    ) -> (r: Option<KeyDistributionMessage>)
        requires
            old(self).wf(),
            old(whitelist).wf(),
            0 <= now,
            max_age_secs(old(self).cfg()) <= i64::MAX as int,
        ensures
            final(self).wf(),
            final(whitelist).wf(),
            final(self).cfg() == old(self).cfg(),
            final(self).local_id() == old(self).local_id(),
            final(self).local_pk() == old(self).local_pk(),
            ({
                let ts = kd_timestamp(*data);
                let age = max_age_secs(old(self).cfg());
                let fp = kd_fingerprint(*data, signature@);
                let adm = kd_admit(old(self).processed(), fp, ts, now as int, age);
                &&& (adm is None ==> r is None && *final(self) == *old(self) && *final(whitelist)
                    == *old(whitelist))
                &&& (adm matches Some(p1) ==> final(self).processed() == p1)
                &&& (adm is Some ==> match *data {
                    KeyDistributionMessage::KeyRequest { requestor, target, timestamp } => {
                        &&& *final(whitelist) == *old(whitelist)
                        &&& final(self).pending() == old(self).pending()
                        &&& final(self).candidates() == old(self).candidates()
                        &&& (r is Some <==> is_peer_id(requestor@) && is_peer_id(target@)
                            && sender_peer_id@ == requestor@ && wl_active(
                            old(whitelist)@,
                            requestor@,
                            now as int,
                        ) && old(self).cfg().auto_share_keys && (target@ == old(self).local_id()
                            || (wl_has(old(whitelist)@, target@) && old(whitelist)@[wl_idx(
                            old(whitelist)@,
                            target@,
                        )].public_key is Some)))
                        &&& (r matches Some(resp) ==> (resp
                            matches KeyDistributionMessage::KeyResponse {
                            target: t2,
                            public_key: pk2,
                            timestamp: ts2,
                        } && t2@ == target@ && ts2 == now && (target@ == old(self).local_id()
                            ==> pk2@ == old(self).local_pk()) && (target@ != old(self).local_id() ==> (old(whitelist)@[wl_idx(old(whitelist)@, target@)].public_key
                            matches Option::Some(b) && pk2@ == b@))))
                    },
                    KeyDistributionMessage::KeyResponse { target, public_key, timestamp } => {
                        let ok = is_peer_id(target@) && wl_active(
                            old(whitelist)@,
                            sender_peer_id@,
                            now as int,
                        ) && pk_decodes(public_key@) && peer_id_of(public_key@) == target@;
                        &&& r is None
                        &&& final(self).candidates() == old(self).candidates()
                        &&& (!ok ==> final(whitelist)@ == old(whitelist)@ && final(self).pending()
                            == old(self).pending())
                        &&& (ok ==> final(self).pending() == old(self).pending().remove(target@))
                        &&& (ok && wl_active(old(whitelist)@, target@, now as int) ==> final(whitelist)@.len() == wl_rest(old(whitelist)@, target@).len() + 1 && fresh_entry(
                            final(whitelist)@[0],
                            target@,
                            old(whitelist)@[wl_idx(old(whitelist)@, target@)].name,
                            Option::Some(public_key@),
                            old(whitelist)@[wl_idx(old(whitelist)@, target@)].expires_at,
                            now as int,
                        ) && final(whitelist)@.skip(1) == wl_rest(old(whitelist)@, target@))
                        &&& (ok && !wl_active(old(whitelist)@, target@, now as int) ==> final(whitelist)@ == old(whitelist)@)
                    },
                    KeyDistributionMessage::KeyAnnouncement { peer_id, public_key, timestamp } => {
                        let ok = is_peer_id(peer_id@) && sender_peer_id@ == peer_id@ && wl_active(
                            old(whitelist)@,
                            sender_peer_id@,
                            now as int,
                        ) && pk_decodes(public_key@) && peer_id_of(public_key@) == peer_id@;
                        &&& r is None
                        &&& final(self).pending() == old(self).pending()
                        &&& final(self).candidates() == old(self).candidates()
                        &&& (!ok ==> *final(whitelist) == *old(whitelist))
                        &&& (ok ==> final(whitelist)@.len() == wl_rest(
                            old(whitelist)@,
                            peer_id@,
                        ).len() + 1 && fresh_entry(
                            final(whitelist)@[0],
                            peer_id@,
                            old(whitelist)@[wl_idx(old(whitelist)@, peer_id@)].name,
                            Option::Some(public_key@),
                            old(whitelist)@[wl_idx(old(whitelist)@, peer_id@)].expires_at,
                            now as int,
                        ) && final(whitelist)@.skip(1) == wl_rest(old(whitelist)@, peer_id@))
                    },
                    KeyDistributionMessage::WhitelistRequest { peer_id, public_key, name, timestamp } => {
                        let ok = old(self).cfg().accept_whitelist_requests && is_peer_id(peer_id@)
                            && sender_peer_id@ == peer_id@ && pk_decodes(public_key@)
                            && peer_id_of(public_key@) == peer_id@;
                        &&& r is None
                        &&& *final(whitelist) == *old(whitelist)
                        &&& final(self).pending() == old(self).pending()
                        &&& (!ok ==> final(self).candidates() == old(self).candidates())
                        &&& (ok ==> final(self).candidates().len() == old(self).candidates().len()
                            + 1 && final(self).candidates().drop_last() == old(self).candidates()
                            && final(self).candidates().last().peer_id@ == peer_id@ && final(self).candidates().last().public_key@ == public_key@ && final(self).candidates().last().name == name)
                    },
                    KeyDistributionMessage::TrustRecommendation {
                        recommender,
                        recommended,
                        name,
                        timestamp,
                    } => {
                        let ok = is_peer_id(recommender@) && is_peer_id(recommended@)
                            && sender_peer_id@ == recommender@ && wl_active(
                            old(whitelist)@,
                            recommender@,
                            now as int,
                        ) && recommender@ != recommended@;
                        &&& r is None
                        &&& final(self).pending() == old(self).pending()
                        &&& final(self).candidates() == old(self).candidates()
                        &&& (!ok ==> *final(whitelist) == *old(whitelist))
                        &&& (ok && wl_has(old(whitelist)@, recommended@) && rec_listed(
                            old(whitelist)@[wl_idx(old(whitelist)@, recommended@)],
                            recommender@,
                        ) ==> final(whitelist)@ == old(whitelist)@)
                        &&& (ok && wl_has(old(whitelist)@, recommended@) && !rec_listed(
                            old(whitelist)@[wl_idx(old(whitelist)@, recommended@)],
                            recommender@,
                        ) ==> ({
                            let idx = wl_idx(old(whitelist)@, recommended@);
                            let e0 = old(whitelist)@[idx];
                            let e1 = final(whitelist)@[idx];
                            &&& final(whitelist)@.len() == old(whitelist)@.len()
                            &&& forall|k: int|
                                0 <= k < old(whitelist)@.len() && k != idx ==> final(whitelist)@[k] == old(whitelist)@[k]
                            &&& e1.peer_id == e0.peer_id
                            &&& e1.name == (if e0.name is Some {
                                e0.name
                            } else {
                                name
                            })
                            &&& e1.public_key == e0.public_key
                            &&& e1.added_at == e0.added_at
                            &&& e1.expires_at == e0.expires_at
                            &&& e1.directly_added == e0.directly_added
                            &&& e1.recommended_by@.len() == e0.recommended_by@.len() + 1
                            &&& e1.recommended_by@.subrange(0, e0.recommended_by@.len() as int)
                                == e0.recommended_by@
                            &&& e1.recommended_by@.last()@ == recommender@
                            &&& e1.recommendation_count == e0.recommendation_count + 1
                        }))
                        &&& (ok && !wl_has(old(whitelist)@, recommended@) ==> ({
                            let e1 = final(whitelist)@[0];
                            &&& final(whitelist)@.len() == old(whitelist)@.len() + 1
                            &&& final(whitelist)@.skip(1) == old(whitelist)@
                            &&& e1.peer_id@ == recommended@
                            &&& e1.name == name
                            &&& e1.public_key is None
                            &&& e1.added_at == now
                            &&& e1.expires_at is None
                            &&& e1.recommended_by@.len() == 1
                            &&& e1.recommended_by@[0]@ == recommender@
                            &&& e1.recommendation_count == 1
                            &&& !e1.directly_added
                        }))
                        &&& (ok ==> forall|q: Seq<char>, t: int|
                            wl_active(final(whitelist)@, q, t) == wl_active(old(whitelist)@, q, t))
                        &&& (ok && !(wl_has(old(whitelist)@, recommended@) && entry_expired(
                            old(whitelist)@[wl_idx(old(whitelist)@, recommended@)],
                            now as int,
                        )) ==> chain_trusted(final(whitelist)@, recommended@, now as int))
                    },
                })
            }),
    {
        let ts_val: i64 = match data {
            KeyDistributionMessage::KeyRequest { timestamp, .. } => *timestamp,
            KeyDistributionMessage::KeyResponse { timestamp, .. } => *timestamp,
            KeyDistributionMessage::KeyAnnouncement { timestamp, .. } => *timestamp,
            KeyDistributionMessage::WhitelistRequest { timestamp, .. } => *timestamp,
            KeyDistributionMessage::TrustRecommendation { timestamp, .. } => *timestamp,
        };
        let age128: i128 = (self.config.max_message_age_hours as i128) * 3600;
        if (now as i128) - (ts_val as i128) > age128 {
            proof {
                assert(!kd_fresh(kd_timestamp(*data), now as int, max_age_secs(self.cfg())));
            }
            return None;
        }
        let mut fp = encode_kd(data);
        let mut sc = clone_bytes(signature);
        fp.append(&mut sc);
        proof {
            assert(fp@ == kd_fingerprint(*data, signature@));
        }
        if self.processed_contains(&fp) {
            return None;
        }
        let age64: i64 = age128 as i64;
        let cutoff = now - age64;
        let ghost pre = *self;
        self.evict_processed(cutoff);
        self.record_fingerprint(fp, now);
        proof {
            assert(self.processed() =~= kd_evict(
                pre.processed(),
                now as int - max_age_secs(pre.cfg()),
            ).insert(kd_fingerprint(*data, signature@), now as int));
        }
        match data {
            KeyDistributionMessage::KeyRequest { requestor, target, .. } => {
                self.handle_key_request(
                    whitelist,
                    requestor.as_str(),
                    target.as_str(),
                    sender_peer_id,
                    now,
                )
            },
            KeyDistributionMessage::KeyResponse { target, public_key, .. } => {
                self.handle_key_response(
                    whitelist,
                    target.as_str(),
                    public_key,
                    sender_peer_id,
                    now,
                );
                None
            },
            KeyDistributionMessage::KeyAnnouncement { peer_id, public_key, .. } => {
                Self::handle_key_announcement(
                    whitelist,
                    peer_id.as_str(),
                    public_key,
                    sender_peer_id,
                    now,
                );
                None
            },
            KeyDistributionMessage::WhitelistRequest { peer_id, public_key, name, .. } => {
                let screened = self.screen_whitelist_request(
                    peer_id.as_str(),
                    public_key,
                    clone_opt_string(name),
                    sender_peer_id,
                );
                match screened {
                    Option::Some(candidate) => {
                        self.whitelist_requests.push(candidate);
                    },
                    Option::None => {
                    },
                }
                None
            },
            KeyDistributionMessage::TrustRecommendation { recommender, recommended, name, .. } => {
                Self::handle_trust_recommendation(
                    whitelist,
                    recommender.as_str(),
                    recommended.as_str(),
                    clone_opt_string(name),
                    sender_peer_id,
                    now,
                );
                None
            },
        }
    }

    /// Record (or refresh) a pending request for `target` at `now`.
    fn pending_set(&mut self, target: &str, now: i64)
        requires
            old(self).wf(),
        ensures
            final(self).wf(),
            *final(self) == (KeyDistributionManager {
                pending_requests: final(self).pending_requests,
                ..*old(self)
            }),
            final(self).pending() == old(self).pending().insert(target@, now as int),
    {
        self.pending_remove(target);
        let ghost mid = *self;
        let ghost s0 = self.pending_requests@;
        self.pending_requests.push((target.to_owned(), now));
        proof {
            let s = self.pending_requests@;
            assert(s[s.len() - 1].0@ == target@);
            assert forall|a: int, b: int|
                0 <= a < b < s.len() implies (#[trigger] s[a].0)@ != (#[trigger] s[b].0)@ by {
                if b == s.len() - 1 {
                    assert(s[a] == s0[a]);
                    if s0[a].0@ == target@ {
                        lemma_pending_at(s0, a);
                        assert(mid.pending().contains_key(target@));
                    }
                }
            }
            assert forall|q: Seq<char>|
                #[trigger] pending_map(s).contains_key(q) == mid.pending().insert(
                    target@,
                    now as int,
                ).contains_key(q) && (pending_map(s).contains_key(q) ==> pending_map(s)[q]
                == mid.pending().insert(target@, now as int)[q]) by {
                if q == target@ {
                    lemma_pending_at(s, s.len() - 1);
                } else {
                    if pending_map(s).contains_key(q) {
                        let k = choose|k: int| 0 <= k < s.len() && (#[trigger] s[k].0)@ == q;
                        lemma_pending_at(s, k);
                        assert(s[k] == s0[k]);
                        lemma_pending_at(s0, k);
                    } else {
                        if pending_map(s0).contains_key(q) {
                            let k = choose|k: int|
                                0 <= k < s0.len() && (#[trigger] s0[k].0)@ == q;
                            assert(s[k].0@ == q);
                        }
                    }
                }
            }
            assert(final(self).pending() =~= mid.pending().insert(target@, now as int));
            assert(mid.pending().insert(target@, now as int) =~= old(self).pending().insert(
                target@,
                now as int,
            ));
        }
    }

    /// Ask for the public keys the whitelist lacks: one request per row
    /// without a key whose previous request, if any, is at least five
    /// minutes old. Each emitted request is registered as pending at
    /// `now`; with automatic requesting off, nothing is asked.
    pub fn request_missing_keys(&mut self, whitelist: &PeerWhitelist, now: i64) -> (r: Vec<
        KeyDistributionMessage,
    >)
        requires
            old(self).wf(),
            whitelist.wf(),
        ensures
            final(self).wf(),
            final(self).cfg() == old(self).cfg(),
            final(self).local_id() == old(self).local_id(),
            final(self).local_pk() == old(self).local_pk(),
            final(self).processed() == old(self).processed(),
            final(self).candidates() == old(self).candidates(),
            !old(self).cfg().auto_request_keys ==> r@.len() == 0 && *final(self) == *old(self),
            old(self).cfg().auto_request_keys ==> ({
                &&& forall|i: int|
                    0 <= i < r@.len() ==> ((#[trigger] r@[i])
                        matches KeyDistributionMessage::KeyRequest { requestor, target, timestamp }
                        && requestor@ == old(self).local_id() && timestamp == now && wl_has(
                        whitelist@,
                        target@,
                    ) && whitelist@[wl_idx(whitelist@, target@)].public_key is None && !(old(self).pending().contains_key(target@) && old(self).pending()[target@] > now as int
                        - 300))
                &&& forall|j: int|
                    0 <= j < whitelist@.len() && (#[trigger] whitelist@[j]).public_key is None
                        && !(old(self).pending().contains_key(whitelist@[j].peer_id@) && old(self).pending()[whitelist@[j].peer_id@] > now as int - 300) ==> kd_requests_target(
                        r@,
                        whitelist@[j].peer_id@,
                    )
                &&& forall|i1: int, i2: int|
                    0 <= i1 < i2 < r@.len() ==> ((#[trigger] r@[i1])
                        matches KeyDistributionMessage::KeyRequest { target: t1, .. } ==> ((
                    #[trigger] r@[i2]) matches KeyDistributionMessage::KeyRequest {
                        target: t2,
                        ..
                    } ==> t1@ != t2@))
                &&& forall|q: Seq<char>|
                    #[trigger] final(self).pending().contains_key(q) == (old(self).pending().contains_key(q) || kd_requests_target(r@, q))
                &&& forall|q: Seq<char>|
                    #[trigger] kd_requests_target(r@, q) ==> final(self).pending()[q] == now
                &&& forall|q: Seq<char>|
                    !(#[trigger] kd_requests_target(r@, q)) && old(self).pending().contains_key(
                        q,
                    ) ==> final(self).pending()[q] == old(self).pending()[q]
            }),
    {
        let mut requests: Vec<KeyDistributionMessage> = Vec::new();
        if !self.config.auto_request_keys {
            return requests;
        }
        let entries = whitelist.list_peers();
        let n = entries.len();
        let mut j: usize = 0;
        while j < n
            invariant
                self.wf(),
                whitelist.wf(),
                old(self).wf(),
                *self == (KeyDistributionManager {
                    pending_requests: self.pending_requests,
                    ..*old(self)
                }),
                n == entries@.len(),
                n == whitelist@.len(),
                j <= n,
                forall|k: int|
                    0 <= k < n ==> crate::whitelist::entry_equiv(
                        #[trigger] entries@[k],
                        whitelist@[k],
                    ),
                forall|i: int|
                    0 <= i < requests@.len() ==> ((#[trigger] requests@[i])
                        matches KeyDistributionMessage::KeyRequest { requestor, target, timestamp }
                        && requestor@ == old(self).local_id() && timestamp == now && wl_has(
                        whitelist@,
                        target@,
                    ) && whitelist@[wl_idx(whitelist@, target@)].public_key is None && !(old(self).pending().contains_key(target@) && old(self).pending()[target@] > now as int
                        - 300)),
                forall|k: int|
                    0 <= k < j && (#[trigger] whitelist@[k]).public_key is None && !(old(self).pending().contains_key(whitelist@[k].peer_id@) && old(self).pending()[whitelist@[k].peer_id@] > now as int - 300) ==> kd_requests_target(
                        requests@,
                        whitelist@[k].peer_id@,
                    ),
                forall|q: Seq<char>|
                    #[trigger] self.pending().contains_key(q) == (old(self).pending().contains_key(q) || kd_requests_target(requests@, q)),
                forall|q: Seq<char>|
                    #[trigger] kd_requests_target(requests@, q) ==> self.pending()[q] == now,
                forall|q: Seq<char>|
                    !(#[trigger] kd_requests_target(requests@, q)) && old(self).pending().contains_key(q) ==> self.pending()[q] == old(self).pending()[q],
                forall|i1: int, i2: int|
                    0 <= i1 < i2 < requests@.len() ==> ((#[trigger] requests@[i1])
                        matches KeyDistributionMessage::KeyRequest { target: t1, .. } ==> ((
                    #[trigger] requests@[i2]) matches KeyDistributionMessage::KeyRequest {
                        target: t2,
                        ..
                    } ==> t1@ != t2@)),
            decreases n - j,
        {
            let ghost reqs0 = requests@;
            proof {
                assert(crate::whitelist::entry_equiv(entries@[j as int], whitelist@[j as int]));
            }
            if entries[j].public_key.is_none() {
                let target = entries[j].peer_id.as_str();
                proof {
                    assert(target@ == whitelist@[j as int].peer_id@);
                }
                let skip = match self.pending_find(target) {
                    Option::Some(k) => {
                        let t = self.pending_requests[k].1;
                        proof {
                            lemma_pending_at(self.pending_requests@, k as int);
                        }
                        (t as i128) > (now as i128) - 300
                    },
                    Option::None => false,
                };
                proof {
                    if skip {
                        assert(self.pending().contains_key(target@) && self.pending()[target@]
                            > now as int - 300);
                        if kd_requests_target(requests@, target@) {
                            assert(self.pending()[target@] == now);
                        } else {
                            assert(old(self).pending().contains_key(target@) && old(self).pending()[target@] > now as int - 300);
                        }
                    } else {
                        if !kd_requests_target(requests@, target@) {
                            assert(!(old(self).pending().contains_key(target@) && old(self).pending()[target@] > now as int - 300));
                        }
                    }
                }
                if !skip {
                    self.pending_set(target, now);
                    let req = KeyDistributionMessage::KeyRequest {
                        requestor: self.local_peer_id.clone(),
                        target: target.to_owned(),
                        timestamp: now,
                    };
                    requests.push(req);
                    proof {
                        whitelist.lemma_wf_unique();
                        lemma_wl_unique_entry(whitelist@, j as int);
                        assert forall|i1: int|
                            0 <= i1 < requests@.len() - 1 implies ((#[trigger] requests@[i1])
                            matches KeyDistributionMessage::KeyRequest { target: t1, .. }
                            ==> t1@ != target@) by {
                            if requests@[i1] matches KeyDistributionMessage::KeyRequest {
                                target: t1,
                                ..
                            } && t1@ == target@ {
                                assert(requests@[i1] == reqs0[i1]);
                                assert(kd_requests_target(reqs0, target@));
                            }
                        }
                        assert(requests@[requests@.len() - 1]
                            matches KeyDistributionMessage::KeyRequest { target: t2, .. } && t2@
                            == whitelist@[j as int].peer_id@);
                        assert forall|q: Seq<char>|
                            #[trigger] kd_requests_target(requests@, q) == (kd_requests_target(
                                reqs0,
                                q,
                            ) || q == target@) by {
                            if kd_requests_target(requests@, q) {
                                let i = choose|i: int|
                                    0 <= i < requests@.len() && ((#[trigger] requests@[i])
                                        matches KeyDistributionMessage::KeyRequest { target: t3, .. }
                                        && t3@ == q);
                                if i < requests@.len() - 1 {
                                    assert(reqs0[i] == requests@[i]);
                                    assert(kd_requests_target(reqs0, q));
                                }
                            } else {
                                if kd_requests_target(reqs0, q) {
                                    let i = choose|i: int|
                                        0 <= i < reqs0.len() && ((#[trigger] reqs0[i])
                                            matches KeyDistributionMessage::KeyRequest { target: t3, .. }
                                            && t3@ == q);
                                    assert(requests@[i] == reqs0[i]);
                                }
                            }
                        }
                    }
                }
            } else {
                proof {
                    assert(whitelist@[j as int].public_key is Some);
                }
            }
            j += 1;
        }
        requests
    }

    /// Index of a target's pending row, if any.
    fn pending_find(&self, target: &str) -> (r: Option<usize>)
        requires
            self.wf(),
        ensures
            r matches Some(i) ==> i < self.pending_requests@.len()
                && self.pending_requests@[i as int].0@ == target@,
            r is None ==> !self.pending().contains_key(target@) && forall|j: int|
                0 <= j < self.pending_requests@.len() ==> (
                #[trigger] self.pending_requests@[j].0)@ != target@,
    {
        let n = self.pending_requests.len();
        let mut i: usize = 0;
        while i < n
            invariant
                self.wf(),
                n == self.pending_requests@.len(),
                i <= n,
                forall|j: int|
                    0 <= j < i ==> (#[trigger] self.pending_requests@[j].0)@ != target@,
            decreases n - i,
        {
            if str_eq_chars(self.pending_requests[i].0.as_str(), target) {
                return Some(i);
            }
            i += 1;
        }
        None
    }
}

/// Byte-for-byte equality of two byte vectors.
pub(crate) fn bytes_eq(a: &Vec<u8>, b: &Vec<u8>) -> (r: bool)
    ensures
        r == (a@ == b@),
{
    if a.len() != b.len() {
        proof {
            assert(a@ != b@);
        }
        return false;
    }
    let n = a.len();
    let mut i: usize = 0;
    while i < n
        invariant
            n == a@.len(),
            n == b@.len(),
            i <= n,
            forall|j: int| 0 <= j < i ==> a@[j] == b@[j],
        decreases n - i,
    {
        if a[i] != b[i] {
            return false;
        }
        i += 1;
    }
    proof {
        assert(a@ =~= b@);
    }
    true
}

impl KeyDistributionManager {
    /// Evict entries older than an hour from the pending-request and
    /// replay caches.
    pub fn cleanup(&mut self, now: i64)
        requires
            old(self).wf(),
            now >= i64::MIN + 3600,
        ensures
            final(self).wf(),
            final(self).cfg() == old(self).cfg(),
            final(self).local_id() == old(self).local_id(),
            final(self).local_pk() == old(self).local_pk(),
            forall|p: Seq<char>|
                #[trigger] final(self).pending().contains_key(p) == (old(self).pending().contains_key(p) && old(self).pending()[p] > now - 3600),
            forall|p: Seq<char>|
                final(self).pending().contains_key(p) ==> #[trigger] final(self).pending()[p]
                    == old(self).pending()[p],
            forall|f: Seq<u8>|
                #[trigger] final(self).processed().contains_key(f) == (old(self).processed().contains_key(f) && old(self).processed()[f] > now - 3600),
            forall|f: Seq<u8>|
                final(self).processed().contains_key(f) ==> #[trigger] final(self).processed()[f]
                    == old(self).processed()[f],
    {
        let cutoff = now - 3600;
        self.evict_pending(cutoff);
        let ghost mid = *self;
        self.evict_processed(cutoff);
        proof {
            assert(self.pending_requests == mid.pending_requests);
            assert(self.pending() == mid.pending());
        }
    }
}

} // verus!