//! The inbound message pipeline: admission, decoding, trust, signature
//! verification, and dispatch.
//!
//! Every payload the transport delivers runs through the same gauntlet:
//! the sender's rate limit, the connection registry, the payload ceiling,
//! envelope decoding, signer parsing, the one-hop trust chain, signature
//! verification when the signer's key is known, and finally dispatch — a
//! store mutation is validated and applied, a key-distribution message is
//! handed to the protocol manager, whose reply (if any) is returned for
//! the caller to sign and publish.

use vstd::prelude::*;

verus! {

use crate::codec::{decode_envelope, spec_encode_envelope};
use crate::connection_manager::ConnectionManager;
use crate::crypto::{SignedData, envelope_authentic, is_peer_id};
use crate::key_distribution::{KeyDistributionManager, KeyDistributionMessage, kd_admit,
    kd_fingerprint, kd_timestamp, max_age_secs};
use crate::security::{RateLimiter, SecurityConfig, rate_check_ok, rate_check_next, validate_key,
    validate_value, key_ok};
use crate::strings::utf8_bytes;
use crate::storage::Storage;
use crate::sync::{P2PMessage, SyncMessage, apply_sync, sync_key, sync_value};
use crate::whitelist::{PeerWhitelist, chain_trusted, wl_has, wl_idx};

/// Why the pipeline dropped a payload.
#[derive(Debug, Clone, Copy, PartialEq, Eq, Structural)]
pub enum DropReason {
    /// The transport sender exceeded its rate or burst allowance.
    RateLimited,
    /// The transport sender is not a registered connection.
    UnknownSender,
    /// The payload exceeds the hard ceiling.
    PayloadTooLarge,
    /// The payload is not the encoding of any envelope.
    MalformedEnvelope,
    /// The declared signer is not a valid peer identity.
    InvalidSigner,
    /// The signer is neither whitelisted nor vouched for.
    NotTrusted,
    /// The signer's known key rejects the signature.
    BadSignature,
    /// A store mutation carried an unacceptable key.
    InvalidKey,
    /// A store mutation carried an oversized value.
    InvalidValue,
}

/// What the pipeline did with a payload.
#[derive(Debug)]
pub enum InboundOutcome {
    /// The payload was dropped for the given reason.
    Dropped(DropReason),
    /// A store mutation was applied.
    Applied,
    /// A key-distribution message was handled; the reply, if any, is to
    /// be signed and published by the caller.
    KeyHandled(Option<KeyDistributionMessage>),
}

/// Whether the whitelist holds a key for `p`, and that key's bytes.
pub open spec fn known_key(wl: Seq<crate::whitelist::WhitelistEntry>, p: Seq<char>) -> bool {
    wl_has(wl, p) && wl[wl_idx(wl, p)].public_key is Some
}

/// The known key's bytes for `p`.
pub open spec fn known_key_bytes(wl: Seq<crate::whitelist::WhitelistEntry>, p: Seq<char>) -> Seq<
    u8,
> {
    wl[wl_idx(wl, p)].public_key.unwrap()@
}

/// Run one delivered payload through the inbound pipeline.
pub fn handle_inbound_message(
    rate_limiter: &mut RateLimiter,
    registry: &ConnectionManager,
    whitelist: &mut PeerWhitelist,
    store: &mut Storage,
    key_dist: &mut KeyDistributionManager,
    config: &SecurityConfig,
    transport_sender: &str,
    payload: &Vec<u8>,
    now_ms: u64,
    now: i64,
) -> (r: InboundOutcome)
    requires
        old(rate_limiter).wf(),
        registry.wf(),
        old(whitelist).wf(),
        old(store).wf(),
        old(key_dist).wf(),
        0 <= now,
        max_age_secs(old(key_dist).cfg()) <= i64::MAX as int,
    ensures
        final(rate_limiter).wf(),
        final(whitelist).wf(),
        final(store).wf(),
        final(key_dist).wf(),
        // the rate limiter always advances by exactly one check
        final(rate_limiter).window(transport_sender@) == rate_check_next(
            old(rate_limiter).window(transport_sender@),
            now_ms as int,
            old(rate_limiter).cfg().rate_limit_per_minute as int,
            old(rate_limiter).cfg().rate_limit_burst as int,
        ),
        forall|q: Seq<char>|
            q != transport_sender@ ==> #[trigger] final(rate_limiter).window(q) == old(
                rate_limiter,
            ).window(q),
        // the early stages, exactly
        r == InboundOutcome::Dropped(DropReason::RateLimited) <==> !rate_check_ok(
            old(rate_limiter).window(transport_sender@),
            now_ms as int,
            old(rate_limiter).cfg().rate_limit_per_minute as int,
            old(rate_limiter).cfg().rate_limit_burst as int,
        ),
        r == InboundOutcome::Dropped(DropReason::UnknownSender) <==> rate_check_ok(
            old(rate_limiter).window(transport_sender@),
            now_ms as int,
            old(rate_limiter).cfg().rate_limit_per_minute as int,
            old(rate_limiter).cfg().rate_limit_burst as int,
        ) && !registry.connected(transport_sender@),
        r == InboundOutcome::Dropped(DropReason::PayloadTooLarge) ==> payload@.len()
            > config.max_message_size,
        // nothing oversized is ever accepted
        (r == InboundOutcome::Applied || r matches InboundOutcome::KeyHandled(_)) ==> payload@.len()
            <= config.max_message_size,
        r == InboundOutcome::Dropped(DropReason::MalformedEnvelope) ==> forall|e: SignedData|
            payload@ != spec_encode_envelope(e),
        // whatever gets past decoding is the decoding of the payload
        r == InboundOutcome::Dropped(DropReason::InvalidSigner) ==> exists|e: SignedData|
            payload@ == spec_encode_envelope(e) && !is_peer_id(e.signer@),
        r == InboundOutcome::Dropped(DropReason::NotTrusted) ==> exists|e: SignedData|
            payload@ == spec_encode_envelope(e) && !chain_trusted(
                old(whitelist)@,
                e.signer@,
                now as int,
            ),
        r == InboundOutcome::Dropped(DropReason::BadSignature) ==> exists|e: SignedData|
            payload@ == spec_encode_envelope(e) && known_key(old(whitelist)@, e.signer@)
                && !envelope_authentic(e, known_key_bytes(old(whitelist)@, e.signer@)),
        // a message is accepted only from a trusted signer, and when the
        // signer's key is known, only with an authentic signature
        (r == InboundOutcome::Applied || r matches InboundOutcome::KeyHandled(_)) ==> exists|
            e: SignedData,
        |
            payload@ == spec_encode_envelope(e) && is_peer_id(e.signer@) && chain_trusted(
                old(whitelist)@,
                e.signer@,
                now as int,
            ) && (known_key(old(whitelist)@, e.signer@) ==> envelope_authentic(
                e,
                known_key_bytes(old(whitelist)@, e.signer@),
            )),
        // an applied mutation changes the store exactly by the last-writer
        // -wins rule, and nothing else
        r == InboundOutcome::Applied ==> exists|e: SignedData, m: SyncMessage|
            payload@ == spec_encode_envelope(e) && e.data == P2PMessage::Sync(m) && key_ok(
                sync_key(m),
                config.max_key_length as int,
            ) && utf8_bytes(sync_value(m)).len() <= config.max_value_length && final(store)@
                == apply_sync(old(store)@, m),
        r != InboundOutcome::Applied ==> final(store)@ == old(store)@,
        r == InboundOutcome::Dropped(DropReason::InvalidKey) ==> exists|e: SignedData, m: SyncMessage|
            payload@ == spec_encode_envelope(e) && e.data == P2PMessage::Sync(m) && !key_ok(
                sync_key(m),
                config.max_key_length as int,
            ),
        r == InboundOutcome::Dropped(DropReason::InvalidValue) ==> exists|e: SignedData, m: SyncMessage|
            payload@ == spec_encode_envelope(e) && e.data == P2PMessage::Sync(m) && utf8_bytes(
                sync_value(m),
            ).len() > config.max_value_length,
        // only the key-distribution path touches the whitelist or manager,
        // and a replayed or stale protocol message changes neither
        !(r matches InboundOutcome::KeyHandled(_)) ==> *final(whitelist) == *old(whitelist)
            && *final(key_dist) == *old(key_dist),
        r matches InboundOutcome::KeyHandled(resp) ==> exists|e: SignedData, k: KeyDistributionMessage|
            payload@ == spec_encode_envelope(e) && e.data == P2PMessage::KeyDistribution(k) && (
            kd_admit(
                old(key_dist).processed(),
                kd_fingerprint(k, e.signature@),
                kd_timestamp(k),
                now as int,
                max_age_secs(old(key_dist).cfg()),
            ) is None ==> resp is None && *final(whitelist) == *old(whitelist) && *final(key_dist)
                == *old(key_dist)),
{
    let rl = rate_limiter.check_rate_limit(transport_sender, now_ms);
    if rl.is_err() {
        return InboundOutcome::Dropped(DropReason::RateLimited);
    }
    if !registry.is_connected(transport_sender) {
        return InboundOutcome::Dropped(DropReason::UnknownSender);
    }
    if payload.len() > config.max_message_size {
        return InboundOutcome::Dropped(DropReason::PayloadTooLarge);
    }
    let env = match decode_envelope(payload) {
        Option::Some(e) => e,
        Option::None => {
            return InboundOutcome::Dropped(DropReason::MalformedEnvelope);
        },
    };
    let ghost genv = env;
    if !crate::crypto::peer_id_str_valid(env.signer.as_str()) {
        return InboundOutcome::Dropped(DropReason::InvalidSigner);
    }
    if !whitelist.is_trusted_by_chain(env.signer.as_str(), now) {
        return InboundOutcome::Dropped(DropReason::NotTrusted);
    }
    match whitelist.get_public_key(env.signer.as_str()) {
        Option::Some(pk) => {
            if !env.verify_with_public_key(&pk) {
                return InboundOutcome::Dropped(DropReason::BadSignature);
            }
        },
        Option::None => {
        },
    }
    let SignedData { data, signature, signer } = env;
    match data {
        P2PMessage::Sync(m) => {
            let ghost gm = m;
            match m {
                SyncMessage::Put { key, value, timestamp } => {
                    if validate_key(key.as_str(), config.max_key_length).is_err() {
                        proof {
                            assert(payload@ == spec_encode_envelope(genv) && genv.data
                                == P2PMessage::Sync(gm) && !key_ok(
                                sync_key(gm),
                                config.max_key_length as int,
                            ));
                        }
                        return InboundOutcome::Dropped(DropReason::InvalidKey);
                    }
                    if validate_value(value.as_str(), config.max_value_length).is_err() {
                        proof {
                            assert(payload@ == spec_encode_envelope(genv) && genv.data
                                == P2PMessage::Sync(gm) && utf8_bytes(sync_value(gm)).len()
                                > config.max_value_length);
                        }
                        return InboundOutcome::Dropped(DropReason::InvalidValue);
                    }
                    store.put_with_timestamp(key.as_str(), value.as_str(), timestamp);
                    proof {
                        assert(final(store)@ == apply_sync(old(store)@, gm));
                    }
                    InboundOutcome::Applied
                },
                SyncMessage::Delete { key, timestamp } => {
                    if validate_key(key.as_str(), config.max_key_length).is_err() {
                        proof {
                            assert(payload@ == spec_encode_envelope(genv) && genv.data
                                == P2PMessage::Sync(gm) && !key_ok(
                                sync_key(gm),
                                config.max_key_length as int,
                            ));
                        }
                        return InboundOutcome::Dropped(DropReason::InvalidKey);
                    }
                    store.delete_with_timestamp(key.as_str(), timestamp);
                    proof {
                        assert(final(store)@ == apply_sync(old(store)@, gm));
                    }
                    InboundOutcome::Applied
                },
            }
        },
        P2PMessage::KeyDistribution(k) => {
            let resp = key_dist.handle_message(whitelist, &k, &signature, signer.as_str(), now);
            InboundOutcome::KeyHandled(resp)
        },
    }
}

} // verus!
