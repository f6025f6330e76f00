//! Stable binary wire format for envelopes and payloads.
//!
//! Every field is either a little-endian 64-bit integer, a length-prefixed
//! byte string, a length-prefixed UTF-8 string, or a one-byte tag. The
//! encoding is a function of the value, so the signature over a payload's
//! encoding is well defined; decoding is exact: a decoder succeeds on
//! precisely the byte strings that some value encodes to, and returns a
//! value whose encoding is the input.

use vstd::prelude::*;

verus! {

use vstd::bytes::{
    spec_u64_to_le_bytes, spec_u64_from_le_bytes, lemma_auto_spec_u64_to_from_le_bytes,
    u64_from_le_bytes,
};
use vstd::utf8::{encode_utf8, valid_utf8, encode_utf8_valid_utf8};
use vstd::string::StrSliceExecFns;
use crate::sync::{P2PMessage, SyncMessage};
use crate::key_distribution::KeyDistributionMessage;
use crate::crypto::SignedData;

/// Little-endian encoding of a 64-bit integer.
pub open spec fn enc_u64(x: u64) -> Seq<u8> {
    spec_u64_to_le_bytes(x)
}

/// Encoding of a signed 64-bit integer: its two's-complement bits.
pub open spec fn enc_i64(x: i64) -> Seq<u8> {
    enc_u64(x as u64)
}

/// Length-prefixed byte string.
pub open spec fn enc_blob(b: Seq<u8>) -> Seq<u8> {
    enc_u64(b.len() as u64) + b
}

/// Length-prefixed UTF-8 string.
pub open spec fn enc_str(s: Seq<char>) -> Seq<u8> {
    enc_blob(encode_utf8(s))
}

/// Optional string: a presence tag, then the string when present.
pub open spec fn enc_opt_str(o: Option<String>) -> Seq<u8> {
    match o {
        Option::None => seq![0u8],
        Option::Some(s) => seq![1u8] + enc_str(s@),
    }
}

/// Encoding of one store mutation.
pub open spec fn spec_encode_sync(m: SyncMessage) -> Seq<u8> {
    match m {
        SyncMessage::Put { key, value, timestamp } => seq![0u8] + enc_str(key@) + enc_str(value@)
            + enc_i64(timestamp),
        SyncMessage::Delete { key, timestamp } => seq![1u8] + enc_str(key@) + enc_i64(timestamp),
    }
}

/// Encoding of one key-distribution message.
pub open spec fn spec_encode_kd(m: KeyDistributionMessage) -> Seq<u8> {
    match m {
        KeyDistributionMessage::KeyRequest { requestor, target, timestamp } => seq![0u8] + enc_str(
            requestor@,
        ) + enc_str(target@) + enc_i64(timestamp),
        KeyDistributionMessage::KeyResponse { target, public_key, timestamp } => seq![1u8]
            + enc_str(target@) + enc_blob(public_key@) + enc_i64(timestamp),
        KeyDistributionMessage::KeyAnnouncement { peer_id, public_key, timestamp } => seq![2u8]
            + enc_str(peer_id@) + enc_blob(public_key@) + enc_i64(timestamp),
        KeyDistributionMessage::WhitelistRequest { peer_id, public_key, name, timestamp } => seq![
            3u8,
        ] + enc_str(peer_id@) + enc_blob(public_key@) + enc_opt_str(name) + enc_i64(timestamp),
        KeyDistributionMessage::TrustRecommendation { recommender, recommended, name, timestamp }
            => seq![4u8] + enc_str(recommender@) + enc_str(recommended@) + enc_opt_str(name)
            + enc_i64(timestamp),
    }
}

/// Encoding of a topic payload.
pub open spec fn spec_encode_message(m: P2PMessage) -> Seq<u8> {
    match m {
        P2PMessage::Sync(s) => seq![0u8] + spec_encode_sync(s),
        P2PMessage::KeyDistribution(k) => seq![1u8] + spec_encode_kd(k),
    }
}

/// Encoding of a signed envelope: payload, signature, signer.
pub open spec fn spec_encode_envelope(e: SignedData) -> Seq<u8> {
    enc_blob(spec_encode_message(e.data)) + enc_blob(e.signature@) + enc_str(e.signer@)
}

/// The length header read at `pos`.
pub open spec fn blob_hdr(b: Seq<u8>, pos: int) -> int {
    spec_u64_from_le_bytes(b.subrange(pos, pos + 8)) as int
}

/// Whether a length-prefixed byte string starts at `pos` and how far it
/// reaches.
pub open spec fn blob_at(b: Seq<u8>, pos: int) -> bool {
    pos + 8 <= b.len() && blob_hdr(b, pos) <= b.len() - pos - 8
}

/// End position of the byte string starting at `pos`.
pub open spec fn blob_end(b: Seq<u8>, pos: int) -> int {
    pos + 8 + blob_hdr(b, pos)
}

/// Content of the byte string starting at `pos`.
pub open spec fn blob_body(b: Seq<u8>, pos: int) -> Seq<u8> {
    b.subrange(pos + 8, blob_end(b, pos))
}

/// Whether a length-prefixed UTF-8 string starts at `pos`.
pub open spec fn str_at(b: Seq<u8>, pos: int) -> bool {
    blob_at(b, pos) && valid_utf8(blob_body(b, pos))
}

// ---------------------------------------------------------------------
// Encoders
// ---------------------------------------------------------------------

/// Relies on `String::from_utf8`: it succeeds exactly on valid UTF-8 and
/// returns a string carrying those bytes.
#[verifier::external_body]
fn string_from_utf8(bytes: Vec<u8>) -> (r: Option<String>)
    ensures
        r is Some <==> valid_utf8(bytes@),
        r matches Some(s) ==> encode_utf8(s@) == bytes@,
{
    String::from_utf8(bytes).ok()
}

/// Append the little-endian bytes of `x`.
fn push_u64(out: &mut Vec<u8>, x: u64)
    ensures
        final(out)@ == old(out)@ + enc_u64(x),
{
    let mut b = vstd::bytes::u64_to_le_bytes(x);
    out.append(&mut b);
}

/// Append a length-prefixed byte string.
fn push_blob(out: &mut Vec<u8>, b: &Vec<u8>)
    ensures
        final(out)@ == old(out)@ + enc_blob(b@),
{
    push_u64(out, b.len() as u64);
    let mut i: usize = 0;
    let n = b.len();
    while i < n
        invariant
            n == b@.len(),
            i <= n,
            out@ == old(out)@ + enc_u64(b@.len() as u64) + b@.subrange(0, i as int),
        decreases n - i,
    {
        out.push(b[i]);
        proof {
            assert(out@ =~= old(out)@ + enc_u64(b@.len() as u64) + b@.subrange(0, i + 1));
        }
        i += 1;
    }
    proof {
        assert(b@.subrange(0, b@.len() as int) =~= b@);
        assert(out@ =~= old(out)@ + enc_blob(b@));
    }
}

/// Append a length-prefixed UTF-8 string.
fn push_str(out: &mut Vec<u8>, s: &str)
    ensures
        final(out)@ == old(out)@ + enc_str(s@),
{
    let bv = s.as_bytes_vec();
    push_blob(out, &bv);
}

/// Append an optional string.
fn push_opt_str(out: &mut Vec<u8>, o: &Option<String>)
    ensures
        final(out)@ == old(out)@ + enc_opt_str(*o),
{
    match o {
        Option::None => {
            out.push(0u8);
            proof {
                assert(out@ =~= old(out)@ + enc_opt_str(*o));
            }
        },
        Option::Some(s) => {
            out.push(1u8);
            push_str(out, s.as_str());
            proof {
                assert(out@ =~= old(out)@ + enc_opt_str(*o));
            }
        },
    }
}

/// Encode one store mutation.
pub fn encode_sync(m: &SyncMessage) -> (r: Vec<u8>)
    ensures
        r@ == spec_encode_sync(*m),
{
    let mut out: Vec<u8> = Vec::new();
    match m {
        SyncMessage::Put { key, value, timestamp } => {
            out.push(0u8);
            proof {
                assert(out@ =~= seq![0u8]);
            }
            push_str(&mut out, key.as_str());
            push_str(&mut out, value.as_str());
            push_u64(&mut out, *timestamp as u64);
            proof {
                assert(out@ =~= spec_encode_sync(*m));
            }
        },
        SyncMessage::Delete { key, timestamp } => {
            out.push(1u8);
            proof {
                assert(out@ =~= seq![1u8]);
            }
            push_str(&mut out, key.as_str());
            push_u64(&mut out, *timestamp as u64);
            proof {
                assert(out@ =~= spec_encode_sync(*m));
            }
        },
    }
    out
}

/// Encode one key-distribution message.
pub fn encode_kd(m: &KeyDistributionMessage) -> (r: Vec<u8>)
    ensures
        r@ == spec_encode_kd(*m),
{
    let mut out: Vec<u8> = Vec::new();
    match m {
        KeyDistributionMessage::KeyRequest { requestor, target, timestamp } => {
            out.push(0u8);
            proof {
                assert(out@ =~= seq![0u8]);
            }
            push_str(&mut out, requestor.as_str());
            push_str(&mut out, target.as_str());
            push_u64(&mut out, *timestamp as u64);
            proof {
                assert(out@ =~= spec_encode_kd(*m));
            }
        },
        KeyDistributionMessage::KeyResponse { target, public_key, timestamp } => {
            out.push(1u8);
            proof {
                assert(out@ =~= seq![1u8]);
            }
            push_str(&mut out, target.as_str());
            push_blob(&mut out, public_key);
            push_u64(&mut out, *timestamp as u64);
            proof {
                assert(out@ =~= spec_encode_kd(*m));
            }
        },
        KeyDistributionMessage::KeyAnnouncement { peer_id, public_key, timestamp } => {
            out.push(2u8);
            proof {
                assert(out@ =~= seq![2u8]);
            }
            push_str(&mut out, peer_id.as_str());
            push_blob(&mut out, public_key);
            push_u64(&mut out, *timestamp as u64);
            proof {
                assert(out@ =~= spec_encode_kd(*m));
            }
        },
        KeyDistributionMessage::WhitelistRequest { peer_id, public_key, name, timestamp } => {
            out.push(3u8);
            proof {
                assert(out@ =~= seq![3u8]);
            }
            push_str(&mut out, peer_id.as_str());
            push_blob(&mut out, public_key);
            push_opt_str(&mut out, name);
            push_u64(&mut out, *timestamp as u64);
            proof {
                assert(out@ =~= spec_encode_kd(*m));
            }
        },
        KeyDistributionMessage::TrustRecommendation { recommender, recommended, name, timestamp }
        => {
            out.push(4u8);
            proof {
                assert(out@ =~= seq![4u8]);
            }
            push_str(&mut out, recommender.as_str());
            push_str(&mut out, recommended.as_str());
            push_opt_str(&mut out, name);
            push_u64(&mut out, *timestamp as u64);
            proof {
                assert(out@ =~= spec_encode_kd(*m));
            }
        },
    }
    out
}

/// Encode a topic payload.
pub fn encode_message(m: &P2PMessage) -> (r: Vec<u8>)
    ensures
        r@ == spec_encode_message(*m),
{
    let mut out: Vec<u8> = Vec::new();
    match m {
        P2PMessage::Sync(s) => {
            out.push(0u8);
            let mut body = encode_sync(s);
            out.append(&mut body);
            proof {
                assert(out@ =~= spec_encode_message(*m));
            }
        },
        P2PMessage::KeyDistribution(k) => {
            out.push(1u8);
            let mut body = encode_kd(k);
            out.append(&mut body);
            proof {
                assert(out@ =~= spec_encode_message(*m));
            }
        },
    }
    out
}

/// Encode a signed envelope for the shared topic.
pub fn encode_envelope(e: &SignedData) -> (r: Vec<u8>)
    ensures
        r@ == spec_encode_envelope(*e),
{
    let mut out: Vec<u8> = Vec::new();
    let body = encode_message(&e.data);
    push_blob(&mut out, &body);
    push_blob(&mut out, &e.signature);
    push_str(&mut out, e.signer.as_str());
    proof {
        assert(out@ =~= spec_encode_envelope(*e));
    }
    out
}

// ---------------------------------------------------------------------
// Decoders
// ---------------------------------------------------------------------

/// Whether an optional string starts at `pos`.
pub open spec fn opt_str_at(b: Seq<u8>, pos: int) -> bool {
    pos + 1 <= b.len() && (b[pos] == 0 || (b[pos] == 1 && str_at(b, pos + 1)))
}

/// End position of the optional string starting at `pos`.
pub open spec fn opt_str_end(b: Seq<u8>, pos: int) -> int {
    if b[pos] == 0 {
        pos + 1
    } else {
        blob_end(b, pos + 1)
    }
}

/// Read one byte.
fn dec_u8(b: &Vec<u8>, pos: usize) -> (r: Option<(u8, usize)>)
    ensures
        r is Some <==> pos + 1 <= b@.len(),
        r matches Some(p) ==> p.0 == b@[pos as int] && p.1 == pos + 1,
{
    if pos < b.len() {
        Some((b[pos], pos + 1))
    } else {
        None
    }
}

/// Read a little-endian 64-bit integer.
fn dec_u64(b: &Vec<u8>, pos: usize) -> (r: Option<(u64, usize)>)
    ensures
        r is Some <==> pos + 8 <= b@.len(),
        r matches Some(p) ==> p.1 == pos + 8 && p.0 == spec_u64_from_le_bytes(
            b@.subrange(pos as int, pos + 8),
        ) && b@.subrange(pos as int, pos + 8) == enc_u64(p.0),
{
    if pos <= b.len() && b.len() - pos >= 8 {
        let n = b.len();
        let mut tmp: Vec<u8> = Vec::new();
        let mut i: usize = 0;
        while i < 8
            invariant
                n == b@.len(),
                pos + 8 <= n,
                i <= 8,
                tmp@ == b@.subrange(pos as int, pos + i),
            decreases 8 - i,
        {
            tmp.push(b[pos + i]);
            proof {
                assert(tmp@ =~= b@.subrange(pos as int, pos + i + 1));
            }
            i += 1;
        }
        let x = u64_from_le_bytes(tmp.as_slice());
        proof {
            lemma_auto_spec_u64_to_from_le_bytes();
            assert(enc_u64(x) == b@.subrange(pos as int, pos + 8));
        }
        Some((x, pos + 8))
    } else {
        None
    }
}

/// Read a signed 64-bit integer.
fn dec_i64(b: &Vec<u8>, pos: usize) -> (r: Option<(i64, usize)>)
    ensures
        r is Some <==> pos + 8 <= b@.len(),
        r matches Some(p) ==> p.1 == pos + 8 && b@.subrange(pos as int, pos + 8) == enc_i64(p.0),
{
    match dec_u64(b, pos) {
        Some((x, p)) => {
            let y = x as i64;
            proof {
                assert(x as i64 as u64 == x) by (bit_vector);
            }
            Some((y, p))
        },
        None => None,
    }
}

/// Read a length-prefixed byte string.
fn dec_blob(b: &Vec<u8>, pos: usize) -> (r: Option<(Vec<u8>, usize)>)
    ensures
        r is Some <==> blob_at(b@, pos as int),
        r matches Some(p) ==> p.1 == blob_end(b@, pos as int) && p.0@ == blob_body(
            b@,
            pos as int,
        ) && b@.subrange(pos as int, p.1 as int) == enc_blob(p.0@),
{
    match dec_u64(b, pos) {
        Some((len64, p1)) => {
            let rem = b.len() - p1;
            if len64 <= rem as u64 {
                let l = len64 as usize;
                proof {
                    assert(l == len64);
                }
                let n = b.len();
                let mut v: Vec<u8> = Vec::new();
                let mut i: usize = 0;
                while i < l
                    invariant
                        n == b@.len(),
                        p1 + l <= n,
                        i <= l,
                        v@ == b@.subrange(p1 as int, p1 + i),
                    decreases l - i,
                {
                    v.push(b[p1 + i]);
                    proof {
                        assert(v@ =~= b@.subrange(p1 as int, p1 + i + 1));
                    }
                    i += 1;
                }
                proof {
                    assert(blob_hdr(b@, pos as int) == len64);
                    assert(enc_u64(v@.len() as u64) == b@.subrange(pos as int, pos + 8));
                    assert(b@.subrange(pos as int, (p1 + l) as int) =~= enc_blob(v@));
                }
                Some((v, p1 + l))
            } else {
                None
            }
        },
        None => None,
    }
}

/// Read a length-prefixed UTF-8 string.
fn dec_str(b: &Vec<u8>, pos: usize) -> (r: Option<(String, usize)>)
    ensures
        r is Some <==> str_at(b@, pos as int),
        r matches Some(p) ==> p.1 == blob_end(b@, pos as int) && encode_utf8(p.0@) == blob_body(
            b@,
            pos as int,
        ) && b@.subrange(pos as int, p.1 as int) == enc_str(p.0@),
{
    match dec_blob(b, pos) {
        Some((bytes, p)) => {
            let ghost body = bytes@;
            match string_from_utf8(bytes) {
                Some(s) => {
                    proof {
                        assert(b@.subrange(pos as int, p as int) == enc_str(s@));
                    }
                    Some((s, p))
                },
                None => None,
            }
        },
        None => None,
    }
}

/// Read an optional string.
fn dec_opt_str(b: &Vec<u8>, pos: usize) -> (r: Option<(Option<String>, usize)>)
    ensures
        r is Some <==> opt_str_at(b@, pos as int),
        r matches Some(p) ==> p.1 == opt_str_end(b@, pos as int) && b@.subrange(
            pos as int,
            p.1 as int,
        ) == enc_opt_str(p.0),
{
    match dec_u8(b, pos) {
        Some((tag, p1)) => {
            if tag == 0 {
                proof {
                    assert(b@.subrange(pos as int, p1 as int) =~= enc_opt_str(
                        Option::<String>::None,
                    ));
                }
                Some((None, p1))
            } else if tag == 1 {
                match dec_str(b, p1) {
                    Some((s, p2)) => {
                        proof {
                            assert(b@.subrange(pos as int, p2 as int) =~= seq![1u8] + enc_str(s@));
                        }
                        Some((Some(s), p2))
                    },
                    None => None,
                }
            } else {
                None
            }
        },
        None => None,
    }
}

// ---------------------------------------------------------------------
// Parse lemmas: an encoding placed in a buffer satisfies the decoders'
// success conditions, at the positions the decoders compute.
// ---------------------------------------------------------------------

/// An encoding placed in a buffer pins the buffer's bytes over its range.
proof fn lemma_subrange_index(b: Seq<u8>, pos: int, e: Seq<u8>)
    requires
        0 <= pos,
        pos + e.len() <= b.len(),
        b.subrange(pos, pos + e.len() as int) == e,
    ensures
        forall|j: int| 0 <= j < e.len() ==> b[pos + j] == #[trigger] e[j],
{
    assert forall|j: int| 0 <= j < e.len() implies b[pos + j] == #[trigger] e[j] by {
        assert(e[j] == b.subrange(pos, pos + e.len() as int)[j]);
    }
}

/// A part of an encoding placed in a buffer is itself placed in the buffer.
proof fn lemma_split_chunk(b: Seq<u8>, pos: int, e: Seq<u8>, lo: int, hi: int)
    requires
        0 <= pos,
        pos + e.len() <= b.len(),
        b.subrange(pos, pos + e.len() as int) == e,
        0 <= lo <= hi <= e.len(),
    ensures
        b.subrange(pos + lo, pos + hi) == e.subrange(lo, hi),
{
    lemma_subrange_index(b, pos, e);
    assert(b.subrange(pos + lo, pos + hi) =~= e.subrange(lo, hi));
}

/// A `u64` encoding placed at `pos` reads back as its value.
proof fn lemma_parse_u64(b: Seq<u8>, pos: int, x: u64)
    requires
        0 <= pos,
        pos + 8 <= b.len(),
        b.subrange(pos, pos + 8) == enc_u64(x),
    ensures
        spec_u64_from_le_bytes(b.subrange(pos, pos + 8)) == x,
{
    lemma_auto_spec_u64_to_from_le_bytes();
}

/// A byte-string encoding placed at `pos` parses, ending where it ends.
proof fn lemma_parse_blob(b: Seq<u8>, pos: int, body: Seq<u8>)
    requires
        0 <= pos,
        b.len() <= usize::MAX,
        pos + enc_blob(body).len() <= b.len(),
        b.subrange(pos, pos + enc_blob(body).len() as int) == enc_blob(body),
    ensures
        blob_at(b, pos),
        blob_end(b, pos) == pos + enc_blob(body).len(),
        blob_body(b, pos) == body,
{
    lemma_auto_spec_u64_to_from_le_bytes();
    let e = enc_blob(body);
    let hb = enc_u64(body.len() as u64);
    assert(hb.len() == 8);
    assert(e.len() == 8 + body.len());
    lemma_split_chunk(b, pos, e, 0, 8);
    assert(e.subrange(0, 8) =~= hb);
    lemma_parse_u64(b, pos, body.len() as u64);
    assert(blob_hdr(b, pos) == body.len());
    lemma_split_chunk(b, pos, e, 8, e.len() as int);
    assert(e.subrange(8, e.len() as int) =~= body);
    assert(blob_body(b, pos) == body);
}

/// A string encoding placed at `pos` parses, ending where it ends.
proof fn lemma_parse_str(b: Seq<u8>, pos: int, s: Seq<char>)
    requires
        0 <= pos,
        b.len() <= usize::MAX,
        pos + enc_str(s).len() <= b.len(),
        b.subrange(pos, pos + enc_str(s).len() as int) == enc_str(s),
    ensures
        str_at(b, pos),
        blob_end(b, pos) == pos + enc_str(s).len(),
        blob_body(b, pos) == encode_utf8(s),
{
    encode_utf8_valid_utf8(s);
    lemma_parse_blob(b, pos, encode_utf8(s));
}

/// An optional-string encoding placed at `pos` parses.
proof fn lemma_parse_opt_str(b: Seq<u8>, pos: int, o: Option<String>)
    requires
        0 <= pos,
        b.len() <= usize::MAX,
        pos + enc_opt_str(o).len() <= b.len(),
        b.subrange(pos, pos + enc_opt_str(o).len() as int) == enc_opt_str(o),
    ensures
        opt_str_at(b, pos),
        opt_str_end(b, pos) == pos + enc_opt_str(o).len(),
{
    let e = enc_opt_str(o);
    lemma_subrange_index(b, pos, e);
    assert(b[pos] == e[0]);
    match o {
        Option::None => {
        },
        Option::Some(s) => {
            let e1 = enc_str(s@);
            lemma_split_chunk(b, pos, e, 1, e.len() as int);
            assert(e.subrange(1, e.len() as int) =~= e1);
            lemma_parse_str(b, pos + 1, s@);
        },
    }
}

/// The tail of a buffer that holds a sync-mutation encoding satisfies the
/// decoder's checks, field by field.
proof fn lemma_sync_parses(b: Seq<u8>, pos: int, m: SyncMessage)
    requires
        0 <= pos <= b.len(),
        b.len() <= usize::MAX,
        b.subrange(pos, b.len() as int) == spec_encode_sync(m),
    ensures
        pos + 1 <= b.len(),
        b[pos] == 0 || b[pos] == 1,
        b[pos] == 0 ==> str_at(b, pos + 1) && str_at(b, blob_end(b, pos + 1)) && blob_end(
            b,
            blob_end(b, pos + 1),
        ) + 8 == b.len(),
        b[pos] == 1 ==> str_at(b, pos + 1) && blob_end(b, pos + 1) + 8 == b.len(),
{
    lemma_auto_spec_u64_to_from_le_bytes();
    let e = spec_encode_sync(m);
    lemma_subrange_index(b, pos, e);
    assert(b[pos] == e[0]);
    match m {
        SyncMessage::Put { key, value, timestamp } => {
            let e1 = enc_str(key@);
            let e2 = enc_str(value@);
            lemma_split_chunk(b, pos, e, 1, 1 + e1.len() as int);
            assert(e.subrange(1, 1 + e1.len() as int) =~= e1);
            lemma_parse_str(b, pos + 1, key@);
            let q1 = pos + 1 + e1.len();
            lemma_split_chunk(b, pos, e, 1 + e1.len() as int, 1 + e1.len() as int + e2.len());
            assert(e.subrange(1 + e1.len() as int, 1 + e1.len() as int + e2.len()) =~= e2);
            lemma_parse_str(b, q1, value@);
        },
        SyncMessage::Delete { key, timestamp } => {
            let e1 = enc_str(key@);
            lemma_split_chunk(b, pos, e, 1, 1 + e1.len() as int);
            assert(e.subrange(1, 1 + e1.len() as int) =~= e1);
            lemma_parse_str(b, pos + 1, key@);
        },
    }
}

/// The tail of a buffer that holds a key-distribution encoding satisfies
/// the decoder's checks, field by field.
#[verifier::rlimit(60)]
proof fn lemma_kd_parses(b: Seq<u8>, pos: int, m: KeyDistributionMessage)
    requires
        0 <= pos <= b.len(),
        b.len() <= usize::MAX,
        b.subrange(pos, b.len() as int) == spec_encode_kd(m),
    ensures
        pos + 1 <= b.len(),
        0 <= b[pos] <= 4,
        b[pos] == 0 ==> str_at(b, pos + 1) && str_at(b, blob_end(b, pos + 1)) && blob_end(
            b,
            blob_end(b, pos + 1),
        ) + 8 == b.len(),
        b[pos] == 1 || b[pos] == 2 ==> str_at(b, pos + 1) && blob_at(b, blob_end(b, pos + 1))
            && blob_end(b, blob_end(b, pos + 1)) + 8 == b.len(),
        b[pos] == 3 ==> str_at(b, pos + 1) && blob_at(b, blob_end(b, pos + 1)) && opt_str_at(
            b,
            blob_end(b, blob_end(b, pos + 1)),
        ) && opt_str_end(b, blob_end(b, blob_end(b, pos + 1))) + 8 == b.len(),
        b[pos] == 4 ==> str_at(b, pos + 1) && str_at(b, blob_end(b, pos + 1)) && opt_str_at(
            b,
            blob_end(b, blob_end(b, pos + 1)),
        ) && opt_str_end(b, blob_end(b, blob_end(b, pos + 1))) + 8 == b.len(),
{
    lemma_auto_spec_u64_to_from_le_bytes();
    let e = spec_encode_kd(m);
    lemma_subrange_index(b, pos, e);
    assert(b[pos] == e[0]);
    match m {
        KeyDistributionMessage::KeyRequest { requestor, target, timestamp } => {
            let e1 = enc_str(requestor@);
            let e2 = enc_str(target@);
            lemma_split_chunk(b, pos, e, 1, 1 + e1.len() as int);
            assert(e.subrange(1, 1 + e1.len() as int) =~= e1);
            lemma_parse_str(b, pos + 1, requestor@);
            let q1 = pos + 1 + e1.len();
            lemma_split_chunk(b, pos, e, 1 + e1.len() as int, 1 + e1.len() as int + e2.len());
            assert(e.subrange(1 + e1.len() as int, 1 + e1.len() as int + e2.len()) =~= e2);
            lemma_parse_str(b, q1, target@);
        },
        KeyDistributionMessage::KeyResponse { target, public_key, timestamp } => {
            let e1 = enc_str(target@);
            let e2 = enc_blob(public_key@);
            lemma_split_chunk(b, pos, e, 1, 1 + e1.len() as int);
            assert(e.subrange(1, 1 + e1.len() as int) =~= e1);
            lemma_parse_str(b, pos + 1, target@);
            let q1 = pos + 1 + e1.len();
            lemma_split_chunk(b, pos, e, 1 + e1.len() as int, 1 + e1.len() as int + e2.len());
            assert(e.subrange(1 + e1.len() as int, 1 + e1.len() as int + e2.len()) =~= e2);
            lemma_parse_blob(b, q1, public_key@);
        },
        KeyDistributionMessage::KeyAnnouncement { peer_id, public_key, timestamp } => {
            let e1 = enc_str(peer_id@);
            let e2 = enc_blob(public_key@);
            lemma_split_chunk(b, pos, e, 1, 1 + e1.len() as int);
            assert(e.subrange(1, 1 + e1.len() as int) =~= e1);
            lemma_parse_str(b, pos + 1, peer_id@);
            let q1 = pos + 1 + e1.len();
            lemma_split_chunk(b, pos, e, 1 + e1.len() as int, 1 + e1.len() as int + e2.len());
            assert(e.subrange(1 + e1.len() as int, 1 + e1.len() as int + e2.len()) =~= e2);
            lemma_parse_blob(b, q1, public_key@);
        },
        KeyDistributionMessage::WhitelistRequest { peer_id, public_key, name, timestamp } => {
            let e1 = enc_str(peer_id@);
            let e2 = enc_blob(public_key@);
            let e3 = enc_opt_str(name);
            lemma_split_chunk(b, pos, e, 1, 1 + e1.len() as int);
            assert(e.subrange(1, 1 + e1.len() as int) =~= e1);
            lemma_parse_str(b, pos + 1, peer_id@);
            let q1 = pos + 1 + e1.len();
            lemma_split_chunk(b, pos, e, 1 + e1.len() as int, 1 + e1.len() as int + e2.len());
            assert(e.subrange(1 + e1.len() as int, 1 + e1.len() as int + e2.len()) =~= e2);
            lemma_parse_blob(b, q1, public_key@);
            let q2 = q1 + e2.len();
            lemma_split_chunk(
                b,
                pos,
                e,
                1 + e1.len() as int + e2.len(),
                1 + e1.len() as int + e2.len() + e3.len(),
            );
            assert(e.subrange(1 + e1.len() as int + e2.len(), 1 + e1.len() as int + e2.len() + e3.len()) =~= e3);
            lemma_parse_opt_str(b, q2, name);
        },
        KeyDistributionMessage::TrustRecommendation { recommender, recommended, name, timestamp }
        => {
            let e1 = enc_str(recommender@);
            let e2 = enc_str(recommended@);
            let e3 = enc_opt_str(name);
            lemma_split_chunk(b, pos, e, 1, 1 + e1.len() as int);
            assert(e.subrange(1, 1 + e1.len() as int) =~= e1);
            lemma_parse_str(b, pos + 1, recommender@);
            let q1 = pos + 1 + e1.len();
            lemma_split_chunk(b, pos, e, 1 + e1.len() as int, 1 + e1.len() as int + e2.len());
            assert(e.subrange(1 + e1.len() as int, 1 + e1.len() as int + e2.len()) =~= e2);
            lemma_parse_str(b, q1, recommended@);
            let q2 = q1 + e2.len();
            lemma_split_chunk(
                b,
                pos,
                e,
                1 + e1.len() as int + e2.len(),
                1 + e1.len() as int + e2.len() + e3.len(),
            );
            assert(e.subrange(1 + e1.len() as int + e2.len(), 1 + e1.len() as int + e2.len() + e3.len()) =~= e3);
            lemma_parse_opt_str(b, q2, name);
        },
    }
}

// ---------------------------------------------------------------------
// Message decoders
// ---------------------------------------------------------------------

/// Decode a sync mutation occupying the whole tail of the buffer.
#[verifier::rlimit(60)]
fn decode_sync(b: &Vec<u8>, pos: usize) -> (r: Option<SyncMessage>)
    requires
        pos <= b@.len(),
    ensures
        r matches Some(m) ==> b@.subrange(pos as int, b@.len() as int) == spec_encode_sync(m),
        r is None ==> forall|m: SyncMessage|
            b@.subrange(pos as int, b@.len() as int) != spec_encode_sync(m),
{
    let n = b.len();
    let ghost tail = b@.subrange(pos as int, b@.len() as int);
    let tagr = dec_u8(b, pos);
    if tagr.is_none() {
        proof {
            assert forall|m: SyncMessage| tail != spec_encode_sync(m) by {
                if tail == spec_encode_sync(m) {
                    lemma_sync_parses(b@, pos as int, m);
                }
            }
        }
        return None;
    }
    let (tag, p0) = tagr.unwrap();
    if tag == 0 {
        if let Some((key, p1)) = dec_str(b, p0) {
            if let Some((value, p2)) = dec_str(b, p1) {
                if let Some((timestamp, p3)) = dec_i64(b, p2) {
                    if p3 == n {
                        let m = SyncMessage::Put { key, value, timestamp };
                        proof {
                            assert(tail =~= spec_encode_sync(m));
                        }
                        return Some(m);
                    }
                }
            }
        }
    } else if tag == 1 {
        if let Some((key, p1)) = dec_str(b, p0) {
            if let Some((timestamp, p2)) = dec_i64(b, p1) {
                if p2 == n {
                    let m = SyncMessage::Delete { key, timestamp };
                    proof {
                        assert(tail =~= spec_encode_sync(m));
                    }
                    return Some(m);
                }
            }
        }
    }
    proof {
        assert forall|m: SyncMessage| tail != spec_encode_sync(m) by {
            if tail == spec_encode_sync(m) {
                lemma_sync_parses(b@, pos as int, m);
            }
        }
    }
    None
}

/// Decode a key-distribution message occupying the whole tail of the
/// buffer.
#[verifier::rlimit(60)]
fn decode_kd(b: &Vec<u8>, pos: usize) -> (r: Option<KeyDistributionMessage>)
    requires
        pos <= b@.len(),
    ensures
        r matches Some(m) ==> b@.subrange(pos as int, b@.len() as int) == spec_encode_kd(m),
        r is None ==> forall|m: KeyDistributionMessage|
            b@.subrange(pos as int, b@.len() as int) != spec_encode_kd(m),
{
    let n = b.len();
    let ghost tail = b@.subrange(pos as int, b@.len() as int);
    let tagr = dec_u8(b, pos);
    if tagr.is_none() {
        proof {
            assert forall|m: KeyDistributionMessage| tail != spec_encode_kd(m) by {
                if tail == spec_encode_kd(m) {
                    lemma_kd_parses(b@, pos as int, m);
                }
            }
        }
        return None;
    }
    let (tag, p0) = tagr.unwrap();
    if tag == 0 {
        if let Some((requestor, p1)) = dec_str(b, p0) {
            if let Some((target, p2)) = dec_str(b, p1) {
                if let Some((timestamp, p3)) = dec_i64(b, p2) {
                    if p3 == n {
                        let m = KeyDistributionMessage::KeyRequest { requestor, target, timestamp };
                        proof {
                            assert(tail =~= spec_encode_kd(m));
                        }
                        return Some(m);
                    }
                }
            }
        }
    } else if tag == 1 {
        if let Some((target, p1)) = dec_str(b, p0) {
            if let Some((public_key, p2)) = dec_blob(b, p1) {
                if let Some((timestamp, p3)) = dec_i64(b, p2) {
                    if p3 == n {
                        let m = KeyDistributionMessage::KeyResponse { target, public_key, timestamp };
                        proof {
                            assert(tail =~= spec_encode_kd(m));
                        }
                        return Some(m);
                    }
                }
            }
        }
    } else if tag == 2 {
        if let Some((peer_id, p1)) = dec_str(b, p0) {
            if let Some((public_key, p2)) = dec_blob(b, p1) {
                if let Some((timestamp, p3)) = dec_i64(b, p2) {
                    if p3 == n {
                        let m = KeyDistributionMessage::KeyAnnouncement {
                            peer_id,
                            public_key,
                            timestamp,
                        };
                        proof {
                            assert(tail =~= spec_encode_kd(m));
                        }
                        return Some(m);
                    }
                }
            }
        }
    } else if tag == 3 {
        if let Some((peer_id, p1)) = dec_str(b, p0) {
            if let Some((public_key, p2)) = dec_blob(b, p1) {
                if let Some((name, p3)) = dec_opt_str(b, p2) {
                    if let Some((timestamp, p4)) = dec_i64(b, p3) {
                        if p4 == n {
                            let m = KeyDistributionMessage::WhitelistRequest {
                                peer_id,
                                public_key,
                                name,
                                timestamp,
                            };
                            proof {
                                assert(tail =~= spec_encode_kd(m));
                            }
                            return Some(m);
                        }
                    }
                }
            }
        }
    } else if tag == 4 {
        if let Some((recommender, p1)) = dec_str(b, p0) {
            if let Some((recommended, p2)) = dec_str(b, p1) {
                if let Some((name, p3)) = dec_opt_str(b, p2) {
                    if let Some((timestamp, p4)) = dec_i64(b, p3) {
                        if p4 == n {
                            let m = KeyDistributionMessage::TrustRecommendation {
                                recommender,
                                recommended,
                                name,
                                timestamp,
                            };
                            proof {
                                assert(tail =~= spec_encode_kd(m));
                            }
                            return Some(m);
                        }
                    }
                }
            }
        }
    }
    proof {
        assert forall|m: KeyDistributionMessage| tail != spec_encode_kd(m) by {
            if tail == spec_encode_kd(m) {
                lemma_kd_parses(b@, pos as int, m);
            }
        }
    }
    None
}

/// Decode a topic payload occupying the whole tail of the buffer.
pub fn decode_message(b: &Vec<u8>, pos: usize) -> (r: Option<P2PMessage>)
    requires
        pos <= b@.len(),
    ensures
        r matches Some(m) ==> b@.subrange(pos as int, b@.len() as int) == spec_encode_message(m),
        r is None ==> forall|m: P2PMessage|
            b@.subrange(pos as int, b@.len() as int) != spec_encode_message(m),
{
    let ghost tail = b@.subrange(pos as int, b@.len() as int);
    let tagr = dec_u8(b, pos);
    if tagr.is_none() {
        proof {
            assert forall|m: P2PMessage| tail != spec_encode_message(m) by {
                if tail == spec_encode_message(m) {
                    assert(spec_encode_message(m).len() >= 1);
                }
            }
        }
        return None;
    }
    let (tag, p0) = tagr.unwrap();
    if tag == 0 {
        if let Some(s) = decode_sync(b, p0) {
            let m = P2PMessage::Sync(s);
            proof {
                assert(tail =~= spec_encode_message(m));
            }
            return Some(m);
        }
    } else if tag == 1 {
        if let Some(k) = decode_kd(b, p0) {
            let m = P2PMessage::KeyDistribution(k);
            proof {
                assert(tail =~= spec_encode_message(m));
            }
            return Some(m);
        }
    }
    proof {
        assert forall|m: P2PMessage| tail != spec_encode_message(m) by {
            if tail == spec_encode_message(m) {
                let e = spec_encode_message(m);
                lemma_subrange_index(b@, pos as int, e);
                assert(b@[pos as int] == e[0]);
                lemma_split_chunk(b@, pos as int, e, 1, e.len() as int);
                match m {
                    P2PMessage::Sync(s) => {
                        assert(e.subrange(1, e.len() as int) =~= spec_encode_sync(s));
                        assert(b@.subrange(pos + 1, b@.len() as int) == spec_encode_sync(s));
                    },
                    P2PMessage::KeyDistribution(k) => {
                        assert(e.subrange(1, e.len() as int) =~= spec_encode_kd(k));
                        assert(b@.subrange(pos + 1, b@.len() as int) == spec_encode_kd(k));
                    },
                }
            }
        }
    }
    None
}

/// The envelope encoding satisfies the envelope decoder's checks.
proof fn lemma_envelope_parses(b: Seq<u8>, e: SignedData)
    requires
        b.len() <= usize::MAX,
        b == spec_encode_envelope(e),
    ensures
        blob_at(b, 0),
        blob_body(b, 0) == spec_encode_message(e.data),
        blob_at(b, blob_end(b, 0)),
        blob_body(b, blob_end(b, 0)) == e.signature@,
        str_at(b, blob_end(b, blob_end(b, 0))),
        blob_body(b, blob_end(b, blob_end(b, 0))) == encode_utf8(e.signer@),
        blob_end(b, blob_end(b, blob_end(b, 0))) == b.len(),
{
    lemma_auto_spec_u64_to_from_le_bytes();
    let whole = spec_encode_envelope(e);
    let e1 = enc_blob(spec_encode_message(e.data));
    let e2 = enc_blob(e.signature@);
    let e3 = enc_str(e.signer@);
    assert(b.subrange(0, b.len() as int) =~= whole);
    lemma_split_chunk(b, 0, whole, 0, e1.len() as int);
    assert(whole.subrange(0, e1.len() as int) =~= e1);
    lemma_parse_blob(b, 0, spec_encode_message(e.data));
    let q1 = e1.len() as int;
    lemma_split_chunk(b, 0, whole, q1, q1 + e2.len() as int);
    assert(whole.subrange(q1, q1 + e2.len() as int) =~= e2);
    lemma_parse_blob(b, q1, e.signature@);
    let q2 = q1 + e2.len();
    lemma_split_chunk(b, 0, whole, q2, q2 + e3.len() as int);
    assert(whole.subrange(q2, q2 + e3.len() as int) =~= e3);
    lemma_parse_str(b, q2, e.signer@);
}

/// Law: the wire form is unambiguous. Two envelopes with the same
/// encoding declare the same signer, carry the same signature, and hold
/// payloads with the same encoding — a decoded envelope is *the* envelope
/// the payload was made from, up to the identity of its parts.
pub proof fn lemma_envelope_encoding_unambiguous(e1: SignedData, e2: SignedData)
    requires
        spec_encode_envelope(e1).len() <= usize::MAX,
        spec_encode_envelope(e1) == spec_encode_envelope(e2),
    ensures
        e1.signer@ == e2.signer@,
        e1.signature@ == e2.signature@,
        spec_encode_message(e1.data) == spec_encode_message(e2.data),
{
    let b = spec_encode_envelope(e1);
    lemma_envelope_parses(b, e1);
    lemma_envelope_parses(b, e2);
    assert(encode_utf8(e1.signer@) == encode_utf8(e2.signer@));
    crate::strings::lemma_utf8_bytes_injective(e1.signer@, e2.signer@);
}

/// Decode a signed envelope from a whole topic payload. Succeeds exactly
/// when the payload is the encoding of some envelope, and then returns an
/// envelope whose encoding is the payload.
pub fn decode_envelope(b: &Vec<u8>) -> (r: Option<SignedData>)
    ensures
        r matches Some(e) ==> b@ == spec_encode_envelope(e),
        r is None ==> forall|e: SignedData| b@ != spec_encode_envelope(e),
{
    let res = decode_envelope_inner(b);
    proof {
        assert(vstd::std_specs::vec::spec_vec_len(b) == b@.len()) by {
            broadcast use vstd::std_specs::vec::axiom_spec_len;

        }
        if res is None {
            assert forall|e: SignedData| b@ != spec_encode_envelope(e) by {
                if b@ == spec_encode_envelope(e) {
                    lemma_envelope_parses(b@, e);
                }
            }
        }
    }
    res
}

/// Envelope decoding steps; `decode_envelope` adds the completeness proof.
fn decode_envelope_inner(b: &Vec<u8>) -> (r: Option<SignedData>)
    ensures
        r matches Some(e) ==> b@ == spec_encode_envelope(e),
        r is None ==> !(blob_at(b@, 0) && (exists|m: P2PMessage|
            blob_body(b@, 0) == spec_encode_message(m)) && blob_at(b@, blob_end(b@, 0)) && str_at(
            b@,
            blob_end(b@, blob_end(b@, 0)),
        ) && blob_end(b@, blob_end(b@, blob_end(b@, 0))) == b@.len()),
{
    if let Some((body, p1)) = dec_blob(b, 0) {
        if let Some(data) = decode_message(&body, 0) {
            proof {
                assert(body@.subrange(0, body@.len() as int) =~= body@);
            }
            if let Some((signature, p2)) = dec_blob(b, p1) {
                if let Some((signer, p3)) = dec_str(b, p2) {
                    if p3 == b.len() {
                        let e = SignedData { data, signature, signer };
                        proof {
                            assert(b@ =~= spec_encode_envelope(e));
                        }
                        return Some(e);
                    }
                }
            }
        } else {
            proof {
                assert(body@ == blob_body(b@, 0));
                assert forall|m: P2PMessage| blob_body(b@, 0) != spec_encode_message(m) by {
                    if blob_body(b@, 0) == spec_encode_message(m) {
                        assert(body@.subrange(0, body@.len() as int) =~= body@);
                    }
                }
            }
        }
    }
    None
}

} // verus!
