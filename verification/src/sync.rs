//! Replicated mutations and the last-writer-wins convergence laws.
//!
//! A `SyncMessage` is one replicated store mutation; `P2PMessage` is the
//! payload carried by a signed envelope on the shared topic. The proof
//! functions at the end state the convergence guarantees of the
//! last-writer-wins rule: the message with the strictly greatest timestamp
//! decides a key's final state, whatever order or duplication the transport
//! introduced, and a put stays visible while no strictly newer mutation of
//! the same key arrives.

use vstd::prelude::*;

verus! {

use crate::key_distribution::KeyDistributionMessage;
use crate::storage::{apply_put, apply_delete};

/// One replicated store mutation.
#[derive(Debug, Clone)]
pub enum SyncMessage {
    Put { key: String, value: String, timestamp: i64 },
    Delete { key: String, timestamp: i64 },
}

/// Payload of a signed envelope on the shared topic.
#[derive(Debug, Clone)]
pub enum P2PMessage {
    Sync(SyncMessage),
    KeyDistribution(KeyDistributionMessage),
}

/// Key a mutation speaks about.
pub open spec fn sync_key(m: SyncMessage) -> Seq<char> {
    match m {
        SyncMessage::Put { key, .. } => key@,
        SyncMessage::Delete { key, .. } => key@,
    }
}

/// Timestamp of a mutation.
pub open spec fn sync_ts(m: SyncMessage) -> int {
    match m {
        SyncMessage::Put { timestamp, .. } => timestamp as int,
        SyncMessage::Delete { timestamp, .. } => timestamp as int,
    }
}

/// Whether a mutation is a put.
pub open spec fn sync_is_put(m: SyncMessage) -> bool {
    m matches SyncMessage::Put { .. }
}

/// Value written by a put.
pub open spec fn sync_value(m: SyncMessage) -> Seq<char> {
    match m {
        SyncMessage::Put { value, .. } => value@,
        SyncMessage::Delete { .. } => Seq::empty(),
    }
}

/// Effect of one mutation on the abstract store.
pub open spec fn apply_sync(
    m: Map<Seq<char>, (Seq<char>, int)>,
    msg: SyncMessage,
) -> Map<Seq<char>, (Seq<char>, int)> {
    match msg {
        SyncMessage::Put { key, value, timestamp } => apply_put(m, key@, value@, timestamp as int),
        SyncMessage::Delete { key, timestamp } => apply_delete(m, key@, timestamp as int),
    }
}

/// Effect of a sequence of mutations, applied in order.
pub open spec fn apply_sync_seq(
    m: Map<Seq<char>, (Seq<char>, int)>,
    ops: Seq<SyncMessage>,
) -> Map<Seq<char>, (Seq<char>, int)>
    decreases ops.len(),
{
    if ops.len() == 0 {
        m
    } else {
        apply_sync(apply_sync_seq(m, ops.drop_last()), ops.last())
    }
}

/// While every mutation of `k` stays at or below the timestamp bound `t`,
/// and reaches `t` only as the distinguished message `w`, the binding for
/// `k` stays at or below `t`, and reaches `t` only as `w`'s own write.
proof fn lemma_sync_seq_bound(
    m: Map<Seq<char>, (Seq<char>, int)>,
    ops: Seq<SyncMessage>,
    k: Seq<char>,
    w: SyncMessage,
)
    requires
        sync_key(w) == k,
        forall|i: int| 0 <= i < ops.len() ==> sync_key(#[trigger] ops[i]) == k,
        forall|i: int| 0 <= i < ops.len() ==> sync_ts(#[trigger] ops[i]) <= sync_ts(w),
        forall|i: int| 0 <= i < ops.len() && sync_ts(#[trigger] ops[i]) == sync_ts(w) ==> ops[i] == w,
        m.contains_key(k) ==> m[k].1 < sync_ts(w),
    ensures
        apply_sync_seq(m, ops).contains_key(k) ==> apply_sync_seq(m, ops)[k].1 <= sync_ts(w),
        apply_sync_seq(m, ops).contains_key(k) && apply_sync_seq(m, ops)[k].1 == sync_ts(w)
            ==> sync_is_put(w) && apply_sync_seq(m, ops)[k] == (sync_value(w), sync_ts(w)),
    decreases ops.len(),
{
    if ops.len() > 0 {
        lemma_sync_seq_bound(m, ops.drop_last(), k, w);
    }
}

/// Law: the last applied mutation of a key, when its timestamp is strictly
/// the greatest among all mutations of that key (duplicates of itself
/// aside), alone decides the key's final state: a put leaves exactly its
/// value and timestamp, a delete leaves the key absent. The initial binding
/// must predate that timestamp.
pub proof fn lemma_lww_last_applied(
    m: Map<Seq<char>, (Seq<char>, int)>,
    ops: Seq<SyncMessage>,
    k: Seq<char>,
)
    requires
        ops.len() > 0,
        forall|i: int| 0 <= i < ops.len() ==> sync_key(#[trigger] ops[i]) == k,
        forall|i: int| 0 <= i < ops.len() ==> sync_ts(#[trigger] ops[i]) <= sync_ts(ops.last()),
        forall|i: int|
            0 <= i < ops.len() && sync_ts(#[trigger] ops[i]) == sync_ts(ops.last())
                ==> ops[i] == ops.last(),
        m.contains_key(k) ==> m[k].1 < sync_ts(ops.last()),
    ensures
        sync_is_put(ops.last()) ==> apply_sync_seq(m, ops).contains_key(k)
            && apply_sync_seq(m, ops)[k] == (sync_value(ops.last()), sync_ts(ops.last())),
        !sync_is_put(ops.last()) ==> !apply_sync_seq(m, ops).contains_key(k),
{
    let w = ops.last();
    lemma_sync_seq_bound(m, ops.drop_last(), k, w);
}

/// Law: two replicas that received the same set of mutations of a key, in
/// any order and with any duplication, and whose last applied mutation has
/// strictly the greatest timestamp, hold the same state for that key.
pub proof fn lemma_lww_convergence(
    m: Map<Seq<char>, (Seq<char>, int)>,
    ops1: Seq<SyncMessage>,
    ops2: Seq<SyncMessage>,
    k: Seq<char>,
)
    requires
        ops1.len() > 0,
        ops2.len() > 0,
        ops1.to_set() == ops2.to_set(),
        forall|i: int| 0 <= i < ops1.len() ==> sync_key(#[trigger] ops1[i]) == k,
        forall|i: int| 0 <= i < ops2.len() ==> sync_key(#[trigger] ops2[i]) == k,
        forall|i: int| 0 <= i < ops1.len() ==> sync_ts(#[trigger] ops1[i]) <= sync_ts(ops1.last()),
        forall|i: int|
            0 <= i < ops1.len() && sync_ts(#[trigger] ops1[i]) == sync_ts(ops1.last())
                ==> ops1[i] == ops1.last(),
        forall|i: int| 0 <= i < ops2.len() ==> sync_ts(#[trigger] ops2[i]) <= sync_ts(ops2.last()),
        forall|i: int|
            0 <= i < ops2.len() && sync_ts(#[trigger] ops2[i]) == sync_ts(ops2.last())
                ==> ops2[i] == ops2.last(),
        m.contains_key(k) ==> m[k].1 < sync_ts(ops1.last()),
    ensures
        apply_sync_seq(m, ops1).contains_key(k) == apply_sync_seq(m, ops2).contains_key(k),
        apply_sync_seq(m, ops1).contains_key(k)
            ==> apply_sync_seq(m, ops1)[k] == apply_sync_seq(m, ops2)[k],
{
    let w1 = ops1.last();
    let w2 = ops2.last();
    assert(ops2.to_set().contains(w2));
    assert(ops1.to_set().contains(w2));
    assert(ops1.contains(w2));
    let i2 = choose|i: int| 0 <= i < ops1.len() && ops1[i] == w2;
    assert(sync_ts(w2) <= sync_ts(w1));
    assert(ops1.to_set().contains(w1));
    assert(ops2.to_set().contains(w1));
    assert(ops2.contains(w1));
    let i1 = choose|i: int| 0 <= i < ops2.len() && ops2[i] == w1;
    assert(sync_ts(w1) <= sync_ts(w2));
    assert(w1 == w2);
    lemma_lww_last_applied(m, ops1, k);
    lemma_lww_last_applied(m, ops2, k);
}

/// Law: a put stays visible to lookups while every later mutation of its
/// key is strictly older (for puts) or not strictly newer (for deletes);
/// mutations of other keys never disturb it.
pub proof fn lemma_put_then_get(
    m: Map<Seq<char>, (Seq<char>, int)>,
    k: Seq<char>,
    v: Seq<char>,
    t: int,
    later: Seq<SyncMessage>,
)
    requires
        m.contains_key(k) ==> m[k].1 <= t,
        forall|i: int|
            0 <= i < later.len() && sync_key(#[trigger] later[i]) == k ==> if sync_is_put(
                later[i],
            ) {
                sync_ts(later[i]) < t
            } else {
                sync_ts(later[i]) <= t
            },
    ensures
        apply_sync_seq(apply_put(m, k, v, t), later).contains_key(k),
        apply_sync_seq(apply_put(m, k, v, t), later)[k] == (v, t),
    decreases later.len(),
{
    if later.len() > 0 {
        lemma_put_then_get(m, k, v, t, later.drop_last());
    }
}

} // verus!
