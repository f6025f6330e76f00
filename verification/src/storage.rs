//! Last-writer-wins key/value store.
//!
//! The store keeps one row per key together with the timestamp (seconds
//! since the epoch) of the write that produced it. A put is ignored when the
//! stored timestamp is strictly greater than the incoming one; a delete
//! removes the row only when the incoming timestamp is strictly greater than
//! the stored one. Ties therefore resolve in favour of a put and against a
//! delete. Rows are kept sorted by key (byte-lexicographic order), so
//! enumeration is in ascending key order.

use vstd::prelude::*;

verus! {

use crate::strings::{utf8_bytes, lex_le, lex_lt, str_lt, str_eq_chars,
    lemma_lex_le_total, lemma_lex_le_reflexive, lemma_lex_lt_le_trans,
    lemma_utf8_bytes_injective};

/// One stored row: key, value, and the timestamp of the write.
pub struct StoreEntry {
    pub key: String,
    pub value: String,
    pub timestamp: i64,
}

/// True when the rows are strictly ascending in byte-lexicographic key order.
pub open spec fn entries_sorted(s: Seq<StoreEntry>) -> bool {
    forall|i: int, j: int|
        0 <= i < j < s.len() ==> lex_lt(
            utf8_bytes(#[trigger] s[i].key@),
            utf8_bytes(#[trigger] s[j].key@),
        )
}

/// True when some row holds the key `k`.
pub open spec fn has_key(s: Seq<StoreEntry>, k: Seq<char>) -> bool {
    exists|i: int| 0 <= i < s.len() && #[trigger] s[i].key@ == k
}

/// Index of the row holding `k` (meaningful only when keys are unique).
pub open spec fn idx_of(s: Seq<StoreEntry>, k: Seq<char>) -> int {
    choose|i: int| 0 <= i < s.len() && #[trigger] s[i].key@ == k
}

/// Value and timestamp of the row holding `k`.
pub open spec fn val_of(s: Seq<StoreEntry>, k: Seq<char>) -> (Seq<char>, int) {
    (s[idx_of(s, k)].value@, s[idx_of(s, k)].timestamp as int)
}

/// The mathematical content of the store: key to (value, timestamp).
pub open spec fn store_map(s: Seq<StoreEntry>) -> Map<Seq<char>, (Seq<char>, int)> {
    Map::new(|k: Seq<char>| has_key(s, k), |k: Seq<char>| val_of(s, k))
}

/// Effect of `put_with_timestamp` on the abstract map.
pub open spec fn apply_put(
    m: Map<Seq<char>, (Seq<char>, int)>,
    k: Seq<char>,
    v: Seq<char>,
    t: int,
) -> Map<Seq<char>, (Seq<char>, int)> {
    if m.contains_key(k) && m[k].1 > t {
        m
    } else {
        m.insert(k, (v, t))
    }
}

/// Effect of `delete_with_timestamp` on the abstract map.
pub open spec fn apply_delete(
    m: Map<Seq<char>, (Seq<char>, int)>,
    k: Seq<char>,
    t: int,
) -> Map<Seq<char>, (Seq<char>, int)> {
    if m.contains_key(k) && m[k].1 < t {
        m.remove(k)
    } else {
        m
    }
}

/// In-memory last-writer-wins store. Durability is the caller's concern: the
/// surrounding process loads the rows at startup and writes each applied
/// mutation through to its own persistence.
pub struct Storage {
    entries: Vec<StoreEntry>,
}

impl View for Storage {
    type V = Map<Seq<char>, (Seq<char>, int)>;

    closed spec fn view(&self) -> Map<Seq<char>, (Seq<char>, int)> {
        store_map(self.entries@)
    }
}

/// Sorted rows never repeat a key.
proof fn lemma_sorted_unique(s: Seq<StoreEntry>, i: int, j: int)
    requires
        entries_sorted(s),
        0 <= i < s.len(),
        0 <= j < s.len(),
        i != j,
    ensures
        s[i].key@ != s[j].key@,
{
    if s[i].key@ == s[j].key@ {
        assert(utf8_bytes(s[i].key@) == utf8_bytes(s[j].key@));
    }
}

/// In a sorted row sequence, the map agrees with the row at each index.
proof fn lemma_at_index(s: Seq<StoreEntry>, i: int)
    requires
        entries_sorted(s),
        0 <= i < s.len(),
    ensures
        store_map(s).contains_key(s[i].key@),
        store_map(s)[s[i].key@] == (s[i].value@, s[i].timestamp as int),
        idx_of(s, s[i].key@) == i,
{
    assert(has_key(s, s[i].key@));
    let j = idx_of(s, s[i].key@);
    if j != i {
        lemma_sorted_unique(s, i, j);
    }
}

/// Removing a row keeps the rows sorted.
proof fn lemma_sorted_remove(s: Seq<StoreEntry>, i: int)
    requires
        entries_sorted(s),
        0 <= i < s.len(),
    ensures
        entries_sorted(s.remove(i)),
{
    s.remove_ensures(i);
    let u = s.remove(i);
    assert forall|p: int, q: int| 0 <= p < q < u.len() implies lex_lt(
        utf8_bytes(u[p].key@),
        utf8_bytes(u[q].key@),
    ) by {
        let p0 = if p < i { p } else { p + 1 };
        let q0 = if q < i { q } else { q + 1 };
        assert(u[p] == s[p0]);
        assert(u[q] == s[q0]);
    }
}

/// Inserting a row between strictly smaller and strictly larger keys keeps
/// the rows sorted.
proof fn lemma_sorted_insert(s: Seq<StoreEntry>, i: int, e: StoreEntry)
    requires
        entries_sorted(s),
        0 <= i <= s.len(),
        forall|j: int| 0 <= j < i ==> lex_lt(utf8_bytes(#[trigger] s[j].key@), utf8_bytes(e.key@)),
        forall|j: int| i <= j < s.len() ==> lex_lt(utf8_bytes(e.key@), utf8_bytes(#[trigger] s[j].key@)),
    ensures
        entries_sorted(s.insert(i, e)),
{
    s.insert_ensures(i, e);
    let u = s.insert(i, e);
    assert forall|p: int, q: int| 0 <= p < q < u.len() implies lex_lt(
        utf8_bytes(u[p].key@),
        utf8_bytes(u[q].key@),
    ) by {
        if p < i {
            assert(u[p] == s[p]);
        } else if p > i {
            assert(u[p] == s[p - 1]);
        }
        if q < i {
            assert(u[q] == s[q]);
        } else if q > i {
            assert(u[q] == s[q - 1]);
        }
    }
}

/// Inserting a row with a fresh key adds exactly that binding to the map.
proof fn lemma_store_map_insert(s: Seq<StoreEntry>, i: int, e: StoreEntry)
    requires
        entries_sorted(s),
        0 <= i <= s.len(),
        !has_key(s, e.key@),
    ensures
        store_map(s.insert(i, e)) == store_map(s).insert(e.key@, (e.value@, e.timestamp as int)),
{
    s.insert_ensures(i, e);
    let u = s.insert(i, e);
    let m1 = store_map(u);
    let m2 = store_map(s).insert(e.key@, (e.value@, e.timestamp as int));
    assert forall|k: Seq<char>| m1.contains_key(k) implies m2.contains_key(k) && m1[k] == m2[k] by {
        let j = idx_of(u, k);
        assert(0 <= j < u.len() && u[j].key@ == k);
        if j == i {
            assert(k == e.key@);
            assert forall|j2: int| 0 <= j2 < u.len() && #[trigger] u[j2].key@ == k implies j2 == i by {
                if j2 < i {
                    assert(s[j2].key@ == k);
                } else if j2 > i {
                    assert(s[j2 - 1].key@ == k);
                }
            }
            assert(m1[k] == (e.value@, e.timestamp as int));
        } else {
            let j2 = if j < i { j } else { j - 1 };
            assert(s[j2].key@ == k);
            assert(has_key(s, k));
            assert(k != e.key@);
            let j3 = idx_of(s, k);
            assert(0 <= j3 < s.len() && s[j3].key@ == k);
            if j2 != j3 {
                lemma_sorted_unique(s, j2, j3);
            }
            assert(m1[k] == (u[j].value@, u[j].timestamp as int));
            assert(u[j] == s[j2]);
        }
    }
    assert forall|k: Seq<char>| m2.contains_key(k) implies m1.contains_key(k) by {
        if k == e.key@ {
            assert(u[i].key@ == k);
            assert(has_key(u, k));
        } else {
            let j = idx_of(s, k);
            assert(0 <= j < s.len() && s[j].key@ == k);
            if j < i {
                assert(u[j].key@ == k);
            } else {
                assert(u[j + 1].key@ == k);
            }
            assert(has_key(u, k));
        }
    }
    assert(m1 =~= m2);
}

/// Removing a row removes exactly its binding from the map.
proof fn lemma_store_map_remove(s: Seq<StoreEntry>, i: int)
    requires
        entries_sorted(s),
        0 <= i < s.len(),
    ensures
        store_map(s.remove(i)) == store_map(s).remove(s[i].key@),
{
    s.remove_ensures(i);
    let u = s.remove(i);
    let m1 = store_map(u);
    let m2 = store_map(s).remove(s[i].key@);
    assert forall|k: Seq<char>| m1.contains_key(k) implies m2.contains_key(k) && m1[k] == m2[k] by {
        let j = idx_of(u, k);
        assert(0 <= j < u.len() && u[j].key@ == k);
        let j2 = if j < i { j } else { j + 1 };
        assert(u[j] == s[j2]);
        assert(has_key(s, k));
        lemma_sorted_unique(s, j2, i);
        let j3 = idx_of(s, k);
        assert(0 <= j3 < s.len() && s[j3].key@ == k);
        if j2 != j3 {
            lemma_sorted_unique(s, j2, j3);
        }
        assert(m1[k] == (u[j].value@, u[j].timestamp as int));
    }
    assert forall|k: Seq<char>| m2.contains_key(k) implies m1.contains_key(k) by {
        let j = idx_of(s, k);
        assert(0 <= j < s.len() && s[j].key@ == k);
        if j == i {
            assert(k == s[i].key@);
            assert(!m2.contains_key(k));
        } else if j < i {
            assert(u[j].key@ == k);
            assert(has_key(u, k));
        } else {
            assert(u[j - 1].key@ == k);
            assert(has_key(u, k));
        }
    }
    assert(m1 =~= m2);
}

/// First index whose key is not byte-lexicographically below `key`.
fn position_ge(entries: &Vec<StoreEntry>, key: &str) -> (i: usize)
    requires
        entries_sorted(entries@),
    ensures
        i <= entries@.len(),
        forall|j: int|
            0 <= j < i ==> lex_lt(utf8_bytes(#[trigger] entries@[j].key@), utf8_bytes(key@)),
        i < entries@.len() ==> lex_le(utf8_bytes(key@), utf8_bytes(entries@[i as int].key@)),
{
    let n = entries.len();
    let mut i: usize = 0;
    while i < n
        invariant
            n == entries@.len(),
            i <= n,
            forall|j: int|
                0 <= j < i ==> lex_lt(utf8_bytes(#[trigger] entries@[j].key@), utf8_bytes(key@)),
        decreases n - i,
    {
        if !str_lt(entries[i].key.as_str(), key) {
            proof {
                lemma_lex_le_total(utf8_bytes(entries@[i as int].key@), utf8_bytes(key@));
                lemma_lex_le_reflexive(utf8_bytes(key@));
            }
            return i;
        }
        i += 1;
    }
    i
}

impl Storage {
    /// Well-formedness: rows strictly sorted by key.
    pub closed spec fn wf(&self) -> bool {
        entries_sorted(self.entries@)
    }

    /// Create an empty store.
    pub fn new() -> (r: Storage)
        ensures
            r.wf(),
            r@ == Map::<Seq<char>, (Seq<char>, int)>::empty(),
    {
        let s = Storage { entries: Vec::new() };
        proof {
            assert(s@ =~= Map::<Seq<char>, (Seq<char>, int)>::empty());
        }
        s
    }

    /// Exact lookup of a key's current value.
    pub fn get(&self, key: &str) -> (r: Option<String>)
        requires
            self.wf(),
        ensures
            match r {
                Some(v) => self@.contains_key(key@) && self@[key@].0 == v@,
                None => !self@.contains_key(key@),
            },
    {
        let n = self.entries.len();
        let mut i: usize = 0;
        while i < n
            invariant
                self.wf(),
                n == self.entries@.len(),
                i <= n,
                forall|j: int| 0 <= j < i ==> #[trigger] self.entries@[j].key@ != key@,
            decreases n - i,
        {
            if str_eq_chars(self.entries[i].key.as_str(), key) {
                proof {
                    lemma_at_index(self.entries@, i as int);
                }
                return Some(self.entries[i].value.clone());
            }
            i += 1;
        }
        None
    }

    /// Apply a put stamped with the caller's current wall clock.
    pub fn put(&mut self, key: &str, value: &str, now: i64)
        requires
            old(self).wf(),
        ensures
            final(self).wf(),
            final(self)@ == apply_put(old(self)@, key@, value@, now as int),
    {
        self.put_with_timestamp(key, value, now);
    }

    /// Apply a put: insert when the key is absent, overwrite unless the
    /// stored timestamp is strictly greater than the incoming one. The
    /// incoming write wins timestamp ties.
    pub fn put_with_timestamp(&mut self, key: &str, value: &str, timestamp: i64)
        requires
            old(self).wf(),
        ensures
            final(self).wf(),
            final(self)@ == apply_put(old(self)@, key@, value@, timestamp as int),
    {
        let ghost s0 = self.entries@;
        let i = position_ge(&self.entries, key);
        if i < self.entries.len() && str_eq_chars(self.entries[i].key.as_str(), key) {
            proof {
                lemma_at_index(s0, i as int);
            }
            if self.entries[i].timestamp > timestamp {
                // The stored write is strictly newer; the incoming one loses.
                return;
            }
            let e = StoreEntry { key: key.to_owned(), value: value.to_owned(), timestamp };
            self.entries.remove(i);
            self.entries.insert(i, e);
            proof {
                lemma_sorted_remove(s0, i as int);
                let s1 = s0.remove(i as int);
                s0.remove_ensures(i as int);
                assert forall|j: int| 0 <= j < i implies lex_lt(
                    utf8_bytes(#[trigger] s1[j].key@),
                    utf8_bytes(e.key@),
                ) by {
                    assert(s1[j] == s0[j]);
                }
                assert forall|j: int| i <= j < s1.len() implies lex_lt(
                    utf8_bytes(e.key@),
                    utf8_bytes(#[trigger] s1[j].key@),
                ) by {
                    assert(s1[j] == s0[j + 1]);
                }
                assert forall|j: int| 0 <= j < s1.len() implies #[trigger] s1[j].key@ != e.key@ by {
                    let j0 = if j < i { j } else { j + 1 };
                    assert(s1[j] == s0[j0]);
                    lemma_sorted_unique(s0, j0, i as int);
                }
                lemma_sorted_insert(s1, i as int, e);
                lemma_store_map_remove(s0, i as int);
                lemma_store_map_insert(s1, i as int, e);
                assert(self.entries@ == s1.insert(i as int, e));
                assert(self@ =~= apply_put(store_map(s0), key@, value@, timestamp as int));
            }
        } else {
            let e = StoreEntry { key: key.to_owned(), value: value.to_owned(), timestamp };
            proof {
                if i < s0.len() {
                    assert(e.key@ != s0[i as int].key@);
                    if utf8_bytes(e.key@) == utf8_bytes(s0[i as int].key@) {
                        lemma_utf8_bytes_injective(e.key@, s0[i as int].key@);
                    }
                    assert(lex_lt(utf8_bytes(e.key@), utf8_bytes(s0[i as int].key@)));
                }
                assert forall|j: int| (i as int) <= j < s0.len() implies lex_lt(
                    utf8_bytes(e.key@),
                    utf8_bytes(#[trigger] s0[j].key@),
                ) by {
                    if j > i {
                        lemma_lex_lt_le_trans(
                            utf8_bytes(e.key@),
                            utf8_bytes(s0[i as int].key@),
                            utf8_bytes(s0[j].key@),
                        );
                    }
                }
                assert forall|j: int| 0 <= j < s0.len() implies #[trigger] s0[j].key@ != e.key@ by {
                    if s0[j].key@ == e.key@ {
                        assert(utf8_bytes(s0[j].key@) == utf8_bytes(e.key@));
                    }
                }
                assert(!has_key(s0, e.key@));
                assert(!store_map(s0).contains_key(key@));
            }
            self.entries.insert(i, e);
            proof {
                lemma_sorted_insert(s0, i as int, e);
                lemma_store_map_insert(s0, i as int, e);
                assert(self@ =~= apply_put(store_map(s0), key@, value@, timestamp as int));
            }
        }
    }

    /// Apply a delete: remove the row only when the incoming timestamp is
    /// strictly greater than the stored one; otherwise do nothing.
    pub fn delete_with_timestamp(&mut self, key: &str, timestamp: i64)
        requires
            old(self).wf(),
        ensures
            final(self).wf(),
            final(self)@ == apply_delete(old(self)@, key@, timestamp as int),
    {
        let ghost s0 = self.entries@;
        let i = position_ge(&self.entries, key);
        if i < self.entries.len() && str_eq_chars(self.entries[i].key.as_str(), key) {
            proof {
                lemma_at_index(s0, i as int);
            }
            if self.entries[i].timestamp < timestamp {
                self.entries.remove(i);
                proof {
                    lemma_sorted_remove(s0, i as int);
                    lemma_store_map_remove(s0, i as int);
                    assert(self@ =~= apply_delete(store_map(s0), key@, timestamp as int));
                }
            }
        } else {
            proof {
                if i < s0.len() {
                    assert(key@ != s0[i as int].key@);
                    if utf8_bytes(key@) == utf8_bytes(s0[i as int].key@) {
                        lemma_utf8_bytes_injective(key@, s0[i as int].key@);
                    }
                    assert(lex_lt(utf8_bytes(key@), utf8_bytes(s0[i as int].key@)));
                }
                assert forall|j: int| 0 <= j < s0.len() implies #[trigger] s0[j].key@ != key@ by {
                    if j > i {
                        lemma_lex_lt_le_trans(
                            utf8_bytes(key@),
                            utf8_bytes(s0[i as int].key@),
                            utf8_bytes(s0[j].key@),
                        );
                    }
                    if s0[j].key@ == key@ {
                        assert(utf8_bytes(s0[j].key@) == utf8_bytes(key@));
                    }
                }
                assert(!store_map(s0).contains_key(key@));
            }
        }
    }

    /// Enumerate all rows as (key, value) pairs, ascending by key.
    pub fn list(&self) -> (r: Vec<(String, String)>)
        requires
            self.wf(),
        ensures
            forall|i: int|
                0 <= i < r@.len() ==> self@.contains_key(#[trigger] r@[i].0@)
                    && self@[r@[i].0@].0 == r@[i].1@,
            forall|k: Seq<char>|
                self@.contains_key(k) ==> exists|i: int| 0 <= i < r@.len() && #[trigger] r@[i].0@ == k,
            forall|i: int, j: int|
                0 <= i < j < r@.len() ==> lex_lt(
                    utf8_bytes(#[trigger] r@[i].0@),
                    utf8_bytes(#[trigger] r@[j].0@),
                ),
    {
        let n = self.entries.len();
        let mut r: Vec<(String, String)> = Vec::new();
        let mut i: usize = 0;
        while i < n
            invariant
                self.wf(),
                n == self.entries@.len(),
                i <= n,
                r@.len() == i,
                forall|j: int|
                    0 <= j < i ==> #[trigger] r@[j].0@ == self.entries@[j].key@
                        && r@[j].1@ == self.entries@[j].value@,
            decreases n - i,
        {
            let pair = (self.entries[i].key.clone(), self.entries[i].value.clone());
            proof {
                assert(pair.0@ == self.entries@[i as int].key@);
                assert(pair.1@ == self.entries@[i as int].value@);
            }
            r.push(pair);
            i += 1;
        }
        proof {
            assert forall|i2: int| 0 <= i2 < r@.len() implies self@.contains_key(
                #[trigger] r@[i2].0@,
            ) && self@[r@[i2].0@].0 == r@[i2].1@ by {
                lemma_at_index(self.entries@, i2);
            }
            assert forall|k: Seq<char>| self@.contains_key(k) implies exists|i2: int|
                0 <= i2 < r@.len() && #[trigger] r@[i2].0@ == k by {
                let j = idx_of(self.entries@, k);
                assert(r@[j].0@ == k);
            }
        }
        r
    }
}

} // verus!
