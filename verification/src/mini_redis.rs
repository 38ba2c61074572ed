//! The in-memory storage engine: a key/value table with per-key TTL
//! expiration.
//!
//! This type is the shared state of the engine; the runtime wraps it
//! in a reference-counted mutex, hands every operation the current
//! time in milliseconds, and runs the background purge loop that
//! calls `purge_expired_keys`.

use vstd::prelude::*;

verus! {

broadcast use vstd::seq::group_seq_axioms, vstd::std_specs::vec::group_vec_axioms;

/// Every `set` applies this fixed time-to-live, in milliseconds.
pub const DEFAULT_TTL_MS: u64 = 100000;

/// One stored value.
pub struct Entry {
    /// Uniquely identifies the `set` that wrote this entry.
    pub id: u64,
    /// Stored data.
    pub data: Vec<u8>,
    /// Time at which the entry expires, in milliseconds.
    pub expires_at: Option<u64>,
}

/// The mathematical model of an entry.
pub struct EntryData {
    pub id: u64,
    pub data: Seq<u8>,
    pub expires_at: Option<u64>,
}

impl View for Entry {
    type V = EntryData;

    open spec fn view(&self) -> EntryData {
        EntryData { id: self.id, data: self.data@, expires_at: self.expires_at }
    }
}

/// The association list `s` read as a map from key to entry.
pub open spec fn assoc_map(s: Seq<(Vec<u8>, Entry)>) -> Map<Seq<u8>, EntryData>
    decreases s.len(),
{
    if s.len() == 0 {
        Map::empty()
    } else {
        assoc_map(s.drop_last()).insert(s.last().0@, s.last().1@)
    }
}

/// True when no key occurs twice in the association list.
pub open spec fn distinct_keys(s: Seq<(Vec<u8>, Entry)>) -> bool {
    forall|i: int, j: int| 0 <= i < j < s.len() ==> (#[trigger] s[i]).0@ != (#[trigger] s[j]).0@
}

/// Strict ordering of expiration tuples: by time, then by id.
pub open spec fn exp_lt(a: (u64, u64), b: (u64, u64)) -> bool {
    a.0 < b.0 || (a.0 == b.0 && a.1 < b.1)
}

/// The in-memory TTL store.
pub struct MiniRedis {
    /// Key/value entries, with pairwise distinct keys.
    pub entries: Vec<(Vec<u8>, Entry)>,
    /// Expiration tuples `(when, id, key)`, sorted strictly by
    /// `(when, id)`; the earliest expiry stands first.
    pub expirations: Vec<(u64, u64, Vec<u8>)>,
    /// Identifier issued to the next `set`.
    pub next_id: u64,
    /// True once the store is shutting down.
    pub shutdown: bool,
}

impl MiniRedis {
    /// The store's contents as a map.
    pub open spec fn kv(self) -> Map<Seq<u8>, EntryData> {
        assoc_map(self.entries@)
    }

    /// Internal consistency: distinct keys, sorted expirations, and
    /// a one-to-one correspondence between entries that expire and
    /// expiration tuples.
    pub open spec fn wf(self) -> bool {
        &&& distinct_keys(self.entries@)
        &&& exps_sorted(self.expirations@)
        &&& entry_ids_below(self.entries@, self.next_id)
        &&& entry_ids_distinct(self.entries@)
        &&& entries_covered(self.entries@, self.expirations@)
        &&& exps_covered(self.expirations@, self.entries@)
    }

    /// Creates a new, empty store.
    pub fn new() -> (s: MiniRedis)
        ensures
            s.wf(),
            s.kv() == Map::<Seq<u8>, EntryData>::empty(),
            s.next_id == 0,
            !s.shutdown,
            s.spec_next_expiration() is None,
    {
        MiniRedis { entries: Vec::new(), expirations: Vec::new(), next_id: 0, shutdown: false }
    }

    /// The earliest expiration time tracked, if any.
    pub open spec fn spec_next_expiration(self) -> Option<u64> {
        if self.expirations@.len() == 0 {
            None
        } else {
            Some(self.expirations@[0].0)
        }
    }

    /// Returns the earliest expiration time tracked, if any.
    pub fn next_expiration(&self) -> (r: Option<u64>)
        ensures
            r == self.spec_next_expiration(),
    {
        if self.expirations.len() == 0 {
            None
        } else {
            Some(vstd::std_specs::vec::vec_index(&self.expirations, 0).0)
        }
    }

    /// Returns `true` once the store is shutting down.
    pub fn is_shutdown(&self) -> (r: bool)
        ensures
            r == self.shutdown,
    {
        self.shutdown
    }

    /// Marks the store as shutting down, which tells the background
    /// purge loop to exit; idempotent.
    pub fn shutdown_purge_task(&mut self)
        ensures
            final(self).shutdown,
            final(self).entries == old(self).entries,
            final(self).expirations == old(self).expirations,
            final(self).next_id == old(self).next_id,
    {
        self.shutdown = true;
    }
}

/// A key is in the association map exactly when some pair holds it.
pub proof fn lemma_assoc_contains(s: Seq<(Vec<u8>, Entry)>, k: Seq<u8>)
    ensures
        assoc_map(s).dom().contains(k) <==> exists|i: int|
            0 <= i < s.len() && (#[trigger] s[i]).0@ == k,
    decreases s.len(),
{
    if s.len() > 0 {
        lemma_assoc_contains(s.drop_last(), k);
        if s.last().0@ == k {
            assert(s[s.len() - 1].0@ == k);
        } else {
            if assoc_map(s).dom().contains(k) {
                let i = choose|i: int| 0 <= i < s.drop_last().len() && (#[trigger] s.drop_last()[i]).0@ == k;
                assert(s[i].0@ == k);
            }
            if exists|i: int| 0 <= i < s.len() && (#[trigger] s[i]).0@ == k {
                let i = choose|i: int| 0 <= i < s.len() && (#[trigger] s[i]).0@ == k;
                assert(i < s.len() - 1);
                assert(s.drop_last()[i].0@ == k);
            }
        }
    }
}

/// With distinct keys, the map sends each listed key to its entry.
pub proof fn lemma_assoc_at(s: Seq<(Vec<u8>, Entry)>, i: int)
    requires
        distinct_keys(s),
        0 <= i < s.len(),
    ensures
        assoc_map(s).dom().contains(s[i].0@),
        assoc_map(s)[s[i].0@] == s[i].1@,
    decreases s.len(),
{
    if i == s.len() - 1 {
    } else {
        assert(distinct_keys(s.drop_last())) by {
            assert(forall|a: int, b: int|
                0 <= a < b < s.drop_last().len() ==> (#[trigger] s.drop_last()[a]) == s[a]
                    && (#[trigger] s.drop_last()[b]) == s[b]);
        }
        assert(s.drop_last()[i] == s[i]);
        lemma_assoc_at(s.drop_last(), i);
        assert(s[i].0@ != s.last().0@) by {
            assert(s[s.len() - 1] == s.last());
        }
    }
}

/// Removing a pair removes exactly its key from the map.
pub proof fn lemma_assoc_remove(s: Seq<(Vec<u8>, Entry)>, i: int)
    requires
        distinct_keys(s),
        0 <= i < s.len(),
    ensures
        assoc_map(s.remove(i)) == assoc_map(s).remove(s[i].0@),
    decreases s.len(),
{
    if i == s.len() - 1 {
        assert(s.remove(i) =~= s.drop_last());
        lemma_assoc_contains(s.drop_last(), s[i].0@);
        assert(forall|a: int|
            0 <= a < s.drop_last().len() ==> (#[trigger] s.drop_last()[a]) == s[a]);
        assert(!assoc_map(s.drop_last()).dom().contains(s[i].0@)) by {
            if exists|a: int| 0 <= a < s.drop_last().len() && (#[trigger] s.drop_last()[a]).0@ == s[i].0@ {
                let a = choose|a: int|
                    0 <= a < s.drop_last().len() && (#[trigger] s.drop_last()[a]).0@ == s[i].0@;
                assert(s[a].0@ == s[i].0@);
            }
        }
        assert(assoc_map(s.drop_last()) =~= assoc_map(s).remove(s[i].0@));
    } else {
        assert(distinct_keys(s.drop_last())) by {
            assert(forall|a: int, b: int|
                0 <= a < b < s.drop_last().len() ==> (#[trigger] s.drop_last()[a]) == s[a]
                    && (#[trigger] s.drop_last()[b]) == s[b]);
        }
        assert(s.drop_last()[i] == s[i]);
        lemma_assoc_remove(s.drop_last(), i);
        assert(s.remove(i).drop_last() =~= s.drop_last().remove(i));
        assert(s.remove(i).last() == s.last());
        assert(assoc_map(s.remove(i)) == assoc_map(s.drop_last().remove(i)).insert(
            s.last().0@,
            s.last().1@,
        ));
        assert(s[i].0@ != s.last().0@) by {
            assert(s[s.len() - 1] == s.last());
        }
        assert(assoc_map(s.drop_last()).remove(s[i].0@).insert(s.last().0@, s.last().1@)
            =~= assoc_map(s.drop_last()).insert(s.last().0@, s.last().1@).remove(s[i].0@));
    }
}

/// Appending a pair with a fresh key inserts it into the map.
pub proof fn lemma_assoc_push(s: Seq<(Vec<u8>, Entry)>, k: Vec<u8>, e: Entry)
    ensures
        assoc_map(s.push((k, e))) == assoc_map(s).insert(k@, e@),
{
    assert(s.push((k, e)).drop_last() =~= s);
    assert(s.push((k, e)).last() == (k, e));
}

/// Finds the index of the expiration tuple stamped `(w, id)`, if
/// present.
fn find_exp(exps: &Vec<(u64, u64, Vec<u8>)>, w: u64, id: u64) -> (r: Option<usize>)
    ensures
        match r {
            Some(j) => j < exps@.len() && exps@[j as int].0 == w && exps@[j as int].1 == id,
            None => forall|a: int|
                0 <= a < exps@.len() ==> !((#[trigger] exps@[a]).0 == w && exps@[a].1 == id),
        },
{
    let mut j: usize = 0;
    while j < exps.len()
        invariant
            j <= exps@.len(),
            forall|a: int| 0 <= a < j ==> !((#[trigger] exps@[a]).0 == w && exps@[a].1 == id),
        decreases exps@.len() - j,
    {
        let t = vstd::std_specs::vec::vec_index(exps, j);
        if t.0 == w && t.1 == id {
            return Some(j);
        }
        j = j + 1;
    }
    None
}

/// Finds where a tuple stamped `(w, id)` belongs in the sorted
/// tuple list: after everything smaller, before everything else.
fn find_insert_pos(exps: &Vec<(u64, u64, Vec<u8>)>, w: u64, id: u64) -> (pos: usize)
    ensures
        pos <= exps@.len(),
        forall|a: int|
            0 <= a < pos ==> exp_lt(((#[trigger] exps@[a]).0, exps@[a].1), (w, id)),
        pos < exps@.len() ==> !exp_lt(((exps@[pos as int]).0, exps@[pos as int].1), (w, id)),
    decreases exps@.len(),
{
    let mut pos: usize = 0;
    while pos < exps.len()
        invariant
            pos <= exps@.len(),
            forall|a: int|
                0 <= a < pos ==> exp_lt(((#[trigger] exps@[a]).0, exps@[a].1), (w, id)),
        decreases exps@.len() - pos,
    {
        let t = vstd::std_specs::vec::vec_index(exps, pos);
        if !(t.0 < w || (t.0 == w && t.1 < id)) {
            return pos;
        }
        pos = pos + 1;
    }
    pos
}

/// Dropping an entry together with its expiration tuple keeps the
/// store's internal consistency, and rids the entry list of the key.
proof fn lemma_after_drop(
    s0: Seq<(Vec<u8>, Entry)>,
    x0: Seq<(u64, u64, Vec<u8>)>,
    s1: Seq<(Vec<u8>, Entry)>,
    x1: Seq<(u64, u64, Vec<u8>)>,
    i: int,
    j: int,
    nid: u64,
)
    requires
        distinct_keys(s0),
        exps_sorted(x0),
        entry_ids_below(s0, nid),
        entry_ids_distinct(s0),
        entries_covered(s0, x0),
        exps_covered(x0, s0),
        0 <= i < s0.len(),
        0 <= j < x0.len(),
        s0[i].1.expires_at == Some(x0[j].0),
        s0[i].1.id == x0[j].1,
        s1 == s0.remove(i),
        x1 == x0.remove(j),
    ensures
        distinct_keys(s1),
        exps_sorted(x1),
        entry_ids_below(s1, nid),
        entry_ids_distinct(s1),
        entries_covered(s1, x1),
        exps_covered(x1, s1),
        forall|a: int| 0 <= a < s1.len() ==> (#[trigger] s1[a]).0@ != s0[i].0@,
{
    assert(forall|a: int| 0 <= a < s1.len() ==> #[trigger] s1[a] == (if a < i {
        s0[a]
    } else {
        s0[a + 1]
    }));
    assert(forall|a: int| 0 <= a < x1.len() ==> #[trigger] x1[a] == (if a < j {
        x0[a]
    } else {
        x0[a + 1]
    }));
    assert forall|a: int|
        0 <= a < s1.len() implies ((#[trigger] s1[a]).1.expires_at matches Some(w)
        ==> exp_index_exists(x1, w, s1[a].1.id, s1[a].0@)) by {
        let ea = s1[a];
        if let Some(w) = ea.1.expires_at {
            let aa = if a < i {
                a
            } else {
                a + 1
            };
            assert(s0[aa] == ea);
            assert(exp_index_exists(x0, w, ea.1.id, ea.0@));
            let b = choose|b: int|
                0 <= b < x0.len() && (#[trigger] x0[b]).0 == w && x0[b].1 == ea.1.id && x0[b].2@
                    == ea.0@;
            assert(b != j) by {
                if b == j {
                    assert(ea.1.id == s0[i].1.id);
                    assert(aa == i);
                }
            }
            if b < j {
                assert(x1[b] == x0[b]);
            } else {
                assert(x1[b - 1] == x0[b]);
            }
        }
    }
    assert forall|b: int|
        0 <= b < x1.len() implies entry_index_exists(
        s1,
        (#[trigger] x1[b]).0,
        x1[b].1,
        x1[b].2@,
    ) by {
        let bb = if b < j {
            b
        } else {
            b + 1
        };
        let t = x0[bb];
        assert(entry_index_exists(s0, t.0, t.1, t.2@));
        let a = choose|a: int|
            0 <= a < s0.len() && (#[trigger] s0[a]).0@ == t.2@ && s0[a].1.id == t.1
                && s0[a].1.expires_at == Some(t.0);
        assert(a != i) by {
            if a == i {
                // two distinct sorted tuples cannot share an id
                assert(x0[bb].1 == x0[j].1);
                if bb < j {
                    assert(exp_lt((x0[bb].0, x0[bb].1), (x0[j].0, x0[j].1)));
                } else {
                    assert(exp_lt((x0[j].0, x0[j].1), (x0[bb].0, x0[bb].1)));
                }
                assert(x0[bb].0 == x0[j].0) by {
                    assert(s0[a].1.expires_at == Some(x0[bb].0));
                }
            }
        }
        let an = if a < i {
            a
        } else {
            a - 1
        };
        assert(s1[an] == s0[a]);
    }
}

/// Dropping an entry that never expires keeps the store's internal
/// consistency, and rids the entry list of the key.
proof fn lemma_after_drop_entry_only(
    s0: Seq<(Vec<u8>, Entry)>,
    x0: Seq<(u64, u64, Vec<u8>)>,
    s1: Seq<(Vec<u8>, Entry)>,
    i: int,
    nid: u64,
)
    requires
        distinct_keys(s0),
        exps_sorted(x0),
        entry_ids_below(s0, nid),
        entry_ids_distinct(s0),
        entries_covered(s0, x0),
        exps_covered(x0, s0),
        0 <= i < s0.len(),
        s0[i].1.expires_at is None,
        s1 == s0.remove(i),
    ensures
        distinct_keys(s1),
        entry_ids_below(s1, nid),
        entry_ids_distinct(s1),
        entries_covered(s1, x0),
        exps_covered(x0, s1),
        forall|a: int| 0 <= a < s1.len() ==> (#[trigger] s1[a]).0@ != s0[i].0@,
{
    assert(forall|a: int| 0 <= a < s1.len() ==> #[trigger] s1[a] == (if a < i {
        s0[a]
    } else {
        s0[a + 1]
    }));
    assert forall|a: int|
        0 <= a < s1.len() implies ((#[trigger] s1[a]).1.expires_at matches Some(w)
        ==> exp_index_exists(x0, w, s1[a].1.id, s1[a].0@)) by {
        let aa = if a < i {
            a
        } else {
            a + 1
        };
        assert(s0[aa] == s1[a]);
    }
    assert forall|b: int|
        0 <= b < x0.len() implies entry_index_exists(
        s1,
        (#[trigger] x0[b]).0,
        x0[b].1,
        x0[b].2@,
    ) by {
        let t = x0[b];
        assert(entry_index_exists(s0, t.0, t.1, t.2@));
        let a = choose|a: int|
            0 <= a < s0.len() && (#[trigger] s0[a]).0@ == t.2@ && s0[a].1.id == t.1
                && s0[a].1.expires_at == Some(t.0);
        assert(a != i);
        let an = if a < i {
            a
        } else {
            a - 1
        };
        assert(s1[an] == s0[a]);
    }
}

/// Adding a fresh entry and its expiration tuple at the tuple's
/// sorted position keeps the store's internal consistency.
proof fn lemma_after_add(
    s1: Seq<(Vec<u8>, Entry)>,
    x1: Seq<(u64, u64, Vec<u8>)>,
    s2: Seq<(Vec<u8>, Entry)>,
    x2: Seq<(u64, u64, Vec<u8>)>,
    pos: int,
    when: u64,
    id: u64,
    k: Seq<u8>,
    nid: u64,
)
    requires
        distinct_keys(s1),
        exps_sorted(x1),
        entry_ids_below(s1, nid),
        entry_ids_distinct(s1),
        entries_covered(s1, x1),
        exps_covered(x1, s1),
        forall|a: int| 0 <= a < s1.len() ==> (#[trigger] s1[a]).0@ != k,
        id == nid,
        nid < u64::MAX,
        0 <= pos <= x1.len(),
        forall|a: int| 0 <= a < pos ==> exp_lt(((#[trigger] x1[a]).0, x1[a].1), (when, id)),
        pos < x1.len() ==> !exp_lt(((x1[pos]).0, x1[pos].1), (when, id)),
        x2.len() == x1.len() + 1,
        x2[pos].0 == when && x2[pos].1 == id && x2[pos].2@ == k,
        forall|a: int| 0 <= a < pos ==> #[trigger] x2[a] == x1[a],
        forall|a: int| pos < a < x2.len() ==> #[trigger] x2[a] == x1[a - 1],
        s2.len() == s1.len() + 1,
        forall|a: int| 0 <= a < s1.len() ==> #[trigger] s2[a] == s1[a],
        s2[s1.len() as int].0@ == k,
        s2[s1.len() as int].1.id == id,
        s2[s1.len() as int].1.expires_at == Some(when),
    ensures
        distinct_keys(s2),
        exps_sorted(x2),
        entry_ids_below(s2, (nid + 1) as u64),
        entry_ids_distinct(s2),
        entries_covered(s2, x2),
        exps_covered(x2, s2),
    decreases 0int,
{
    let n = s1.len() as int;
    // every tracked tuple carries an id issued before `id`
    assert forall|a: int| 0 <= a < x1.len() implies (#[trigger] x1[a]).1 < id by {
        assert(entry_index_exists(s1, x1[a].0, x1[a].1, x1[a].2@));
        let e = choose|e: int|
            0 <= e < s1.len() && (#[trigger] s1[e]).0@ == x1[a].2@ && s1[e].1.id == x1[a].1
                && s1[e].1.expires_at == Some(x1[a].0);
        assert(s1[e].1.id < nid);
    }
    assert forall|a: int, b: int|
        0 <= a < b < x2.len() implies exp_lt(
        ((#[trigger] x2[a]).0, x2[a].1),
        ((#[trigger] x2[b]).0, x2[b].1),
    ) by {
        if a < pos && b == pos {
        } else if a == pos && b > pos {
            assert(x2[b] == x1[b - 1]);
            if pos < x1.len() {
                assert(!exp_lt(((x1[pos]).0, x1[pos].1), (when, id)));
                assert(x1[pos].1 < id);
                assert(exp_lt((when, id), (x1[pos].0, x1[pos].1)));
                if b - 1 > pos {
                    assert(exp_lt((x1[pos].0, x1[pos].1), (x1[b - 1].0, x1[b - 1].1)));
                }
            }
        } else if a < pos && b > pos {
            assert(x2[a] == x1[a]);
            assert(x2[b] == x1[b - 1]);
            if a < b - 1 {
                assert(exp_lt((x1[a].0, x1[a].1), (x1[b - 1].0, x1[b - 1].1)));
            }
        } else if a < pos && b < pos {
            assert(x2[a] == x1[a]);
            assert(x2[b] == x1[b]);
        } else if a > pos && b > pos {
            assert(x2[a] == x1[a - 1]);
            assert(x2[b] == x1[b - 1]);
        }
    }
    assert forall|a: int|
        0 <= a < s2.len() implies ((#[trigger] s2[a]).1.expires_at matches Some(w)
        ==> exp_index_exists(x2, w, s2[a].1.id, s2[a].0@)) by {
        let ea = s2[a];
        if let Some(w) = ea.1.expires_at {
            if a < n {
                assert(exp_index_exists(x1, w, ea.1.id, ea.0@));
                let b = choose|b: int|
                    0 <= b < x1.len() && (#[trigger] x1[b]).0 == w && x1[b].1 == ea.1.id
                        && x1[b].2@ == ea.0@;
                if b < pos {
                    assert(x2[b] == x1[b]);
                } else {
                    assert(x2[b + 1] == x1[b]);
                }
            } else {
                assert(x2[pos].0 == when && x2[pos].1 == id && x2[pos].2@ == k);
            }
        }
    }
    assert forall|b: int|
        0 <= b < x2.len() implies entry_index_exists(
        s2,
        (#[trigger] x2[b]).0,
        x2[b].1,
        x2[b].2@,
    ) by {
        if b == pos {
            assert(s2[n].0@ == k);
        } else {
            let bb = if b < pos {
                b
            } else {
                b - 1
            };
            let t = x1[bb];
            assert(entry_index_exists(s1, t.0, t.1, t.2@));
            let a = choose|a: int|
                0 <= a < s1.len() && (#[trigger] s1[a]).0@ == t.2@ && s1[a].1.id == t.1
                    && s1[a].1.expires_at == Some(t.0);
            assert(s2[a] == s1[a]);
        }
    }
}

/// Finds the index of `key` in the entry list, if present.
fn find_key(entries: &Vec<(Vec<u8>, Entry)>, key: &Vec<u8>) -> (r: Option<usize>)
    ensures
        match r {
            Some(i) => i < entries@.len() && entries@[i as int].0@ == key@,
            None => forall|i: int| 0 <= i < entries@.len() ==> (#[trigger] entries@[i]).0@ != key@,
        },
{
    let mut i: usize = 0;
    while i < entries.len()
        invariant
            i <= entries@.len(),
            forall|j: int| 0 <= j < i ==> (#[trigger] entries@[j]).0@ != key@,
        decreases entries@.len() - i,
    {
        if crate::frame::bytes_eq(&vstd::std_specs::vec::vec_index(entries, i).0, key) {
            return Some(i);
        }
        i = i + 1;
    }
    None
}

impl MiniRedis {
    /// Returns the value stored under `key`, if any. An entry past
    /// its expiry but not yet purged is still returned; expiration
    /// is driven by the background purge pass alone.
    pub fn get(&self, key: &Vec<u8>) -> (r: Option<Vec<u8>>)
        requires
            self.wf(),
        ensures
            match r {
                Some(v) => spec_get(self.kv(), key@) == Some(v@),
                None => spec_get(self.kv(), key@) is None,
            },
    {
        proof {
            lemma_assoc_contains(self.entries@, key@);
        }
        match find_key(&self.entries, key) {
            Some(i) => {
                proof {
                    lemma_assoc_at(self.entries@, i as int);
                }
                let data = &vstd::std_specs::vec::vec_index(&self.entries, i).1.data;
                Some(crate::frame::copy_range(data, 0, data.len()))
            },
            None => {
                proof {
                    assert(!self.kv().dom().contains(key@));
                }
                None
            },
        }
    }

    /// Stores `value` under `key` at time `now_ms`, stamping it with
    /// a fresh id and an expiry one default TTL ahead. Any previous
    /// entry for the key is replaced and its expiration tuple
    /// dropped. Returns whether the background purge task must be
    /// woken, which is the case exactly when the new expiry comes
    /// before every expiry previously tracked.
    pub fn set(&mut self, key: Vec<u8>, value: Vec<u8>, now_ms: u64) -> (notify: bool)
        requires
            old(self).wf(),
            old(self).next_id < u64::MAX,
            now_ms + DEFAULT_TTL_MS <= u64::MAX,
        ensures
            final(self).wf(),
            final(self).kv() == spec_set(
                old(self).kv(),
                key@,
                value@,
                old(self).next_id,
                (now_ms + DEFAULT_TTL_MS) as u64,
            ),
            final(self).next_id == old(self).next_id + 1,
            final(self).shutdown == old(self).shutdown,
            final(self).kv().dom().contains(key@),
            notify == (match old(self).spec_next_expiration() {
                Some(exp) => exp > now_ms + DEFAULT_TTL_MS,
                None => true,
            }),
    {
        let id = self.next_id;
        self.next_id = self.next_id + 1;
        let when = now_ms + DEFAULT_TTL_MS;
        let notify = match self.next_expiration() {
            Some(exp) => exp > when,
            None => true,
        };
        let ghost s0 = self.entries@;
        let ghost x0 = self.expirations@;
        let ghost m0 = old(self).kv();

        // Drop any previous entry for the key, together with its
        // expiration tuple.
        match find_key(&self.entries, &key) {
            Some(i) => {
                proof {
                    lemma_assoc_remove(s0, i as int);
                }
                let prev = self.entries.remove(i);
                if let Some(prev_when) = prev.1.expires_at {
                    let prev_id = prev.1.id;
                    proof {
                        assert(exp_index_exists(x0, prev_when, prev_id, key@)) by {
                            assert(s0[i as int].1.expires_at matches Some(w) && w == prev_when);
                        }
                    }
                    match find_exp(&self.expirations, prev_when, prev_id) {
                        Some(j) => {
                            let ghost jj = j as int;
                            self.expirations.remove(j);
                            proof {
                                lemma_after_drop(
                                    s0,
                                    x0,
                                    self.entries@,
                                    self.expirations@,
                                    i as int,
                                    jj,
                                    old(self).next_id,
                                );
                            }
                        },
                        None => {
                            proof {
                                assert(false);
                            }
                        },
                    }
                } else {
                    proof {
                        lemma_after_drop_entry_only(
                            s0,
                            x0,
                            self.entries@,
                            i as int,
                            old(self).next_id,
                        );
                    }
                }
            },
            None => {
                proof {
                    lemma_assoc_contains(s0, key@);
                    assert(!m0.dom().contains(key@));
                    assert(m0.remove(key@) =~= m0);
                }
            },
        }
        let ghost s1 = self.entries@;
        let ghost x1 = self.expirations@;
        proof {
            assert(assoc_map(s1) == m0.remove(key@));
            assert(forall|a: int| 0 <= a < s1.len() ==> (#[trigger] s1[a]).0@ != key@);
        }

        // Record the new expiration, keeping the tuple list sorted.
        let key_for_exp = crate::frame::copy_range(&key, 0, key.len());
        let pos = find_insert_pos(&self.expirations, when, id);
        self.expirations.insert(pos, (when, id, key_for_exp));
        proof {
            x1.insert_ensures(pos as int, (when, id, key_for_exp));
            assert(key_for_exp@ =~= key@);
            let x2 = self.expirations@;
            assert(x2[pos as int] == (when, id, key_for_exp));
            assert forall|a: int| (pos as int) < a < x2.len() implies #[trigger] x2[a] == x1[a - 1]
                by {
                assert(x1.insert(pos as int, (when, id, key_for_exp))[(a - 1) + 1] == x1[a - 1]);
            }
        }

        // Insert the entry itself.
        proof {
            lemma_assoc_push(s1, key, Entry { id, data: value, expires_at: Some(when) });
        }
        self.entries.push((key, Entry { id, data: value, expires_at: Some(when) }));

        proof {
            lemma_after_add(s1, x1, self.entries@, self.expirations@, pos as int, when, id, key@,
                old(self).next_id);
            assert(self.kv() =~= spec_set(m0, key@, value@, old(self).next_id, when));
        }
        notify
    }

    /// Removes every entry whose expiry lies at or before `now_ms`
    /// and returns the time at which the next remaining entry will
    /// expire, or `None` when nothing remains to purge or the store
    /// is shutting down.
    pub fn purge_expired_keys(&mut self, now_ms: u64) -> (r: Option<u64>)
        requires
            old(self).wf(),
        ensures
            final(self).wf(),
            old(self).shutdown ==> *final(self) == *old(self) && r is None,
            !old(self).shutdown ==> {
                &&& final(self).kv() == spec_purged(old(self).kv(), now_ms)
                &&& final(self).next_id == old(self).next_id
                &&& final(self).shutdown == old(self).shutdown
                &&& r == final(self).spec_next_expiration()
                &&& (r matches Some(w) ==> w > now_ms)
            },
    {
        if self.shutdown {
            return None;
        }
        let ghost m0 = self.kv();
        while self.expirations.len() > 0 && vstd::std_specs::vec::vec_index(
            &self.expirations,
            0,
        ).0 <= now_ms
            invariant
                self.wf(),
                self.next_id == old(self).next_id,
                self.shutdown == old(self).shutdown,
                spec_purged(self.kv(), now_ms) == spec_purged(m0, now_ms),
            decreases self.expirations@.len(),
        {
            let when = vstd::std_specs::vec::vec_index(&self.expirations, 0).0;
            let id = vstd::std_specs::vec::vec_index(&self.expirations, 0).1;
            let ghost pre = *self;
            let tuple = self.expirations.remove(0);
            proof {
                assert(entry_index_exists(self.entries@, tuple.0, tuple.1, tuple.2@));
            }
            match find_key(&self.entries, &tuple.2) {
                Some(i) => {
                    proof {
                        let a = choose|a: int|
                            0 <= a < self.entries@.len() && (#[trigger] self.entries@[a]).0@
                                == tuple.2@ && self.entries@[a].1.id == tuple.1
                                && self.entries@[a].1.expires_at == Some(tuple.0);
                        assert(a == i as int);
                        lemma_assoc_remove(self.entries@, i as int);
                        lemma_assoc_at(self.entries@, i as int);
                    }
                    self.entries.remove(i);
                    proof {
                        lemma_purge_step(pre, *self, m0, now_ms, i as int);
                    }
                },
                None => {
                    proof {
                        assert(false);
                    }
                },
            }
        }
        proof {
            lemma_purge_done(*self, m0, now_ms);
        }
        if self.expirations.len() > 0 {
            Some(vstd::std_specs::vec::vec_index(&self.expirations, 0).0)
        } else {
            None
        }
    }
}

/// One purge step removes an already-expired key, which leaves the
/// purged view of the contents unchanged, and keeps the store
/// consistent.
proof fn lemma_purge_step(pre: MiniRedis, post: MiniRedis, m0: Map<Seq<u8>, EntryData>, now_ms: u64, i: int)
    requires
        pre.wf(),
        pre.expirations@.len() > 0,
        pre.expirations@[0].0 <= now_ms,
        0 <= i < pre.entries@.len(),
        pre.entries@[i].0@ == pre.expirations@[0].2@,
        pre.entries@[i].1.id == pre.expirations@[0].1,
        pre.entries@[i].1.expires_at == Some(pre.expirations@[0].0),
        post.entries@ == pre.entries@.remove(i),
        post.expirations@ == pre.expirations@.remove(0),
        post.next_id == pre.next_id,
        post.shutdown == pre.shutdown,
        spec_purged(pre.kv(), now_ms) == spec_purged(m0, now_ms),
    ensures
        post.wf(),
        spec_purged(post.kv(), now_ms) == spec_purged(m0, now_ms),
{
    let s = pre.entries@;
    let x = pre.expirations@;
    let k = pre.expirations@[0].2@;
    lemma_assoc_remove(s, i);
    lemma_assoc_at(s, i);
    // the purged view ignores the dropped expired key
    assert(spec_purged(pre.kv().remove(k), now_ms) =~= spec_purged(pre.kv(), now_ms));
    // distinct keys and ids survive removal
    assert(forall|a: int| 0 <= a < s.remove(i).len() ==> #[trigger] s.remove(i)[a] == (if a < i {
        s[a]
    } else {
        s[a + 1]
    }));
    assert(forall|a: int| 0 <= a < x.remove(0).len() ==> #[trigger] x.remove(0)[a] == x[a + 1]);
    // entries that expire still have their tuples
    assert forall|a: int|
        0 <= a < post.entries@.len() implies ((#[trigger] post.entries@[a]).1.expires_at matches
    Some(w) ==> exp_index_exists(post.expirations@, w, post.entries@[a].1.id,
    post.entries@[a].0@)) by {
        let ea = post.entries@[a];
        if let Some(w) = ea.1.expires_at {
            let aa = if a < i {
                a
            } else {
                a + 1
            };
            assert(s[aa] == ea);
            assert(exp_index_exists(x, w, ea.1.id, ea.0@));
            let b = choose|b: int|
                0 <= b < x.len() && (#[trigger] x[b]).0 == w && x[b].1 == ea.1.id && x[b].2@
                    == ea.0@;
            assert(b != 0) by {
                if b == 0 {
                    assert(ea.1.id == s[i].1.id);
                    assert(aa == i);
                }
            }
            assert(x.remove(0)[b - 1] == x[b]);
        }
    }
    // tuples still point at live entries
    assert forall|b: int|
        0 <= b < post.expirations@.len() implies entry_index_exists(
        post.entries@,
        (#[trigger] post.expirations@[b]).0,
        post.expirations@[b].1,
        post.expirations@[b].2@,
    ) by {
        let t = x[b + 1];
        assert(entry_index_exists(s, t.0, t.1, t.2@));
        let a = choose|a: int|
            0 <= a < s.len() && (#[trigger] s[a]).0@ == t.2@ && s[a].1.id == t.1
                && s[a].1.expires_at == Some(t.0);
        assert(a != i) by {
            if a == i {
                // the removed tuple was the unique one for this id
                assert(exp_lt((x[0].0, x[0].1), (x[b + 1].0, x[b + 1].1)));
            }
        }
        let an = if a < i {
            a
        } else {
            a - 1
        };
        assert(post.entries@[an] == s[a]);
    }
}

/// When no tracked expiration is due, the purged view of the
/// contents is the contents themselves.
proof fn lemma_purge_done(st: MiniRedis, m0: Map<Seq<u8>, EntryData>, now_ms: u64)
    requires
        st.wf(),
        st.expirations@.len() > 0 ==> st.expirations@[0].0 > now_ms,
        spec_purged(st.kv(), now_ms) == spec_purged(m0, now_ms),
    ensures
        st.kv() == spec_purged(m0, now_ms),
{
    lemma_assoc_contains(st.entries@, Seq::empty());
    assert forall|k: Seq<u8>| st.kv().dom().contains(k) implies !(st.kv()[k].expires_at matches
    Some(w) && w <= now_ms) by {
        lemma_assoc_contains(st.entries@, k);
        let i = choose|i: int| 0 <= i < st.entries@.len() && (#[trigger] st.entries@[i]).0@ == k;
        lemma_assoc_at(st.entries@, i);
        if let Some(w) = st.entries@[i].1.expires_at {
            assert(exp_index_exists(st.expirations@, w, st.entries@[i].1.id, k));
            let b = choose|b: int|
                0 <= b < st.expirations@.len() && (#[trigger] st.expirations@[b]).0 == w
                    && st.expirations@[b].1 == st.entries@[i].1.id && st.expirations@[b].2@ == k;
            if b > 0 {
                assert(exp_lt(
                    (st.expirations@[0].0, st.expirations@[0].1),
                    (st.expirations@[b].0, st.expirations@[b].1),
                ));
            }
        }
    }
    assert(st.kv() =~= spec_purged(st.kv(), now_ms));
}

/// Law: a value just stored is the value read back, for any key and
/// value, as long as the entry has not been purged.
pub proof fn lemma_set_then_get(m: Map<Seq<u8>, EntryData>, k: Seq<u8>, v: Seq<u8>, id: u64, when: u64)
    ensures
        spec_get(spec_set(m, k, v, id, when), k) == Some(v),
{
}

/// Law: storing twice under one key leaves the later value, for any
/// key and any pair of values.
pub proof fn lemma_set_set_latest(
    m: Map<Seq<u8>, EntryData>,
    k: Seq<u8>,
    v1: Seq<u8>,
    v2: Seq<u8>,
    id1: u64,
    id2: u64,
    w1: u64,
    w2: u64,
)
    ensures
        spec_get(spec_set(spec_set(m, k, v1, id1, w1), k, v2, id2, w2), k) == Some(v2),
{
}

/// Law: a key never stored reads back as nothing.
pub proof fn lemma_unused_key_none(m: Map<Seq<u8>, EntryData>, k: Seq<u8>)
    requires
        !m.dom().contains(k),
    ensures
        spec_get(m, k) is None,
{
}

/// Law: a store on one key leaves every other key unchanged, which
/// is why stores on distinct keys all land whatever their order.
pub proof fn lemma_set_preserves_others(
    m: Map<Seq<u8>, EntryData>,
    k1: Seq<u8>,
    k2: Seq<u8>,
    v: Seq<u8>,
    id: u64,
    when: u64,
)
    requires
        k1 != k2,
    ensures
        spec_get(spec_set(m, k1, v, id, when), k2) == spec_get(m, k2),
{
}

/// Law: once the purge pass has run at a time past an entry's
/// expiry, that entry is gone from the store's contents.
pub proof fn lemma_purge_removes_expired(m: Map<Seq<u8>, EntryData>, k: Seq<u8>, now: u64)
    requires
        m.dom().contains(k),
        m[k].expires_at matches Some(w) && w <= now,
    ensures
        !spec_purged(m, now).dom().contains(k),
        spec_get(spec_purged(m, now), k) is None,
{
}

/// The expiration tuples stand in strictly increasing `(when, id)`
/// order.
pub open spec fn exps_sorted(x: Seq<(u64, u64, Vec<u8>)>) -> bool {
    forall|i: int, j: int|
        0 <= i < j < x.len() ==> exp_lt(
            ((#[trigger] x[i]).0, x[i].1),
            ((#[trigger] x[j]).0, x[j].1),
        )
}

/// Every entry id was issued before `nid`.
pub open spec fn entry_ids_below(s: Seq<(Vec<u8>, Entry)>, nid: u64) -> bool {
    forall|i: int| 0 <= i < s.len() ==> (#[trigger] s[i]).1.id < nid
}

/// No id stamps two entries.
pub open spec fn entry_ids_distinct(s: Seq<(Vec<u8>, Entry)>) -> bool {
    forall|i: int, j: int|
        0 <= i < j < s.len() ==> (#[trigger] s[i]).1.id != (#[trigger] s[j]).1.id
}

/// Every entry that expires has its expiration tuple on file.
pub open spec fn entries_covered(s: Seq<(Vec<u8>, Entry)>, x: Seq<(u64, u64, Vec<u8>)>) -> bool {
    forall|i: int|
        0 <= i < s.len() ==> ((#[trigger] s[i]).1.expires_at matches Some(w) ==> exp_index_exists(
            x,
            w,
            s[i].1.id,
            s[i].0@,
        ))
}

/// Every expiration tuple points at a live entry.
pub open spec fn exps_covered(x: Seq<(u64, u64, Vec<u8>)>, s: Seq<(Vec<u8>, Entry)>) -> bool {
    forall|j: int|
        0 <= j < x.len() ==> entry_index_exists(s, (#[trigger] x[j]).0, x[j].1, x[j].2@)
}

/// True when `exps` holds the tuple `(w, id, key)`.
pub open spec fn exp_index_exists(exps: Seq<(u64, u64, Vec<u8>)>, w: u64, id: u64, key: Seq<u8>) -> bool {
    exists|j: int|
        0 <= j < exps.len() && (#[trigger] exps[j]).0 == w && exps[j].1 == id && exps[j].2@ == key
}

/// True when `entries` holds an entry for `key` with id `id` that
/// expires at `w`.
pub open spec fn entry_index_exists(entries: Seq<(Vec<u8>, Entry)>, w: u64, id: u64, key: Seq<u8>) -> bool {
    exists|i: int|
        0 <= i < entries.len() && (#[trigger] entries[i]).0@ == key && entries[i].1.id == id
            && entries[i].1.expires_at == Some(w)
}

/// What `get` returns on a store whose contents are `m`.
pub open spec fn spec_get(m: Map<Seq<u8>, EntryData>, k: Seq<u8>) -> Option<Seq<u8>> {
    if m.dom().contains(k) {
        Some(m[k].data)
    } else {
        None
    }
}

/// What one `set` does to the contents `m`.
pub open spec fn spec_set(
    m: Map<Seq<u8>, EntryData>,
    k: Seq<u8>,
    v: Seq<u8>,
    id: u64,
    when: u64,
) -> Map<Seq<u8>, EntryData> {
    m.insert(k, EntryData { id, data: v, expires_at: Some(when) })
}

/// What the purge pass does to the contents `m` at time `now`:
/// every entry already expired is removed, the rest stay untouched.
pub open spec fn spec_purged(m: Map<Seq<u8>, EntryData>, now: u64) -> Map<Seq<u8>, EntryData> {
    Map::new(
        |k: Seq<u8>|
            m.dom().contains(k) && !(m[k].expires_at matches Some(w) && w <= now),
        |k: Seq<u8>| m[k],
    )
}

} // verus!
