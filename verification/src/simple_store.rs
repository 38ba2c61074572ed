//! The append-log storage engine: an in-memory index over an
//! append-only record file.
//!
//! Records are `key "," value "\n"`, appended only; the index maps
//! each key to the byte offset of its most recent record. The file
//! itself is read and written by the runtime, which hands this type
//! whole file contents on recovery, one line per `get`, and the
//! offset of each appended record.

use crate::frame::{copy_range, LF};
use vstd::prelude::*;

verus! {

broadcast use vstd::seq::group_seq_axioms, vstd::std_specs::vec::group_vec_axioms;

pub const COMMA: u8 = 44;

/// The on-disk form of one record.
pub open spec fn record_bytes(k: Seq<u8>, v: Seq<u8>) -> Seq<u8> {
    k + seq![COMMA] + v + seq![LF]
}

/// Index of the first `\n` at or after `i`, if any.
pub open spec fn lf_from(s: Seq<u8>, i: int) -> Option<int>
    decreases s.len() - i,
{
    if i >= s.len() || i < 0 {
        None
    } else if s[i] == LF {
        Some(i)
    } else {
        lf_from(s, i + 1)
    }
}

/// Index of the first `,` in `[i, e)`, if any.
pub open spec fn comma_from(s: Seq<u8>, i: int, e: int) -> Option<int>
    decreases e - i,
{
    if i >= e || i < 0 || e > s.len() {
        None
    } else if s[i] == COMMA {
        Some(i)
    } else {
        comma_from(s, i + 1, e)
    }
}

/// What `lf_from` finds is in bounds, is a `\n`, and is the first.
pub proof fn lemma_lf_from_some(s: Seq<u8>, i: int, e: int)
    requires
        lf_from(s, i) == Some(e),
    ensures
        i <= e < s.len(),
        s[e] == LF,
        forall|j: int| i <= j < e ==> #[trigger] s[j] != LF,
    decreases s.len() - i,
{
    if i >= s.len() || i < 0 {
    } else if s[i] == LF {
    } else {
        lemma_lf_from_some(s, i + 1, e);
    }
}

/// `lf_from` skips over positions known to hold no `\n`.
pub proof fn lemma_lf_from_skip(s: Seq<u8>, p: int, q: int)
    requires
        0 <= p <= q,
        forall|j: int| p <= j < q ==> #[trigger] s[j] != LF,
    ensures
        lf_from(s, p) == lf_from(s, q),
    decreases q - p,
{
    if p < q {
        if p >= s.len() {
            assert(q >= s.len());
        } else {
            lemma_lf_from_skip(s, p + 1, q);
        }
    }
}

/// What `comma_from` finds is in bounds, is a `,`, and is the first.
pub proof fn lemma_comma_from_some(s: Seq<u8>, i: int, e: int, c: int)
    requires
        comma_from(s, i, e) == Some(c),
    ensures
        i <= c < e <= s.len(),
        s[c] == COMMA,
        forall|j: int| i <= j < c ==> #[trigger] s[j] != COMMA,
    decreases e - i,
{
    if i >= e || i < 0 || e > s.len() {
    } else if s[i] == COMMA {
    } else {
        lemma_comma_from_some(s, i + 1, e, c);
    }
}

/// `comma_from` skips over positions known to hold no `,`.
pub proof fn lemma_comma_from_skip(s: Seq<u8>, p: int, q: int, e: int)
    requires
        0 <= p <= q,
        forall|j: int| p <= j < q ==> #[trigger] s[j] != COMMA,
        q <= e,
    ensures
        comma_from(s, p, e) == comma_from(s, q, e),
    decreases q - p,
{
    if p < q {
        if p >= e || e > s.len() {
        } else {
            lemma_comma_from_skip(s, p + 1, q, e);
        }
    }
}

/// What replaying the log from position `pos` onward does to an
/// index that already reads `acc`: each line `key "," rest` binds
/// its key to the line's starting offset, later lines overriding
/// earlier ones; a line without a comma is corruption.
pub open spec fn rec_lines(c: Seq<u8>, pos: int, acc: Map<Seq<u8>, nat>) -> Option<
    Map<Seq<u8>, nat>,
>
    decreases c.len() + 1 - pos,
{
    if pos >= c.len() || pos < 0 {
        Some(acc)
    } else {
        let e = match lf_from(c, pos) {
            Some(e) => e,
            None => c.len() as int,
        };
        match comma_from(c, pos, e) {
            Some(ci) => if pos <= ci && ci < e && e <= c.len() {
                rec_lines(c, e + 1, acc.insert(c.subrange(pos, ci), pos as nat))
            } else {
                // the scans never yield this; the branch only
                // bounds the recursion
                None
            },
            None => None,
        }
    }
}

/// What recovery makes of a whole log file.
pub open spec fn spec_recover(c: Seq<u8>) -> Option<Map<Seq<u8>, nat>> {
    rec_lines(c, 0, Map::empty())
}

/// The line a buffered read starting at `off` returns: up to and
/// including the first `\n`, or the rest of the file.
pub open spec fn read_line_at(c: Seq<u8>, off: int) -> Seq<u8> {
    match lf_from(c, off) {
        Some(e) => c.subrange(off, e + 1),
        None => c.subrange(off, c.len() as int),
    }
}

/// `s` with every `,` removed: how `get` joins the fields after the
/// key back together.
pub open spec fn sans_commas(s: Seq<u8>) -> Seq<u8>
    decreases s.len(),
{
    if s.len() == 0 {
        Seq::empty()
    } else if s[0] == COMMA {
        sans_commas(s.drop_first())
    } else {
        seq![s[0]] + sans_commas(s.drop_first())
    }
}

/// How the append-log engine fails.
#[derive(Debug, PartialEq, Eq, Structural)]
pub enum StoreError {
    /// A log line holds no field separator.
    Corrupt,
    /// The record under a key's offset names a different key.
    KeyMismatch,
    /// No storage engine is registered under the requested name.
    UnknownBackend,
}

/// Where `lf_from` finds nothing, no `\n` stands anywhere after `i`.
proof fn lemma_lf_from_none(s: Seq<u8>, i: int)
    requires
        0 <= i,
        lf_from(s, i) is None,
    ensures
        forall|j: int| i <= j < s.len() ==> #[trigger] s[j] != LF,
    decreases s.len() - i,
{
    if i < s.len() {
        lemma_lf_from_none(s, i + 1);
    }
}

/// A `\n` found within a buffer is still the first one found after
/// the buffer grows.
proof fn lemma_lf_from_ext(c: Seq<u8>, x: Seq<u8>, pos: int, e: int)
    requires
        0 <= pos,
        lf_from(c, pos) == Some(e),
    ensures
        lf_from(c + x, pos) == Some(e),
{
    lemma_lf_from_some(c, pos, e);
    assert(forall|j: int| pos <= j < e ==> (c + x)[j] == c[j]);
    lemma_lf_from_skip(c + x, pos, e);
    assert((c + x)[e] == c[e]);
}

/// The comma scan reads only the bytes of its window.
proof fn lemma_comma_from_congr(s1: Seq<u8>, s2: Seq<u8>, i: int, e: int)
    requires
        0 <= i,
        e <= s1.len(),
        e <= s2.len(),
        forall|j: int| i <= j < e ==> s1[j] == #[trigger] s2[j],
    ensures
        comma_from(s1, i, e) == comma_from(s2, i, e),
    decreases e - i,
{
    if i < e {
        lemma_comma_from_congr(s1, s2, i + 1, e);
    }
}

/// Appending one record to a terminator-clean log extends whatever
/// replaying the log yields by one binding: the record's key now
/// points at the record's offset, the old log's end.
proof fn lemma_rec_lines_append(
    c: Seq<u8>,
    k: Seq<u8>,
    v: Seq<u8>,
    pos: int,
    acc: Map<Seq<u8>, nat>,
)
    requires
        0 <= pos <= c.len(),
        c.len() > 0 ==> c.last() == LF,
        forall|j: int| 0 <= j < k.len() ==> #[trigger] k[j] != COMMA && k[j] != LF,
        forall|j: int| 0 <= j < v.len() ==> #[trigger] v[j] != LF,
    ensures
        rec_lines(c + record_bytes(k, v), pos, acc) == (match rec_lines(c, pos, acc) {
            Some(m) => Some(m.insert(k, c.len() as nat)),
            None => None::<Map<Seq<u8>, nat>>,
        }),
    decreases c.len() + 1 - pos,
{
    let x = record_bytes(k, v);
    let c2 = c + x;
    let cl = c.len() as int;
    let kl = k.len() as int;
    let vl = v.len() as int;
    assert(x.len() == kl + 1 + vl + 1);
    assert forall|j: int| 0 <= j < x.len() implies #[trigger] c2[cl + j] == x[j] by {}
    assert(x[kl] == COMMA) by {
        assert(x[kl] == (k + seq![COMMA])[kl]);
    }
    assert(x[kl + 1 + vl] == LF);
    assert forall|j: int| 0 <= j < kl implies #[trigger] x[j] == k[j] by {}
    assert forall|j: int| 0 <= j < vl implies #[trigger] x[kl + 1 + j] == v[j] by {}
    if pos >= cl {
        assert(pos == cl);
        // the next line is exactly the appended record
        let e = cl + kl + 1 + vl;
        assert forall|j: int| pos <= j < e implies #[trigger] c2[j] != LF by {
            if j < cl + kl {
                assert(c2[j] == x[j - cl]);
                assert(x[j - cl] == k[j - cl]);
            } else if j == cl + kl {
                assert(c2[j] == COMMA);
            } else {
                assert(c2[j] == x[j - cl]);
                assert(x[j - cl] == v[j - cl - kl - 1]);
            }
        }
        lemma_lf_from_skip(c2, pos, e);
        assert(c2[e] == x[kl + 1 + vl]);
        assert(lf_from(c2, pos) == Some(e));
        let ci = cl + kl;
        assert forall|j: int| pos <= j < ci implies #[trigger] c2[j] != COMMA by {
            assert(c2[j] == x[j - cl]);
            assert(x[j - cl] == k[j - cl]);
        }
        lemma_comma_from_skip(c2, pos, ci, e);
        assert(c2[ci] == COMMA);
        assert(comma_from(c2, ci, e) == Some(ci));
        assert(c2.subrange(pos, ci) =~= k);
        assert(rec_lines(c2, e + 1, acc.insert(k, pos as nat)) == Some(acc.insert(k, pos as nat)));
    } else {
        // a line wholly inside the old log is replayed unchanged
        assert(c[cl - 1] == LF) by {
            assert(c.last() == LF);
        }
        let e = match lf_from(c, pos) {
            Some(e) => e,
            None => cl,
        };
        if lf_from(c, pos) is None {
            lemma_lf_from_none(c, pos);
            assert(false);
        }
        lemma_lf_from_some(c, pos, e);
        lemma_lf_from_ext(c, x, pos, e);
        assert(forall|j: int| pos <= j < e ==> c2[j] == #[trigger] c[j]);
        lemma_comma_from_congr(c2, c, pos, e);
        match comma_from(c, pos, e) {
            Some(ci) => {
                lemma_comma_from_some(c, pos, e, ci);
                assert(c2.subrange(pos, ci) =~= c.subrange(pos, ci));
                lemma_rec_lines_append(c, k, v, e + 1, acc.insert(c.subrange(pos, ci), pos as nat));
            },
            None => {},
        }
    }
}

/// Persistence law: after a `set` of `v` under `k` appends its
/// record, recovery from the grown file maps `k` to the record's
/// offset, and reading the line there yields `v` again — one `set`
/// survives a restart. Keys must avoid the separator and terminator
/// bytes and values the terminator, which the record format leaves
/// unescaped; a comma inside a value would come back stripped.
pub proof fn lemma_set_persists(c: Seq<u8>, m: Map<Seq<u8>, nat>, k: Seq<u8>, v: Seq<u8>)
    requires
        spec_recover(c) == Some(m),
        c.len() > 0 ==> c.last() == LF,
        forall|j: int| 0 <= j < k.len() ==> #[trigger] k[j] != COMMA && k[j] != LF,
        forall|j: int| 0 <= j < v.len() ==> #[trigger] v[j] != COMMA && v[j] != LF,
    ensures
        spec_recover(c + record_bytes(k, v)) == Some(m.insert(k, c.len() as nat)),
        spec_parse_record(read_line_at(c + record_bytes(k, v), c.len() as int), k) == Ok::<
            Seq<u8>,
            StoreError,
        >(v),
{
    let x = record_bytes(k, v);
    let c2 = c + x;
    let cl = c.len() as int;
    let kl = k.len() as int;
    let vl = v.len() as int;
    lemma_rec_lines_append(c, k, v, 0, Map::empty());

    // reading back at the new offset returns the record's line
    let e = cl + kl + 1 + vl;
    assert(x[kl] == COMMA) by {
        assert(x[kl] == (k + seq![COMMA])[kl]);
    }
    assert(x[kl + 1 + vl] == LF);
    assert forall|j: int| cl <= j < e implies #[trigger] c2[j] != LF by {
        assert(c2[j] == x[j - cl]);
        if j < cl + kl {
            assert(x[j - cl] == k[j - cl]);
        } else if j > cl + kl {
            assert(x[j - cl] == v[j - cl - kl - 1]);
        }
    }
    lemma_lf_from_skip(c2, cl, e);
    assert(c2[e] == x[kl + 1 + vl]);
    assert(lf_from(c2, cl) == Some(e));
    let line = c2.subrange(cl, e + 1);
    assert(read_line_at(c2, cl) == line);
    assert(line.len() == kl + 1 + vl + 1);
    assert forall|j: int| 0 <= j < line.len() implies #[trigger] line[j] == x[j] by {
        assert(line[j] == c2[cl + j]);
    }
    assert(line.last() == LF);
    let core = line.drop_last();
    assert(core.len() == kl + 1 + vl);
    assert forall|j: int| 0 <= j < kl implies #[trigger] core[j] != COMMA by {
        assert(core[j] == x[j]);
        assert(x[j] == k[j]);
    }
    lemma_comma_from_skip(core, 0, kl, core.len() as int);
    assert(core[kl] == COMMA) by {
        assert(core[kl] == x[kl]);
    }
    assert(comma_from(core, 0, core.len() as int) == Some(kl));
    assert(core.subrange(0, kl) =~= k);
    let rest = core.subrange(kl + 1, core.len() as int);
    assert forall|j: int| 0 <= j < vl implies #[trigger] rest[j] == v[j] by {
        assert(rest[j] == core[kl + 1 + j]);
        assert(core[kl + 1 + j] == x[kl + 1 + j]);
    }
    assert(rest =~= v);
    lemma_sans_commas_clean(v);
}

/// A comma-free byte string passes through the field join unchanged.
proof fn lemma_sans_commas_clean(v: Seq<u8>)
    requires
        forall|j: int| 0 <= j < v.len() ==> #[trigger] v[j] != COMMA,
    ensures
        sans_commas(v) == v,
    decreases v.len(),
{
    if v.len() > 0 {
        lemma_sans_commas_clean(v.drop_first());
        assert(seq![v[0]] + v.drop_first() =~= v);
    }
}

/// Persistence law: two `set`s of the same key append two records;
/// recovery maps the key to the later record's offset and reading
/// there yields the later value, while the earlier record stays in
/// the file unobserved.
pub proof fn lemma_latest_set_wins(
    c: Seq<u8>,
    m: Map<Seq<u8>, nat>,
    k: Seq<u8>,
    v1: Seq<u8>,
    v2: Seq<u8>,
)
    requires
        spec_recover(c) == Some(m),
        c.len() > 0 ==> c.last() == LF,
        forall|j: int| 0 <= j < k.len() ==> #[trigger] k[j] != COMMA && k[j] != LF,
        forall|j: int| 0 <= j < v1.len() ==> #[trigger] v1[j] != COMMA && v1[j] != LF,
        forall|j: int| 0 <= j < v2.len() ==> #[trigger] v2[j] != COMMA && v2[j] != LF,
    ensures
        spec_recover(c + record_bytes(k, v1) + record_bytes(k, v2)) == Some(
            m.insert(k, (c + record_bytes(k, v1)).len() as nat),
        ),
        spec_parse_record(
            read_line_at(
                c + record_bytes(k, v1) + record_bytes(k, v2),
                (c + record_bytes(k, v1)).len() as int,
            ),
            k,
        ) == Ok::<Seq<u8>, StoreError>(v2),
{
    lemma_set_persists(c, m, k, v1);
    let c1 = c + record_bytes(k, v1);
    assert(c1.len() > 0 && c1.last() == LF) by {
        assert(c1.last() == record_bytes(k, v1).last());
    }
    lemma_set_persists(c1, m.insert(k, c.len() as nat), k, v2);
    assert(m.insert(k, c.len() as nat).insert(k, c1.len() as nat) =~= m.insert(
        k,
        c1.len() as nat,
    ));
}

/// The offset association list read as a map.
pub open spec fn offsets_map(s: Seq<(Vec<u8>, u64)>) -> Map<Seq<u8>, nat>
    decreases s.len(),
{
    if s.len() == 0 {
        Map::empty()
    } else {
        offsets_map(s.drop_last()).insert(s.last().0@, s.last().1 as nat)
    }
}

/// True when no key occurs twice in the offset list.
pub open spec fn offsets_distinct(s: Seq<(Vec<u8>, u64)>) -> bool {
    forall|i: int, j: int| 0 <= i < j < s.len() ==> (#[trigger] s[i]).0@ != (#[trigger] s[j]).0@
}

/// A key is in the offset map exactly when some pair holds it.
pub proof fn lemma_offsets_contains(s: Seq<(Vec<u8>, u64)>, k: Seq<u8>)
    ensures
        offsets_map(s).dom().contains(k) <==> exists|i: int|
            0 <= i < s.len() && (#[trigger] s[i]).0@ == k,
    decreases s.len(),
{
    if s.len() > 0 {
        lemma_offsets_contains(s.drop_last(), k);
        if s.last().0@ == k {
            assert(s[s.len() - 1].0@ == k);
        } else {
            if offsets_map(s).dom().contains(k) {
                let i = choose|i: int|
                    0 <= i < s.drop_last().len() && (#[trigger] s.drop_last()[i]).0@ == k;
                assert(s[i].0@ == k);
            }
            if exists|i: int| 0 <= i < s.len() && (#[trigger] s[i]).0@ == k {
                let i = choose|i: int| 0 <= i < s.len() && (#[trigger] s[i]).0@ == k;
                assert(i < s.len() - 1);
                assert(s.drop_last()[i].0@ == k);
            }
        }
    }
}

/// With distinct keys, the offset map sends each key to its offset.
pub proof fn lemma_offsets_at(s: Seq<(Vec<u8>, u64)>, i: int)
    requires
        offsets_distinct(s),
        0 <= i < s.len(),
    ensures
        offsets_map(s).dom().contains(s[i].0@),
        offsets_map(s)[s[i].0@] == s[i].1 as nat,
    decreases s.len(),
{
    if i == s.len() - 1 {
    } else {
        assert(offsets_distinct(s.drop_last())) by {
            assert(forall|a: int, b: int|
                0 <= a < b < s.drop_last().len() ==> (#[trigger] s.drop_last()[a]) == s[a]
                    && (#[trigger] s.drop_last()[b]) == s[b]);
        }
        assert(s.drop_last()[i] == s[i]);
        lemma_offsets_at(s.drop_last(), i);
        assert(s[i].0@ != s.last().0@) by {
            assert(s[s.len() - 1] == s.last());
        }
    }
}

/// Removing a pair removes exactly its key from the offset map.
pub proof fn lemma_offsets_remove(s: Seq<(Vec<u8>, u64)>, i: int)
    requires
        offsets_distinct(s),
        0 <= i < s.len(),
    ensures
        offsets_map(s.remove(i)) == offsets_map(s).remove(s[i].0@),
    decreases s.len(),
{
    if i == s.len() - 1 {
        assert(s.remove(i) =~= s.drop_last());
        lemma_offsets_contains(s.drop_last(), s[i].0@);
        assert(forall|a: int|
            0 <= a < s.drop_last().len() ==> (#[trigger] s.drop_last()[a]) == s[a]);
        assert(!offsets_map(s.drop_last()).dom().contains(s[i].0@)) by {
            if exists|a: int|
                0 <= a < s.drop_last().len() && (#[trigger] s.drop_last()[a]).0@ == s[i].0@ {
                let a = choose|a: int|
                    0 <= a < s.drop_last().len() && (#[trigger] s.drop_last()[a]).0@ == s[i].0@;
                assert(s[a].0@ == s[i].0@);
            }
        }
        assert(offsets_map(s.drop_last()) =~= offsets_map(s).remove(s[i].0@));
    } else {
        assert(offsets_distinct(s.drop_last())) by {
            assert(forall|a: int, b: int|
                0 <= a < b < s.drop_last().len() ==> (#[trigger] s.drop_last()[a]) == s[a]
                    && (#[trigger] s.drop_last()[b]) == s[b]);
        }
        assert(s.drop_last()[i] == s[i]);
        lemma_offsets_remove(s.drop_last(), i);
        assert(s.remove(i).drop_last() =~= s.drop_last().remove(i));
        assert(s.remove(i).last() == s.last());
        assert(s[i].0@ != s.last().0@) by {
            assert(s[s.len() - 1] == s.last());
        }
        assert(offsets_map(s.drop_last()).remove(s[i].0@).insert(s.last().0@, s.last().1 as nat)
            =~= offsets_map(s.drop_last()).insert(s.last().0@, s.last().1 as nat).remove(
            s[i].0@,
        ));
    }
}

/// The append-log store: an in-memory index from key to the byte
/// offset of the key's most recent record in the log file.
pub struct SimpleStore {
    /// Key/offset pairs, with pairwise distinct keys.
    pub index: Vec<(Vec<u8>, u64)>,
    /// Declared for symmetry with the in-memory engine; nothing
    /// reads it.
    pub shutdown: bool,
}

impl SimpleStore {
    /// The index as a map.
    pub open spec fn index_map(self) -> Map<Seq<u8>, nat> {
        offsets_map(self.index@)
    }

    /// Internal consistency: no key is indexed twice.
    pub open spec fn wf(self) -> bool {
        offsets_distinct(self.index@)
    }

    /// Creates a store with an empty index, as used over a fresh
    /// log file.
    pub fn new() -> (s: SimpleStore)
        ensures
            s.wf(),
            s.index_map() == Map::<Seq<u8>, nat>::empty(),
    {
        SimpleStore { index: Vec::new(), shutdown: false }
    }

    /// Rebuilds the index from the whole contents of an existing
    /// log file, later records overriding earlier ones; fails when
    /// some line holds no separator.
    pub fn recover(content: &Vec<u8>) -> (r: Result<SimpleStore, StoreError>)
        ensures
            match r {
                Ok(st) => st.wf() && spec_recover(content@) == Some(st.index_map()),
                Err(e) => spec_recover(content@) is None && e == StoreError::Corrupt,
            },
    {
        let mut st = SimpleStore { index: Vec::new(), shutdown: false };
        let mut pos: usize = 0;
        proof {
            assert(rec_lines(content@, 0, Map::empty()) == rec_lines(
                content@,
                pos as int,
                st.index_map(),
            ));
        }
        while pos < content.len()
            invariant
                st.wf(),
                pos <= content@.len(),
                spec_recover(content@) == rec_lines(content@, pos as int, st.index_map()),
            decreases content@.len() - pos,
        {
            // find the end of the line
            let mut e: usize = pos;
            while e < content.len() && content[e] != LF
                invariant
                    pos <= e <= content@.len(),
                    forall|j: int| pos <= j < e ==> #[trigger] content@[j] != LF,
                decreases content@.len() - e,
            {
                e = e + 1;
            }
            proof {
                lemma_lf_from_skip(content@, pos as int, e as int);
            }
            // find the separator inside the line
            let mut ci: usize = pos;
            while ci < e && content[ci] != COMMA
                invariant
                    pos <= ci <= e <= content@.len(),
                    forall|j: int| pos <= j < ci ==> #[trigger] content@[j] != COMMA,
                decreases e - ci,
            {
                ci = ci + 1;
            }
            proof {
                lemma_comma_from_skip(content@, pos as int, ci as int, e as int);
            }
            if ci >= e {
                proof {
                    assert(comma_from(content@, ci as int, e as int) is None);
                }
                return Err(StoreError::Corrupt);
            }
            let key = copy_range(content, pos, ci);
            let ghost st_pre = st;
            record_offset(&mut st.index, key, pos as u64);
            proof {
                assert(st.index_map() == st_pre.index_map().insert(
                    content@.subrange(pos as int, ci as int),
                    pos as nat,
                ));
            }
            if e < content.len() {
                pos = e + 1;
            } else {
                pos = content.len();
                proof {
                    assert(rec_lines(content@, e as int + 1, st.index_map()) == Some(
                        st.index_map(),
                    ));
                    assert(rec_lines(content@, pos as int, st.index_map()) == Some(
                        st.index_map(),
                    ));
                }
            }
        }
        Ok(st)
    }

    /// Returns the byte offset of the most recent record for `key`,
    /// if the key is indexed.
    pub fn get_offset(&self, key: &Vec<u8>) -> (r: Option<u64>)
        requires
            self.wf(),
        ensures
            match r {
                Some(off) => self.index_map().dom().contains(key@) && self.index_map()[key@]
                    == off as nat,
                None => !self.index_map().dom().contains(key@),
            },
    {
        proof {
            lemma_offsets_contains(self.index@, key@);
        }
        let mut i: usize = 0;
        while i < self.index.len()
            invariant
                self.wf(),
                i <= self.index@.len(),
                forall|j: int| 0 <= j < i ==> (#[trigger] self.index@[j]).0@ != key@,
            decreases self.index@.len() - i,
        {
            if crate::frame::bytes_eq(&vstd::std_specs::vec::vec_index(&self.index, i).0, key) {
                proof {
                    lemma_offsets_at(self.index@, i as int);
                }
                return Some(vstd::std_specs::vec::vec_index(&self.index, i).1);
            }
            i = i + 1;
        }
        None
    }

    /// Points the index at the record for `key` just appended at
    /// `offset`, replacing any earlier offset.
    pub fn record_saved(&mut self, key: Vec<u8>, offset: u64)
        requires
            old(self).wf(),
        ensures
            final(self).wf(),
            final(self).index_map() == old(self).index_map().insert(key@, offset as nat),
    {
        record_offset(&mut self.index, key, offset);
    }

    /// The append-log engine runs no background task, so there is
    /// nothing to stop.
    pub fn shutdown_purge_task(&self) {
    }
}

/// Binds `key` to `offset` in the index, replacing any earlier
/// binding.
fn record_offset(index: &mut Vec<(Vec<u8>, u64)>, key: Vec<u8>, offset: u64)
    requires
        offsets_distinct(old(index)@),
    ensures
        offsets_distinct(final(index)@),
        offsets_map(final(index)@) == offsets_map(old(index)@).insert(key@, offset as nat),
{
    let ghost s0 = index@;
    let mut i: usize = 0;
    let mut found: bool = false;
    let mut at: usize = 0;
    while i < index.len()
        invariant
            index@ == s0,
            i <= s0.len(),
            !found ==> forall|j: int| 0 <= j < i ==> (#[trigger] s0[j]).0@ != key@,
            found ==> at < s0.len() && s0[at as int].0@ == key@,
            found ==> i == s0.len(),
        decreases s0.len() + 1 - i - (if found {
            1int
        } else {
            0int
        }),
    {
        if crate::frame::bytes_eq(&vstd::std_specs::vec::vec_index(index, i).0, &key) {
            found = true;
            at = i;
            i = index.len();
        } else {
            i = i + 1;
        }
    }
    if found {
        proof {
            lemma_offsets_remove(s0, at as int);
        }
        index.remove(at);
        proof {
            assert(forall|a: int| 0 <= a < index@.len() ==> #[trigger] index@[a] == (if a
                < at as int {
                s0[a]
            } else {
                s0[a + 1]
            }));
            assert(forall|a: int| 0 <= a < index@.len() ==> (#[trigger] index@[a]).0@ != key@);
        }
    } else {
        proof {
            lemma_offsets_contains(s0, key@);
            assert(!offsets_map(s0).dom().contains(key@));
            assert(offsets_map(s0).remove(key@) =~= offsets_map(s0));
        }
    }
    let ghost s1 = index@;
    proof {
        assert(offsets_map(s1) == offsets_map(s0).remove(key@));
        assert(forall|a: int| 0 <= a < s1.len() ==> (#[trigger] s1[a]).0@ != key@);
    }
    index.push((key, offset));
    proof {
        assert(index@.drop_last() =~= s1);
        assert(index@.last() == (key, offset));
        assert(offsets_map(index@) == offsets_map(s1).insert(key@, offset as nat));
        assert(offsets_map(s0).remove(key@).insert(key@, offset as nat) =~= offsets_map(
            s0,
        ).insert(key@, offset as nat));
        assert(forall|a: int| 0 <= a < s1.len() ==> #[trigger] index@[a] == s1[a]);
    }
}

/// Formats the record appended to the log for one `set`.
pub fn format_record(key: &Vec<u8>, value: &Vec<u8>) -> (r: Vec<u8>)
    ensures
        r@ == record_bytes(key@, value@),
{
    let mut r: Vec<u8> = Vec::new();
    crate::frame::append_bytes(&mut r, key);
    r.push(COMMA);
    crate::frame::append_bytes(&mut r, value);
    r.push(LF);
    proof {
        assert(r@ =~= record_bytes(key@, value@));
    }
    r
}

/// Parses the record line read back for `key` and returns the
/// stored value.
pub fn parse_record(line: &Vec<u8>, key: &Vec<u8>) -> (r: Result<Vec<u8>, StoreError>)
    ensures
        match r {
            Ok(v) => spec_parse_record(line@, key@) == Ok::<Seq<u8>, StoreError>(v@),
            Err(e) => spec_parse_record(line@, key@) == Err::<Seq<u8>, StoreError>(e),
        },
{
    let core_end: usize = if line.len() > 0 && line[line.len() - 1] == LF {
        line.len() - 1
    } else {
        line.len()
    };
    let ghost core = (if line@.len() > 0 && line@.last() == LF {
        line@.drop_last()
    } else {
        line@
    });
    proof {
        assert(core =~= line@.subrange(0, core_end as int));
    }
    let mut ci: usize = 0;
    while ci < core_end && line[ci] != COMMA
        invariant
            ci <= core_end <= line@.len(),
            core == line@.subrange(0, core_end as int),
            forall|j: int| 0 <= j < ci ==> #[trigger] line@[j] != COMMA,
        decreases core_end - ci,
    {
        ci = ci + 1;
    }
    proof {
        assert(forall|j: int| 0 <= j < ci ==> #[trigger] core[j] != COMMA);
        lemma_comma_from_skip(core, 0, ci as int, core.len() as int);
    }
    if ci >= core_end {
        proof {
            assert(comma_from(core, ci as int, core.len() as int) is None);
        }
        return Err(StoreError::Corrupt);
    }
    proof {
        assert(core[ci as int] == COMMA);
        assert(comma_from(core, ci as int, core.len() as int) == Some(ci as int));
    }
    let prefix = copy_range(line, 0, ci);
    proof {
        assert(prefix@ =~= core.subrange(0, ci as int));
    }
    if !crate::frame::bytes_eq(&prefix, key) {
        return Err(StoreError::KeyMismatch);
    }
    // join the remaining fields, dropping every separator
    let mut out: Vec<u8> = Vec::new();
    let mut j: usize = ci + 1;
    proof {
        assert(core.subrange(ci as int + 1, core.len() as int).skip(0) =~= core.subrange(
            ci as int + 1,
            core.len() as int,
        ));
    }
    while j < core_end
        invariant
            ci + 1 <= j <= core_end <= line@.len(),
            core == line@.subrange(0, core_end as int),
            sans_commas(core.subrange(ci as int + 1, core.len() as int)) == out@ + sans_commas(
                core.subrange(j as int, core.len() as int),
            ),
        decreases core_end - j,
    {
        let b = line[j];
        proof {
            let tail = core.subrange(j as int, core.len() as int);
            assert(tail[0] == core[j as int]);
            assert(core[j as int] == line@[j as int]);
            assert(tail.drop_first() =~= core.subrange(j as int + 1, core.len() as int));
        }
        if b != COMMA {
            out.push(b);
        }
        j = j + 1;
    }
    proof {
        assert(core.subrange(core_end as int, core.len() as int).len() == 0);
        assert(sans_commas(core.subrange(core_end as int, core.len() as int))
            =~= Seq::<u8>::empty());
        assert(out@ =~= out@ + Seq::<u8>::empty());
    }
    Ok(out)
}

/// What reading the record line under `key` yields: the line, less
/// its terminator, must name `key` before the first comma; the value
/// is everything after that comma with remaining commas dropped.
pub open spec fn spec_parse_record(line: Seq<u8>, key: Seq<u8>) -> Result<Seq<u8>, StoreError> {
    let core = if line.len() > 0 && line.last() == LF {
        line.drop_last()
    } else {
        line
    };
    match comma_from(core, 0, core.len() as int) {
        None => Err(StoreError::Corrupt),
        Some(ci) => if core.subrange(0, ci) == key {
            Ok(sans_commas(core.subrange(ci + 1, core.len() as int)))
        } else {
            Err(StoreError::KeyMismatch)
        },
    }
}

} // verus!
