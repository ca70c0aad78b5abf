//! The ordered key-value substrate: entries keyed by (raw key, version),
//! ordered first by raw key (byte-lexicographic) and then by version,
//! ascending. A value of `None` is a tombstone (logical delete).
//!
//! The spec functions here are the mathematical core: `visible_read` is the
//! descending scan that every read performs, `latest_entry` backs the
//! write-conflict check, and `store_put` is the effect of one write.

use vstd::prelude::*;
use crate::bytes::{lex_lt, lemma_lex_total, lemma_lex_trans, bytes_lt, bytes_eq};

verus! {

/// One stored entry: a raw key, the version that wrote it, and the value
/// (`None` is a tombstone).
pub struct Entry {
    pub key: Vec<u8>,
    pub version: u64,
    pub value: Option<Vec<u8>>,
}

/// The mathematical image of an `Entry`.
pub struct EntryM {
    pub key: Seq<u8>,
    pub version: u64,
    pub value: Option<Seq<u8>>,
}

impl View for Entry {
    type V = EntryM;

    open spec fn view(&self) -> EntryM {
        EntryM { key: self.key@, version: self.version, value: self.value.deep_view() }
    }
}

/// Strict order on (raw key, version) pairs: primary key byte-lexicographic,
/// secondary version ascending.
pub open spec fn entry_lt(k1: Seq<u8>, v1: u64, k2: Seq<u8>, v2: u64) -> bool {
    lex_lt(k1, k2) || (k1 == k2 && v1 < v2)
}

/// The store's ordering invariant: entries strictly ascending by
/// (raw key, version). Strictness makes every (key, version) pair unique.
pub open spec fn sorted(s: Seq<EntryM>) -> bool {
    forall|i: int, j: int|
        #![trigger s[i], s[j]]
        0 <= i < j < s.len() ==> entry_lt(s[i].key, s[i].version, s[j].key, s[j].version)
}

/// The visibility rule: a version is visible to a transaction with snapshot
/// `snap` and own version `tv` iff it was not active at the transaction's
/// begin time and is not newer than the transaction itself.
pub open spec fn spec_visible(snap: Set<u64>, tv: u64, v: u64) -> bool {
    !snap.contains(v) && v <= tv
}

/// What a read of raw key `k` returns: scan the store backwards and take the
/// first entry for `k` whose version is visible. `None` means no visible
/// entry at all; `Some(None)` means the visible entry is a tombstone.
pub open spec fn visible_read(s: Seq<EntryM>, snap: Set<u64>, tv: u64, k: Seq<u8>) -> Option<
    Option<Seq<u8>>,
>
    decreases s.len(),
{
    if s.len() == 0 {
        None
    } else if s.last().key == k && spec_visible(snap, tv, s.last().version) {
        Some(s.last().value)
    } else {
        visible_read(s.drop_last(), snap, tv, k)
    }
}

/// The most recent entry for raw key `k`: scan backwards, first match.
/// In a sorted store this is the entry for `k` with the greatest version.
pub open spec fn latest_entry(s: Seq<EntryM>, k: Seq<u8>) -> Option<EntryM>
    decreases s.len(),
{
    if s.len() == 0 {
        None
    } else if s.last().key == k {
        Some(s.last())
    } else {
        latest_entry(s.drop_last(), k)
    }
}

/// Whether an existing version of a key blocks a write by a transaction with
/// snapshot `snap` and version `tv`, given the set of versions still active:
/// it blocks if it belongs to a transaction that was active at the writer's
/// begin time, or was committed by a transaction that began after the
/// writer. A newer but still-uncommitted version does not block — distinct
/// uncommitted versions of a key coexist until one commits.
pub open spec fn write_blocked(snap: Set<u64>, tv: u64, active: Set<u64>, v: u64) -> bool {
    snap.contains(v) || (v > tv && !active.contains(v))
}

/// First-writer-wins conflict check: writing `k` conflicts iff the most
/// recent entry for `k` exists and blocks the writer.
pub open spec fn write_conflicts(
    s: Seq<EntryM>,
    snap: Set<u64>,
    tv: u64,
    active: Set<u64>,
    k: Seq<u8>,
) -> bool {
    match latest_entry(s, k) {
        Some(e) => write_blocked(snap, tv, active, e.version),
        None => false,
    }
}

/// The effect of one write on the sorted store: insert (key, version, value)
/// at its ordered position, replacing an entry with the same pair if present.
pub open spec fn store_put(s: Seq<EntryM>, k: Seq<u8>, v: u64, val: Option<Seq<u8>>) -> Seq<EntryM>
    decreases s.len(),
{
    let e = EntryM { key: k, version: v, value: val };
    if s.len() == 0 {
        seq![e]
    } else if entry_lt(s[0].key, s[0].version, k, v) {
        seq![s[0]] + store_put(s.skip(1), k, v, val)
    } else if s[0].key == k && s[0].version == v {
        seq![e] + s.skip(1)
    } else {
        seq![e] + s
    }
}

/// Whether the store holds an entry at exactly (key, version).
pub open spec fn has_pair(s: Seq<EntryM>, k: Seq<u8>, v: u64) -> bool {
    exists|i: int| 0 <= i < s.len() && (#[trigger] s[i]).key == k && s[i].version == v
}

/// `entry_lt` is a strict total order on pairs.
pub proof fn lemma_entry_lt_total(k1: Seq<u8>, v1: u64, k2: Seq<u8>, v2: u64)
    ensures
        !entry_lt(k1, v1, k2, v2) && !entry_lt(k2, v2, k1, v1) ==> (k1 == k2 && v1 == v2),
        !(entry_lt(k1, v1, k2, v2) && entry_lt(k2, v2, k1, v1)),
{
    lemma_lex_total(k1, k2);
}

/// `entry_lt` is transitive.
pub proof fn lemma_entry_lt_trans(
    k1: Seq<u8>,
    v1: u64,
    k2: Seq<u8>,
    v2: u64,
    k3: Seq<u8>,
    v3: u64,
)
    requires
        entry_lt(k1, v1, k2, v2),
        entry_lt(k2, v2, k3, v3),
    ensures
        entry_lt(k1, v1, k3, v3),
{
    if lex_lt(k1, k2) && lex_lt(k2, k3) {
        lemma_lex_trans(k1, k2, k3);
    }
}

/// In a sorted store each (key, version) pair occurs at most once.
pub proof fn lemma_sorted_unique(s: Seq<EntryM>)
    requires
        sorted(s),
    ensures
        forall|i: int, j: int|
            #![trigger s[i], s[j]]
            0 <= i < s.len() && 0 <= j < s.len() && s[i].key == s[j].key && s[i].version
                == s[j].version ==> i == j,
{
    assert forall|i: int, j: int|
        #![trigger s[i], s[j]]
        0 <= i < s.len() && 0 <= j < s.len() && s[i].key == s[j].key && s[i].version
            == s[j].version implies i == j by {
        if i < j {
            lemma_entry_lt_total(s[i].key, s[i].version, s[j].key, s[j].version);
        } else if j < i {
            lemma_entry_lt_total(s[i].key, s[i].version, s[j].key, s[j].version);
        }
    }
}

/// What `store_put` does, element-wise: the new entry is present, every other
/// element is carried over unchanged, nothing else appears, and the result is
/// still sorted.
pub proof fn lemma_store_put_props(s: Seq<EntryM>, k: Seq<u8>, v: u64, val: Option<Seq<u8>>)
    requires
        sorted(s),
    ensures
        sorted(store_put(s, k, v, val)),
        store_put(s, k, v, val).contains((EntryM { key: k, version: v, value: val })),
        forall|e: EntryM| #[trigger]
            store_put(s, k, v, val).contains(e) ==> (e == (EntryM {
                key: k,
                version: v,
                value: val,
            }) || (s.contains(e) && !(e.key == k && e.version == v))),
        forall|e: EntryM| #[trigger]
            s.contains(e) && !(e.key == k && e.version == v) ==> store_put(
                s,
                k,
                v,
                val,
            ).contains(e),
    decreases s.len(),
{
    let e0 = EntryM { key: k, version: v, value: val };
    let s2 = store_put(s, k, v, val);
    if s.len() == 0 {
        assert(s2 == seq![e0]);
        assert(s2[0] == e0);
        assert(s2.contains(e0));
    } else if entry_lt(s[0].key, s[0].version, k, v) {
        let t = s.skip(1);
        assert(sorted(t)) by {
            assert forall|i: int, j: int|
                #![trigger t[i], t[j]]
                0 <= i < j < t.len() implies entry_lt(t[i].key, t[i].version, t[j].key, t[j].version)
            by {
                assert(t[i] == s[i + 1]);
                assert(t[j] == s[j + 1]);
            }
        }
        lemma_store_put_props(t, k, v, val);
        let t2 = store_put(t, k, v, val);
        assert(s2 == seq![s[0]] + t2);
        // s[0] precedes everything in t2
        assert forall|j: int| 0 <= j < t2.len() implies entry_lt(
            s[0].key,
            s[0].version,
            #[trigger] t2[j].key,
            t2[j].version,
        ) by {
            assert(t2.contains(t2[j]));
            if t2[j] == e0 {
            } else {
                assert(t.contains(t2[j]));
                let wi = choose|wi: int| 0 <= wi < t.len() && t[wi] == t2[j];
                assert(t[wi] == s[wi + 1]);
            }
        }
        assert(sorted(s2)) by {
            assert forall|i: int, j: int|
                #![trigger s2[i], s2[j]]
                0 <= i < j < s2.len() implies entry_lt(
                s2[i].key,
                s2[i].version,
                s2[j].key,
                s2[j].version,
            ) by {
                if i == 0 {
                    assert(s2[j] == t2[j - 1]);
                } else {
                    assert(s2[i] == t2[i - 1]);
                    assert(s2[j] == t2[j - 1]);
                }
            }
        }
        assert(s2.contains(e0)) by {
            let wi = choose|wi: int| 0 <= wi < t2.len() && t2[wi] == e0;
            assert(s2[wi + 1] == e0);
        }
        assert forall|e: EntryM| #[trigger] s2.contains(e) implies (e == e0 || (s.contains(e) && !(
        e.key == k && e.version == v))) by {
            let wi = choose|wi: int| 0 <= wi < s2.len() && s2[wi] == e;
            if wi == 0 {
                assert(e == s[0]);
                assert(s.contains(s[0]));
                // s[0] < (k, v) so s[0] is not the pair (k, v)
                lemma_entry_lt_total(s[0].key, s[0].version, k, v);
            } else {
                assert(t2[wi - 1] == e);
                assert(t2.contains(e));
                if e != e0 {
                    assert(t.contains(e));
                    let ti = choose|ti: int| 0 <= ti < t.len() && t[ti] == e;
                    assert(s[ti + 1] == e);
                    assert(s.contains(e));
                }
            }
        }
        assert forall|e: EntryM| #[trigger]
            s.contains(e) && !(e.key == k && e.version == v) implies s2.contains(e) by {
            let wi = choose|wi: int| 0 <= wi < s.len() && s[wi] == e;
            if wi == 0 {
                assert(s2[0] == e);
            } else {
                assert(t[wi - 1] == e);
                assert(t.contains(e));
                assert(t2.contains(e));
                let ti = choose|ti: int| 0 <= ti < t2.len() && t2[ti] == e;
                assert(s2[ti + 1] == e);
            }
        }
    } else if s[0].key == k && s[0].version == v {
        // replace s[0]
        let t = s.skip(1);
        assert(s2 == seq![e0] + t);
        assert(s2[0] == e0);
        assert(s2.contains(e0));
        assert forall|i: int, j: int|
            #![trigger s2[i], s2[j]]
            0 <= i < j < s2.len() implies entry_lt(s2[i].key, s2[i].version, s2[j].key, s2[j].version)
        by {
            if i == 0 {
                assert(s2[j] == s[j]);
                // s[0] has the same key and version as e0
            } else {
                assert(s2[i] == s[i]);
                assert(s2[j] == s[j]);
            }
        }
        assert forall|e: EntryM| #[trigger] s2.contains(e) implies (e == e0 || (s.contains(e) && !(
        e.key == k && e.version == v))) by {
            let wi = choose|wi: int| 0 <= wi < s2.len() && s2[wi] == e;
            if wi > 0 {
                assert(s[wi] == e);
                assert(s.contains(e));
                lemma_sorted_unique(s);
                // the pair (k, v) sits at index 0 only
                assert(!(e.key == k && e.version == v));
            }
        }
        assert forall|e: EntryM| #[trigger]
            s.contains(e) && !(e.key == k && e.version == v) implies s2.contains(e) by {
            let wi = choose|wi: int| 0 <= wi < s.len() && s[wi] == e;
            assert(wi != 0);
            assert(s2[wi] == e);
        }
    } else {
        // insert in front
        assert(s2 == seq![e0] + s);
        assert(s2[0] == e0);
        assert(s2.contains(e0));
        lemma_entry_lt_total(s[0].key, s[0].version, k, v);
        assert(entry_lt(k, v, s[0].key, s[0].version));
        assert forall|i: int, j: int|
            #![trigger s2[i], s2[j]]
            0 <= i < j < s2.len() implies entry_lt(s2[i].key, s2[i].version, s2[j].key, s2[j].version)
        by {
            if i == 0 {
                assert(s2[j] == s[j - 1]);
                if j > 1 {
                    lemma_entry_lt_trans(
                        k,
                        v,
                        s[0].key,
                        s[0].version,
                        s[j - 1].key,
                        s[j - 1].version,
                    );
                }
            } else {
                assert(s2[i] == s[i - 1]);
                assert(s2[j] == s[j - 1]);
            }
        }
        assert forall|e: EntryM| #[trigger] s2.contains(e) implies (e == e0 || (s.contains(e) && !(
        e.key == k && e.version == v))) by {
            let wi = choose|wi: int| 0 <= wi < s2.len() && s2[wi] == e;
            if wi > 0 {
                assert(s[wi - 1] == e);
                assert(s.contains(e));
                if e.key == k && e.version == v {
                    // every element of s is strictly after (k, v) or strictly
                    // before it; equality is excluded
                    if wi - 1 > 0 {
                        lemma_entry_lt_trans(
                            k,
                            v,
                            s[0].key,
                            s[0].version,
                            s[wi - 1].key,
                            s[wi - 1].version,
                        );
                    }
                    lemma_entry_lt_total(k, v, e.key, e.version);
                }
            }
        }
        assert forall|e: EntryM| #[trigger]
            s.contains(e) && !(e.key == k && e.version == v) implies s2.contains(e) by {
            let wi = choose|wi: int| 0 <= wi < s.len() && s[wi] == e;
            assert(s2[wi + 1] == e);
        }
    }
}

/// Characterizes `latest_entry` in a sorted store: it is the entry for `k`
/// with the greatest version, or absent when no entry for `k` exists.
pub proof fn lemma_latest_entry_props(s: Seq<EntryM>, k: Seq<u8>)
    requires
        sorted(s),
    ensures
        match latest_entry(s, k) {
            None => forall|i: int| 0 <= i < s.len() ==> (#[trigger] s[i]).key != k,
            Some(e) => s.contains(e) && e.key == k && forall|i: int|
                0 <= i < s.len() && (#[trigger] s[i]).key == k ==> s[i].version <= e.version,
        },
    decreases s.len(),
{
    if s.len() == 0 {
    } else if s.last().key == k {
        let e = s.last();
        assert(s.contains(e)) by {
            assert(s[s.len() - 1] == e);
        }
        assert forall|i: int| 0 <= i < s.len() && (#[trigger] s[i]).key == k implies s[i].version
            <= e.version by {
            if i < s.len() - 1 {
                assert(entry_lt(s[i].key, s[i].version, e.key, e.version));
                lemma_lex_total(s[i].key, e.key);
            }
        }
    } else {
        let t = s.drop_last();
        assert(sorted(t)) by {
            assert forall|i: int, j: int|
                #![trigger t[i], t[j]]
                0 <= i < j < t.len() implies entry_lt(t[i].key, t[i].version, t[j].key, t[j].version)
            by {
                assert(t[i] == s[i]);
                assert(t[j] == s[j]);
            }
        }
        lemma_latest_entry_props(t, k);
        assert(latest_entry(s, k) == latest_entry(t, k));
        match latest_entry(t, k) {
            None => {
                assert forall|i: int| 0 <= i < s.len() implies (#[trigger] s[i]).key != k by {
                    if i < s.len() - 1 {
                        assert(t[i] == s[i]);
                    }
                }
            },
            Some(e) => {
                assert(t.contains(e));
                let wi = choose|wi: int| 0 <= wi < t.len() && t[wi] == e;
                assert(s[wi] == e);
                assert(s.contains(e));
                assert forall|i: int| 0 <= i < s.len() && (#[trigger] s[i]).key == k implies
                    s[i].version <= e.version by {
                    assert(i < s.len() - 1);
                    assert(t[i] == s[i]);
                }
            },
        }
    }
}

/// Characterizes `visible_read` in a sorted store: `Some(val)` is the value
/// of the visible entry for `k` with the greatest version; `None` means no
/// entry for `k` is visible at all.
pub proof fn lemma_visible_read_props(s: Seq<EntryM>, snap: Set<u64>, tv: u64, k: Seq<u8>)
    requires
        sorted(s),
    ensures
        match visible_read(s, snap, tv, k) {
            None => forall|i: int|
                0 <= i < s.len() ==> !((#[trigger] s[i]).key == k && spec_visible(
                    snap,
                    tv,
                    s[i].version,
                )),
            Some(val) => exists|i: int|
                0 <= i < s.len() && (#[trigger] s[i]).key == k && spec_visible(
                    snap,
                    tv,
                    s[i].version,
                ) && s[i].value == val && (forall|j: int|
                    0 <= j < s.len() && (#[trigger] s[j]).key == k && spec_visible(
                        snap,
                        tv,
                        s[j].version,
                    ) ==> s[j].version <= s[i].version),
        },
    decreases s.len(),
{
    if s.len() == 0 {
    } else {
        let t = s.drop_last();
        assert(sorted(t)) by {
            assert forall|i: int, j: int|
                #![trigger t[i], t[j]]
                0 <= i < j < t.len() implies entry_lt(t[i].key, t[i].version, t[j].key, t[j].version)
            by {
                assert(t[i] == s[i]);
                assert(t[j] == s[j]);
            }
        }
        let last = s.last();
        if last.key == k && spec_visible(snap, tv, last.version) {
            let wi = s.len() - 1;
            assert(s[wi] == last);
            assert forall|j: int|
                0 <= j < s.len() && (#[trigger] s[j]).key == k && spec_visible(
                    snap,
                    tv,
                    s[j].version,
                ) implies s[j].version <= s[wi].version by {
                if j < wi {
                    assert(entry_lt(s[j].key, s[j].version, last.key, last.version));
                    lemma_lex_total(s[j].key, last.key);
                }
            }
            assert(0 <= wi < s.len() && s[wi].key == k && spec_visible(snap, tv, s[wi].version)
                && s[wi].value == last.value);
        } else {
            lemma_visible_read_props(t, snap, tv, k);
            assert(visible_read(s, snap, tv, k) == visible_read(t, snap, tv, k));
            match visible_read(t, snap, tv, k) {
                None => {
                    assert forall|i: int| 0 <= i < s.len() implies !((#[trigger] s[i]).key == k
                        && spec_visible(snap, tv, s[i].version)) by {
                        if i < s.len() - 1 {
                            assert(t[i] == s[i]);
                        }
                    }
                },
                Some(val) => {
                    let wi = choose|wi: int|
                        0 <= wi < t.len() && (#[trigger] t[wi]).key == k && spec_visible(
                            snap,
                            tv,
                            t[wi].version,
                        ) && t[wi].value == val && (forall|j: int|
                            0 <= j < t.len() && (#[trigger] t[j]).key == k && spec_visible(
                                snap,
                                tv,
                                t[j].version,
                            ) ==> t[j].version <= t[wi].version);
                    assert(s[wi] == t[wi]);
                    assert forall|j: int|
                        0 <= j < s.len() && (#[trigger] s[j]).key == k && spec_visible(
                            snap,
                            tv,
                            s[j].version,
                        ) implies s[j].version <= s[wi].version by {
                        assert(j < s.len() - 1);
                        assert(t[j] == s[j]);
                    }
                },
            }
        }
    }
}

/// The entry for `k` with the greatest visible version decides the read: its
/// value is exactly what `visible_read` returns.
pub proof fn lemma_latest_visible_wins(
    s: Seq<EntryM>,
    snap: Set<u64>,
    tv: u64,
    k: Seq<u8>,
    wi: int,
)
    requires
        sorted(s),
        0 <= wi < s.len(),
        s[wi].key == k,
        spec_visible(snap, tv, s[wi].version),
        forall|j: int|
            0 <= j < s.len() && (#[trigger] s[j]).key == k && spec_visible(snap, tv, s[j].version)
                ==> s[j].version <= s[wi].version,
    ensures
        visible_read(s, snap, tv, k) == Some(s[wi].value),
{
    lemma_visible_read_props(s, snap, tv, k);
    match visible_read(s, snap, tv, k) {
        None => {
            assert(false);
        },
        Some(val) => {
            let i = choose|i: int|
                0 <= i < s.len() && (#[trigger] s[i]).key == k && spec_visible(
                    snap,
                    tv,
                    s[i].version,
                ) && s[i].value == val && (forall|j: int|
                    0 <= j < s.len() && (#[trigger] s[j]).key == k && spec_visible(
                        snap,
                        tv,
                        s[j].version,
                    ) ==> s[j].version <= s[i].version);
            assert(s[i].version <= s[wi].version);
            assert(s[wi].version <= s[i].version);
            lemma_sorted_unique(s);
            assert(i == wi);
        },
    }
}

/// The ordered key-value store itself: a vector of entries kept sorted by
/// (raw key, version), with point insert, point remove and ordered scans.
pub struct KVEngine {
    pub entries: Vec<Entry>,
}

impl View for KVEngine {
    type V = Seq<EntryM>;

    open spec fn view(&self) -> Seq<EntryM> {
        Seq::new(self.entries@.len(), |i: int| self.entries@[i]@)
    }
}

impl KVEngine {
    /// An empty store.
    pub fn new() -> (r: KVEngine)
        ensures
            r@ == Seq::<EntryM>::empty(),
            sorted(r@),
    {
        let r = KVEngine { entries: Vec::new() };
        proof {
            assert(r@ =~= Seq::<EntryM>::empty());
        }
        r
    }

    /// Index of the first entry not strictly before (key, version).
    fn find_put_index(&self, key: &[u8], version: u64) -> (i: usize)
        ensures
            0 <= i <= self@.len(),
            forall|j: int| 0 <= j < i ==> entry_lt((#[trigger] self@[j]).key, self@[j].version, key@, version),
            i < self@.len() ==> !entry_lt(self@[i as int].key, self@[i as int].version, key@, version),
    {
        let mut i: usize = 0;
        while i < self.entries.len()
            invariant
                i <= self@.len(),
                self@.len() == self.entries@.len(),
                forall|j: int| 0 <= j < i ==> entry_lt((#[trigger] self@[j]).key, self@[j].version, key@, version),
            decreases self.entries@.len() - i,
        {
            let lt = {
                let e = &self.entries[i];
                if bytes_lt(e.key.as_slice(), key) {
                    true
                } else {
                    bytes_eq(e.key.as_slice(), key) && e.version < version
                }
            };
            if !lt {
                return i;
            }
            i = i + 1;
        }
        i
    }

    /// Insert (key, version, value) at its ordered place, replacing an entry
    /// with the same (key, version) pair if one is present.
    pub fn put(&mut self, key: Vec<u8>, version: u64, value: Option<Vec<u8>>)
        requires
            sorted(old(self)@),
        ensures
            final(self)@ == store_put(old(self)@, key@, version, value.deep_view()),
            sorted(final(self)@),
    {
        proof {
            lemma_store_put_props(self@, key@, version, value.deep_view());
        }
        let ghost s = self@;
        let ghost e0 = EntryM { key: key@, version, value: value.deep_view() };
        let i = self.find_put_index(key.as_slice(), version);
        proof {
            lemma_store_put_at(s, key@, version, value.deep_view(), i as int);
        }
        let replace = if i < self.entries.len() {
            let e = &self.entries[i];
            bytes_eq(e.key.as_slice(), key.as_slice()) && e.version == version
        } else {
            false
        };
        if replace {
            let _removed = self.entries.remove(i);
            self.entries.insert(i, Entry { key, version, value });
            proof {
                assert(self@ =~= s.update(i as int, e0));
            }
        } else {
            self.entries.insert(i, Entry { key, version, value });
            proof {
                assert(self@ =~= s.insert(i as int, e0));
            }
        }
    }

    /// The version of the most recent entry for `key`, if any.
    pub fn latest_version_for(&self, key: &[u8]) -> (r: Option<u64>)
        ensures
            match latest_entry(self@, key@) {
                Some(e) => r == Some(e.version),
                None => r == None::<u64>,
            },
    {
        let ghost s = self@;
        let mut i: usize = self.entries.len();
        proof {
            assert(s.take(i as int) =~= s);
        }
        while i > 0
            invariant
                i <= s.len(),
                s == self@,
                s.len() == self.entries@.len(),
                latest_entry(s, key@) == latest_entry(s.take(i as int), key@),
            decreases i,
        {
            i = i - 1;
            let e = &self.entries[i];
            proof {
                assert(s.take(i + 1).last() == s[i as int]);
                assert(s.take(i + 1).drop_last() =~= s.take(i as int));
            }
            if bytes_eq(e.key.as_slice(), key) {
                return Some(e.version);
            }
        }
        proof {
            assert(s.take(0).len() == 0);
        }
        None
    }

    /// Remove the entry at exactly (key, version). Returns whether it was
    /// present; in a sorted store there is at most one.
    pub fn remove_pair(&mut self, key: &[u8], version: u64) -> (found: bool)
        requires
            sorted(old(self)@),
        ensures
            sorted(final(self)@),
            found == exists|i: int|
                0 <= i < old(self)@.len() && (#[trigger] old(self)@[i]).key == key@
                    && old(self)@[i].version == version,
            forall|e: EntryM| #[trigger]
                final(self)@.contains(e) <==> (old(self)@.contains(e) && !(e.key == key@
                    && e.version == version)),
    {
        let ghost s = self@;
        proof {
            lemma_sorted_unique(s);
        }
        let mut i: usize = 0;
        while i < self.entries.len()
            invariant
                i <= s.len(),
                s == self@,
                s == old(self)@,
                s.len() == self.entries@.len(),
                sorted(s),
                forall|j: int| 0 <= j < i ==> !((#[trigger] s[j]).key == key@ && s[j].version == version),
            decreases self.entries@.len() - i,
        {
            let hit = {
                let e = &self.entries[i];
                e.version == version && bytes_eq(e.key.as_slice(), key)
            };
            if hit {
                let _removed = self.entries.remove(i);
                proof {
                    assert(s[i as int].key == key@ && s[i as int].version == version);
                    assert(self@ =~= s.remove(i as int));
                    let s2 = s.remove(i as int);
                    lemma_sorted_unique(s);
                    assert(sorted(s2)) by {
                        assert forall|a: int, b: int|
                            #![trigger s2[a], s2[b]]
                            0 <= a < b < s2.len() implies entry_lt(
                            s2[a].key,
                            s2[a].version,
                            s2[b].key,
                            s2[b].version,
                        ) by {
                            assert(s2[a] == (if a < i { s[a] } else { s[a + 1] }));
                            assert(s2[b] == (if b < i { s[b] } else { s[b + 1] }));
                        }
                    }
                    assert forall|e: EntryM| #[trigger]
                        s2.contains(e) <==> (s.contains(e) && !(e.key == key@ && e.version
                            == version)) by {
                        if s2.contains(e) {
                            let wi = choose|wi: int| 0 <= wi < s2.len() && s2[wi] == e;
                            assert(s2[wi] == (if wi < i { s[wi] } else { s[wi + 1] }));
                            assert(s.contains(e));
                            if e.key == key@ && e.version == version {
                                // (key, version) is unique and sits at index i
                                assert(false);
                            }
                        }
                        if s.contains(e) && !(e.key == key@ && e.version == version) {
                            let wi = choose|wi: int| 0 <= wi < s.len() && s[wi] == e;
                            assert(wi != i);
                            if wi < i {
                                assert(s2[wi] == e);
                            } else {
                                assert(s2[wi - 1] == e);
                            }
                            assert(s2.contains(e));
                        }
                    }
                }
                return true;
            }
            i = i + 1;
        }
        proof {
            assert forall|e: EntryM| #[trigger]
                self@.contains(e) <==> (s.contains(e) && !(e.key == key@ && e.version == version))
            by {
                if s.contains(e) && e.key == key@ && e.version == version {
                    let wi = choose|wi: int| 0 <= wi < s.len() && s[wi] == e;
                    assert(false);
                }
            }
        }
        false
    }
}

/// Where the loop in `put` stops is where `store_put` lands: before index
/// `i` everything is strictly smaller, so the write either replaces `s[i]`
/// or is inserted at `i`.
proof fn lemma_store_put_at(s: Seq<EntryM>, k: Seq<u8>, v: u64, val: Option<Seq<u8>>, i: int)
    requires
        0 <= i <= s.len(),
        forall|j: int| 0 <= j < i ==> entry_lt((#[trigger] s[j]).key, s[j].version, k, v),
        i < s.len() ==> !entry_lt(s[i].key, s[i].version, k, v),
    ensures
        (i < s.len() && s[i].key == k && s[i].version == v) ==> store_put(s, k, v, val)
            == s.update(i, (EntryM { key: k, version: v, value: val })),
        !(i < s.len() && s[i].key == k && s[i].version == v) ==> store_put(s, k, v, val)
            == s.insert(i, (EntryM { key: k, version: v, value: val })),
    decreases s.len(),
{
    let e0 = EntryM { key: k, version: v, value: val };
    if s.len() == 0 {
        assert(store_put(s, k, v, val) == seq![e0]);
        assert(s.insert(0, e0) =~= seq![e0]);
    } else if i == 0 {
        if s[0].key == k && s[0].version == v {
            assert(store_put(s, k, v, val) == seq![e0] + s.skip(1));
            assert(s.update(0, e0) =~= seq![e0] + s.skip(1));
        } else {
            assert(store_put(s, k, v, val) == seq![e0] + s);
            assert(s.insert(0, e0) =~= seq![e0] + s);
        }
    } else {
        assert(entry_lt(s[0].key, s[0].version, k, v));
        let t = s.skip(1);
        assert forall|j: int| 0 <= j < i - 1 implies entry_lt(
            (#[trigger] t[j]).key,
            t[j].version,
            k,
            v,
        ) by {
            assert(t[j] == s[j + 1]);
        }
        assert(i - 1 < t.len() ==> t[i - 1] == s[i]);
        lemma_store_put_at(t, k, v, val, i - 1);
        assert(store_put(s, k, v, val) == seq![s[0]] + store_put(t, k, v, val));
        if i < s.len() && s[i].key == k && s[i].version == v {
            assert(seq![s[0]] + t.update(i - 1, e0) =~= s.update(i, e0));
        } else {
            assert(seq![s[0]] + t.insert(i - 1, e0) =~= s.insert(i, e0));
        }
    }
}

} // verus!
