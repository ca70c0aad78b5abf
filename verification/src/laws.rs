//! The isolation guarantees of the transactional core, stated and proved
//! over the store model: `store_put` is what a successful `set`/`delete`
//! does to the store (see `Transaction::write`), `visible_read` is what
//! `get` and `scan_visible` return, and a rolled-back transaction leaves no
//! entry of its version behind (see `Transaction::rollback`).

use vstd::prelude::*;
use crate::store::{
    EntryM, latest_entry, lemma_latest_entry_props, lemma_latest_visible_wins,
    lemma_store_put_props, lemma_visible_read_props, sorted, spec_visible, store_put,
    visible_read, write_blocked, write_conflicts,
};

verus! {

/// Read-your-own-writes: immediately after a transaction (snapshot `snap`,
/// version `tv`) writes `val` for key `k`, its own read of `k` returns
/// exactly that write — also when the write is a tombstone (`val == None`,
/// so the key then reads as absent).
pub proof fn lemma_read_your_own_writes(
    s: Seq<EntryM>,
    snap: Set<u64>,
    tv: u64,
    k: Seq<u8>,
    val: Option<Seq<u8>>,
)
    requires
        sorted(s),
        !snap.contains(tv),
    ensures
        visible_read(store_put(s, k, tv, val), snap, tv, k) == Some(val),
{
    lemma_store_put_props(s, k, tv, val);
    let s2 = store_put(s, k, tv, val);
    let e0 = EntryM { key: k, version: tv, value: val };
    assert(s2.contains(e0));
    let wi = choose|wi: int| 0 <= wi < s2.len() && s2[wi] == e0;
    assert forall|j: int|
        0 <= j < s2.len() && (#[trigger] s2[j]).key == k && spec_visible(
            snap,
            tv,
            s2[j].version,
        ) implies s2[j].version <= s2[wi].version by {}
    lemma_latest_visible_wins(s2, snap, tv, k, wi);
}

/// Snapshot stability (repeatable reads): a write made at a version that is
/// invisible to a transaction — one in its snapshot, or newer than the
/// transaction — changes none of that transaction's reads, of any key.
/// Commit does not touch the store at all (see `Transaction::commit`), so a
/// concurrent transaction's writes stay invisible before and after it
/// commits.
pub proof fn lemma_invisible_write_ignored(
    s: Seq<EntryM>,
    snap: Set<u64>,
    tv: u64,
    w: u64,
    k2: Seq<u8>,
    val: Option<Seq<u8>>,
    k: Seq<u8>,
)
    requires
        sorted(s),
        !spec_visible(snap, tv, w),
    ensures
        visible_read(store_put(s, k2, w, val), snap, tv, k) == visible_read(s, snap, tv, k),
{
    lemma_store_put_props(s, k2, w, val);
    let s2 = store_put(s, k2, w, val);
    let e0 = EntryM { key: k2, version: w, value: val };
    lemma_visible_read_props(s, snap, tv, k);
    lemma_visible_read_props(s2, snap, tv, k);
    match visible_read(s2, snap, tv, k) {
        Some(val2) => {
            let i2 = choose|i2: int|
                0 <= i2 < s2.len() && (#[trigger] s2[i2]).key == k && spec_visible(
                    snap,
                    tv,
                    s2[i2].version,
                ) && s2[i2].value == val2 && (forall|j: int|
                    0 <= j < s2.len() && (#[trigger] s2[j]).key == k && spec_visible(
                        snap,
                        tv,
                        s2[j].version,
                    ) ==> s2[j].version <= s2[i2].version);
            let e2 = s2[i2];
            assert(s2.contains(e2));
            assert(e2 != e0);
            assert(s.contains(e2));
            let iw = choose|iw: int| 0 <= iw < s.len() && s[iw] == e2;
            assert forall|j: int|
                0 <= j < s.len() && (#[trigger] s[j]).key == k && spec_visible(
                    snap,
                    tv,
                    s[j].version,
                ) implies s[j].version <= s[iw].version by {
                assert(s.contains(s[j]));
                assert(!(s[j].key == k2 && s[j].version == w));
                assert(s2.contains(s[j]));
                let j2 = choose|j2: int| 0 <= j2 < s2.len() && s2[j2] == s[j];
                assert(s2[j2].version <= s2[i2].version);
            }
            lemma_latest_visible_wins(s, snap, tv, k, iw);
        },
        None => {
            match visible_read(s, snap, tv, k) {
                None => {},
                Some(v0) => {
                    let i = choose|i: int|
                        0 <= i < s.len() && (#[trigger] s[i]).key == k && spec_visible(
                            snap,
                            tv,
                            s[i].version,
                        ) && s[i].value == v0 && (forall|j: int|
                            0 <= j < s.len() && (#[trigger] s[j]).key == k && spec_visible(
                                snap,
                                tv,
                                s[j].version,
                            ) ==> s[j].version <= s[i].version);
                    assert(s.contains(s[i]));
                    assert(!(s[i].key == k2 && s[i].version == w));
                    assert(s2.contains(s[i]));
                    let j2 = choose|j2: int| 0 <= j2 < s2.len() && s2[j2] == s[i];
                    assert(!(s2[j2].key == k && spec_visible(snap, tv, s2[j2].version)));
                    assert(false);
                },
            }
        },
    }
}

/// Visibility after commit: once a store entry (k, vw, val) exists and no
/// newer version of `k` is visible to a reader, every reader to whom `vw` is
/// visible — in particular any transaction begun after the writer committed
/// — reads exactly `val`. Readers to whom `vw` is invisible are covered by
/// `lemma_invisible_write_ignored`.
pub proof fn lemma_committed_write_visible(
    s: Seq<EntryM>,
    snap: Set<u64>,
    tv: u64,
    vw: u64,
    k: Seq<u8>,
    val: Option<Seq<u8>>,
)
    requires
        sorted(s),
        s.contains((EntryM { key: k, version: vw, value: val })),
        spec_visible(snap, tv, vw),
        forall|i: int|
            0 <= i < s.len() && (#[trigger] s[i]).key == k && s[i].version > vw ==> !spec_visible(
                snap,
                tv,
                s[i].version,
            ),
    ensures
        visible_read(s, snap, tv, k) == Some(val),
{
    let e0 = EntryM { key: k, version: vw, value: val };
    let wi = choose|wi: int| 0 <= wi < s.len() && s[wi] == e0;
    assert forall|j: int|
        0 <= j < s.len() && (#[trigger] s[j]).key == k && spec_visible(
            snap,
            tv,
            s[j].version,
        ) implies s[j].version <= s[wi].version by {}
    lemma_latest_visible_wins(s, snap, tv, k, wi);
}

/// First-writer-wins conflict detection: after a transaction writes key `k`
/// at version `tv_a`, newest for that key, any transaction that `tv_a`
/// blocks — one that held `tv_a` in its snapshot because the two were
/// concurrent, or one that began before the writer committed — finds a
/// write conflict on `k`, so its own `set`/`delete` of `k` fails with a
/// serialization conflict (see the contract of `Transaction::write`).
pub proof fn lemma_conflict_detection(
    s: Seq<EntryM>,
    snap_b: Set<u64>,
    tv_b: u64,
    act_b: Set<u64>,
    tv_a: u64,
    k: Seq<u8>,
    val: Option<Seq<u8>>,
)
    requires
        sorted(s),
        forall|i: int| 0 <= i < s.len() && (#[trigger] s[i]).key == k ==> s[i].version <= tv_a,
        write_blocked(snap_b, tv_b, act_b, tv_a),
    ensures
        write_conflicts(store_put(s, k, tv_a, val), snap_b, tv_b, act_b, k),
{
    lemma_store_put_props(s, k, tv_a, val);
    let s2 = store_put(s, k, tv_a, val);
    let e0 = EntryM { key: k, version: tv_a, value: val };
    lemma_latest_entry_props(s2, k);
    assert(s2.contains(e0));
    let wi = choose|wi: int| 0 <= wi < s2.len() && s2[wi] == e0;
    match latest_entry(s2, k) {
        None => {
            assert(s2[wi].key != k);
            assert(false);
        },
        Some(e2) => {
            // the most recent entry for k in the new store is the new write
            assert(tv_a <= e2.version) by {
                assert(s2[wi].version <= e2.version);
            }
            assert(e2.version <= tv_a) by {
                assert(s2.contains(e2));
                if e2 != e0 {
                    assert(s.contains(e2));
                    let ei = choose|ei: int| 0 <= ei < s.len() && s[ei] == e2;
                }
            }
            assert(e2.version == tv_a);
        },
    }
}

/// Rollback atomicity: once no entry of version `v` remains in the store —
/// exactly the state `Transaction::rollback` guarantees — every read of
/// every transaction is the same as if `v` were still in its snapshot, i.e.
/// as if the rolled-back transaction had never written at all.
pub proof fn lemma_rollback_atomicity(s: Seq<EntryM>, v: u64, snap: Set<u64>, tv: u64, k: Seq<u8>)
    requires
        forall|i: int| 0 <= i < s.len() ==> (#[trigger] s[i]).version != v,
    ensures
        visible_read(s, snap, tv, k) == visible_read(s, snap.insert(v), tv, k),
    decreases s.len(),
{
    if s.len() == 0 {
    } else {
        let t = s.drop_last();
        assert forall|i: int| 0 <= i < t.len() implies (#[trigger] t[i]).version != v by {
            assert(t[i] == s[i]);
        }
        lemma_rollback_atomicity(t, v, snap, tv, k);
        assert(s[s.len() - 1].version != v);
        assert(spec_visible(snap, tv, s.last().version) == spec_visible(
            snap.insert(v),
            tv,
            s.last().version,
        ));
    }
}

/// Tombstone semantics: when the greatest visible version of `k` for a
/// reader is a tombstone, the key reads as absent — `get` returns nothing
/// (`read_result` of `Some(None)` is `None`) and `scan_visible` omits the
/// key, whose contract emits live values only. The same-transaction case is
/// `lemma_read_your_own_writes` with `val == None`.
pub proof fn lemma_tombstone_semantics(s: Seq<EntryM>, snap: Set<u64>, tv: u64, vd: u64, k: Seq<u8>)
    requires
        sorted(s),
        s.contains((EntryM { key: k, version: vd, value: None })),
        spec_visible(snap, tv, vd),
        forall|i: int|
            0 <= i < s.len() && (#[trigger] s[i]).key == k && s[i].version > vd ==> !spec_visible(
                snap,
                tv,
                s[i].version,
            ),
    ensures
        visible_read(s, snap, tv, k) == Some(None::<Seq<u8>>),
        crate::txn::read_result(visible_read(s, snap, tv, k)) == None::<Seq<u8>>,
{
    lemma_committed_write_visible(s, snap, tv, vd, k, None);
}

} // verus!
