//! Transactions: begin, read, write, delete, commit, rollback, all under the
//! snapshot-isolation visibility rule.

use vstd::prelude::*;
use crate::bytes::{bytes_eq, clone_bytes, lex_lt, lemma_lex_total, lemma_lex_trans};
use crate::errors::MvccError;
use crate::mvcc::{MVCC, writes_ok};
use crate::store::{
    EntryM, has_pair, lemma_latest_visible_wins, lemma_store_put_props, spec_visible, store_put,
    visible_read, write_conflicts,
};
use crate::version::acquire_next_version;

verus! {

/// The transaction lifecycle: `Active` until commit or rollback; the two
/// terminal states admit no further operations.
#[derive(Clone, Copy, Debug, PartialEq, Eq, Structural)]
pub enum TxnState {
    Active,
    Committed,
    RolledBack,
}

/// A transaction: its own version, the frozen set of versions active at its
/// begin time, and its lifecycle state. Version and snapshot never change
/// after begin; that is what makes reads repeatable.
pub struct Transaction {
    /// The version this transaction writes at; doubles as its identifier.
    pub version: u64,
    /// The versions that were in flight when this transaction began.
    pub active_xid: Vec<u64>,
    /// Lifecycle state.
    pub state: TxnState,
}

/// Collapse a `visible_read` outcome to what `get` hands back: a tombstone
/// and an absent key both read as absent.
pub open spec fn read_result(o: Option<Option<Seq<u8>>>) -> Option<Seq<u8>> {
    match o {
        Some(Some(v)) => Some(v),
        _ => None,
    }
}

/// The mathematical image of a list of (key, optional value) records.
pub open spec fn recs_view(r: Seq<(Vec<u8>, Option<Vec<u8>>)>) -> Seq<(Seq<u8>, Option<Seq<u8>>)> {
    Seq::new(r.len(), |i: int| (r[i].0@, r[i].1.deep_view()))
}

/// The mathematical image of a list of (key, value) pairs.
pub open spec fn pairs_view(r: Seq<(Vec<u8>, Vec<u8>)>) -> Seq<(Seq<u8>, Seq<u8>)> {
    Seq::new(r.len(), |i: int| (r[i].0@, r[i].1@))
}

impl Transaction {
    /// The frozen snapshot as a set.
    pub open spec fn snap(&self) -> Set<u64> {
        self.active_xid@.to_set()
    }

    /// Whether the transaction is still active.
    pub open spec fn is_active(&self) -> bool {
        self.state == TxnState::Active
    }

    /// Valid with respect to its coordinator: its version has been allocated,
    /// its snapshot excludes itself, and while active it is registered.
    pub open spec fn wf_for(&self, m: &MVCC) -> bool {
        &&& self.version < m.next_version
        &&& !self.snap().contains(self.version)
        &&& (self.is_active() ==> m.registry@.contains_key(self.version))
    }

    /// Begin a transaction: allocate a fresh version, capture the active set
    /// as the snapshot (never containing the new version itself), register.
    pub fn begin(m: &mut MVCC) -> (t: Transaction)
        requires
            old(m).wf(),
            old(m).next_version < u64::MAX,
        ensures
            final(m).wf(),
            t.wf_for(final(m)),
            t.is_active(),
            t.version == old(m).next_version,
            t.snap() == old(m).registry@.dom(),
            final(m).kv@ == old(m).kv@,
            final(m).next_version == old(m).next_version + 1,
            final(m).registry@ == old(m).registry@.insert(t.version, Seq::<Seq<u8>>::empty()),
    {
        let version = acquire_next_version(&mut m.next_version);
        let active_xid = m.registry.active_versions();
        proof {
            if m.registry@.contains_key(version) {
                assert(false);
            }
        }
        m.registry.register(version);
        let t = Transaction { version, active_xid, state: TxnState::Active };
        proof {
            assert(t.snap() =~= old(m).registry@.dom()) by {
                assert forall|v: u64| t.snap().contains(v) <==> old(m).registry@.dom().contains(v)
                by {
                    assert(t.snap().contains(v) == t.active_xid@.contains(v));
                    assert(old(m).registry@.dom().contains(v) == old(m).registry@.contains_key(v));
                }
            }
            assert(!t.snap().contains(t.version));
            // the new coordinator state is well-formed
            assert forall|v: u64| #[trigger] m.registry@.contains_key(v) implies v
                < m.next_version by {
                if v != version {
                    assert(old(m).registry@.contains_key(v));
                }
            }
            assert forall|v: u64| #[trigger] m.registry@.contains_key(v) implies writes_ok(
                m.kv@,
                v,
                m.registry@[v],
            ) by {
                if v != version {
                    assert(old(m).registry@.contains_key(v));
                    assert(m.registry@[v] == old(m).registry@[v]);
                }
            }
            assert forall|i: int|
                0 <= i < m.kv@.len() && m.registry@.contains_key(
                    (#[trigger] m.kv@[i]).version,
                ) implies m.registry@[m.kv@[i].version].contains(m.kv@[i].key) by {
                assert(m.kv@[i].version < version);
                assert(old(m).registry@.contains_key(m.kv@[i].version));
            }
        }
        t
    }

    /// Whether a version was active when this transaction began.
    pub fn in_snapshot(&self, version: u64) -> (r: bool)
        ensures
            r == self.snap().contains(version),
    {
        let mut i: usize = 0;
        while i < self.active_xid.len()
            invariant
                i <= self.active_xid@.len(),
                forall|j: int| 0 <= j < i ==> self.active_xid@[j] != version,
            decreases self.active_xid@.len() - i,
        {
            if self.active_xid[i] == version {
                proof {
                    assert(self.active_xid@.contains(version));
                }
                return true;
            }
            i = i + 1;
        }
        proof {
            if self.snap().contains(version) {
                let wi = choose|wi: int|
                    0 <= wi < self.active_xid@.len() && self.active_xid@[wi] == version;
                assert(false);
            }
        }
        false
    }

    /// Whether a stored version is visible to this transaction: it is not in
    /// the snapshot and not newer than the transaction itself.
    pub fn is_visible(&self, version: u64) -> (r: bool)
        ensures
            r == spec_visible(self.snap(), self.version, version),
    {
        !self.in_snapshot(version) && version <= self.version
    }

    /// Write a value (`None` is a delete) at this transaction's version.
    /// Fails with `SerializationConflict` exactly when the most recent store
    /// entry for the key blocks this writer: it was written by a transaction
    /// active at this one's begin time, or committed by one begun later.
    pub fn write(&self, m: &mut MVCC, key: &[u8], value: Option<Vec<u8>>) -> (r: Result<
        (),
        MvccError,
    >)
        requires
            old(m).wf(),
            self.wf_for(old(m)),
        ensures
            final(m).wf(),
            self.wf_for(final(m)),
            final(m).next_version == old(m).next_version,
            match r {
                Ok(()) => self.is_active() && !write_conflicts(
                    old(m).kv@,
                    self.snap(),
                    self.version,
                    old(m).registry@.dom(),
                    key@,
                ) && final(m).kv@ == store_put(old(m).kv@, key@, self.version, value.deep_view())
                    && final(m).registry@ == old(m).registry@.insert(
                    self.version,
                    (if old(m).registry@[self.version].contains(key@) {
                        old(m).registry@[self.version]
                    } else {
                        old(m).registry@[self.version].push(key@)
                    }),
                ) && visible_read(final(m).kv@, self.snap(), self.version, key@) == Some(
                    value.deep_view(),
                ),
                Err(e) => *final(m) == *old(m) && ((e == MvccError::SerializationConflict
                    && self.is_active() && write_conflicts(
                    old(m).kv@,
                    self.snap(),
                    self.version,
                    old(m).registry@.dom(),
                    key@,
                )) || (e == MvccError::InvalidTransactionState && !self.is_active())),
            },
    {
        if !(matches!(self.state, TxnState::Active)) {
            return Err(MvccError::InvalidTransactionState);
        }
        let ghost s = m.kv@;
        let ghost v = self.version;
        let ghost val = value.deep_view();
        let latest = m.kv.latest_version_for(key);
        let conflict = match latest {
            Some(ver) => {
                if self.in_snapshot(ver) {
                    true
                } else if ver > self.version {
                    !m.registry.is_registered(ver)
                } else {
                    false
                }
            },
            None => false,
        };
        if conflict {
            return Err(MvccError::SerializationConflict);
        }
        let res = m.registry.record_write(self.version, key);
        match res {
            Err(_) => {
                proof {
                    assert(false);
                }
                Err(MvccError::StoreInvariantViolation)
            },
            Ok(()) => {
                let ghost w0 = old(m).registry@[v];
                let ghost w2 = if w0.contains(key@) {
                    w0
                } else {
                    w0.push(key@)
                };
                m.kv.put(vstd::slice::slice_to_vec(key), self.version, value);
                proof {
                    let s2 = m.kv@;
                    let e0 = EntryM { key: key@, version: v, value: val };
                    lemma_store_put_props(s, key@, v, val);
                    // every version in the new store is still below the counter
                    assert forall|i: int| 0 <= i < s2.len() implies (#[trigger] s2[i]).version
                        < m.next_version by {
                        assert(s2.contains(s2[i]));
                        if s2[i] != e0 {
                            assert(s.contains(s2[i]));
                            let wi = choose|wi: int| 0 <= wi < s.len() && s[wi] == s2[i];
                        }
                    }
                    // write sets still point at real entries
                    assert forall|vr: u64| #[trigger] m.registry@.contains_key(vr) implies
                        writes_ok(s2, vr, m.registry@[vr]) by {
                        let w = m.registry@[vr];
                        if vr == v {
                            assert(w == w2);
                            assert forall|a: int, b: int|
                                #![trigger w[a], w[b]]
                                0 <= a < b < w.len() implies w[a] != w[b] by {
                                if b == w0.len() {
                                    // the pushed key was not already recorded
                                    if w[a] == key@ {
                                        assert(w0[a] == key@);
                                        assert(w0.contains(key@));
                                        assert(false);
                                    }
                                } else {
                                    assert(w[a] == w0[a]);
                                    assert(w[b] == w0[b]);
                                }
                            }
                            assert forall|j: int| 0 <= j < w.len() implies has_pair(
                                s2,
                                #[trigger] w[j],
                                v,
                            ) by {
                                if w[j] == key@ {
                                    assert(s2.contains(e0));
                                    let wi = choose|wi: int| 0 <= wi < s2.len() && s2[wi] == e0;
                                    assert(s2[wi].key == w[j] && s2[wi].version == v);
                                    assert(has_pair(s2, w[j], v));
                                } else {
                                    assert(w[j] == w0[j]);
                                    assert(writes_ok(s, v, w0));
                                    assert(has_pair(s, w0[j], v));
                                    let wi = choose|wi: int|
                                        0 <= wi < s.len() && (#[trigger] s[wi]).key == w0[j]
                                            && s[wi].version == v;
                                    assert(s.contains(s[wi]));
                                    assert(!(s[wi].key == key@ && s[wi].version == v));
                                    assert(s2.contains(s[wi]));
                                    let wj = choose|wj: int| 0 <= wj < s2.len() && s2[wj] == s[wi];
                                    assert(s2[wj].key == w[j] && s2[wj].version == v);
                                    assert(has_pair(s2, w[j], v));
                                }
                            }
                        } else {
                            assert(old(m).registry@.contains_key(vr));
                            assert(w == old(m).registry@[vr]);
                            assert(writes_ok(s, vr, w));
                            assert forall|j: int| 0 <= j < w.len() implies has_pair(
                                s2,
                                #[trigger] w[j],
                                vr,
                            ) by {
                                assert(has_pair(s, w[j], vr));
                                let wi = choose|wi: int|
                                    0 <= wi < s.len() && (#[trigger] s[wi]).key == w[j]
                                        && s[wi].version == vr;
                                assert(s.contains(s[wi]));
                                assert(!(s[wi].key == key@ && s[wi].version == v));
                                assert(s2.contains(s[wi]));
                                let wj = choose|wj: int| 0 <= wj < s2.len() && s2[wj] == s[wi];
                                assert(s2[wj].key == w[j] && s2[wj].version == vr);
                                assert(has_pair(s2, w[j], vr));
                            }
                        }
                    }
                    // every active entry in the new store is recorded
                    assert forall|i: int|
                        0 <= i < s2.len() && m.registry@.contains_key(
                            (#[trigger] s2[i]).version,
                        ) implies m.registry@[s2[i].version].contains(s2[i].key) by {
                        assert(s2.contains(s2[i]));
                        if s2[i] == e0 {
                            if w0.contains(key@) {
                                assert(m.registry@[v].contains(key@));
                            } else {
                                assert(w2[w0.len() as int] == key@);
                                assert(w2.contains(key@));
                            }
                        } else {
                            assert(s.contains(s2[i]));
                            let wi = choose|wi: int| 0 <= wi < s.len() && s[wi] == s2[i];
                            let vr = s[wi].version;
                            assert(old(m).registry@.contains_key(vr));
                            assert(old(m).registry@[vr].contains(s[wi].key));
                            if vr == v {
                                if !w0.contains(key@) {
                                    let wk = choose|wk: int|
                                        0 <= wk < w0.len() && w0[wk] == s[wi].key;
                                    assert(w2[wk] == s[wi].key);
                                    assert(w2.contains(s[wi].key));
                                }
                            }
                        }
                    }
                    // read-your-own-writes: the new entry is the greatest
                    // visible version for its key
                    assert(s2.contains(e0));
                    let wi = choose|wi: int| 0 <= wi < s2.len() && s2[wi] == e0;
                    assert forall|j: int|
                        0 <= j < s2.len() && (#[trigger] s2[j]).key == key@ && spec_visible(
                            self.snap(),
                            v,
                            s2[j].version,
                        ) implies s2[j].version <= s2[wi].version by {}
                    lemma_latest_visible_wins(s2, self.snap(), v, key@, wi);
                }
                Ok(())
            },
        }
    }

    /// Set `key` to `value` at this transaction's version.
    pub fn set(&self, m: &mut MVCC, key: &[u8], value: Vec<u8>) -> (r: Result<(), MvccError>)
        requires
            old(m).wf(),
            self.wf_for(old(m)),
        ensures
            final(m).wf(),
            self.wf_for(final(m)),
            final(m).next_version == old(m).next_version,
            match r {
                Ok(()) => self.is_active() && !write_conflicts(
                    old(m).kv@,
                    self.snap(),
                    self.version,
                    old(m).registry@.dom(),
                    key@,
                ) && final(m).kv@ == store_put(old(m).kv@, key@, self.version, Some(value@))
                    && final(m).registry@ == old(m).registry@.insert(
                    self.version,
                    (if old(m).registry@[self.version].contains(key@) {
                        old(m).registry@[self.version]
                    } else {
                        old(m).registry@[self.version].push(key@)
                    }),
                ) && visible_read(final(m).kv@, self.snap(), self.version, key@) == Some(
                    Some(value@),
                ),
                Err(e) => *final(m) == *old(m) && ((e == MvccError::SerializationConflict
                    && self.is_active() && write_conflicts(
                    old(m).kv@,
                    self.snap(),
                    self.version,
                    old(m).registry@.dom(),
                    key@,
                )) || (e == MvccError::InvalidTransactionState && !self.is_active())),
            },
    {
        let ghost gv = value@;
        proof {
            assert(Some(value).deep_view() =~~= Some(gv));
        }
        self.write(m, key, Some(value))
    }

    /// Delete `key`: write a tombstone at this transaction's version.
    pub fn delete(&self, m: &mut MVCC, key: &[u8]) -> (r: Result<(), MvccError>)
        requires
            old(m).wf(),
            self.wf_for(old(m)),
        ensures
            final(m).wf(),
            self.wf_for(final(m)),
            final(m).next_version == old(m).next_version,
            match r {
                Ok(()) => self.is_active() && !write_conflicts(
                    old(m).kv@,
                    self.snap(),
                    self.version,
                    old(m).registry@.dom(),
                    key@,
                ) && final(m).kv@ == store_put(
                    old(m).kv@,
                    key@,
                    self.version,
                    None::<Seq<u8>>,
                ) && final(m).registry@ == old(m).registry@.insert(
                    self.version,
                    (if old(m).registry@[self.version].contains(key@) {
                        old(m).registry@[self.version]
                    } else {
                        old(m).registry@[self.version].push(key@)
                    }),
                ) && visible_read(final(m).kv@, self.snap(), self.version, key@) == Some(
                    None::<Seq<u8>>,
                ),
                Err(e) => *final(m) == *old(m) && ((e == MvccError::SerializationConflict
                    && self.is_active() && write_conflicts(
                    old(m).kv@,
                    self.snap(),
                    self.version,
                    old(m).registry@.dom(),
                    key@,
                )) || (e == MvccError::InvalidTransactionState && !self.is_active())),
            },
    {
        proof {
            assert(None::<Vec<u8>>.deep_view() =~~= None::<Seq<u8>>);
        }
        self.write(m, key, None)
    }

    /// Read `key`: the value of the entry for `key` with the greatest visible
    /// version; absent when there is none or it is a tombstone.
    pub fn get(&self, m: &MVCC, key: &[u8]) -> (r: Result<Option<Vec<u8>>, MvccError>)
        ensures
            match r {
                Ok(opt) => self.is_active() && opt.deep_view() == read_result(
                    visible_read(m.kv@, self.snap(), self.version, key@),
                ),
                Err(e) => e == MvccError::InvalidTransactionState && !self.is_active(),
            },
    {
        if !(matches!(self.state, TxnState::Active)) {
            return Err(MvccError::InvalidTransactionState);
        }
        let ghost s = m.kv@;
        let mut i: usize = m.kv.entries.len();
        proof {
            assert(s.take(i as int) =~= s);
        }
        while i > 0
            invariant
                i <= s.len(),
                s == m.kv@,
                s.len() == m.kv.entries@.len(),
                self.is_active(),
                visible_read(s, self.snap(), self.version, key@) == visible_read(
                    s.take(i as int),
                    self.snap(),
                    self.version,
                    key@,
                ),
            decreases i,
        {
            i = i - 1;
            let e = &m.kv.entries[i];
            proof {
                assert(s.take(i + 1).last() == s[i as int]);
                assert(s.take(i + 1).drop_last() =~= s.take(i as int));
            }
            let hit = bytes_eq(e.key.as_slice(), key) && self.is_visible(e.version);
            if hit {
                let out = match &e.value {
                    Some(vv) => Some(clone_bytes(vv)),
                    None => None,
                };
                proof {
                    assert(visible_read(s, self.snap(), self.version, key@) == Some(
                        s[i as int].value,
                    ));
                    assert(out.deep_view() =~~= read_result(Some(s[i as int].value)));
                }
                return Ok(out);
            }
        }
        proof {
            assert(s.take(0).len() == 0);
        }
        Ok(None)
    }

    /// Scan every live, visible record: for each raw key, the value of its
    /// greatest visible version, tombstones omitted, in ascending key order.
    pub fn scan_visible(&self, m: &MVCC) -> (r: Result<Vec<(Vec<u8>, Vec<u8>)>, MvccError>)
        requires
            m.wf(),
        ensures
            match r {
                Ok(out) => self.is_active() && (forall|a: int|
                    0 <= a < pairs_view(out@).len() ==> visible_read(
                        m.kv@,
                        self.snap(),
                        self.version,
                        (#[trigger] pairs_view(out@)[a]).0,
                    ) == Some(Some(pairs_view(out@)[a].1))) && (forall|k: Seq<u8>|
                    (#[trigger] visible_read(m.kv@, self.snap(), self.version, k)) matches Some(
                        Some(_),
                    ) ==> exists|a: int|
                        0 <= a < pairs_view(out@).len() && (#[trigger] pairs_view(out@)[a]).0 == k)
                    && (forall|a: int, b: int|
                    #![trigger pairs_view(out@)[a], pairs_view(out@)[b]]
                    0 <= a < b < pairs_view(out@).len() ==> lex_lt(
                        pairs_view(out@)[a].0,
                        pairs_view(out@)[b].0,
                    )),
                Err(e) => e == MvccError::InvalidTransactionState && !self.is_active(),
            },
    {
        if !(matches!(self.state, TxnState::Active)) {
            return Err(MvccError::InvalidTransactionState);
        }
        let ghost s = m.kv@;
        let ghost snap = self.snap();
        let ghost tv = self.version;
        let mut records: Vec<(Vec<u8>, Option<Vec<u8>>)> = Vec::new();
        let mut i: usize = 0;
        proof {
            assert(s.take(0).len() == 0);
            assert(recs_view(records@).len() == 0);
        }
        while i < m.kv.entries.len()
            invariant
                i <= s.len(),
                s == m.kv@,
                s.len() == m.kv.entries@.len(),
                crate::store::sorted(s),
                snap == self.snap(),
                tv == self.version,
                self.is_active(),
                forall|a: int, b: int|
                    #![trigger recs_view(records@)[a], recs_view(records@)[b]]
                    0 <= a < b < recs_view(records@).len() ==> lex_lt(
                        recs_view(records@)[a].0,
                        recs_view(records@)[b].0,
                    ),
                forall|a: int|
                    0 <= a < recs_view(records@).len() ==> visible_read(
                        s.take(i as int),
                        snap,
                        tv,
                        (#[trigger] recs_view(records@)[a]).0,
                    ) == Some(recs_view(records@)[a].1),
                forall|k: Seq<u8>|
                    (#[trigger] visible_read(s.take(i as int), snap, tv, k)) is Some
                        ==> exists|a: int|
                        0 <= a < recs_view(records@).len() && (#[trigger] recs_view(
                            records@,
                        )[a]).0 == k,
                forall|a: int|
                    0 <= a < recs_view(records@).len() ==> exists|j: int|
                        0 <= j < i && (#[trigger] s[j]).key == (#[trigger] recs_view(
                            records@,
                        )[a]).0,
            decreases s.len() - i,
        {
            let ghost rv0 = recs_view(records@);
            let e = &m.kv.entries[i];
            proof {
                assert(s.take(i + 1).last() == s[i as int]);
                assert(s.take(i + 1).drop_last() =~= s.take(i as int));
            }
            let vis = self.is_visible(e.version);
            if vis {
                let n = records.len();
                let same_last = if n > 0 {
                    bytes_eq(records[n - 1].0.as_slice(), e.key.as_slice())
                } else {
                    false
                };
                let newkey = clone_bytes(&e.key);
                let newval = match &e.value {
                    Some(vv) => Some(clone_bytes(vv)),
                    None => None,
                };
                proof {
                    assert(newval.deep_view() =~~= s[i as int].value);
                }
                if same_last {
                    let _dropped = records.pop();
                    records.push((newkey, newval));
                    proof {
                        let rv = recs_view(records@);
                        assert(rv =~~= rv0.update(n - 1, (s[i as int].key, s[i as int].value)));
                        assert(rv0[n - 1].0 == s[i as int].key);
                        assert forall|a: int| 0 <= a < rv.len() implies (#[trigger] rv[a]).0
                            == rv0[a].0 by {}
                        // keys unchanged, so the order is unchanged
                        assert forall|a: int, b: int|
                            #![trigger rv[a], rv[b]]
                            0 <= a < b < rv.len() implies lex_lt(rv[a].0, rv[b].0) by {
                            assert(rv[a].0 == rv0[a].0 && rv[b].0 == rv0[b].0);
                        }
                        assert forall|a: int| 0 <= a < rv.len() implies visible_read(
                            s.take(i + 1),
                            snap,
                            tv,
                            (#[trigger] rv[a]).0,
                        ) == Some(rv[a].1) by {
                            if a == n - 1 {
                                assert(visible_read(s.take(i + 1), snap, tv, s[i as int].key)
                                    == Some(s[i as int].value));
                            } else {
                                assert(lex_lt(rv0[a].0, rv0[n - 1].0));
                                if rv[a].0 == s[i as int].key {
                                    lemma_lex_total(rv0[a].0, rv0[n - 1].0);
                                    assert(false);
                                }
                                assert(visible_read(s.take(i + 1), snap, tv, rv[a].0)
                                    == visible_read(s.take(i as int), snap, tv, rv[a].0));
                            }
                        }
                        assert forall|k: Seq<u8>|
                            (#[trigger] visible_read(s.take(i + 1), snap, tv, k)) is Some implies
                            exists|a: int| 0 <= a < rv.len() && (#[trigger] rv[a]).0 == k by {
                            if k == s[i as int].key {
                                assert(rv[n - 1].0 == k);
                            } else {
                                assert(visible_read(s.take(i + 1), snap, tv, k) == visible_read(
                                    s.take(i as int),
                                    snap,
                                    tv,
                                    k,
                                ));
                                let a = choose|a: int|
                                    0 <= a < rv0.len() && (#[trigger] rv0[a]).0 == k;
                                assert(rv[a].0 == k);
                            }
                        }
                        assert forall|a: int| 0 <= a < rv.len() implies exists|j: int|
                            0 <= j < i + 1 && (#[trigger] s[j]).key == (#[trigger] rv[a]).0 by {
                            if a == n - 1 {
                                assert(s[i as int].key == rv[a].0);
                            } else {
                                let j = choose|j: int|
                                    0 <= j < i && (#[trigger] s[j]).key == (#[trigger] rv0[a]).0;
                                assert(s[j].key == rv[a].0);
                            }
                        }
                    }
                } else {
                    records.push((newkey, newval));
                    proof {
                        let rv = recs_view(records@);
                        assert(rv =~~= rv0.push((s[i as int].key, s[i as int].value)));
                        assert forall|a: int| 0 <= a < n implies lex_lt(
                            (#[trigger] rv0[a]).0,
                            s[i as int].key,
                        ) by {
                            let j = choose|j: int|
                                0 <= j < i && (#[trigger] s[j]).key == (#[trigger] rv0[a]).0;
                            assert(crate::store::entry_lt(
                                s[j].key,
                                s[j].version,
                                s[i as int].key,
                                s[i as int].version,
                            ));
                            if !lex_lt(rv0[a].0, s[i as int].key) {
                                // then the keys are equal, which contradicts
                                // the strictly ascending record keys
                                assert(rv0[a].0 == s[i as int].key);
                                if a == n - 1 {
                                    assert(false);
                                } else {
                                    assert(lex_lt(rv0[a].0, rv0[n - 1].0));
                                    let j2 = choose|j2: int|
                                        0 <= j2 < i && (#[trigger] s[j2]).key == (#[trigger] rv0[n
                                            - 1]).0;
                                    assert(crate::store::entry_lt(
                                        s[j2].key,
                                        s[j2].version,
                                        s[i as int].key,
                                        s[i as int].version,
                                    ));
                                    if s[j2].key == s[i as int].key {
                                        lemma_lex_total(rv0[a].0, rv0[n - 1].0);
                                        assert(false);
                                    } else {
                                        lemma_lex_trans(rv0[a].0, rv0[n - 1].0, s[i as int].key);
                                        lemma_lex_total(rv0[a].0, s[i as int].key);
                                        assert(false);
                                    }
                                }
                            }
                        }
                        assert forall|a: int, b: int|
                            #![trigger rv[a], rv[b]]
                            0 <= a < b < rv.len() implies lex_lt(rv[a].0, rv[b].0) by {
                            if b == n {
                                assert(rv[a].0 == rv0[a].0);
                            } else {
                                assert(rv[a].0 == rv0[a].0 && rv[b].0 == rv0[b].0);
                            }
                        }
                        assert forall|a: int| 0 <= a < rv.len() implies visible_read(
                            s.take(i + 1),
                            snap,
                            tv,
                            (#[trigger] rv[a]).0,
                        ) == Some(rv[a].1) by {
                            if a == n {
                                assert(visible_read(s.take(i + 1), snap, tv, s[i as int].key)
                                    == Some(s[i as int].value));
                            } else {
                                assert(lex_lt(rv0[a].0, s[i as int].key));
                                if rv[a].0 == s[i as int].key {
                                    lemma_lex_total(rv0[a].0, s[i as int].key);
                                    assert(false);
                                }
                                assert(visible_read(s.take(i + 1), snap, tv, rv[a].0)
                                    == visible_read(s.take(i as int), snap, tv, rv[a].0));
                            }
                        }
                        assert forall|k: Seq<u8>|
                            (#[trigger] visible_read(s.take(i + 1), snap, tv, k)) is Some implies
                            exists|a: int| 0 <= a < rv.len() && (#[trigger] rv[a]).0 == k by {
                            if k == s[i as int].key {
                                assert(rv[n as int].0 == k);
                            } else {
                                assert(visible_read(s.take(i + 1), snap, tv, k) == visible_read(
                                    s.take(i as int),
                                    snap,
                                    tv,
                                    k,
                                ));
                                let a = choose|a: int|
                                    0 <= a < rv0.len() && (#[trigger] rv0[a]).0 == k;
                                assert(rv[a].0 == k);
                            }
                        }
                        assert forall|a: int| 0 <= a < rv.len() implies exists|j: int|
                            0 <= j < i + 1 && (#[trigger] s[j]).key == (#[trigger] rv[a]).0 by {
                            if a == n {
                                assert(s[i as int].key == rv[a].0);
                            } else {
                                let j = choose|j: int|
                                    0 <= j < i && (#[trigger] s[j]).key == (#[trigger] rv0[a]).0;
                                assert(s[j].key == rv[a].0);
                            }
                        }
                    }
                }
            } else {
                proof {
                    let rv = recs_view(records@);
                    assert forall|k: Seq<u8>| #[trigger]
                        visible_read(s.take(i + 1), snap, tv, k) == visible_read(
                            s.take(i as int),
                            snap,
                            tv,
                            k,
                        ) by {}
                }
            }
            i = i + 1;
        }
        proof {
            assert(s.take(s.len() as int) =~= s);
        }
        let ghost rvf = recs_view(records@);
        let mut out: Vec<(Vec<u8>, Vec<u8>)> = Vec::new();
        let mut j: usize = 0;
        proof {
            assert(pairs_view(out@).len() == 0);
        }
        while j < records.len()
            invariant
                j <= records@.len(),
                rvf == recs_view(records@),
                rvf.len() == records@.len(),
                s == m.kv@,
                snap == self.snap(),
                tv == self.version,
                self.is_active(),
                forall|a: int, b: int|
                    #![trigger rvf[a], rvf[b]]
                    0 <= a < b < rvf.len() ==> lex_lt(rvf[a].0, rvf[b].0),
                forall|a: int|
                    0 <= a < rvf.len() ==> visible_read(s, snap, tv, (#[trigger] rvf[a]).0) == Some(
                        rvf[a].1,
                    ),
                forall|k: Seq<u8>|
                    (#[trigger] visible_read(s, snap, tv, k)) is Some ==> exists|a: int|
                        0 <= a < rvf.len() && (#[trigger] rvf[a]).0 == k,
                forall|a: int|
                    0 <= a < pairs_view(out@).len() ==> exists|c: int|
                        0 <= c < j && (#[trigger] rvf[c]).0 == (#[trigger] pairs_view(
                            out@,
                        )[a]).0 && rvf[c].1 == Some(pairs_view(out@)[a].1),
                forall|c: int|
                    0 <= c < j && (#[trigger] rvf[c]).1 is Some ==> exists|a: int|
                        0 <= a < pairs_view(out@).len() && (#[trigger] pairs_view(out@)[a]).0
                            == rvf[c].0,
                forall|a: int, b: int|
                    #![trigger pairs_view(out@)[a], pairs_view(out@)[b]]
                    0 <= a < b < pairs_view(out@).len() ==> lex_lt(
                        pairs_view(out@)[a].0,
                        pairs_view(out@)[b].0,
                    ),
            decreases records@.len() - j,
        {
            let ghost ov0 = pairs_view(out@);
            let push_item: Option<(Vec<u8>, Vec<u8>)> = {
                let rec = &records[j];
                match &rec.1 {
                    Some(vv) => Some((clone_bytes(&rec.0), clone_bytes(vv))),
                    None => None,
                }
            };
            match push_item {
                Some(p) => {
                    proof {
                        assert(rvf[j as int].1 =~~= Some(p.1@));
                        assert(rvf[j as int].0 == p.0@);
                    }
                    let ghost gp = (p.0@, p.1@);
                    out.push(p);
                    proof {
                        let ov = pairs_view(out@);
                        let nn = ov0.len() as int;
                        assert(ov =~~= ov0.push(gp));
                        assert forall|a: int, b: int|
                            #![trigger ov[a], ov[b]]
                            0 <= a < b < ov.len() implies lex_lt(ov[a].0, ov[b].0) by {
                            if b == nn {
                                assert(ov[a] == ov0[a]);
                                let c = choose|c: int|
                                    0 <= c < j && (#[trigger] rvf[c]).0 == (#[trigger] ov0[a]).0
                                        && rvf[c].1 == Some(ov0[a].1);
                                assert(lex_lt(rvf[c].0, rvf[j as int].0));
                            } else {
                                assert(ov[a] == ov0[a] && ov[b] == ov0[b]);
                            }
                        }
                        assert forall|a: int| 0 <= a < ov.len() implies exists|c: int|
                            0 <= c < j + 1 && (#[trigger] rvf[c]).0 == (#[trigger] ov[a]).0
                                && rvf[c].1 == Some(ov[a].1) by {
                            if a == nn {
                                assert(rvf[j as int].0 == ov[a].0 && rvf[j as int].1 == Some(
                                    ov[a].1,
                                ));
                            } else {
                                assert(ov[a] == ov0[a]);
                                let c = choose|c: int|
                                    0 <= c < j && (#[trigger] rvf[c]).0 == (#[trigger] ov0[a]).0
                                        && rvf[c].1 == Some(ov0[a].1);
                                assert(rvf[c].0 == ov[a].0 && rvf[c].1 == Some(ov[a].1));
                            }
                        }
                        assert forall|c: int|
                            0 <= c < j + 1 && (#[trigger] rvf[c]).1 is Some implies exists|a: int|
                            0 <= a < ov.len() && (#[trigger] ov[a]).0 == rvf[c].0 by {
                            if c == j {
                                assert(ov[nn].0 == rvf[c].0);
                            } else {
                                let a = choose|a: int|
                                    0 <= a < ov0.len() && (#[trigger] ov0[a]).0 == rvf[c].0;
                                assert(ov[a].0 == rvf[c].0);
                            }
                        }
                    }
                },
                None => {
                    proof {
                        assert(!((#[trigger] rvf[j as int]).1 is Some));
                        assert forall|c: int|
                            0 <= c < j + 1 && (#[trigger] rvf[c]).1 is Some implies exists|a: int|
                            0 <= a < pairs_view(out@).len() && (#[trigger] pairs_view(out@)[a]).0
                                == rvf[c].0 by {
                            assert(c < j);
                        }
                    }
                },
            }
            j = j + 1;
        }
        proof {
            assert forall|k: Seq<u8>|
                (#[trigger] visible_read(m.kv@, self.snap(), self.version, k)) matches Some(
                    Some(_),
                ) implies exists|a: int|
                0 <= a < pairs_view(out@).len() && (#[trigger] pairs_view(out@)[a]).0 == k by {
                let c = choose|c: int| 0 <= c < rvf.len() && (#[trigger] rvf[c]).0 == k;
                assert(visible_read(s, snap, tv, rvf[c].0) == Some(rvf[c].1));
                assert(rvf[c].1 is Some);
            }
            assert forall|a: int| 0 <= a < pairs_view(out@).len() implies visible_read(
                m.kv@,
                self.snap(),
                self.version,
                (#[trigger] pairs_view(out@)[a]).0,
            ) == Some(Some(pairs_view(out@)[a].1)) by {
                let c = choose|c: int|
                    0 <= c < records@.len() && (#[trigger] rvf[c]).0 == (#[trigger] pairs_view(
                        out@,
                    )[a]).0 && rvf[c].1 == Some(pairs_view(out@)[a].1);
                assert(visible_read(s, snap, tv, rvf[c].0) == Some(rvf[c].1));
            }
        }
        Ok(out)
    }

    /// Commit: deregister, making this transaction's writes visible to every
    /// transaction begun from now on. The store itself is untouched, so
    /// nothing changes for transactions already running: reads are
    /// repeatable.
    pub fn commit(&mut self, m: &mut MVCC) -> (r: Result<(), MvccError>)
        requires
            old(m).wf(),
            old(self).wf_for(old(m)),
        ensures
            final(m).wf(),
            final(self).version == old(self).version,
            final(self).active_xid == old(self).active_xid,
            final(m).kv@ == old(m).kv@,
            final(m).next_version == old(m).next_version,
            match r {
                Ok(()) => old(self).is_active() && final(self).state == TxnState::Committed
                    && final(m).registry@ == old(m).registry@.remove(old(self).version),
                Err(e) => e == MvccError::InvalidTransactionState && !old(self).is_active() && *final(self) == *old(self) && *final(m) == *old(m),
            },
    {
        if !(matches!(self.state, TxnState::Active)) {
            return Err(MvccError::InvalidTransactionState);
        }
        let _writes = m.registry.deregister(self.version);
        self.state = TxnState::Committed;
        proof {
            lemma_wf_after_deregister(old(m), m, old(self).version);
        }
        Ok(())
    }

    /// Roll back: remove every entry this transaction wrote from the store,
    /// then deregister. Afterwards no entry of this version remains.
    pub fn rollback(&mut self, m: &mut MVCC) -> (r: Result<(), MvccError>)
        requires
            old(m).wf(),
            old(self).wf_for(old(m)),
        ensures
            final(m).wf(),
            final(self).version == old(self).version,
            final(self).active_xid == old(self).active_xid,
            final(m).next_version == old(m).next_version,
            match r {
                Ok(()) => old(self).is_active() && final(self).state == TxnState::RolledBack
                    && final(m).registry@ == old(m).registry@.remove(old(self).version) && (forall|
                    e: EntryM,
                |
                    #[trigger] final(m).kv@.contains(e) <==> (old(m).kv@.contains(e) && e.version
                        != old(self).version)),
                Err(e) => e == MvccError::InvalidTransactionState && !old(self).is_active() && *final(self) == *old(self) && *final(m) == *old(m),
            },
    {
        if !(matches!(self.state, TxnState::Active)) {
            return Err(MvccError::InvalidTransactionState);
        }
        let ghost s0 = m.kv@;
        let ghost v = old(self).version;
        let wopt = m.registry.deregister(self.version);
        let writes = match wopt {
            Some(w) => w,
            None => {
                proof {
                    assert(false);
                }
                return Err(MvccError::StoreInvariantViolation);
            },
        };
        let ghost ws = writes.deep_view();
        proof {
            assert(writes_ok(s0, v, ws));
        }
        let mut idx: usize = 0;
        proof {
            assert(ws.take(0).len() == 0);
        }
        while idx < writes.len()
            invariant
                idx <= ws.len(),
                ws.len() == writes@.len(),
                ws == writes.deep_view(),
                v == self.version,
                crate::store::sorted(m.kv@),
                m.registry@ == old(m).registry@.remove(v),
                m.registry.wf(),
                m.next_version == old(m).next_version,
                s0 == old(m).kv@,
                old(m).wf(),
                writes_ok(s0, v, ws),
                forall|e: EntryM| #[trigger]
                    m.kv@.contains(e) <==> (s0.contains(e) && !(e.version == v && ws.take(
                        idx as int,
                    ).contains(e.key))),
            decreases writes@.len() - idx,
        {
            let ghost pre = m.kv@;
            let ghost kk = ws[idx as int];
            proof {
                assert(writes.deep_view()[idx as int] =~= writes@[idx as int]@);
            }
            let found = {
                let k = &writes[idx];
                m.kv.remove_pair(k.as_slice(), self.version)
            };
            proof {
                // the recorded entry is still present, so the removal found it
                assert(has_pair(s0, kk, v));
                let wi = choose|wi: int|
                    0 <= wi < s0.len() && (#[trigger] s0[wi]).key == kk && s0[wi].version == v;
                let e = s0[wi];
                assert(s0.contains(e));
                assert(!ws.take(idx as int).contains(e.key)) by {
                    if ws.take(idx as int).contains(e.key) {
                        let wa = choose|wa: int|
                            0 <= wa < idx && ws.take(idx as int)[wa] == e.key;
                        assert(ws[wa] == ws[idx as int]);
                        assert(false);
                    }
                }
                assert(pre.contains(e));
                let wj = choose|wj: int| 0 <= wj < pre.len() && pre[wj] == e;
                assert(found);
            }
            if !found {
                return Err(MvccError::StoreInvariantViolation);
            }
            proof {
                // removing (ws[idx], v) extends the purged prefix by one key
                assert forall|e: EntryM| #[trigger]
                    m.kv@.contains(e) <==> (s0.contains(e) && !(e.version == v && ws.take(
                        idx + 1,
                    ).contains(e.key))) by {
                    assert(m.kv@.contains(e) <==> (pre.contains(e) && !(e.key == kk && e.version
                        == v)));
                    assert(ws.take(idx + 1) =~= ws.take(idx as int).push(ws[idx as int]));
                    if ws.take(idx + 1).contains(e.key) {
                        let wa = choose|wa: int|
                            0 <= wa < idx + 1 && #[trigger] ws.take(idx + 1)[wa] == e.key;
                        if wa < idx {
                            assert(ws.take(idx as int)[wa] == e.key);
                            assert(ws.take(idx as int).contains(e.key));
                        } else {
                            assert(e.key == kk);
                        }
                    }
                    if ws.take(idx as int).contains(e.key) {
                        let wa = choose|wa: int|
                            0 <= wa < idx && ws.take(idx as int)[wa] == e.key;
                        assert(ws.take(idx + 1)[wa] == e.key);
                        assert(ws.take(idx + 1).contains(e.key));
                    }
                    if e.key == kk {
                        assert(ws.take(idx + 1)[idx as int] == e.key);
                        assert(ws.take(idx + 1).contains(e.key));
                    }
                }
            }
            idx = idx + 1;
        }
        self.state = TxnState::RolledBack;
        proof {
            assert(ws.take(ws.len() as int) =~= ws);
            // every surviving entry has another version; every entry of
            // another version survives
            assert forall|e: EntryM| #[trigger]
                m.kv@.contains(e) <==> (s0.contains(e) && e.version != v) by {
                if s0.contains(e) && e.version == v {
                    let wi = choose|wi: int| 0 <= wi < s0.len() && s0[wi] == e;
                    assert(old(m).registry@.contains_key(v));
                    assert(old(m).registry@[v].contains(e.key));
                    assert(ws.contains(e.key));
                }
            }
            // the coordinator is still well-formed
            assert forall|i: int| 0 <= i < m.kv@.len() implies (#[trigger] m.kv@[i]).version
                < m.next_version by {
                assert(m.kv@.contains(m.kv@[i]));
                assert(s0.contains(m.kv@[i]));
                let wi = choose|wi: int| 0 <= wi < s0.len() && s0[wi] == m.kv@[i];
            }
            assert forall|vr: u64| #[trigger] m.registry@.contains_key(vr) implies writes_ok(
                m.kv@,
                vr,
                m.registry@[vr],
            ) by {
                assert(old(m).registry@.contains_key(vr));
                assert(vr != v);
                assert(m.registry@[vr] == old(m).registry@[vr]);
                let w = m.registry@[vr];
                assert(writes_ok(s0, vr, w));
                assert forall|j: int| 0 <= j < w.len() implies has_pair(
                    m.kv@,
                    #[trigger] w[j],
                    vr,
                ) by {
                    assert(has_pair(s0, w[j], vr));
                    let wi = choose|wi: int|
                        0 <= wi < s0.len() && (#[trigger] s0[wi]).key == w[j] && s0[wi].version
                            == vr;
                    assert(s0.contains(s0[wi]));
                    assert(m.kv@.contains(s0[wi]));
                    let wj = choose|wj: int| 0 <= wj < m.kv@.len() && m.kv@[wj] == s0[wi];
                    assert(m.kv@[wj].key == w[j] && m.kv@[wj].version == vr);
                    assert(has_pair(m.kv@, w[j], vr));
                }
            }
            assert forall|i: int|
                0 <= i < m.kv@.len() && m.registry@.contains_key(
                    (#[trigger] m.kv@[i]).version,
                ) implies m.registry@[m.kv@[i].version].contains(m.kv@[i].key) by {
                assert(m.kv@.contains(m.kv@[i]));
                assert(s0.contains(m.kv@[i]));
                let wi = choose|wi: int| 0 <= wi < s0.len() && s0[wi] == m.kv@[i];
                assert(old(m).registry@.contains_key(s0[wi].version));
            }
        }
        Ok(())
    }
}

/// Deregistering a version preserves the coordinator invariant when the
/// store is unchanged.
proof fn lemma_wf_after_deregister(pre: &MVCC, post: &MVCC, v: u64)
    requires
        pre.wf(),
        post.kv@ == pre.kv@,
        post.registry.wf(),
        post.registry@ == pre.registry@.remove(v),
        post.next_version == pre.next_version,
    ensures
        post.wf(),
{
    assert forall|vr: u64| #[trigger] post.registry@.contains_key(vr) implies vr
        < post.next_version by {
        assert(pre.registry@.contains_key(vr));
    }
    assert forall|vr: u64| #[trigger] post.registry@.contains_key(vr) implies writes_ok(
        post.kv@,
        vr,
        post.registry@[vr],
    ) by {
        assert(pre.registry@.contains_key(vr));
        assert(post.registry@[vr] == pre.registry@[vr]);
    }
    assert forall|i: int|
        0 <= i < post.kv@.len() && post.registry@.contains_key(
            (#[trigger] post.kv@[i]).version,
        ) implies post.registry@[post.kv@[i].version].contains(post.kv@[i].key) by {
        assert(pre.registry@.contains_key(post.kv@[i].version));
    }
}

} // verus!
