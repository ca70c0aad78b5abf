//! The active-transaction registry: which versions are in flight, and which
//! raw keys each in-flight transaction has written. Presence of a version
//! here is the sole definition of "transaction is active".

use vstd::prelude::*;
use crate::bytes::bytes_eq;
use crate::errors::MvccError;

verus! {

/// One in-flight transaction: its version and the raw keys it wrote so far.
pub struct RegEntry {
    pub version: u64,
    pub writes: Vec<Vec<u8>>,
}

/// The registry, viewed as a map from active version to its write set.
pub struct Registry {
    pub entries: Vec<RegEntry>,
}

/// The map a registry entry list denotes.
pub open spec fn reg_map(s: Seq<RegEntry>) -> Map<u64, Seq<Seq<u8>>>
    decreases s.len(),
{
    if s.len() == 0 {
        Map::empty()
    } else {
        reg_map(s.drop_last()).insert(s.last().version, s.last().writes.deep_view())
    }
}

impl View for Registry {
    type V = Map<u64, Seq<Seq<u8>>>;

    open spec fn view(&self) -> Map<u64, Seq<Seq<u8>>> {
        reg_map(self.entries@)
    }
}

/// Each registered version occurs once; its entry is what the map returns.
pub proof fn lemma_reg_map_props(s: Seq<RegEntry>)
    requires
        forall|i: int, j: int|
            #![trigger s[i], s[j]]
            0 <= i < j < s.len() ==> s[i].version != s[j].version,
    ensures
        forall|i: int|
            0 <= i < s.len() ==> reg_map(s).contains_key((#[trigger] s[i]).version) && reg_map(
                s,
            )[s[i].version] == s[i].writes.deep_view(),
        forall|v: u64| #[trigger]
            reg_map(s).contains_key(v) ==> exists|i: int| 0 <= i < s.len() && (#[trigger] s[i]).version == v,
    decreases s.len(),
{
    if s.len() == 0 {
    } else {
        let t = s.drop_last();
        assert forall|i: int, j: int|
            #![trigger t[i], t[j]]
            0 <= i < j < t.len() implies t[i].version != t[j].version by {
            assert(t[i] == s[i]);
            assert(t[j] == s[j]);
        }
        lemma_reg_map_props(t);
        let last = s.last();
        assert forall|i: int| 0 <= i < s.len() implies reg_map(s).contains_key(
            (#[trigger] s[i]).version,
        ) && reg_map(s)[s[i].version] == s[i].writes.deep_view() by {
            if i < s.len() - 1 {
                assert(t[i] == s[i]);
                assert(s[i].version != last.version);
            }
        }
        assert forall|v: u64| #[trigger] reg_map(s).contains_key(v) implies exists|i: int|
            0 <= i < s.len() && (#[trigger] s[i]).version == v by {
            if v == last.version {
                assert(s[s.len() - 1].version == v);
            } else {
                assert(reg_map(t).contains_key(v));
                let wi = choose|wi: int| 0 <= wi < t.len() && (#[trigger] t[wi]).version == v;
                assert(s[wi].version == v);
            }
        }
    }
}

/// Removing an entry removes exactly its version from the map.
pub proof fn lemma_reg_map_remove(s: Seq<RegEntry>, i: int)
    requires
        forall|a: int, b: int|
            #![trigger s[a], s[b]]
            0 <= a < b < s.len() ==> s[a].version != s[b].version,
        0 <= i < s.len(),
    ensures
        reg_map(s.remove(i)) == reg_map(s).remove(s[i].version),
    decreases s.len(),
{
    let t = s.drop_last();
    assert forall|a: int, b: int|
        #![trigger t[a], t[b]]
        0 <= a < b < t.len() implies t[a].version != t[b].version by {
        assert(t[a] == s[a]);
        assert(t[b] == s[b]);
    }
    if i == s.len() - 1 {
        assert(s.remove(i) =~= t);
        lemma_reg_map_props(t);
        assert(!reg_map(t).contains_key(s[i].version)) by {
            if reg_map(t).contains_key(s[i].version) {
                let wi = choose|wi: int|
                    0 <= wi < t.len() && (#[trigger] t[wi]).version == s[i].version;
                assert(t[wi] == s[wi]);
                assert(false);
            }
        }
        assert(reg_map(s).remove(s[i].version) =~= reg_map(t));
    } else {
        lemma_reg_map_remove(t, i);
        assert(s.remove(i).drop_last() =~= t.remove(i));
        assert(s.remove(i).last() == s.last());
        assert(s.remove(i).len() > 0);
        assert(reg_map(s.remove(i)) == reg_map(t.remove(i)).insert(
            s.last().version,
            s.last().writes.deep_view(),
        ));
        assert(t[i] == s[i]);
        assert(s[i].version != s.last().version);
        assert(reg_map(t).remove(s[i].version).insert(s.last().version, s.last().writes.deep_view())
            =~= reg_map(t).insert(s.last().version, s.last().writes.deep_view()).remove(
            s[i].version,
        ));
    }
}

impl Registry {
    /// Versions are pairwise distinct.
    pub open spec fn wf(&self) -> bool {
        forall|i: int, j: int|
            #![trigger self.entries@[i], self.entries@[j]]
            0 <= i < j < self.entries@.len() ==> self.entries@[i].version
                != self.entries@[j].version
    }

    /// An empty registry: no transaction is active.
    pub fn new() -> (r: Registry)
        ensures
            r@ == Map::<u64, Seq<Seq<u8>>>::empty(),
            r.wf(),
    {
        let r = Registry { entries: Vec::new() };
        proof {
            assert(r.entries@.len() == 0);
        }
        r
    }

    /// Index of the entry for `version`, if registered.
    fn find_index(&self, version: u64) -> (r: Option<usize>)
        ensures
            match r {
                Some(i) => i < self.entries@.len() && self.entries@[i as int].version == version,
                None => forall|j: int|
                    0 <= j < self.entries@.len() ==> (#[trigger] self.entries@[j]).version
                        != version,
            },
    {
        let mut i: usize = 0;
        while i < self.entries.len()
            invariant
                i <= self.entries@.len(),
                forall|j: int| 0 <= j < i ==> (#[trigger] self.entries@[j]).version != version,
            decreases self.entries@.len() - i,
        {
            if self.entries[i].version == version {
                return Some(i);
            }
            i = i + 1;
        }
        None
    }

    /// Whether `version` is currently registered (i.e. active).
    pub fn is_registered(&self, version: u64) -> (r: bool)
        requires
            self.wf(),
        ensures
            r == self@.contains_key(version),
    {
        proof {
            lemma_reg_map_props(self.entries@);
        }
        match self.find_index(version) {
            Some(_) => true,
            None => {
                proof {
                    if self@.contains_key(version) {
                        let wi = choose|wi: int|
                            0 <= wi < self.entries@.len() && (#[trigger] self.entries@[wi]).version
                                == version;
                        assert(false);
                    }
                }
                false
            },
        }
    }

    /// Register `version` with an empty write set.
    pub fn register(&mut self, version: u64)
        requires
            old(self).wf(),
            !old(self)@.contains_key(version),
        ensures
            final(self).wf(),
            final(self)@ == old(self)@.insert(version, Seq::<Seq<u8>>::empty()),
    {
        let ghost s = self.entries@;
        proof {
            lemma_reg_map_props(s);
        }
        self.entries.push(RegEntry { version, writes: Vec::new() });
        proof {
            let s2 = self.entries@;
            assert(s2.drop_last() =~= s);
            assert(s2.last().version == version);
            assert(s2.last().writes.deep_view() =~= Seq::<Seq<u8>>::empty());
            assert forall|i: int, j: int|
                #![trigger s2[i], s2[j]]
                0 <= i < j < s2.len() implies s2[i].version != s2[j].version by {
                if j == s2.len() - 1 {
                    assert(s2[i] == s[i]);
                    assert(s.contains(s[i]));
                }
            }
        }
    }

    /// A point-in-time list of the active versions.
    pub fn active_versions(&self) -> (r: Vec<u64>)
        requires
            self.wf(),
        ensures
            forall|v: u64| #[trigger] r@.contains(v) <==> self@.contains_key(v),
    {
        proof {
            lemma_reg_map_props(self.entries@);
        }
        let mut out: Vec<u64> = Vec::new();
        let mut i: usize = 0;
        while i < self.entries.len()
            invariant
                i <= self.entries@.len(),
                out@.len() == i,
                forall|j: int| 0 <= j < i ==> out@[j] == (#[trigger] self.entries@[j]).version,
            decreases self.entries@.len() - i,
        {
            out.push(self.entries[i].version);
            i = i + 1;
        }
        proof {
            assert forall|v: u64| #[trigger] out@.contains(v) <==> self@.contains_key(v) by {
                if out@.contains(v) {
                    let wi = choose|wi: int| 0 <= wi < out@.len() && out@[wi] == v;
                    assert(self.entries@[wi].version == v);
                }
                if self@.contains_key(v) {
                    let wi = choose|wi: int|
                        0 <= wi < self.entries@.len() && (#[trigger] self.entries@[wi]).version
                            == v;
                    assert(out@[wi] == v);
                    assert(out@.contains(v));
                }
            }
        }
        out
    }

    /// Record that `version` wrote `key`. Each key is recorded once. Fails
    /// with `StoreInvariantViolation` iff `version` is not registered.
    pub fn record_write(&mut self, version: u64, key: &[u8]) -> (r: Result<(), MvccError>)
        requires
            old(self).wf(),
        ensures
            final(self).wf(),
            match r {
                Ok(()) => old(self)@.contains_key(version) && final(self)@ == old(self)@.insert(
                    version,
                    (if old(self)@[version].contains(key@) {
                        old(self)@[version]
                    } else {
                        old(self)@[version].push(key@)
                    }),
                ),
                Err(e) => e == MvccError::StoreInvariantViolation && !old(self)@.contains_key(
                    version,
                ) && *final(self) == *old(self),
            },
    {
        let ghost s = self.entries@;
        proof {
            lemma_reg_map_props(s);
        }
        match self.find_index(version) {
            None => {
                proof {
                    if self@.contains_key(version) {
                        let wi = choose|wi: int|
                            0 <= wi < s.len() && (#[trigger] s[wi]).version == version;
                        assert(false);
                    }
                }
                Err(MvccError::StoreInvariantViolation)
            },
            Some(i) => {
                let ghost old_writes = s[i as int].writes.deep_view();
                let mut ent = self.entries.remove(i);
                let dup = writes_contain(&ent.writes, key);
                if !dup {
                    ent.writes.push(vstd::slice::slice_to_vec(key));
                    proof {
                        assert(ent.writes.deep_view() =~~= old_writes.push(key@));
                    }
                }
                self.entries.push(ent);
                proof {
                    let ghost w2 = if old_writes.contains(key@) {
                        old_writes
                    } else {
                        old_writes.push(key@)
                    };
                    assert(ent.writes.deep_view() == w2);
                    lemma_reg_map_remove(s, i as int);
                    let s2 = self.entries@;
                    assert(s2.drop_last() =~= s.remove(i as int));
                    assert(s2.last() == ent);
                    assert(reg_map(s2) == reg_map(s.remove(i as int)).insert(version, w2));
                    assert(reg_map(s).remove(version).insert(version, w2) =~= reg_map(s).insert(
                        version,
                        w2,
                    ));
                    // distinctness of the result
                    assert forall|a: int, b: int|
                        #![trigger s2[a], s2[b]]
                        0 <= a < b < s2.len() implies s2[a].version != s2[b].version by {
                        let sr = s.remove(i as int);
                        if b < s2.len() - 1 {
                            assert(s2[a] == sr[a]);
                            assert(s2[b] == sr[b]);
                            assert(sr[a] == (if a < i { s[a] } else { s[a + 1] }));
                            assert(sr[b] == (if b < i { s[b] } else { s[b + 1] }));
                        } else {
                            assert(s2[a] == sr[a]);
                            assert(sr[a] == (if a < i { s[a] } else { s[a + 1] }));
                            assert(s2[b].version == version);
                            assert(s[i as int].version == version);
                        }
                    }
                    assert(old(self)@[version] == old_writes);
                }
                Ok(())
            },
        }
    }

    /// Remove `version` from the registry, returning its recorded write set;
    /// `None` iff it was not registered.
    pub fn deregister(&mut self, version: u64) -> (r: Option<Vec<Vec<u8>>>)
        requires
            old(self).wf(),
        ensures
            final(self).wf(),
            match r {
                Some(w) => old(self)@.contains_key(version) && w.deep_view() == old(
                    self,
                )@[version] && final(self)@ == old(self)@.remove(version),
                None => !old(self)@.contains_key(version) && *final(self) == *old(self),
            },
    {
        let ghost s = self.entries@;
        proof {
            lemma_reg_map_props(s);
        }
        match self.find_index(version) {
            None => {
                proof {
                    if self@.contains_key(version) {
                        let wi = choose|wi: int|
                            0 <= wi < s.len() && (#[trigger] s[wi]).version == version;
                        assert(false);
                    }
                }
                None
            },
            Some(i) => {
                let ent = self.entries.remove(i);
                proof {
                    lemma_reg_map_remove(s, i as int);
                    let s2 = self.entries@;
                    assert forall|a: int, b: int|
                        #![trigger s2[a], s2[b]]
                        0 <= a < b < s2.len() implies s2[a].version != s2[b].version by {
                        assert(s2[a] == (if a < i { s[a] } else { s[a + 1] }));
                        assert(s2[b] == (if b < i { s[b] } else { s[b + 1] }));
                    }
                }
                Some(ent.writes)
            },
        }
    }
}

/// Whether `key` is already in a write set.
fn writes_contain(w: &Vec<Vec<u8>>, key: &[u8]) -> (r: bool)
    ensures
        r == w.deep_view().contains(key@),
{
    let mut i: usize = 0;
    while i < w.len()
        invariant
            i <= w@.len(),
            w.deep_view().len() == w@.len(),
            forall|j: int| 0 <= j < i ==> (#[trigger] w.deep_view()[j]) != key@,
        decreases w@.len() - i,
    {
        if bytes_eq(w[i].as_slice(), key) {
            proof {
                assert(w.deep_view()[i as int] =~= key@);
                assert(w.deep_view().contains(key@));
            }
            return true;
        }
        proof {
            assert(w.deep_view()[i as int] =~= w@[i as int]@);
        }
        i = i + 1;
    }
    proof {
        if w.deep_view().contains(key@) {
            let wi = choose|wi: int| 0 <= wi < w.deep_view().len() && w.deep_view()[wi] == key@;
            assert(false);
        }
    }
    false
}

} // verus!
