//! The transactional coordinator: one object owning the store, the
//! active-transaction registry and the version counter, shared by reference
//! among the transactions it hands out.

use vstd::prelude::*;
use crate::registry::Registry;
use crate::store::{EntryM, KVEngine, has_pair, sorted};
use crate::txn::Transaction;

verus! {

/// A write set is well-formed for version `v` against store `s`: its keys are
/// pairwise distinct and each one has a store entry at exactly (key, v), so a
/// rollback can always find and remove exactly what was written.
pub open spec fn writes_ok(s: Seq<EntryM>, v: u64, w: Seq<Seq<u8>>) -> bool {
    &&& forall|a: int, b: int| #![trigger w[a], w[b]] 0 <= a < b < w.len() ==> w[a] != w[b]
    &&& forall|j: int| 0 <= j < w.len() ==> has_pair(s, #[trigger] w[j], v)
}

/// The greatest version occurring in a store, 0 when it is empty.
pub open spec fn max_version(s: Seq<EntryM>) -> u64
    decreases s.len(),
{
    if s.len() == 0 {
        0u64
    } else if s.last().version > max_version(s.drop_last()) {
        s.last().version
    } else {
        max_version(s.drop_last())
    }
}

/// The multi-version store with its transactional bookkeeping.
pub struct MVCC {
    /// The ordered multi-version substrate.
    pub kv: KVEngine,
    /// Which versions are in flight, and what each has written.
    pub registry: Registry,
    /// The next version to hand out; greater than every version in use.
    pub next_version: u64,
}

impl MVCC {
    /// The coordinator's invariant, established by `new` and preserved by
    /// every operation.
    pub open spec fn wf(&self) -> bool {
        &&& sorted(self.kv@)
        &&& self.registry.wf()
        &&& 1 <= self.next_version
        &&& forall|v: u64| #[trigger] self.registry@.contains_key(v) ==> v < self.next_version
        &&& forall|i: int|
            0 <= i < self.kv@.len() ==> (#[trigger] self.kv@[i]).version < self.next_version
        &&& forall|v: u64| #[trigger]
            self.registry@.contains_key(v) ==> writes_ok(self.kv@, v, self.registry@[v])
        &&& forall|i: int|
            0 <= i < self.kv@.len() && self.registry@.contains_key(
                (#[trigger] self.kv@[i]).version,
            ) ==> self.registry@[self.kv@[i].version].contains(self.kv@[i].key)
    }

    /// Wrap a sorted store: no transaction active, the version counter past
    /// everything already stored.
    pub fn new(kv: KVEngine) -> (r: MVCC)
        requires
            sorted(kv@),
            forall|i: int| 0 <= i < kv@.len() ==> (#[trigger] kv@[i]).version < u64::MAX,
        ensures
            r.wf(),
            r.kv@ == kv@,
            r.registry@ == Map::<u64, Seq<Seq<u8>>>::empty(),
            r.next_version == max_version(kv@) + 1,
    {
        let mut next: u64 = 1;
        let mut i: usize = 0;
        proof {
            assert(kv@.take(0).len() == 0);
        }
        while i < kv.entries.len()
            invariant
                1 <= next,
                i <= kv@.len(),
                kv@.len() == kv.entries@.len(),
                next == max_version(kv@.take(i as int)) + 1,
                forall|j: int| 0 <= j < i ==> (#[trigger] kv@[j]).version < next,
                forall|j: int| 0 <= j < kv@.len() ==> (#[trigger] kv@[j]).version < u64::MAX,
            decreases kv.entries@.len() - i,
        {
            let ver = kv.entries[i].version;
            proof {
                assert(kv@[i as int].version < u64::MAX);
                assert(kv@.take(i + 1).last() == kv@[i as int]);
                assert(kv@.take(i + 1).drop_last() =~= kv@.take(i as int));
            }
            if ver >= next {
                next = ver + 1;
            }
            i = i + 1;
        }
        proof {
            assert(kv@.take(kv@.len() as int) =~= kv@);
        }
        let r = MVCC { kv, registry: Registry::new(), next_version: next };
        proof {
            assert forall|v: u64| !(#[trigger] r.registry@.contains_key(v)) by {
                assert(r.registry@ == Map::<u64, Seq<Seq<u8>>>::empty());
            }
        }
        r
    }

    /// Begin a snapshot-isolated transaction against this coordinator.
    pub fn begin_transaction(&mut self) -> (t: Transaction)
        requires
            old(self).wf(),
            old(self).next_version < u64::MAX,
        ensures
            final(self).wf(),
            t.wf_for(final(self)),
            t.is_active(),
            t.version == old(self).next_version,
            t.snap() == old(self).registry@.dom(),
            final(self).kv@ == old(self).kv@,
            final(self).next_version == old(self).next_version + 1,
            final(self).registry@ == old(self).registry@.insert(t.version, Seq::<Seq<u8>>::empty()),
    {
        Transaction::begin(self)
    }
}

} // verus!
