//! The shared aggregation store: a reader/writer lock around the store
//! data, recording from many concurrent callers and summarizing or
//! clearing from the reporting path.

use vstd::prelude::*;
use vstd::rwlock::RwLock;

use crate::model::EntryModel;
use crate::model::rows_of;
use crate::model::wf_store;
use crate::report::render_of;
use crate::report::sort_spec;
use crate::report::SortOptions;
use crate::store::Store;

verus! {

/// The invariant every value stored under the lock satisfies.
pub open spec fn store_inv() -> spec_fn(Store) -> bool {
    |s: Store| s.wf()
}

/// The concurrent aggregation store. Writers (`record`, `clear`) and
/// readers (`tsv`) exclude each other per operation: no reader observes
/// a partially updated store, and a report summarizes one consistent
/// snapshot.
pub struct Measured {
    lock: RwLock<Store, spec_fn(Store) -> bool>,
}

impl Measured {
    /// The lock is configured to hold exactly the well-formed stores.
    pub closed spec fn wf(&self) -> bool {
        self.lock.pred() == store_inv()
    }

    /// A fresh, empty store.
    pub fn new() -> (m: Measured)
        ensures
            m.wf(),
    {
        let store = Store::new();
        proof {
            assert(store_inv()(store));
        }
        Measured { lock: RwLock::new(store, Ghost(store_inv())) }
    }

    /// Records one latency sample, in whole milliseconds, under the key
    /// `(path, method)`. Concurrent callers are serialized by the write
    /// lock; each call appends exactly one sample to that key's series
    /// and touches no other key. Always succeeds.
    pub fn record(&self, path: String, method: String, millis: u64)
        requires
            self.wf(),
    {
        let (mut store, handle) = self.lock.acquire_write();
        proof {
            assert(store_inv()(store));
        }
        store.record(path, method, millis);
        proof {
            assert(store_inv()(store));
        }
        handle.release_write(store);
    }

    /// Renders the tab-separated report of one consistent, well-formed
    /// snapshot of the store, sorted descending on the chosen field.
    pub fn tsv(&self, sortby: SortOptions) -> (out: String)
        requires
            self.wf(),
        ensures
            exists|snapshot: Seq<EntryModel>|
                wf_store(snapshot) && out@ == render_of(
                    #[trigger] sort_spec(rows_of(snapshot), sortby),
                ),
    {
        let handle = self.lock.acquire_read();
        let store = handle.borrow();
        proof {
            assert(store_inv()(*store));
        }
        let out = store.summarize(sortby);
        let ghost snapshot = store@;
        handle.release_read();
        proof {
            assert(wf_store(snapshot));
            assert(out@ == render_of(sort_spec(rows_of(snapshot), sortby)));
        }
        out
    }

    /// Atomically discards all keys and series: the store is back in its
    /// initial empty state, and the next report is just the header line.
    pub fn clear(&self)
        requires
            self.wf(),
    {
        let (_discarded, handle) = self.lock.acquire_write();
        let empty = Store::new();
        proof {
            assert(store_inv()(empty));
        }
        handle.release_write(empty);
    }
}

impl Default for Measured {
    /// The same fresh, empty store that `new` yields.
    fn default() -> (m: Measured)
        ensures
            m.wf(),
    {
        Measured::new()
    }
}

} // verus!
