//! The executable aggregation store: keyed sample series with record
//! and clear operations, verified against the model in `model`.

use vstd::prelude::*;

use crate::model::EntryModel;
use crate::model::has_key;
use crate::model::keys_of;
use crate::model::law_key_separation;
use crate::model::law_record_appends;
use crate::model::lemma_record_model_absent;
use crate::model::lemma_record_model_found;
use crate::model::lemma_record_model_keys;
use crate::model::lemma_record_model_wf;
use crate::model::matches_key;
use crate::model::record_model;
use crate::model::series_of;
use crate::model::wf_store;

verus! {

/// One key and its observed latency samples, in whole milliseconds.
pub struct Entry {
    pub path: String,
    pub method: String,
    pub samples: Vec<u64>,
}

impl View for Entry {
    type V = EntryModel;

    open spec fn view(&self) -> EntryModel {
        EntryModel { path: self.path@, method: self.method@, samples: self.samples@ }
    }
}

/// The aggregation data: a mapping from (route pattern, method) to its
/// sample series, kept as a vector of entries with pairwise distinct keys.
pub struct Store {
    pub entries: Vec<Entry>,
}

impl View for Store {
    type V = Seq<EntryModel>;

    open spec fn view(&self) -> Seq<EntryModel> {
        self.entries@.map_values(|e: Entry| e@)
    }
}

impl Store {
    /// Every entry holds at least one sample and no two entries share a key.
    pub open spec fn wf(&self) -> bool {
        wf_store(self@)
    }

    /// A fresh, empty store.
    pub fn new() -> (s: Store)
        ensures
            s.wf(),
            s@ == Seq::<EntryModel>::empty(),
    {
        let s = Store { entries: Vec::new() };
        proof {
            assert(s@ =~= Seq::<EntryModel>::empty());
        }
        s
    }

    /// The index of the entry with key `(path, method)`, if present.
    fn find(&self, path: &String, method: &String) -> (r: Option<usize>)
        ensures
            match r {
                Some(i) => 0 <= i < self@.len() && matches_key(self@[i as int], path@, method@)
                    && forall|j: int|
                    0 <= j < i ==> !matches_key(#[trigger] self@[j], path@, method@),
                None => !has_key(self@, path@, method@),
            },
    {
        let n: usize = self.entries.len();
        let mut i: usize = 0;
        while i < n
            invariant
                i <= n,
                n == self.entries.len(),
                forall|j: int| 0 <= j < i ==> !matches_key(#[trigger] self@[j], path@, method@),
            decreases n - i,
        {
            let e = &self.entries[i];
            if e.path == *path && e.method == *method {
                return Some(i);
            }
            i = i + 1;
        }
        None
    }

    /// Appends one sample to the series for `(path, method)`, creating the
    /// series on first observation of that key. Never fails.
    pub fn record(&mut self, path: String, method: String, millis: u64)
        requires
            old(self).wf(),
        ensures
            final(self).wf(),
            final(self)@ == record_model(old(self)@, path@, method@, millis),
            series_of(final(self)@, path@, method@) == series_of(old(self)@, path@, method@).push(
                millis,
            ),
            forall|p2: Seq<char>, m2: Seq<char>|
                p2 != path@ || m2 != method@ ==> series_of(final(self)@, p2, m2) == series_of(
                    old(self)@,
                    p2,
                    m2,
                ),
            keys_of(final(self)@) == if has_key(old(self)@, path@, method@) {
                keys_of(old(self)@)
            } else {
                keys_of(old(self)@).push((path@, method@))
            },
    {
        let ghost pre = self@;
        match self.find(&path, &method) {
            Some(i) => {
                let mut e = self.entries.remove(i);
                e.samples.push(millis);
                self.entries.insert(i, e);
                proof {
                    let em = EntryModel {
                        path: pre[i as int].path,
                        method: pre[i as int].method,
                        samples: pre[i as int].samples.push(millis),
                    };
                    assert(self@ =~= pre.update(i as int, em));
                    lemma_record_model_found(pre, path@, method@, millis, i as int);
                }
            },
            None => {
                let mut samples: Vec<u64> = Vec::new();
                samples.push(millis);
                self.entries.push(Entry { path, method, samples });
                proof {
                    assert(self@ =~= pre.push(
                        EntryModel { path: path@, method: method@, samples: seq![millis] },
                    ));
                    lemma_record_model_absent(pre, path@, method@, millis);
                }
            },
        }
        proof {
            lemma_record_model_wf(pre, path@, method@, millis);
            law_record_appends(pre, path@, method@, millis);
            lemma_record_model_keys(pre, path@, method@, millis);
            assert forall|p2: Seq<char>, m2: Seq<char>|
                p2 != path@ || m2 != method@ implies series_of(self@, p2, m2) == series_of(
                pre,
                p2,
                m2,
            ) by {
                law_key_separation(pre, path@, method@, millis, p2, m2);
            }
        }
    }

    /// Discards every key and series, returning the store to its initial
    /// empty state.
    pub fn clear(&mut self)
        ensures
            final(self).wf(),
            final(self)@ == Seq::<EntryModel>::empty(),
    {
        self.entries.clear();
        proof {
            assert(self@ =~= Seq::<EntryModel>::empty());
        }
    }
}

} // verus!
