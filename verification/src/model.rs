//! The mathematical model of the aggregation store: a sequence of keyed
//! sample series, and what recording a sample does to it.

use vstd::prelude::*;

verus! {

/// Model of one store entry: a (route pattern, method) key and the
/// millisecond samples observed for it, in arrival order.
pub ghost struct EntryModel {
    pub path: Seq<char>,
    pub method: Seq<char>,
    pub samples: Seq<u64>,
}

/// Whether entry `e` carries the key `(p, m)`.
pub open spec fn matches_key(e: EntryModel, p: Seq<char>, m: Seq<char>) -> bool {
    e.path == p && e.method == m
}

/// Whether some entry of `s` carries the key `(p, m)`.
pub open spec fn has_key(s: Seq<EntryModel>, p: Seq<char>, m: Seq<char>) -> bool {
    exists|i: int| 0 <= i < s.len() && matches_key(#[trigger] s[i], p, m)
}

/// The sample series stored for key `(p, m)`: the samples of the first
/// entry with that key, or the empty series if the key is absent.
pub open spec fn series_of(s: Seq<EntryModel>, p: Seq<char>, m: Seq<char>) -> Seq<u64>
    decreases s.len(),
{
    if s.len() == 0 {
        Seq::empty()
    } else if matches_key(s[0], p, m) {
        s[0].samples
    } else {
        series_of(s.drop_first(), p, m)
    }
}

/// The keys of the entries, in store order.
pub open spec fn keys_of(s: Seq<EntryModel>) -> Seq<(Seq<char>, Seq<char>)> {
    s.map_values(|e: EntryModel| (e.path, e.method))
}

/// Well-formed store: every entry holds at least one sample, and no two
/// entries share a key.
pub open spec fn wf_store(s: Seq<EntryModel>) -> bool {
    (forall|i: int| 0 <= i < s.len() ==> (#[trigger] s[i]).samples.len() >= 1)
        && (forall|i: int, j: int|
            0 <= i < j < s.len() ==> !matches_key(#[trigger] s[j], (#[trigger] s[i]).path, s[i].method))
}

/// What recording one sample `d` under key `(p, m)` does to the store:
/// the sample is appended to the series of the first entry with that key,
/// or a fresh one-sample entry is appended at the end.
pub open spec fn record_model(s: Seq<EntryModel>, p: Seq<char>, m: Seq<char>, d: u64) -> Seq<EntryModel>
    decreases s.len(),
{
    if s.len() == 0 {
        seq![EntryModel { path: p, method: m, samples: seq![d] }]
    } else if matches_key(s[0], p, m) {
        seq![EntryModel { path: s[0].path, method: s[0].method, samples: s[0].samples.push(d) }]
            + s.drop_first()
    } else {
        seq![s[0]] + record_model(s.drop_first(), p, m, d)
    }
}

/// When `(p, m)` is absent, recording appends a fresh entry at the end.
pub proof fn lemma_record_model_absent(s: Seq<EntryModel>, p: Seq<char>, m: Seq<char>, d: u64)
    requires
        !has_key(s, p, m),
    ensures
        record_model(s, p, m, d) == s.push(EntryModel { path: p, method: m, samples: seq![d] }),
    decreases s.len(),
{
    if s.len() == 0 {
        assert(record_model(s, p, m, d) =~= s.push(
            EntryModel { path: p, method: m, samples: seq![d] },
        ));
    } else {
        assert(!matches_key(s[0], p, m));
        assert(!has_key(s.drop_first(), p, m)) by {
            assert forall|i: int| 0 <= i < s.drop_first().len() implies !matches_key(
                #[trigger] s.drop_first()[i],
                p,
                m,
            ) by {
                assert(s.drop_first()[i] == s[i + 1]);
            }
        }
        lemma_record_model_absent(s.drop_first(), p, m, d);
        assert(record_model(s, p, m, d) =~= s.push(
            EntryModel { path: p, method: m, samples: seq![d] },
        ));
    }
}

/// When the first entry with key `(p, m)` stands at index `i`, recording
/// updates that entry in place.
pub proof fn lemma_record_model_found(s: Seq<EntryModel>, p: Seq<char>, m: Seq<char>, d: u64, i: int)
    requires
        0 <= i < s.len(),
        matches_key(s[i], p, m),
        forall|j: int| 0 <= j < i ==> !matches_key(#[trigger] s[j], p, m),
    ensures
        record_model(s, p, m, d) == s.update(
            i,
            EntryModel { path: s[i].path, method: s[i].method, samples: s[i].samples.push(d) },
        ),
    decreases i,
{
    if i == 0 {
        assert(record_model(s, p, m, d) =~= s.update(
            0,
            EntryModel { path: s[0].path, method: s[0].method, samples: s[0].samples.push(d) },
        ));
    } else {
        assert(!matches_key(s[0], p, m));
        assert(forall|j: int|
            0 <= j < i - 1 ==> !matches_key(#[trigger] s.drop_first()[j], p, m)) by {
            assert forall|j: int| 0 <= j < i - 1 implies !matches_key(
                #[trigger] s.drop_first()[j],
                p,
                m,
            ) by {
                assert(s.drop_first()[j] == s[j + 1]);
            }
        }
        assert(s.drop_first()[i - 1] == s[i]);
        lemma_record_model_found(s.drop_first(), p, m, d, i - 1);
        assert(record_model(s, p, m, d) =~= s.update(
            i,
            EntryModel { path: s[i].path, method: s[i].method, samples: s[i].samples.push(d) },
        ));
    }
}

/// `keys_of` distributes over putting one entry in front.
pub proof fn lemma_keys_of_cons(e: EntryModel, t: Seq<EntryModel>)
    ensures
        keys_of(seq![e] + t) == seq![(e.path, e.method)] + keys_of(t),
{
    let l = keys_of(seq![e] + t);
    let r = seq![(e.path, e.method)] + keys_of(t);
    assert forall|i: int| 0 <= i < l.len() implies l[i] == r[i] by {
        if i == 0 {
            assert((seq![e] + t)[0] == e);
        } else {
            assert((seq![e] + t)[i] == t[i - 1]);
        }
    }
    assert(l =~= r);
}

/// Recording under `(p, m)` keeps the keys, adding `(p, m)` at the end
/// exactly when it was absent.
pub proof fn lemma_record_model_keys(s: Seq<EntryModel>, p: Seq<char>, m: Seq<char>, d: u64)
    ensures
        keys_of(record_model(s, p, m, d)) == if has_key(s, p, m) {
            keys_of(s)
        } else {
            keys_of(s).push((p, m))
        },
    decreases s.len(),
{
    let r = record_model(s, p, m, d);
    if s.len() == 0 {
        assert(keys_of(r) =~= keys_of(s).push((p, m)));
    } else if matches_key(s[0], p, m) {
        assert(has_key(s, p, m));
        let e2 = EntryModel { path: s[0].path, method: s[0].method, samples: s[0].samples.push(d) };
        lemma_keys_of_cons(e2, s.drop_first());
        lemma_keys_of_cons(s[0], s.drop_first());
        assert(seq![s[0]] + s.drop_first() =~= s);
        assert(keys_of(r) =~= keys_of(s));
    } else {
        lemma_record_model_keys(s.drop_first(), p, m, d);
        lemma_keys_of_cons(s[0], record_model(s.drop_first(), p, m, d));
        lemma_keys_of_cons(s[0], s.drop_first());
        assert(seq![s[0]] + s.drop_first() =~= s);
        if has_key(s.drop_first(), p, m) {
            assert(has_key(s, p, m)) by {
                let i = choose|i: int|
                    0 <= i < s.drop_first().len() && matches_key(#[trigger] s.drop_first()[i], p, m);
                assert(s[i + 1] == s.drop_first()[i]);
            }
            assert(keys_of(r) =~= keys_of(s));
        } else {
            assert(!has_key(s, p, m)) by {
                if has_key(s, p, m) {
                    let i = choose|i: int| 0 <= i < s.len() && matches_key(#[trigger] s[i], p, m);
                    assert(i >= 1);
                    assert(s.drop_first()[i - 1] == s[i]);
                }
            }
            assert(keys_of(r) =~= keys_of(s).push((p, m)));
        }
    }
}

/// Recording appends exactly the one sample to the series of its own key.
pub proof fn law_record_appends(s: Seq<EntryModel>, p: Seq<char>, m: Seq<char>, d: u64)
    ensures
        series_of(record_model(s, p, m, d), p, m) == series_of(s, p, m).push(d),
    decreases s.len(),
{
    let r = record_model(s, p, m, d);
    if s.len() == 0 {
        assert(matches_key(r[0], p, m));
        assert(series_of(s, p, m).push(d) =~= seq![d]);
    } else if matches_key(s[0], p, m) {
        assert(matches_key(r[0], p, m));
    } else {
        assert(!matches_key(r[0], p, m));
        assert(r.drop_first() =~= record_model(s.drop_first(), p, m, d));
        law_record_appends(s.drop_first(), p, m, d);
    }
}

/// Key separation: recording under one key leaves every other key's
/// series exactly as it was.
pub proof fn law_key_separation(
    s: Seq<EntryModel>,
    p: Seq<char>,
    m: Seq<char>,
    d: u64,
    p2: Seq<char>,
    m2: Seq<char>,
)
    requires
        p2 != p || m2 != m,
    ensures
        series_of(record_model(s, p, m, d), p2, m2) == series_of(s, p2, m2),
    decreases s.len(),
{
    let r = record_model(s, p, m, d);
    if s.len() == 0 {
        assert(!matches_key(r[0], p2, m2));
        assert(r.drop_first() =~= Seq::<EntryModel>::empty());
        assert(series_of(r, p2, m2) == series_of(r.drop_first(), p2, m2));
        assert(series_of(r.drop_first(), p2, m2) == Seq::<u64>::empty());
        assert(series_of(s, p2, m2) == Seq::<u64>::empty());
    } else if matches_key(s[0], p, m) {
        assert(r[0].path == s[0].path && r[0].method == s[0].method);
        assert(!matches_key(s[0], p2, m2));
        assert(!matches_key(r[0], p2, m2));
        assert(r.drop_first() =~= s.drop_first());
        assert(series_of(r, p2, m2) == series_of(r.drop_first(), p2, m2));
        assert(series_of(s, p2, m2) == series_of(s.drop_first(), p2, m2));
    } else {
        assert(r[0] == s[0]);
        assert(r.drop_first() =~= record_model(s.drop_first(), p, m, d));
        if matches_key(s[0], p2, m2) {
            assert(series_of(s, p2, m2) == s[0].samples);
            assert(series_of(r, p2, m2) == r[0].samples);
        } else {
            law_key_separation(s.drop_first(), p, m, d, p2, m2);
            assert(series_of(r, p2, m2) == series_of(r.drop_first(), p2, m2));
            assert(series_of(s, p2, m2) == series_of(s.drop_first(), p2, m2));
        }
    }
}

/// Recording preserves well-formedness of the store.
pub proof fn lemma_record_model_wf(s: Seq<EntryModel>, p: Seq<char>, m: Seq<char>, d: u64)
    requires
        wf_store(s),
    ensures
        wf_store(record_model(s, p, m, d)),
{
    let r = record_model(s, p, m, d);
    if has_key(s, p, m) {
        let i = first_key_index(s, p, m);
        lemma_first_key_index(s, p, m);
        lemma_record_model_found(s, p, m, d, i);
        assert forall|a: int, b: int| 0 <= a < b < r.len() implies !matches_key(
            #[trigger] r[b],
            (#[trigger] r[a]).path,
            r[a].method,
        ) by {
            assert(r[a].path == s[a].path && r[a].method == s[a].method);
            assert(r[b].path == s[b].path && r[b].method == s[b].method);
            assert(!matches_key(s[b], s[a].path, s[a].method));
        }
    } else {
        lemma_record_model_absent(s, p, m, d);
        assert forall|a: int, b: int| 0 <= a < b < r.len() implies !matches_key(
            #[trigger] r[b],
            (#[trigger] r[a]).path,
            r[a].method,
        ) by {
            if b < s.len() {
                assert(!matches_key(s[b], s[a].path, s[a].method));
            } else {
                assert(r[b].path == p && r[b].method == m);
                assert(r[a] == s[a]);
                assert(!matches_key(s[a], p, m));
            }
        }
    }
}

/// The index of the first entry with key `(p, m)`.
pub open spec fn first_key_index(s: Seq<EntryModel>, p: Seq<char>, m: Seq<char>) -> int
    decreases s.len(),
{
    if s.len() == 0 {
        0
    } else if matches_key(s[0], p, m) {
        0
    } else {
        1 + first_key_index(s.drop_first(), p, m)
    }
}

/// When `(p, m)` is present, `first_key_index` points at its first entry.
pub proof fn lemma_first_key_index(s: Seq<EntryModel>, p: Seq<char>, m: Seq<char>)
    requires
        has_key(s, p, m),
    ensures
        0 <= first_key_index(s, p, m) < s.len(),
        matches_key(s[first_key_index(s, p, m)], p, m),
        forall|j: int| 0 <= j < first_key_index(s, p, m) ==> !matches_key(#[trigger] s[j], p, m),
    decreases s.len(),
{
    if matches_key(s[0], p, m) {
    } else {
        assert(has_key(s.drop_first(), p, m)) by {
            let i = choose|i: int| 0 <= i < s.len() && matches_key(#[trigger] s[i], p, m);
            assert(i >= 1);
            assert(s.drop_first()[i - 1] == s[i]);
        }
        lemma_first_key_index(s.drop_first(), p, m);
        let k = first_key_index(s.drop_first(), p, m);
        assert(s[1 + k] == s.drop_first()[k]);
        assert forall|j: int| 0 <= j < 1 + k implies !matches_key(#[trigger] s[j], p, m) by {
            if j >= 1 {
                assert(s.drop_first()[j - 1] == s[j]);
            }
        }
    }
}

/// Model of one report row: the key and its derived statistics.
pub ghost struct RowModel {
    pub path: Seq<char>,
    pub method: Seq<char>,
    pub cnt: int,
    pub sum: int,
    pub avg: int,
    pub max: int,
    pub min: int,
}

/// The sum of a series of samples.
pub open spec fn sum_of(s: Seq<u64>) -> int
    decreases s.len(),
{
    if s.len() == 0 {
        0
    } else {
        sum_of(s.drop_last()) + s.last()
    }
}

/// The largest sample of a non-empty series.
pub open spec fn max_of(s: Seq<u64>) -> u64
    recommends
        s.len() >= 1,
    decreases s.len(),
{
    if s.len() <= 1 {
        s[0]
    } else {
        let m = max_of(s.drop_last());
        if s.last() > m {
            s.last()
        } else {
            m
        }
    }
}

/// The smallest sample of a non-empty series.
pub open spec fn min_of(s: Seq<u64>) -> u64
    recommends
        s.len() >= 1,
    decreases s.len(),
{
    if s.len() <= 1 {
        s[0]
    } else {
        let m = min_of(s.drop_last());
        if s.last() < m {
            s.last()
        } else {
            m
        }
    }
}

/// The statistics row derived from one entry: count, sum, truncating
/// average, maximum and minimum, all over whole milliseconds.
pub open spec fn row_of(e: EntryModel) -> RowModel
    recommends
        e.samples.len() >= 1,
{
    RowModel {
        path: e.path,
        method: e.method,
        cnt: e.samples.len() as int,
        sum: sum_of(e.samples),
        avg: sum_of(e.samples) / (e.samples.len() as int),
        max: max_of(e.samples) as int,
        min: min_of(e.samples) as int,
    }
}

/// The rows of a whole store, one per key, in store order.
pub open spec fn rows_of(s: Seq<EntryModel>) -> Seq<RowModel> {
    s.map_values(|e: EntryModel| row_of(e))
}

/// Recording a whole batch of samples under one key, one after the other.
pub open spec fn record_all(s: Seq<EntryModel>, p: Seq<char>, m: Seq<char>, ds: Seq<u64>) -> Seq<
    EntryModel,
>
    decreases ds.len(),
{
    if ds.len() == 0 {
        s
    } else {
        record_all(record_model(s, p, m, ds[0]), p, m, ds.drop_first())
    }
}

/// No sample is lost and none is duplicated: after a batch of recordings
/// for one key, that key's series is the old series followed by exactly
/// the recorded batch — in particular, its length grew by the batch size.
pub proof fn law_record_all_no_loss(s: Seq<EntryModel>, p: Seq<char>, m: Seq<char>, ds: Seq<u64>)
    ensures
        series_of(record_all(s, p, m, ds), p, m) == series_of(s, p, m) + ds,
    decreases ds.len(),
{
    if ds.len() == 0 {
        assert(series_of(s, p, m) + ds =~= series_of(s, p, m));
    } else {
        law_record_appends(s, p, m, ds[0]);
        law_record_all_no_loss(record_model(s, p, m, ds[0]), p, m, ds.drop_first());
        assert(series_of(s, p, m).push(ds[0]) + ds.drop_first() =~= series_of(s, p, m) + ds);
    }
}

} // verus!
