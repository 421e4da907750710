//! Summarization: per-key statistics rows, the stable descending sort,
//! and the tab-separated rendering of the report.

use vstd::prelude::*;
use vstd::seq_lib::to_multiset_insert;
use vstd::string::StringExecFns;

use crate::model::EntryModel;
use crate::model::rows_of;
use crate::model::row_of;
use crate::model::sum_of;
use crate::model::max_of;
use crate::model::min_of;
use crate::model::RowModel;
use crate::store::Entry;
use crate::store::Store;
use crate::text::dec_of;
use crate::text::lemma_lex_le_total;
use crate::text::lemma_lex_le_trans;
use crate::text::lex_le;
use crate::text::str_le;
use crate::text::u128_to_string;

verus! {

/// The report field to sort by. Every sort is descending.
#[allow(non_camel_case_types)]
#[derive(Clone, Copy)]
pub enum SortOptions {
    PATH,
    METHOD,
    CNT,
    SUM,
    AVG,
    MAX,
    MIN,
}

/// Descending comparison on the chosen field: `a` may stand before `b`.
pub open spec fn field_ge(a: RowModel, b: RowModel, by: SortOptions) -> bool {
    match by {
        SortOptions::PATH => lex_le(b.path, a.path),
        SortOptions::METHOD => lex_le(b.method, a.method),
        SortOptions::CNT => a.cnt >= b.cnt,
        SortOptions::SUM => a.sum >= b.sum,
        SortOptions::AVG => a.avg >= b.avg,
        SortOptions::MAX => a.max >= b.max,
        SortOptions::MIN => a.min >= b.min,
    }
}

/// `field_ge` is total.
pub proof fn lemma_field_ge_total(a: RowModel, b: RowModel, by: SortOptions)
    ensures
        field_ge(a, b, by) || field_ge(b, a, by),
{
    match by {
        SortOptions::PATH => lemma_lex_le_total(b.path, a.path),
        SortOptions::METHOD => lemma_lex_le_total(b.method, a.method),
        _ => (),
    }
}

/// `field_ge` is transitive.
pub proof fn lemma_field_ge_trans(a: RowModel, b: RowModel, c: RowModel, by: SortOptions)
    requires
        field_ge(a, b, by),
        field_ge(b, c, by),
    ensures
        field_ge(a, c, by),
{
    match by {
        SortOptions::PATH => lemma_lex_le_trans(c.path, b.path, a.path),
        SortOptions::METHOD => lemma_lex_le_trans(c.method, b.method, a.method),
        _ => (),
    }
}

/// Where a stable descending insertion puts `r` into the sorted `s`:
/// after every row whose field is at least `r`'s, so that equal rows
/// keep their first-come order.
pub open spec fn insert_pos(s: Seq<RowModel>, r: RowModel, by: SortOptions) -> int
    decreases s.len(),
{
    if s.len() == 0 {
        0
    } else if field_ge(s[0], r, by) {
        1 + insert_pos(s.drop_first(), r, by)
    } else {
        0
    }
}

/// `insert_pos` is the first index whose row compares below `r`.
pub proof fn lemma_insert_pos_props(s: Seq<RowModel>, r: RowModel, by: SortOptions)
    ensures
        0 <= insert_pos(s, r, by) <= s.len(),
        forall|j: int| 0 <= j < insert_pos(s, r, by) ==> field_ge(#[trigger] s[j], r, by),
        insert_pos(s, r, by) < s.len() ==> !field_ge(s[insert_pos(s, r, by)], r, by),
    decreases s.len(),
{
    if s.len() == 0 {
    } else if field_ge(s[0], r, by) {
        lemma_insert_pos_props(s.drop_first(), r, by);
        let p = insert_pos(s, r, by);
        assert forall|j: int| 0 <= j < p implies field_ge(#[trigger] s[j], r, by) by {
            if j >= 1 {
                assert(s.drop_first()[j - 1] == s[j]);
            }
        }
        if p < s.len() {
            assert(s.drop_first()[p - 1] == s[p]);
        }
    }
}

/// The stable descending sort, one insertion per row, left to right.
pub open spec fn sort_spec(s: Seq<RowModel>, by: SortOptions) -> Seq<RowModel>
    decreases s.len(),
{
    if s.len() == 0 {
        Seq::empty()
    } else {
        let sorted = sort_spec(s.drop_last(), by);
        sorted.insert(insert_pos(sorted, s.last(), by), s.last())
    }
}

/// Descending order on the chosen field.
pub open spec fn sorted_desc(s: Seq<RowModel>, by: SortOptions) -> bool {
    forall|i: int, j: int| 0 <= i < j < s.len() ==> field_ge(#[trigger] s[i], #[trigger] s[j], by)
}

/// Sorting yields the same rows — none lost, none invented — in
/// descending order of the chosen field.
pub proof fn law_sort_descending(s: Seq<RowModel>, by: SortOptions)
    ensures
        sorted_desc(sort_spec(s, by), by),
        sort_spec(s, by).to_multiset() == s.to_multiset(),
        sort_spec(s, by).len() == s.len(),
    decreases s.len(),
{
    broadcast use vstd::seq_lib::group_to_multiset_ensures;

    if s.len() == 0 {
        assert(sort_spec(s, by).to_multiset() =~= s.to_multiset());
    } else {
        let r = s.last();
        law_sort_descending(s.drop_last(), by);
        let sorted = sort_spec(s.drop_last(), by);
        lemma_insert_pos_props(sorted, r, by);
        let p = insert_pos(sorted, r, by);
        let out = sorted.insert(p, r);
        assert forall|i: int, j: int| 0 <= i < j < out.len() implies field_ge(
            #[trigger] out[i],
            #[trigger] out[j],
            by,
        ) by {
            if i < p && j == p {
                assert(out[i] == sorted[i]);
            } else if i == p && j > p {
                assert(out[j] == sorted[j - 1]);
                assert(!field_ge(sorted[p], r, by));
                lemma_field_ge_total(r, sorted[p], by);
                if j - 1 > p {
                    assert(field_ge(sorted[p], sorted[j - 1], by));
                    lemma_field_ge_trans(r, sorted[p], sorted[j - 1], by);
                }
            } else if i < p && j > p {
                assert(out[i] == sorted[i]);
                assert(out[j] == sorted[j - 1]);
            } else if j < p {
                assert(out[i] == sorted[i] && out[j] == sorted[j]);
            } else if i > p {
                assert(out[i] == sorted[i - 1] && out[j] == sorted[j - 1]);
            }
        }
        to_multiset_insert(sorted, p, r);
        assert(s.drop_last().push(r) =~= s);
    }
}

/// One rendered report row, as executable data.
pub struct Row {
    pub path: String,
    pub method: String,
    pub cnt: usize,
    pub sum: u128,
    pub avg: u128,
    pub max: u64,
    pub min: u64,
}

impl View for Row {
    type V = RowModel;

    open spec fn view(&self) -> RowModel {
        RowModel {
            path: self.path@,
            method: self.method@,
            cnt: self.cnt as int,
            sum: self.sum as int,
            avg: self.avg as int,
            max: self.max as int,
            min: self.min as int,
        }
    }
}

/// The models of a vector of rows.
pub open spec fn row_views(rows: Seq<Row>) -> Seq<RowModel> {
    rows.map_values(|r: Row| r@)
}

/// Decides `field_ge` on two rows.
fn row_ge(a: &Row, b: &Row, by: SortOptions) -> (r: bool)
    ensures
        r == field_ge(a@, b@, by),
{
    match by {
        SortOptions::PATH => str_le(b.path.as_str(), a.path.as_str()),
        SortOptions::METHOD => str_le(b.method.as_str(), a.method.as_str()),
        SortOptions::CNT => a.cnt >= b.cnt,
        SortOptions::SUM => a.sum >= b.sum,
        SortOptions::AVG => a.avg >= b.avg,
        SortOptions::MAX => a.max >= b.max,
        SortOptions::MIN => a.min >= b.min,
    }
}

fn duplicate_row(r: &Row) -> (out: Row)
    ensures
        out == *r,
{
    Row {
        path: r.path.clone(),
        method: r.method.clone(),
        cnt: r.cnt,
        sum: r.sum,
        avg: r.avg,
        max: r.max,
        min: r.min,
    }
}

/// Computes the statistics row of one entry: count, sum, truncating
/// average, maximum and minimum of its samples.
fn summary_row(e: &Entry) -> (r: Row)
    requires
        e@.samples.len() >= 1,
    ensures
        r@ == row_of(e@),
{
    let cnt: usize = e.samples.len();
    let first: u64 = e.samples[0];
    let mut sum: u128 = first as u128;
    let mut mx: u64 = first;
    let mut mn: u64 = first;
    let mut i: usize = 1;
    proof {
        let t = e.samples@.take(1);
        assert(t.len() == 1);
        assert(t.last() == e.samples@[0]);
        assert(t.drop_last() =~= Seq::<u64>::empty());
        assert(sum_of(t.drop_last()) == 0);
        assert(sum_of(t) == first as int);
        assert(max_of(t) == first);
        assert(min_of(t) == first);
    }
    while i < cnt
        invariant
            1 <= i <= cnt,
            cnt == e.samples@.len(),
            sum == sum_of(e.samples@.take(i as int)),
            sum <= (i as int) * (u64::MAX as int),
            mx == max_of(e.samples@.take(i as int)),
            mn == min_of(e.samples@.take(i as int)),
        decreases cnt - i,
    {
        let v: u64 = e.samples[i];
        proof {
            assert(e.samples@.take(i as int + 1).drop_last() =~= e.samples@.take(i as int));
            assert(e.samples@.take(i as int + 1).last() == e.samples@[i as int]);
            assert((i as int) + 1 <= 0x10000000000000000);
            assert(((i as int) + 1) * (u64::MAX as int) <= 0x10000000000000000 * (
            u64::MAX as int));
        }
        sum = sum + (v as u128);
        if v > mx {
            mx = v;
        }
        if v < mn {
            mn = v;
        }
        i = i + 1;
    }
    proof {
        assert(e.samples@.take(cnt as int) =~= e.samples@);
    }
    let avg: u128 = sum / (cnt as u128);
    Row {
        path: e.path.clone(),
        method: e.method.clone(),
        cnt,
        sum,
        avg,
        max: mx,
        min: mn,
    }
}

/// Inserts each row, left to right, at its stable descending position.
fn sort_rows(rows: &Vec<Row>, by: SortOptions) -> (out: Vec<Row>)
    ensures
        row_views(out@) == sort_spec(row_views(rows@), by),
{
    let ghost vs = row_views(rows@);
    let n: usize = rows.len();
    let mut out: Vec<Row> = Vec::new();
    let mut k: usize = 0;
    proof {
        assert(row_views(out@) =~= sort_spec(vs.take(0), by));
    }
    while k < n
        invariant
            k <= n,
            n == rows@.len(),
            vs == row_views(rows@),
            row_views(out@) == sort_spec(vs.take(k as int), by),
        decreases n - k,
    {
        let r: Row = duplicate_row(&rows[k]);
        let olen: usize = out.len();
        let mut pos: usize = 0;
        while pos < olen && row_ge(&out[pos], &r, by)
            invariant
                pos <= olen,
                olen == out@.len(),
                vs == row_views(rows@),
                forall|j: int| 0 <= j < pos ==> field_ge(#[trigger] row_views(out@)[j], r@, by),
            decreases olen - pos,
        {
            pos = pos + 1;
        }
        proof {
            let sv = row_views(out@);
            lemma_insert_pos_props(sv, r@, by);
            let ip = insert_pos(sv, r@, by);
            if ip < pos {
                assert(field_ge(sv[ip], r@, by));
                assert(false);
            }
            if pos < ip {
                assert(field_ge(sv[pos as int], r@, by));
                assert(false);
            }
            assert(pos == ip);
        }
        let ghost out_pre = row_views(out@);
        out.insert(pos, r);
        k = k + 1;
        proof {
            assert(row_views(out@) =~= out_pre.insert(pos as int, r@));
            assert(vs.take(k as int).drop_last() =~= vs.take(k as int - 1));
            assert(vs.take(k as int).last() == r@);
        }
    }
    proof {
        assert(vs.take(n as int) =~= vs);
    }
    out
}

/// The fixed header line of every report.
pub open spec fn header_model() -> Seq<char> {
    "PATH\tMETHOD\tCNT\tSUM\tAVG\tMAX\tMIN\n"@
}

/// One rendered report line: the key and its statistics, tab-separated.
pub open spec fn line_of(r: RowModel) -> Seq<char>
    recommends
        r.cnt >= 0,
        r.sum >= 0,
        r.avg >= 0,
        r.max >= 0,
        r.min >= 0,
{
    r.path + "\t"@ + r.method + "\t"@ + dec_of(r.cnt as nat) + "\t"@ + dec_of(r.sum as nat)
        + "\t"@ + dec_of(r.avg as nat) + "\t"@ + dec_of(r.max as nat) + "\t"@ + dec_of(
        r.min as nat,
    ) + "\n"@
}

/// The whole report: the header, then one line per row, in order.
pub open spec fn render_of(rows: Seq<RowModel>) -> Seq<char>
    decreases rows.len(),
{
    if rows.len() == 0 {
        header_model()
    } else {
        render_of(rows.drop_last()) + line_of(rows.last())
    }
}

/// Renders one report line exactly as `line_of` describes.
#[verifier::rlimit(30)]
fn line_string(r: &Row) -> (s: String)
    ensures
        s@ == line_of(r@),
{
    let mut s: String = r.path.clone();
    s.append("\t");
    s.append(r.method.as_str());
    s.append("\t");
    let cnt_s: String = u128_to_string(r.cnt as u128);
    s.append(cnt_s.as_str());
    s.append("\t");
    let sum_s: String = u128_to_string(r.sum);
    s.append(sum_s.as_str());
    s.append("\t");
    let avg_s: String = u128_to_string(r.avg);
    s.append(avg_s.as_str());
    s.append("\t");
    let max_s: String = u128_to_string(r.max as u128);
    s.append(max_s.as_str());
    s.append("\t");
    let min_s: String = u128_to_string(r.min as u128);
    s.append(min_s.as_str());
    s.append("\n");
    proof {
        assert(s@ =~= line_of(r@));
    }
    s
}

/// Renders the rows under the fixed header, tab-separated, one line each.
fn render(rows: &Vec<Row>) -> (out: String)
    ensures
        out@ == render_of(row_views(rows@)),
{
    let ghost vs = row_views(rows@);
    let mut out: String = "PATH\tMETHOD\tCNT\tSUM\tAVG\tMAX\tMIN\n".to_owned();
    let mut i: usize = 0;
    proof {
        assert(vs.take(0).len() == 0);
    }
    while i < rows.len()
        invariant
            i <= rows@.len(),
            vs == row_views(rows@),
            out@ == render_of(vs.take(i as int)),
        decreases rows@.len() - i,
    {
        let r = &rows[i];
        let ghost out_pre = out@;
        let line = line_string(r);
        out.append(line.as_str());
        i = i + 1;
        proof {
            assert(vs.len() == rows@.len());
            assert(vs[i as int - 1] == r@);
            assert(vs.take(i as int).drop_last() =~= vs.take(i as int - 1));
            assert(vs.take(i as int).last() == r@);
            assert(out@ == render_of(vs.take(i as int)));
        }
    }
    proof {
        assert(vs.take(rows@.len() as int) =~= vs);
    }
    out
}

impl Store {
    /// The statistics rows of every key, in store order.
    fn rows(&self) -> (rows: Vec<Row>)
        requires
            self.wf(),
        ensures
            row_views(rows@) == rows_of(self@),
    {
        let n: usize = self.entries.len();
        let mut rows: Vec<Row> = Vec::new();
        let mut i: usize = 0;
        proof {
            assert(row_views(rows@) =~= rows_of(self@.take(0)));
        }
        while i < n
            invariant
                i <= n,
                n == self.entries@.len(),
                self.wf(),
                row_views(rows@) == rows_of(self@.take(i as int)),
            decreases n - i,
        {
            let e = &self.entries[i];
            proof {
                assert(self@[i as int] == e@);
            }
            let r = summary_row(e);
            let ghost rm = r@;
            let ghost rv_pre = rows@;
            rows.push(r);
            i = i + 1;
            proof {
                assert(rm == row_of(self@[i as int - 1]));
                assert(row_views(rv_pre).len() == rv_pre.len());
                assert(rows_of(self@.take(i as int - 1)).len() == i - 1);
                assert(rv_pre.len() == i - 1);
                assert(rows@.len() == i);
                assert forall|j: int| 0 <= j < rows@.len() implies (#[trigger] row_views(
                    rows@,
                )[j]) == rows_of(self@.take(i as int))[j] by {
                    assert(self@.take(i as int)[j] == self@[j]);
                    if j < rv_pre.len() {
                        assert(rows@[j] == rv_pre[j]);
                        assert(row_views(rv_pre)[j] == rows_of(self@.take(i as int - 1))[j]);
                        assert(rows_of(self@.take(i as int - 1))[j] == row_of(
                            self@.take(i as int - 1)[j],
                        ));
                        assert(self@.take(i as int - 1)[j] == self@[j]);
                    } else {
                        assert(rows@[j] == rv_pre.push(rows@[j as int])[j]);
                        assert(j == i - 1);
                        assert(row_views(rows@)[j] == rm);
                    }
                }
                assert(row_views(rows@) =~= rows_of(self@.take(i as int)));
            }
        }
        proof {
            assert(self@.take(n as int) =~= self@);
        }
        rows
    }

    /// Obtains the rows, sorts them (stable, descending on the chosen
    /// field) and renders the tab-separated report. An empty store gives
    /// exactly the header line.
    pub fn summarize(&self, sortby: SortOptions) -> (out: String)
        requires
            self.wf(),
        ensures
            out@ == render_of(sort_spec(rows_of(self@), sortby)),
    {
        let rows = self.rows();
        let sorted = sort_rows(&rows, sortby);
        render(&sorted)
    }
}

/// A fresh or freshly cleared store reports exactly the header line.
pub proof fn law_empty_report(by: SortOptions)
    ensures
        render_of(sort_spec(rows_of(Seq::<EntryModel>::empty()), by)) == header_model(),
{
    assert(rows_of(Seq::<EntryModel>::empty()) =~= Seq::<RowModel>::empty());
    assert(sort_spec(Seq::<RowModel>::empty(), by) =~= Seq::<RowModel>::empty());
}

} // verus!
