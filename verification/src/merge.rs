//! The record merger: a two-state machine that coalesces consecutive rows
//! sharing a transfer id into one record, with one record of look-behind.
//!
//! The merge rule takes the maximum of the two latencies, the sum of the two
//! GPU durations, and the API duration of the first row of the group.

use vstd::prelude::*;

use crate::record::{RecordModel, TransferRecord};

verus! {

/// The merge rule applied to a pending record and the next row of its
/// group.
pub open spec fn combine(p: RecordModel, c: RecordModel) -> RecordModel {
    RecordModel {
        id: p.id,
        api_duration: p.api_duration,
        latency: if p.latency < c.latency {
            c.latency
        } else {
            p.latency
        },
        gpu_duration: p.gpu_duration + c.gpu_duration,
    }
}

/// The records denoted by a sequence of rows once consecutive rows with
/// equal ids are coalesced.
pub open spec fn merge_rows(rows: Seq<RecordModel>) -> Seq<RecordModel>
    decreases rows.len(),
{
    if rows.len() == 0 {
        Seq::empty()
    } else {
        let m = merge_rows(rows.drop_last());
        let r = rows.last();
        if m.len() > 0 && m.last().id == r.id {
            m.update(m.len() - 1, combine(m.last(), r))
        } else {
            m.push(r)
        }
    }
}

/// Total GPU duration over a sequence of rows.
pub open spec fn gpu_total(rows: Seq<RecordModel>) -> int
    decreases rows.len(),
{
    if rows.len() == 0 {
        0
    } else {
        gpu_total(rows.drop_last()) + rows.last().gpu_duration
    }
}

/// No two adjacent rows share an id.
pub open spec fn no_adjacent_same_id(rows: Seq<RecordModel>) -> bool {
    forall|i: int| 0 <= i < rows.len() - 1 ==> rows[i].id != #[trigger] rows[i + 1].id
}

/// Merging a nonempty input yields a nonempty output ending in the same id
/// as the input.
pub proof fn lemma_merge_rows_last(rows: Seq<RecordModel>)
    requires
        rows.len() > 0,
    ensures
        merge_rows(rows).len() > 0,
        merge_rows(rows).last().id == rows.last().id,
{
}

proof fn lemma_gpu_total_update_last(m: Seq<RecordModel>, x: RecordModel)
    requires
        m.len() > 0,
    ensures
        gpu_total(m.update(m.len() - 1, x)) == gpu_total(m.drop_last()) + x.gpu_duration,
{
    let m2 = m.update(m.len() - 1, x);
    assert(m2.drop_last() =~= m.drop_last());
    assert(m2.last() == x);
}

/// Merging only redistributes GPU time: the total over the output records
/// equals the total over the input rows.
pub proof fn lemma_merge_preserves_gpu_total(rows: Seq<RecordModel>)
    ensures
        gpu_total(merge_rows(rows)) == gpu_total(rows),
    decreases rows.len(),
{
    if rows.len() > 0 {
        let dl = rows.drop_last();
        lemma_merge_preserves_gpu_total(dl);
        let m = merge_rows(dl);
        let r = rows.last();
        if m.len() > 0 && m.last().id == r.id {
            lemma_gpu_total_update_last(m, combine(m.last(), r));
        } else {
            assert(m.push(r).drop_last() =~= m);
        }
    }
}

/// Merging never grows the sequence, and keeps its length exactly when no
/// two adjacent rows share an id.
pub proof fn lemma_merge_count(rows: Seq<RecordModel>)
    ensures
        merge_rows(rows).len() <= rows.len(),
        merge_rows(rows).len() == rows.len() <==> no_adjacent_same_id(rows),
    decreases rows.len(),
{
    if rows.len() == 0 {
        return ;
    }
    let dl = rows.drop_last();
    lemma_merge_count(dl);
    let m = merge_rows(dl);
    let r = rows.last();
    if m.len() > 0 && m.last().id == r.id {
        lemma_merge_rows_last(dl);
        assert(dl.last().id == r.id);
        let k = rows.len() - 2;
        assert(rows[k].id == rows[k + 1].id);
        assert(!no_adjacent_same_id(rows)) by {
            if no_adjacent_same_id(rows) {
                assert(rows[k].id != rows[k + 1].id);
            }
        }
        assert(merge_rows(rows).len() < rows.len());
    } else {
        assert(merge_rows(rows).len() == m.len() + 1);
        if dl.len() == 0 {
            assert(no_adjacent_same_id(rows));
        } else {
            lemma_merge_rows_last(dl);
            assert(dl.last().id != r.id);
            assert(no_adjacent_same_id(rows) <==> no_adjacent_same_id(dl)) by {
                if no_adjacent_same_id(dl) {
                    assert forall|i: int| 0 <= i < rows.len() - 1 implies rows[i].id
                        != #[trigger] rows[i + 1].id by {
                        if i < dl.len() - 1 {
                            assert(dl[i].id != dl[i + 1].id);
                        } else {
                            assert(rows[i] == dl.last() && rows[i + 1] == r);
                        }
                    }
                }
                if no_adjacent_same_id(rows) {
                    assert forall|i: int| 0 <= i < dl.len() - 1 implies dl[i].id
                        != #[trigger] dl[i + 1].id by {
                        assert(rows[i].id != rows[i + 1].id);
                    }
                }
            }
        }
    }
}

/// A total of nonnegative GPU durations is nonnegative.
pub proof fn lemma_gpu_total_nonneg(rows: Seq<RecordModel>)
    requires
        forall|i: int| 0 <= i < rows.len() ==> (#[trigger] rows[i]).gpu_duration >= 0,
    ensures
        gpu_total(rows) >= 0,
    decreases rows.len(),
{
    if rows.len() > 0 {
        let dl = rows.drop_last();
        assert(forall|i: int| 0 <= i < dl.len() ==> #[trigger] dl[i] == rows[i]);
        lemma_gpu_total_nonneg(dl);
    }
}

/// A prefix never exceeds the whole total when durations are nonnegative.
pub proof fn lemma_gpu_total_take(rows: Seq<RecordModel>, j: int)
    requires
        forall|i: int| 0 <= i < rows.len() ==> (#[trigger] rows[i]).gpu_duration >= 0,
        0 <= j <= rows.len(),
    ensures
        gpu_total(rows.take(j)) <= gpu_total(rows),
    decreases rows.len() - j,
{
    if j < rows.len() {
        let p = rows.take(j);
        let q = rows.take(j + 1);
        assert(q.drop_last() =~= p);
        assert(q.last() == rows[j]);
        lemma_gpu_total_take(rows, j + 1);
    } else {
        assert(rows.take(j) =~= rows);
    }
}

/// The row's fields all lie in the representable range.
pub open spec fn row_fields_in_range(r: RecordModel) -> bool {
    &&& 0 <= r.id <= u64::MAX
    &&& 0 <= r.api_duration <= u64::MAX
    &&& 0 <= r.latency <= u64::MAX
    &&& 0 <= r.gpu_duration
}

/// Merging rows with representable fields keeps every field representable
/// but the GPU duration, which stays nonnegative.
pub proof fn lemma_merge_rows_in_range(rows: Seq<RecordModel>)
    requires
        forall|i: int| 0 <= i < rows.len() ==> row_fields_in_range(#[trigger] rows[i]),
    ensures
        forall|i: int|
            0 <= i < merge_rows(rows).len() ==> row_fields_in_range(#[trigger] merge_rows(rows)[i]),
    decreases rows.len(),
{
    if rows.len() > 0 {
        let dl = rows.drop_last();
        assert(forall|i: int| 0 <= i < dl.len() ==> #[trigger] dl[i] == rows[i]);
        lemma_merge_rows_in_range(dl);
        let m = merge_rows(dl);
        let r = rows.last();
        assert(row_fields_in_range(r));
        if m.len() > 0 && m.last().id == r.id {
            let c = combine(m.last(), r);
            assert(row_fields_in_range(m.last()));
            assert(row_fields_in_range(c));
            assert(forall|i: int|
                0 <= i < merge_rows(rows).len() - 1 ==> #[trigger] merge_rows(rows)[i] == m[i]);
        } else {
            assert(forall|i: int|
                0 <= i < merge_rows(rows).len() - 1 ==> #[trigger] merge_rows(rows)[i] == m[i]);
        }
    }
}

/// No single row carries more GPU time than the whole total, when all
/// durations are nonnegative.
pub proof fn lemma_gpu_element_bound(rows: Seq<RecordModel>)
    requires
        forall|i: int| 0 <= i < rows.len() ==> (#[trigger] rows[i]).gpu_duration >= 0,
    ensures
        forall|i: int|
            0 <= i < rows.len() ==> (#[trigger] rows[i]).gpu_duration <= gpu_total(rows),
    decreases rows.len(),
{
    if rows.len() > 0 {
        let dl = rows.drop_last();
        assert(forall|i: int| 0 <= i < dl.len() ==> #[trigger] dl[i] == rows[i]);
        lemma_gpu_element_bound(dl);
        lemma_gpu_total_nonneg(dl);
        assert forall|i: int| 0 <= i < rows.len() implies (#[trigger] rows[i]).gpu_duration
            <= gpu_total(rows) by {
            if i < rows.len() - 1 {
                assert(dl[i].gpu_duration <= gpu_total(dl));
            }
        }
    }
}

/// The mathematical images of a sequence of records.
pub open spec fn models(rows: Seq<TransferRecord>) -> Seq<RecordModel> {
    rows.map_values(|r: TransferRecord| r.model())
}

/// The one-record-of-look-behind merge machine.
pub struct Merger {
    /// The record currently held back, still open to further merging.
    pub pending: Option<TransferRecord>,
    /// The rows pushed so far.
    pub history: Ghost<Seq<RecordModel>>,
    /// The records already handed out.
    pub emitted: Ghost<Seq<RecordModel>>,
}

/// The pending record as a sequence of zero or one models.
pub open spec fn pending_models(p: Option<TransferRecord>) -> Seq<RecordModel> {
    match p {
        Some(r) => seq![r.model()],
        None => Seq::empty(),
    }
}

impl Merger {
    /// The machine has handed out exactly the merged history but for the
    /// pending record, which is the last merged record when one exists.
    pub open spec fn wf(self) -> bool {
        &&& merge_rows(self.history@) == self.emitted@ + pending_models(self.pending)
        &&& (self.pending is None ==> self.history@.len() == 0)
    }

    pub fn new() -> (m: Merger)
        ensures
            m.wf(),
            m.history@ == Seq::<RecordModel>::empty(),
            m.emitted@ == Seq::<RecordModel>::empty(),
            m.pending is None,
    {
        let m = Merger {
            pending: None,
            history: Ghost(Seq::empty()),
            emitted: Ghost(Seq::empty()),
        };
        proof {
            assert(merge_rows(m.history@) =~= m.emitted@ + pending_models(m.pending));
        }
        m
    }

    /// Feeds one row into the machine. Returns the record that the row
    /// made final: the pending record, exactly when the new row carries a
    /// different id.
    pub fn push(&mut self, row: TransferRecord) -> (out: Option<TransferRecord>)
        requires
            old(self).wf(),
            (match old(self).pending {
                Some(p) => p.id == row.id ==> p.gpu_duration + row.gpu_duration <= u64::MAX,
                None => true,
            }),
        ensures
            final(self).wf(),
            final(self).history@ == old(self).history@.push(row.model()),
            (match out {
                Some(e) => final(self).emitted@ == old(self).emitted@.push(e.model()),
                None => final(self).emitted@ == old(self).emitted@,
            }),
            out is Some <==> (old(self).pending is Some && old(self).pending->0.id != row.id),
            out is Some ==> out->0 == old(self).pending->0,
            final(self).pending is Some,
    {
        let ghost h0 = self.history@;
        proof {
            self.history@ = self.history@.push(row.model());
            assert(self.history@.drop_last() =~= h0);
        }
        match self.pending {
            None => {
                self.pending = Some(row);
                proof {
                    assert(merge_rows(self.history@) =~= self.emitted@ + pending_models(
                        self.pending,
                    ));
                }
                None
            },
            Some(p) => {
                if p.id == row.id {
                    let merged = TransferRecord {
                        id: p.id,
                        api_duration: p.api_duration,
                        latency: if p.latency < row.latency {
                            row.latency
                        } else {
                            p.latency
                        },
                        gpu_duration: p.gpu_duration + row.gpu_duration,
                    };
                    proof {
                        let m = merge_rows(h0);
                        assert(m == self.emitted@ + pending_models(Some(p)));
                        assert(m.len() > 0 && m.last() == p.model());
                        assert(merged.model() == combine(p.model(), row.model()));
                        assert(merge_rows(self.history@) == m.update(
                            m.len() - 1,
                            combine(m.last(), row.model()),
                        ));
                        assert(merge_rows(self.history@) =~= self.emitted@ + pending_models(
                            Some(merged),
                        ));
                    }
                    self.pending = Some(merged);
                    None
                } else {
                    proof {
                        let m = merge_rows(h0);
                        assert(m == self.emitted@ + pending_models(Some(p)));
                        assert(m.len() > 0 && m.last() == p.model());
                        assert(m.last().id != row.model().id);
                        assert(merge_rows(self.history@) == m.push(row.model()));
                        self.emitted@ = self.emitted@.push(p.model());
                        assert(merge_rows(self.history@) =~= self.emitted@ + pending_models(
                            Some(row),
                        ));
                    }
                    self.pending = Some(row);
                    Some(p)
                }
            },
        }
    }

    /// Ends the input, surrendering the pending record if any: afterwards
    /// everything handed out together is exactly the merged history.
    pub fn finish(self) -> (out: Option<TransferRecord>)
        requires
            self.wf(),
        ensures
            out == self.pending,
            (match out {
                Some(e) => self.emitted@.push(e.model()) == merge_rows(self.history@),
                None => self.emitted@ == merge_rows(self.history@) && self.history@.len() == 0,
            }),
            out is Some <==> self.history@.len() > 0,
    {
        proof {
            if self.pending is Some {
                assert(self.emitted@.push(self.pending->0.model()) =~= self.emitted@
                    + pending_models(self.pending));
                if self.history@.len() == 0 {
                    assert(merge_rows(self.history@) =~= Seq::<RecordModel>::empty());
                    assert(merge_rows(self.history@).len() == self.emitted@.len() + 1);
                }
            } else {
                assert(self.emitted@ =~= self.emitted@ + pending_models(self.pending));
            }
        }
        self.pending
    }
}

/// Merges a whole sequence of rows at once.
///
/// The caller establishes that the GPU total fits; `gpu_total_checked`
/// decides that at run time.
pub fn merge_all(rows: &Vec<TransferRecord>) -> (out: Vec<TransferRecord>)
    requires
        gpu_total(models(rows@)) <= u64::MAX,
    ensures
        models(out@) == merge_rows(models(rows@)),
{
    let ghost all = models(rows@);
    proof {
        assert(forall|i: int| 0 <= i < all.len() ==> (#[trigger] all[i]).gpu_duration >= 0);
    }
    let n = rows.len();
    let mut out: Vec<TransferRecord> = Vec::new();
    let mut merger = Merger::new();
    let mut i: usize = 0;
    proof {
        assert(all.take(0) =~= Seq::<RecordModel>::empty());
        assert(models(out@) =~= Seq::<RecordModel>::empty());
    }
    while i < n
        invariant
            0 <= i <= n,
            n == rows@.len(),
            merger.wf(),
            merger.history@ == all.take(i as int),
            models(out@) == merger.emitted@,
            all == models(rows@),
            gpu_total(all) <= u64::MAX,
            forall|j: int| 0 <= j < all.len() ==> (#[trigger] all[j]).gpu_duration >= 0,
        decreases n - i,
    {
        let row = rows[i];
        proof {
            assert(all[i as int] == row.model());
            if let Some(p) = merger.pending {
                if p.id == row.id {
                    let h = merger.history@;
                    let m = merge_rows(h);
                    lemma_merge_preserves_gpu_total(h);
                    assert(m == merger.emitted@ + pending_models(Some(p)));
                    assert(m.drop_last() =~= merger.emitted@);
                    assert(gpu_total(m) == gpu_total(m.drop_last()) + p.model().gpu_duration);
                    assert(forall|j: int|
                        0 <= j < merger.emitted@.len() ==> (#[trigger] merger.emitted@[j])
                            == models(out@)[j]);
                    assert(forall|j: int|
                        0 <= j < merger.emitted@.len() ==> (#[trigger] merger.emitted@[j]).gpu_duration
                            >= 0);
                    lemma_gpu_total_nonneg(merger.emitted@);
                    assert(p.gpu_duration <= gpu_total(h));
                    lemma_gpu_total_take(all, i as int);
                    let h1 = all.take(i + 1);
                    assert(h1.drop_last() =~= h);
                    assert(h1.last() == row.model());
                    assert(gpu_total(h1) == gpu_total(h) + row.gpu_duration);
                    lemma_gpu_total_take(all, i + 1);
                    assert(p.gpu_duration + row.gpu_duration <= gpu_total(h1) <= gpu_total(all));
                }
            }
        }
        let e = merger.push(row);
        if let Some(r) = e {
            out.push(r);
            proof {
                assert(models(out@) =~= merger.emitted@);
            }
        }
        proof {
            assert(merger.history@ =~= all.take(i + 1));
        }
        i = i + 1;
    }
    let last = merger.finish();
    proof {
        assert(all.take(n as int) =~= all);
    }
    if let Some(r) = last {
        out.push(r);
        proof {
            assert(models(out@) =~= merge_rows(all));
        }
    }
    out
}

/// Sums the GPU durations of the rows, exactly when the total fits in a
/// `u64`.
pub fn gpu_total_checked(rows: &Vec<TransferRecord>) -> (r: Option<u64>)
    ensures
        r is Some <==> gpu_total(models(rows@)) <= u64::MAX,
        r is Some ==> r->0 == gpu_total(models(rows@)),
{
    let ghost all = models(rows@);
    let n = rows.len();
    let mut total: u64 = 0;
    let mut i: usize = 0;
    proof {
        assert(gpu_total(all.take(0)) == 0) by {
            assert(all.take(0) =~= Seq::<RecordModel>::empty());
        }
    }
    while i < n
        invariant
            0 <= i <= n,
            n == rows@.len(),
            all == models(rows@),
            total == gpu_total(all.take(i as int)),
        decreases n - i,
    {
        proof {
            let h1 = all.take(i + 1);
            assert(h1.drop_last() =~= all.take(i as int));
            assert(h1.last() == all[i as int]);
            assert(all[i as int] == rows@[i as int].model());
        }
        total = match total.checked_add(rows[i].gpu_duration) {
            Some(t) => t,
            None => {
                proof {
                    assert(forall|j: int|
                        0 <= j < all.len() ==> (#[trigger] all[j]).gpu_duration >= 0);
                    assert(gpu_total(all.take(i + 1)) > u64::MAX);
                    lemma_gpu_total_take(all, i + 1);
                }
                return None;
            },
        };
        i = i + 1;
    }
    proof {
        assert(all.take(n as int) =~= all);
    }
    Some(total)
}

} // verus!

