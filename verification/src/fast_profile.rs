//! Times added up under labels.

use crate::config::same_text;
use vstd::prelude::*;
use vstd::string::*;

verus! {

/// How many labels are told apart.
pub const N_BUCKETS: usize = 64;

/// A label and where it stands in memory, which tells labels apart.
pub struct Label {
    pub id: u64,
    pub name: String,
}

/// Microseconds and calls for each label.
pub struct Profiler {
    pub enabled: bool,
    /// The labels in the order of their first use.
    pub labels: Vec<Label>,
    pub usec: Vec<u64>,
    pub count: Vec<u64>,
}

/// What a profile says of one label.
pub struct Row {
    pub label: String,
    pub usec: u64,
    pub calls: u64,
}

/// What a [`Row`] says.
pub struct RowData {
    pub label: Seq<char>,
    pub usec: u64,
    pub calls: u64,
}

impl View for Row {
    type V = RowData;

    open spec fn view(&self) -> RowData {
        RowData { label: self.label@, usec: self.usec, calls: self.calls }
    }
}

/// A profile: the labels that took time, and their sum.
pub struct Report {
    pub rows: Vec<Row>,
    pub total: u64,
}

/// Something that takes time under a label.
pub struct Scope {
    pub idx: usize,
    /// When it began, where times are wanted.
    pub start: Option<u64>,
}

/// Whether profiling is enabled: where `DA_FAST_PROFILE` is 1.
pub fn enabled(value: Option<&str>) -> (r: bool)
    ensures
        r == (value matches Some(s) && s@ == "1"@),
{
    match value {
        Some(s) => same_text(s, "1"),
        None => false,
    }
}

/// The first label with this place in memory.
pub open spec fn find(labels: Seq<Label>, id: u64, i: int) -> Option<int>
    decreases labels.len() - i,
{
    if i >= labels.len() {
        None
    } else if labels[i].id == id {
        Some(i)
    } else {
        find(labels, id, i + 1)
    }
}

/// The label's bucket: its own, a new one, or the last one where none is left.
pub open spec fn bucket_of(labels: Seq<Label>, id: u64) -> int {
    match find(labels, id, 0) {
        Some(i) => i,
        None => if labels.len() < N_BUCKETS {
            labels.len() as int
        } else {
            N_BUCKETS - 1
        },
    }
}

proof fn lemma_find(labels: Seq<Label>, id: u64, i: int)
    requires
        0 <= i <= labels.len(),
    ensures
        match find(labels, id, i) {
            Some(k) => i <= k < labels.len() && labels[k].id == id,
            None => forall|k: int| i <= k < labels.len() ==> (#[trigger] labels[k]).id != id,
        },
    decreases labels.len() - i,
{
    if i < labels.len() {
        lemma_find(labels, id, i + 1);
    }
}

proof fn lemma_find_pushed(labels: Seq<Label>, new: Label, id: u64, i: int)
    requires
        0 <= i <= labels.len(),
    ensures
        find(labels.push(new), id, i) == (match find(labels, id, i) {
            Some(k) => Some(k),
            None => if new.id == id {
                Some(labels.len() as int)
            } else {
                None
            },
        }),
    decreases labels.len() - i,
{
    let p = labels.push(new);
    if i < labels.len() {
        assert(p[i] == labels[i]);
        lemma_find_pushed(labels, new, id, i + 1);
    } else {
        assert(p[i] == new);
        assert(find(p, id, i + 1) is None);
    }
}

/// The sum of the first `n` numbers, modulo `2^64`.
pub open spec fn wrapping_sum(v: Seq<u64>, n: nat) -> u64
    decreases n,
{
    if n == 0 {
        0
    } else {
        vstd::wrapping::u64_specs::wrapping_add(wrapping_sum(v, (n - 1) as nat), v[n - 1])
    }
}

/// What a profile says of the first `n` buckets: those that took time.
pub open spec fn rows_of(
    labels: Seq<Label>,
    usec: Seq<u64>,
    count: Seq<u64>,
    n: nat,
) -> Seq<RowData>
    decreases n,
{
    if n == 0 {
        Seq::empty()
    } else {
        let before = rows_of(labels, usec, count, (n - 1) as nat);
        if usec[n - 1] == 0 {
            before
        } else {
            before.push(
                RowData {
                    label: if n - 1 < labels.len() {
                        labels[n - 1].name@
                    } else {
                        "<overflow>"@
                    },
                    usec: usec[n - 1],
                    calls: count[n - 1],
                },
            )
        }
    }
}

/// The labels `new` after a use of the label `id`: one more where it is new and
/// there is room for it.
pub open spec fn labels_after(old_labels: Seq<Label>, new: Seq<Label>, id: u64, name: Seq<char>) -> bool {
    if find(old_labels, id, 0) is Some || old_labels.len() == N_BUCKETS {
        new == old_labels
    } else {
        &&& new.len() == old_labels.len() + 1
        &&& new.drop_last() == old_labels
        &&& new.last().id == id
        &&& new.last().name@ == name
    }
}

impl Profiler {
    /// One counter of each kind for each bucket, and no more labels than buckets.
    pub open spec fn wf(&self) -> bool {
        &&& self.labels.len() <= N_BUCKETS
        &&& self.usec.len() == N_BUCKETS
        &&& self.count.len() == N_BUCKETS
    }

    /// A profile of nothing.
    pub fn new(enabled: bool) -> (r: Self)
        ensures
            r.wf(),
            r.enabled == enabled,
            r.labels.len() == 0,
            forall|i: int| 0 <= i < N_BUCKETS ==> #[trigger] r.usec[i] == 0,
            forall|i: int| 0 <= i < N_BUCKETS ==> #[trigger] r.count[i] == 0,
    {
        let mut usec: Vec<u64> = Vec::new();
        let mut count: Vec<u64> = Vec::new();
        let mut i: usize = 0;
        while i < N_BUCKETS
            invariant
                i <= N_BUCKETS,
                usec.len() == i,
                count.len() == i,
                forall|j: int| 0 <= j < i ==> #[trigger] usec[j] == 0,
                forall|j: int| 0 <= j < i ==> #[trigger] count[j] == 0,
            decreases N_BUCKETS - i,
        {
            usec.push(0);
            count.push(0);
            i = i + 1;
        }
        Profiler { enabled, labels: Vec::new(), usec, count }
    }

    /// The bucket of a label, which gets one on its first use.
    pub fn idx(&mut self, id: u64, name: &str) -> (r: usize)
        requires
            old(self).wf(),
        ensures
            final(self).wf(),
            r == bucket_of(old(self).labels@, id),
            r < N_BUCKETS,
            final(self).enabled == old(self).enabled,
            final(self).usec == old(self).usec,
            final(self).count == old(self).count,
            labels_after(old(self).labels@, final(self).labels@, id, name@),
    {
        let mut i: usize = 0;
        while i < self.labels.len()
            invariant
                i <= self.labels.len(),
                *self == *old(self),
                self.wf(),
                find(self.labels@, id, 0) == find(self.labels@, id, i as int),
            decreases self.labels.len() - i,
        {
            if self.labels[i].id == id {
                return i;
            }
            i = i + 1;
        }
        if self.labels.len() < N_BUCKETS {
            self.labels.push(Label { id, name: name.to_owned() });
            assert(self.labels@.drop_last() =~= old(self).labels@);
            i
        } else {
            N_BUCKETS - 1
        }
    }

    /// Adds time to a bucket, where times are wanted.
    pub fn record_idx(&mut self, i: usize, usec: u64)
        requires
            old(self).wf(),
            old(self).enabled ==> i < N_BUCKETS,
        ensures
            final(self).wf(),
            final(self).enabled == old(self).enabled,
            final(self).labels == old(self).labels,
            !old(self).enabled ==> *final(self) == *old(self),
            old(self).enabled ==> {
                &&& final(self).usec@ == old(self).usec@.update(
                    i as int,
                    vstd::wrapping::u64_specs::wrapping_add(old(self).usec@[i as int], usec),
                )
                &&& final(self).count@ == old(self).count@.update(
                    i as int,
                    vstd::wrapping::u64_specs::wrapping_add(old(self).count@[i as int], 1),
                )
            },
    {
        if !self.enabled {
            return;
        }
        let u: u64 = self.usec[i].wrapping_add(usec);
        self.usec[i] = u;
        let c: u64 = self.count[i].wrapping_add(1);
        self.count[i] = c;
    }

    /// Begins something under a bucket at the time `now`.
    pub fn scope_idx(&self, idx: usize, now: u64) -> (r: Scope)
        ensures
            r.idx == idx,
            r.start == (if self.enabled {
                Some(now)
            } else {
                None
            }),
    {
        Scope {
            idx,
            start: if self.enabled {
                Some(now)
            } else {
                None
            },
        }
    }

    /// Begins something under a label at the time `now`.
    pub fn scope(&mut self, id: u64, name: &str, now: u64) -> (r: Scope)
        requires
            old(self).wf(),
        ensures
            final(self).wf(),
            r.idx == bucket_of(old(self).labels@, id),
            r.start == (if old(self).enabled {
                Some(now)
            } else {
                None
            }),
            final(self).enabled == old(self).enabled,
            final(self).usec == old(self).usec,
            final(self).count == old(self).count,
            labels_after(old(self).labels@, final(self).labels@, id, name@),
    {
        let idx: usize = self.idx(id, name);
        self.scope_idx(idx, now)
    }

    /// Ends what began as `scope` at the time `now`.
    pub fn finish(&mut self, scope: Scope, now: u64)
        requires
            old(self).wf(),
            scope.start matches Some(t) ==> t <= now && scope.idx < N_BUCKETS,
        ensures
            final(self).wf(),
            final(self).enabled == old(self).enabled,
            final(self).labels == old(self).labels,
            scope.start is None || !old(self).enabled ==> *final(self) == *old(self),
            scope.start is Some && old(self).enabled ==> {
                &&& final(self).usec@ == old(self).usec@.update(
                    scope.idx as int,
                    vstd::wrapping::u64_specs::wrapping_add(
                        old(self).usec@[scope.idx as int],
                        (now - scope.start->0) as u64,
                    ),
                )
                &&& final(self).count@ == old(self).count@.update(
                    scope.idx as int,
                    vstd::wrapping::u64_specs::wrapping_add(
                        old(self).count@[scope.idx as int],
                        1,
                    ),
                )
            },
    {
        if let Some(t) = scope.start {
            self.record_idx(scope.idx, now - t);
        }
    }

    /// The profile so far, where times are wanted; all counters start again.
    pub fn dump_and_reset(&mut self) -> (r: Option<Report>)
        requires
            old(self).wf(),
        ensures
            final(self).wf(),
            final(self).enabled == old(self).enabled,
            final(self).labels == old(self).labels,
            !old(self).enabled ==> r is None && *final(self) == *old(self),
            old(self).enabled ==> {
                &&& r is Some
                &&& crate::gguf::views(r->0.rows@) == rows_of(
                    old(self).labels@,
                    old(self).usec@,
                    old(self).count@,
                    N_BUCKETS as nat,
                )
                &&& r->0.total == wrapping_sum(old(self).usec@, N_BUCKETS as nat)
                &&& forall|i: int| 0 <= i < N_BUCKETS ==> #[trigger] final(self).usec[i] == 0
                &&& forall|i: int| 0 <= i < N_BUCKETS ==> #[trigger] final(self).count[i] == 0
            },
    {
        if !self.enabled {
            return None;
        }
        let ghost us = self.usec@;
        let ghost cs = self.count@;
        let mut rows: Vec<Row> = Vec::new();
        let mut total: u64 = 0;
        let mut i: usize = 0;
        assert(crate::gguf::views(rows@) =~= Seq::empty());
        while i < N_BUCKETS
            invariant
                i <= N_BUCKETS,
                self.wf(),
                self.enabled,
                self.labels == old(self).labels,
                self.enabled == old(self).enabled,
                us == old(self).usec@,
                cs == old(self).count@,
                us.len() == N_BUCKETS,
                cs.len() == N_BUCKETS,
                forall|j: int| 0 <= j < i ==> #[trigger] self.usec[j] == 0,
                forall|j: int| 0 <= j < i ==> #[trigger] self.count[j] == 0,
                forall|j: int| i <= j < N_BUCKETS ==> #[trigger] self.usec[j] == us[j],
                forall|j: int| i <= j < N_BUCKETS ==> #[trigger] self.count[j] == cs[j],
                crate::gguf::views(rows@) == rows_of(self.labels@, us, cs, i as nat),
                total == wrapping_sum(us, i as nat),
            decreases N_BUCKETS - i,
        {
            let u: u64 = self.usec[i];
            let n: u64 = self.count[i];
            self.usec[i] = 0;
            self.count[i] = 0;
            proof {
                assert(u == us[i as int] && n == cs[i as int]);
            }
            if u != 0 {
                let label: String = if i < self.labels.len() {
                    self.labels[i].name.as_str().to_owned()
                } else {
                    "<overflow>".to_owned()
                };
                let ghost before = rows@;
                let row: Row = Row { label, usec: u, calls: n };
                rows.push(row);
                assert(crate::gguf::views(rows@) =~= crate::gguf::views(before).push(row@));
            }
            total = total.wrapping_add(u);
            i = i + 1;
        }
        Some(Report { rows, total })
    }
}

/// A label keeps its bucket however many others come after it.
pub proof fn law_bucket_is_stable(labels: Seq<Label>, new: Label, id: u64)
    requires
        labels.len() < N_BUCKETS,
        find(labels, id, 0) is Some || new.id == id,
    ensures
        bucket_of(labels.push(new), id) == bucket_of(labels, id),
{
    lemma_find_pushed(labels, new, id, 0);
    lemma_find(labels, id, 0);
}

} // verus!
