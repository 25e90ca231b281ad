use vstd::prelude::*;
use vstd::arithmetic::div_mod::lemma_fundamental_div_mod;
use crate::error::PipelineError;

verus! {

/// A half-open range of indices `[start, end)`, as a mathematical value.
pub struct Span {
    pub start: nat,
    pub end: nat,
}

impl Span {
    /// Number of indices in the span; a span whose end lies before its start is empty.
    pub open spec fn len(self) -> nat {
        if self.start <= self.end {
            (self.end - self.start) as nat
        } else {
            0
        }
    }

    /// Whether `i` is one of the indices of the span.
    pub open spec fn contains(self, i: nat) -> bool {
        self.start <= i < self.end
    }

    /// The indices of the span in increasing order.
    pub open spec fn indices(self) -> Seq<nat> {
        Seq::new(self.len(), |j: int| (self.start + j) as nat)
    }
}

/// The half-open range of term indices `[start, end)` that one worker sums.
#[derive(Clone, Copy, Debug, PartialEq, Eq, Structural)]
pub struct WorkInterval {
    pub start: u64,
    pub end: u64,
}

impl View for WorkInterval {
    type V = Span;

    open spec fn view(&self) -> Span {
        Span { start: self.start as nat, end: self.end as nat }
    }
}

impl WorkInterval {
    /// An interval never ends before it starts.
    pub open spec fn wf(&self) -> bool {
        self.start <= self.end
    }

    /// How many indices the interval holds.
    pub fn len(&self) -> (n: u64)
        ensures
            n == self@.len(),
    {
        if self.start <= self.end {
            self.end - self.start
        } else {
            0
        }
    }

    /// Whether the interval holds no index.
    pub fn is_empty(&self) -> (empty: bool)
        ensures
            empty == (self@.len() == 0),
    {
        self.start >= self.end
    }
}

/// The spans behind a sequence of intervals, in the same order.
pub open spec fn spans_of(intervals: Seq<WorkInterval>) -> Seq<Span> {
    intervals.map_values(|iv: WorkInterval| iv@)
}

/// The smaller of two numbers.
pub open spec fn min_nat(a: nat, b: nat) -> nat {
    if a <= b {
        a
    } else {
        b
    }
}

/// Where the share of worker `k` begins: every worker before it took
/// `n / workers` indices, and the first `n % workers` of them one more.
pub open spec fn share_start(n: nat, workers: nat, k: nat) -> nat {
    k * (n / workers) + min_nat(k, n % workers)
}

/// The share of worker `k` when `n` indices are split among `workers`.
pub open spec fn share(n: nat, workers: nat, k: nat) -> Span {
    Span { start: share_start(n, workers, k), end: share_start(n, workers, k + 1) }
}

/// The split of `[0, n)` among `workers` workers, in worker order.
pub open spec fn partition(n: nat, workers: nat) -> Seq<Span> {
    Seq::new(workers, |k: int| share(n, workers, k as nat))
}

/// The first share starts at 0 and the last ends at `n`; no share ends
/// before it starts or after `n`; and share `k` holds `n / workers`
/// indices, one more if `k` is among the first `n % workers`.
pub proof fn lemma_share_start_bounds(n: nat, workers: nat, k: nat)
    requires
        workers >= 1,
        k < workers,
    ensures
        share_start(n, workers, 0) == 0,
        share_start(n, workers, workers) == n,
        share_start(n, workers, k) <= share_start(n, workers, k + 1) <= n,
        share(n, workers, k).len() == n / workers + if k < n % workers { 1nat } else { 0nat },
{
    let base = n / workers;
    let rem = n % workers;
    lemma_fundamental_div_mod(n as int, workers as int);
    assert(0 <= rem < workers);
    assert(n == workers * base + rem);
    assert(0 * base == 0) by (nonlinear_arith);
    assert((k + 1) * base == k * base + base) by (nonlinear_arith);
    assert((k + 1) * base <= workers * base) by (nonlinear_arith)
        requires
            k + 1 <= workers,
            base >= 0,
    ;
}

/// The smaller size a share can have: `n / workers` rounded down.
pub open spec fn floor_share(n: nat, workers: nat) -> nat {
    n / workers
}

/// The larger size a share can have: `n / workers` rounded up.
pub open spec fn ceil_share(n: nat, workers: nat) -> nat {
    if n % workers == 0 {
        n / workers
    } else {
        n / workers + 1
    }
}

/// The sizes of the spans, added up.
pub open spec fn total_len(spans: Seq<Span>) -> nat
    decreases spans.len(),
{
    if spans.len() == 0 {
        0
    } else {
        total_len(spans.drop_last()) + spans.last().len()
    }
}

/// The indices of the spans one after another, in the order of the spans.
pub open spec fn concat_indices(spans: Seq<Span>) -> Seq<nat>
    decreases spans.len(),
{
    if spans.len() == 0 {
        Seq::empty()
    } else {
        concat_indices(spans.drop_last()) + spans.last().indices()
    }
}

/// The indices `0, 1, .., n - 1`.
pub open spec fn index_range(n: nat) -> Seq<nat> {
    Seq::new(n, |i: int| i as nat)
}

/// `spans` is an even split of `[0, n)` among `workers` workers: one span
/// per worker, sizes that add up to `n` and differ by at most one, and
/// spans that laid end to end are exactly `0, 1, .., n - 1`.
pub open spec fn splits_evenly(spans: Seq<Span>, n: nat, workers: nat) -> bool {
    &&& spans.len() == workers
    &&& total_len(spans) == n
    &&& forall|k: int|
        0 <= k < spans.len() ==> {
            &&& (#[trigger] spans[k]).start <= spans[k].end
            &&& (spans[k].len() == floor_share(n, workers) || spans[k].len() == ceil_share(
                n,
                workers,
            ))
        }
    &&& concat_indices(spans) == index_range(n)
}

proof fn lemma_partition_prefix(n: nat, workers: nat, k: nat)
    requires
        workers >= 1,
        k <= workers,
    ensures
        total_len(partition(n, workers).take(k as int)) == share_start(n, workers, k),
        concat_indices(partition(n, workers).take(k as int)) == index_range(
            share_start(n, workers, k),
        ),
    decreases k,
{
    let parts = partition(n, workers);
    let prefix = parts.take(k as int);
    lemma_share_start_bounds(n, workers, 0);
    if k == 0 {
        assert(concat_indices(prefix) =~= index_range(0));
    } else {
        let before = (k - 1) as nat;
        lemma_partition_prefix(n, workers, before);
        lemma_share_start_bounds(n, workers, before);
        assert(prefix.drop_last() =~= parts.take(before as int));
        assert(prefix.last() == share(n, workers, before));
        assert(index_range(share_start(n, workers, before)) + share(n, workers, before).indices()
            =~= index_range(share_start(n, workers, k)));
    }
}

/// The split that `partition` describes is even: it has one span per
/// worker, the sizes add up to `n`, each size is `n / workers` rounded
/// down or up, and the spans laid end to end give back `0, 1, .., n - 1`.
pub proof fn lemma_partition_splits_evenly(n: nat, workers: nat)
    requires
        workers >= 1,
    ensures
        splits_evenly(partition(n, workers), n, workers),
{
    let parts = partition(n, workers);
    lemma_partition_prefix(n, workers, workers);
    lemma_share_start_bounds(n, workers, 0);
    assert(parts.take(workers as int) =~= parts);
    assert forall|k: int| 0 <= k < parts.len() implies {
        &&& (#[trigger] parts[k]).start <= parts[k].end
        &&& (parts[k].len() == floor_share(n, workers) || parts[k].len() == ceil_share(n, workers))
    } by {
        lemma_share_start_bounds(n, workers, k as nat);
    }
}

/// The shares lie end to end: the first starts at 0, each starts where
/// the one before it ends, and the last ends at `n`.
pub proof fn lemma_partition_is_contiguous(n: nat, workers: nat)
    requires
        workers >= 1,
    ensures
        partition(n, workers).first().start == 0,
        partition(n, workers).last().end == n,
        forall|k: int|
            0 <= k < workers - 1 ==> (#[trigger] partition(n, workers)[k]).end == partition(
                n,
                workers,
            )[k + 1].start,
{
    lemma_share_start_bounds(n, workers, 0);
}

/// A later share never starts before an earlier one.
pub proof fn lemma_share_start_is_monotonic(n: nat, workers: nat, j: nat, k: nat)
    requires
        workers >= 1,
        j <= k <= workers,
    ensures
        share_start(n, workers, j) <= share_start(n, workers, k),
    decreases k - j,
{
    if j < k {
        lemma_share_start_bounds(n, workers, (k - 1) as nat);
        lemma_share_start_is_monotonic(n, workers, j, (k - 1) as nat);
    }
}

proof fn lemma_find_owner(n: nat, workers: nat, i: nat, k: nat) -> (owner: nat)
    requires
        workers >= 1,
        k < workers,
        share_start(n, workers, k) <= i < n,
    ensures
        owner < workers,
        share(n, workers, owner).contains(i),
    decreases workers - k,
{
    lemma_share_start_bounds(n, workers, k);
    if i < share_start(n, workers, k + 1) {
        k
    } else {
        lemma_find_owner(n, workers, i, k + 1)
    }
}

/// No gaps and no overlaps: every index of `[0, n)` lies in the share of
/// exactly one worker.
pub proof fn lemma_index_has_one_owner(n: nat, workers: nat, i: nat) -> (owner: nat)
    requires
        workers >= 1,
        i < n,
    ensures
        owner < workers,
        forall|k: int|
            0 <= k < workers ==> ((#[trigger] partition(n, workers)[k]).contains(i) <==> k
                == owner),
{
    lemma_share_start_bounds(n, workers, 0);
    let owner = lemma_find_owner(n, workers, i, 0);
    assert forall|k: int| 0 <= k < workers implies ((#[trigger] partition(n, workers)[k]).contains(
        i,
    ) <==> k == owner) by {
        if k < owner {
            lemma_share_start_is_monotonic(n, workers, (k + 1) as nat, owner);
        } else if k > owner {
            lemma_share_start_is_monotonic(n, workers, owner + 1, k as nat);
        }
    }
    owner
}

/// Splits the indices `0..n` among `threads` workers as evenly as whole
/// indices allow: every worker gets `n / threads` of them and the first
/// `n % threads` workers one more, each worker a contiguous run.
pub fn get_work_intervals(n: u64, threads: usize) -> (result: Result<Vec<WorkInterval>, PipelineError>)
    ensures
        result is Err <==> threads == 0,
        result matches Err(e) ==> e == PipelineError::InvalidConfiguration,
        result matches Ok(intervals) ==> {
            &&& spans_of(intervals@) == partition(n as nat, threads as nat)
            &&& splits_evenly(spans_of(intervals@), n as nat, threads as nat)
            &&& forall|k: int| 0 <= k < intervals.len() ==> (#[trigger] intervals[k]).wf()
        },
{
    if threads == 0 {
        return Err(PipelineError::InvalidConfiguration);
    }
    let per_thread_base: u64 = n / (threads as u64);
    let mut left_over: u64 = n % (threads as u64);
    let mut result: Vec<WorkInterval> = Vec::new();
    let mut current_max: u64 = 0;
    proof {
        lemma_share_start_bounds(n as nat, threads as nat, 0);
    }
    for i in 0..threads
        invariant
            threads >= 1,
            per_thread_base == n as nat / threads as nat,
            left_over == n as nat % threads as nat - min_nat(i as nat, n as nat % threads as nat),
            current_max == share_start(n as nat, threads as nat, i as nat),
            result@.len() == i,
            forall|j: int| 0 <= j < i ==> (#[trigger] result@[j])@ == share(n as nat, threads as nat, j as nat),
    {
        proof {
            lemma_share_start_bounds(n as nat, threads as nat, i as nat);
        }
        let mut new_max: u64 = current_max + per_thread_base;
        if left_over > 0 {
            left_over -= 1;
            new_max += 1;
        }
        result.push(WorkInterval { start: current_max, end: new_max });
        current_max = new_max;
    }
    proof {
        assert(spans_of(result@) =~= partition(n as nat, threads as nat));
        lemma_partition_splits_evenly(n as nat, threads as nat);
        assert forall|k: int| 0 <= k < result.len() implies (#[trigger] result[k]).wf() by {
            lemma_share_start_bounds(n as nat, threads as nat, k as nat);
            assert(result@[k]@ == share(n as nat, threads as nat, k as nat));
        }
    }
    Ok(result)
}

} // verus!
