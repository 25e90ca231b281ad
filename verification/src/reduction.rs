use vstd::prelude::*;
use vstd::seq_lib::{to_multiset_contains, to_multiset_len, to_multiset_remove};
use crate::partition::{lemma_share_start_bounds, partition, share, share_start, Span};

verus! {

/// The whole index range `[0, n)` as one span.
pub open spec fn whole(n: nat) -> Span {
    Span { start: 0, end: n }
}

/// What one worker computes: the sum of `term(i)` over the indices of its
/// span, in exact arithmetic.
pub open spec fn span_sum(term: spec_fn(nat) -> real, span: Span) -> real
    decreases span.len(),
{
    if span.len() == 0 {
        0real
    } else {
        let last = (span.end - 1) as nat;
        span_sum(term, Span { start: span.start, end: last }) + term(last)
    }
}

/// The partial results of the workers, one per span and in span order.
pub open spec fn partial_results(term: spec_fn(nat) -> real, spans: Seq<Span>) -> Seq<real> {
    spans.map_values(|span: Span| span_sum(term, span))
}

/// What the aggregator computes: the sum of the partial results it received.
pub open spec fn total(parts: Seq<real>) -> real
    decreases parts.len(),
{
    if parts.len() == 0 {
        0real
    } else {
        total(parts.drop_last()) + parts.last()
    }
}

/// Summing two adjacent spans separately and adding the results gives the
/// sum over the span that they form together.
pub proof fn lemma_span_sum_splits(term: spec_fn(nat) -> real, start: nat, mid: nat, end: nat)
    requires
        start <= mid <= end,
    ensures
        span_sum(term, Span { start, end }) == span_sum(term, Span { start, end: mid }) + span_sum(
            term,
            Span { start: mid, end },
        ),
    decreases end - mid,
{
    if mid < end {
        lemma_span_sum_splits(term, start, mid, (end - 1) as nat);
    }
}

proof fn lemma_reduction_prefix(term: spec_fn(nat) -> real, n: nat, workers: nat, k: nat)
    requires
        workers >= 1,
        k <= workers,
    ensures
        total(partial_results(term, partition(n, workers)).take(k as int)) == span_sum(
            term,
            whole(share_start(n, workers, k)),
        ),
    decreases k,
{
    let parts = partial_results(term, partition(n, workers));
    lemma_share_start_bounds(n, workers, 0);
    if k > 0 {
        let before = (k - 1) as nat;
        lemma_reduction_prefix(term, n, workers, before);
        lemma_share_start_bounds(n, workers, before);
        assert(parts.take(k as int).drop_last() =~= parts.take(before as int));
        assert(parts.take(k as int).last() == span_sum(term, share(n, workers, before)));
        lemma_span_sum_splits(
            term,
            0,
            share_start(n, workers, before),
            share_start(n, workers, k),
        );
    }
}

/// However many workers share the range, the partial results add up to
/// the sum of every term of `[0, n)`: splitting the range changes who sums
/// a term, not which terms are summed.
pub proof fn lemma_reduction_sums_every_term(term: spec_fn(nat) -> real, n: nat, workers: nat)
    requires
        workers >= 1,
    ensures
        total(partial_results(term, partition(n, workers))) == span_sum(term, whole(n)),
{
    let parts = partial_results(term, partition(n, workers));
    lemma_reduction_prefix(term, n, workers, workers);
    lemma_share_start_bounds(n, workers, 0);
    assert(parts.take(workers as int) =~= parts);
}

/// The reduced value does not depend on the number of workers.
pub proof fn lemma_reduction_ignores_worker_count(
    term: spec_fn(nat) -> real,
    n: nat,
    workers_a: nat,
    workers_b: nat,
)
    requires
        workers_a >= 1,
        workers_b >= 1,
    ensures
        total(partial_results(term, partition(n, workers_a))) == total(
            partial_results(term, partition(n, workers_b)),
        ),
{
    lemma_reduction_sums_every_term(term, n, workers_a);
    lemma_reduction_sums_every_term(term, n, workers_b);
}

/// Leaving one partial result out lowers the total by that result.
pub proof fn lemma_total_without(parts: Seq<real>, i: int)
    requires
        0 <= i < parts.len(),
    ensures
        total(parts) == total(parts.remove(i)) + parts[i],
    decreases parts.len(),
{
    if i == parts.len() - 1 {
        assert(parts.remove(i) =~= parts.drop_last());
    } else {
        lemma_total_without(parts.drop_last(), i);
        assert(parts.remove(i).drop_last() =~= parts.drop_last().remove(i));
        assert(parts.remove(i).last() == parts.last());
    }
}

/// The total does not depend on the order in which the partial results
/// arrive: two sequences that hold the same results, each as often as the
/// other, have the same total.
pub proof fn lemma_total_ignores_arrival_order(sent: Seq<real>, received: Seq<real>)
    requires
        sent.to_multiset() == received.to_multiset(),
    ensures
        total(sent) == total(received),
    decreases sent.len(),
{
    to_multiset_len(sent);
    to_multiset_len(received);
    if sent.len() > 0 {
        let value = sent.last();
        assert(sent.contains(value));
        to_multiset_contains(sent, value);
        to_multiset_contains(received, value);
        let i = received.index_of(value);
        assert(sent.drop_last() =~= sent.remove(sent.len() - 1));
        to_multiset_remove(sent, sent.len() - 1);
        to_multiset_remove(received, i);
        lemma_total_ignores_arrival_order(sent.drop_last(), received.remove(i));
        lemma_total_without(received, i);
    }
}

} // verus!
