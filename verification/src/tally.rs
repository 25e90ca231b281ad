use vstd::prelude::*;

verus! {

/// What the aggregator does after a sample has been offered to it.
#[derive(Clone, Copy, Debug, PartialEq, Eq, Structural)]
pub enum Step {
    /// The quota is not reached: receive the next sample.
    Receive,
    /// The quota is reached: stop receiving and close the consuming end.
    Stop,
}

/// How many of `samples` are `true`.
pub open spec fn count_true(samples: Seq<bool>) -> nat
    decreases samples.len(),
{
    if samples.len() == 0 {
        0
    } else {
        count_true(samples.drop_last()) + if samples.last() {
            1nat
        } else {
            0nat
        }
    }
}

/// The state of the streaming aggregator as plain numbers.
pub struct Tally {
    /// How many samples the aggregator takes before it stops.
    pub quota: nat,
    /// How many samples it has taken.
    pub seen: nat,
    /// How many of those were `true`.
    pub hits: nat,
}

impl Tally {
    pub open spec fn is_complete(self) -> bool {
        self.seen >= self.quota
    }

    /// How many samples are still wanted.
    pub open spec fn missing(self) -> nat {
        if self.seen <= self.quota {
            (self.quota - self.seen) as nat
        } else {
            0
        }
    }

    /// How many of `offered` samples in a row the aggregator takes: all of
    /// them, or as many as are still wanted.
    pub open spec fn taken_of(self, offered: nat) -> nat {
        if offered <= self.missing() {
            offered
        } else {
            self.missing()
        }
    }

    /// The state after `samples` were offered one after another: the
    /// first `taken_of` are counted, the rest is discarded.
    pub open spec fn after(self, samples: Seq<bool>) -> Tally {
        let taken = self.taken_of(samples.len());
        Tally {
            quota: self.quota,
            seen: self.seen + taken,
            hits: self.hits + count_true(samples.take(taken as int)),
        }
    }
}

/// Offering samples one after another is the same as offering them in one
/// run: what a sample does depends only on how many were taken before it.
pub proof fn lemma_after_push(tally: Tally, samples: Seq<bool>, sample: bool)
    ensures
        tally.after(samples).after(seq![sample]) == tally.after(samples.push(sample)),
{
    let longer = samples.push(sample);
    let taken = tally.taken_of(samples.len());
    reveal_with_fuel(count_true, 2);
    assert(seq![sample].take(0) =~= Seq::<bool>::empty());
    assert(seq![sample].take(1) =~= seq![sample]);
    assert(seq![sample].drop_last() =~= Seq::<bool>::empty());
    if samples.len() < tally.missing() {
        assert(samples.take(taken as int) =~= samples);
        assert(longer.take(taken as int + 1) =~= longer);
        assert(longer.drop_last() =~= samples);
    } else {
        assert(longer.take(taken as int) =~= samples.take(taken as int));
    }
}

/// The streaming aggregator: counts samples until a fixed quota of them
/// has been seen, and how many of them were `true`.
pub struct SampleTally {
    quota: u64,
    seen: u64,
    hits: u64,
}

impl View for SampleTally {
    type V = Tally;

    closed spec fn view(&self) -> Tally {
        Tally { quota: self.quota as nat, seen: self.seen as nat, hits: self.hits as nat }
    }
}

impl SampleTally {
    #[verifier::type_invariant]
    spec fn counts_in_order(self) -> bool {
        self.hits <= self.seen <= self.quota
    }

    /// An aggregator that has seen nothing and will take `quota` samples.
    pub fn new(quota: u64) -> (tally: SampleTally)
        ensures
            tally@ == (Tally { quota: quota as nat, seen: 0, hits: 0 }),
    {
        SampleTally { quota, seen: 0, hits: 0 }
    }

    /// Whether the quota is reached.
    pub fn is_complete(&self) -> (done: bool)
        ensures
            done == self@.is_complete(),
            done == (self@.seen == self@.quota),
    {
        proof {
            use_type_invariant(self);
        }
        self.seen == self.quota
    }

    /// Offers one sample. Below the quota it is counted; at the quota it
    /// is discarded. The answer says whether another sample is wanted.
    pub fn record(&mut self, sample: bool) -> (step: Step)
        ensures
            final(self)@ == old(self)@.after(seq![sample]),
            step == if final(self)@.is_complete() {
                Step::Stop
            } else {
                Step::Receive
            },
    {
        proof {
            use_type_invariant(&*self);
            assert(seq![sample].take(0) =~= Seq::<bool>::empty());
            assert(seq![sample].take(1) =~= seq![sample]);
            assert(seq![sample].drop_last() =~= Seq::<bool>::empty());
            reveal_with_fuel(count_true, 2);
        }
        if self.seen < self.quota {
            self.seen = self.seen + 1;
            if sample {
                self.hits = self.hits + 1;
            }
        }
        if self.seen == self.quota {
            Step::Stop
        } else {
            Step::Receive
        }
    }

    /// Offers the samples in order until the quota is reached or they run
    /// out, and says how many were taken; the others are discarded.
    pub fn feed(&mut self, samples: &[bool]) -> (taken: usize)
        ensures
            final(self)@ == old(self)@.after(samples@),
            taken == old(self)@.taken_of(samples@.len()),
    {
        let ghost start = self@;
        let mut i: usize = 0;
        proof {
            use_type_invariant(&*self);
            assert(samples@.take(0) =~= Seq::<bool>::empty());
        }
        while i < samples.len() && !self.is_complete()
            invariant
                i <= samples.len(),
                i <= start.missing(),
                start.seen <= start.quota,
                self@ == start.after(samples@.take(i as int)),
            decreases samples.len() - i,
        {
            proof {
                lemma_after_push(start, samples@.take(i as int), samples@[i as int]);
                assert(samples@.take(i as int).push(samples@[i as int]) =~= samples@.take(i + 1));
            }
            self.record(samples[i]);
            i += 1;
        }
        proof {
            let offered = samples@.take(i as int);
            if i == samples.len() {
                assert(offered =~= samples@);
            } else {
                assert(offered.take(i as int) =~= offered);
            }
        }
        i
    }

    /// Once the quota is reached, the share of `true` samples as an exact
    /// fraction: the hits over the quota. Before that there is none.
    pub fn ratio(&self) -> (ratio: Option<(u64, u64)>)
        ensures
            ratio is Some <==> self@.is_complete(),
            ratio matches Some((hits, quota)) ==> hits == self@.hits && quota == self@.quota
                && hits <= quota,
    {
        proof {
            use_type_invariant(self);
        }
        if self.seen == self.quota {
            Some((self.hits, self.quota))
        } else {
            None
        }
    }

    /// How many samples the aggregator takes before it stops.
    pub fn quota(&self) -> (quota: u64)
        ensures
            quota == self@.quota,
    {
        self.quota
    }

    /// How many samples were taken so far; never more than the quota.
    pub fn seen(&self) -> (seen: u64)
        ensures
            seen == self@.seen,
            seen <= self@.quota,
    {
        proof {
            use_type_invariant(self);
        }
        self.seen
    }

    /// How many of the samples taken were `true`; never more than were taken.
    pub fn hits(&self) -> (hits: u64)
        ensures
            hits == self@.hits,
            hits <= self@.seen,
    {
        proof {
            use_type_invariant(self);
        }
        self.hits
    }
}

} // verus!
