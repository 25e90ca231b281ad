use vstd::prelude::*;

verus! {

/// How a push onto the bounded queue ended.
#[derive(Clone, Copy, Debug, PartialEq, Eq, Structural)]
pub enum SendOutcome {
    /// The consumer holds the sample, or will.
    Delivered,
    /// The consuming end is gone and the sample with it.
    Closed,
}

/// Whether a streaming producer goes on sampling.
#[derive(Clone, Copy, Debug, PartialEq, Eq, Structural)]
pub enum ProducerState {
    Running,
    Stopped,
}

/// The state of a producer after one more push: it keeps running only if
/// it was running and the push was delivered.
pub open spec fn state_after_send(state: ProducerState, outcome: SendOutcome) -> ProducerState {
    if state is Running && outcome is Delivered {
        ProducerState::Running
    } else {
        ProducerState::Stopped
    }
}

/// The state of a producer that started running and whose pushes ended as
/// `outcomes` says, one after another.
pub open spec fn state_after(outcomes: Seq<SendOutcome>) -> ProducerState
    decreases outcomes.len(),
{
    if outcomes.len() == 0 {
        ProducerState::Running
    } else {
        state_after_send(state_after(outcomes.drop_last()), outcomes.last())
    }
}

/// A producer still runs after a series of pushes exactly if every one of
/// them was delivered.
pub proof fn lemma_running_iff_all_delivered(outcomes: Seq<SendOutcome>)
    ensures
        state_after(outcomes) is Running <==> forall|i: int|
            0 <= i < outcomes.len() ==> outcomes[i] is Delivered,
    decreases outcomes.len(),
{
    if outcomes.len() > 0 {
        let earlier = outcomes.drop_last();
        lemma_running_iff_all_delivered(earlier);
        if state_after(outcomes) is Running {
            assert forall|i: int| 0 <= i < outcomes.len() implies outcomes[i] is Delivered by {
                if i < earlier.len() {
                    assert(earlier[i] is Delivered);
                }
            }
        } else if earlier.len() > 0 && state_after(earlier) is Stopped {
            let i = choose|i: int| 0 <= i < earlier.len() && !(earlier[i] is Delivered);
            assert(!(outcomes[i] is Delivered));
        }
    }
}

/// A producer whose push number `failed` found the queue closed is
/// stopped from that push on: it observes the closure at that very push
/// and makes none after it.
pub proof fn lemma_closed_queue_stops_producer(outcomes: Seq<SendOutcome>, failed: int, pushes: int)
    requires
        0 <= failed < pushes <= outcomes.len(),
        outcomes[failed] is Closed,
    ensures
        state_after(outcomes.take(pushes)) is Stopped,
{
    lemma_running_iff_all_delivered(outcomes.take(pushes));
    assert(outcomes.take(pushes)[failed] is Closed);
}

impl ProducerState {
    /// A producer starts out running.
    pub fn start() -> (state: ProducerState)
        ensures
            state == state_after(Seq::<SendOutcome>::empty()),
            state is Running,
    {
        ProducerState::Running
    }

    /// Whether the producer draws and pushes another sample.
    pub fn is_running(&self) -> (running: bool)
        ensures
            running == (*self is Running),
    {
        match self {
            ProducerState::Running => true,
            ProducerState::Stopped => false,
        }
    }

    /// The state after a push that ended in `outcome`. A closed queue
    /// stops the producer; nothing starts a stopped one again.
    pub fn after_send(self, outcome: SendOutcome) -> (next: ProducerState)
        ensures
            next == state_after_send(self, outcome),
    {
        match (self, outcome) {
            (ProducerState::Running, SendOutcome::Delivered) => ProducerState::Running,
            _ => ProducerState::Stopped,
        }
    }
}

} // verus!
