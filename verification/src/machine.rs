//! Sinks as state machines: what a sink holds is decided by the calls it accepted.
use vstd::prelude::*;
use crate::error::GeozeroError;
use crate::event::{accepted, delivered, Call, Event, Walk};

verus! {

/// The state of a sink whose answer to a call depends on nothing but its
/// state and the call.
pub trait SinkMachine: Sized {
    /// The state after one call, or `None` where the sink rejects the call.
    spec fn next(self, event: Event) -> Option<Self>;
}

/// The state after a sink in the given state has accepted each of `events`
/// in turn, or `None` if it rejects one of them.
pub open spec fn run<M: SinkMachine>(state: M, events: Seq<Event>) -> Option<M>
    decreases events.len(),
{
    if events.len() == 0 {
        Some(state)
    } else {
        match run(state, events.drop_last()) {
            Some(s) => s.next(events.last()),
            None => None,
        }
    }
}

/// The state that a sink which started in `initial` is in after the given
/// calls, each of which it accepted where its state machine takes the step
/// and rejected where it does not; `None` if some call was answered otherwise.
pub open spec fn replay<M: SinkMachine>(initial: M, calls: Seq<Call>) -> Option<M>
    decreases calls.len(),
{
    if calls.len() == 0 {
        Some(initial)
    } else {
        match replay(initial, calls.drop_last()) {
            Some(state) => match state.next(calls.last().event) {
                Some(next) => if calls.last().outcome is Ok {
                    Some(next)
                } else {
                    None
                },
                None => if calls.last().outcome is Err {
                    Some(state)
                } else {
                    None
                },
            },
            None => None,
        }
    }
}

/// Running one more event is one more step.
pub proof fn lemma_run_push<M: SinkMachine>(state: M, events: Seq<Event>, event: Event)
    ensures
        run(state, events.push(event)) == match run(state, events) {
            Some(s) => s.next(event),
            None => None,
        },
{
    assert(events.push(event).drop_last() =~= events);
}

/// Running a single event is one step.
pub proof fn lemma_run_one<M: SinkMachine>(state: M, event: Event)
    ensures
        run(state, seq![event]) == state.next(event),
{
    lemma_run_push(state, Seq::empty(), event);
    assert(Seq::<Event>::empty().push(event) =~= seq![event]);
}

/// Running two sequences one after the other is running their concatenation.
pub proof fn lemma_run_concat<M: SinkMachine>(state: M, first: Seq<Event>, second: Seq<Event>)
    ensures
        run(state, first + second) == match run(state, first) {
            Some(s) => run(s, second),
            None => None,
        },
    decreases second.len(),
{
    if second.len() == 0 {
        assert(first + second =~= first);
    } else {
        lemma_run_concat(state, first, second.drop_last());
        assert((first + second).drop_last() =~= first + second.drop_last());
    }
}

/// A sink that accepts a whole sequence accepts each of its beginnings.
pub proof fn lemma_run_prefix<M: SinkMachine>(state: M, events: Seq<Event>, n: int)
    requires
        0 <= n <= events.len(),
        run(state, events) is Some,
    ensures
        run(state, events.take(n)) is Some,
{
    lemma_run_concat(state, events.take(n), events.skip(n));
    assert(events.take(n) + events.skip(n) =~= events);
}

/// One more call, answered as the state machine says, is replayed to the
/// state that the machine reaches.
pub proof fn lemma_replay_push<M: SinkMachine>(
    initial: M,
    calls: Seq<Call>,
    state: M,
    event: Event,
    r: Result<(), GeozeroError>,
    next: M,
)
    requires
        replay(initial, calls) == Some(state),
        match state.next(event) {
            Some(s) => r is Ok && next == s,
            None => r is Err && next == state,
        },
    ensures
        replay(initial, calls.push(Call { event, outcome: r })) == Some(next),
{
    assert(calls.push(Call { event, outcome: r }).drop_last() =~= calls);
}

/// Calls that were all accepted are replayed as the state machine runs them.
pub proof fn lemma_replay_accepted<M: SinkMachine>(
    initial: M,
    calls: Seq<Call>,
    state: M,
    events: Seq<Event>,
)
    requires
        replay(initial, calls) == Some(state),
    ensures
        replay(initial, calls + accepted(events)) == run(state, events),
    decreases events.len(),
{
    if events.len() == 0 {
        assert(calls + accepted(events) =~= calls);
    } else {
        let front = events.drop_last();
        lemma_replay_accepted(initial, calls, state, front);
        assert((calls + accepted(events)).drop_last() =~= calls + accepted(front));
    }
}

/// A sink whose state machine runs through all the calls of a walk has not
/// rejected any of them: the walk ended as its source alone decided, and the
/// sink is in the state that the machine reaches.
pub proof fn lemma_machine_delivered<M: SinkMachine>(
    initial: M,
    before: Seq<Call>,
    state: M,
    walk: Walk,
    after: Seq<Call>,
    last: M,
    r: Result<(), GeozeroError>,
)
    requires
        replay(initial, before) == Some(state),
        replay(initial, after) == Some(last),
        delivered(before, walk, after, r),
        run(state, walk.events) is Some,
    ensures
        Some(last) == run(state, walk.events),
        match walk.fault {
            Some(fault) => r matches Err(e) && e@ == fault,
            None => r is Ok,
        },
{
    let events = walk.events;
    lemma_replay_accepted(initial, before, state, events);
    if after != before + accepted(events) {
        let k = after.len() - before.len() - 1;
        let done = events.take(k);
        let mid = before + accepted(done);
        lemma_run_prefix(state, events, k);
        lemma_run_prefix(state, events, k + 1);
        lemma_replay_accepted(initial, before, state, done);
        assert(events.take(k + 1) =~= done.push(events[k]));
        lemma_run_push(state, done, events[k]);
        assert(after.drop_last() =~= mid);
        assert(false);
    }
}

/// How a sink with a state machine answered one call: it took the step and
/// accepted the call, or it stayed as it was and rejected the call.
pub open spec fn answered<M: SinkMachine>(
    before: M,
    event: Event,
    r: Result<(), GeozeroError>,
    after: M,
) -> bool {
    match before.next(event) {
        Some(next) => r is Ok && after == next,
        None => r is Err && after == before,
    }
}

/// The number of calls that a sink in the given state accepts before it
/// rejects one of `events`; where it accepts them all, their number.
pub open spec fn accepted_count<M: SinkMachine>(state: M, events: Seq<Event>) -> int
    decreases events.len(),
{
    if events.len() == 0 {
        0
    } else if run(state, events.drop_last()) is Some {
        if run(state, events) is Some {
            events.len() as int
        } else {
            events.len() - 1
        }
    } else {
        accepted_count(state, events.drop_last())
    }
}

/// A sink that accepts the first `k` events and rejects the next accepts `k`.
pub proof fn lemma_accepted_count<M: SinkMachine>(state: M, events: Seq<Event>, k: int)
    requires
        0 <= k < events.len(),
        run(state, events.take(k)) is Some,
        run(state, events.take(k + 1)) is None,
    ensures
        accepted_count(state, events) == k,
    decreases events.len(),
{
    let front = events.drop_last();
    if events.len() == k + 1 {
        assert(front =~= events.take(k));
        assert(events.take(k + 1) =~= events);
    } else {
        assert(front.take(k) =~= events.take(k));
        assert(front.take(k + 1) =~= events.take(k + 1));
        if run(state, front) is Some {
            lemma_run_prefix(state, front, k + 1);
        }
        lemma_accepted_count(state, front, k);
    }
}

/// A sink whose state machine does not run through the calls of a walk has
/// rejected the first call that the machine does not take: the walk failed
/// with the error of that call, which is the last call made.
pub proof fn lemma_machine_rejected<M: SinkMachine>(
    initial: M,
    before: Seq<Call>,
    state: M,
    walk: Walk,
    after: Seq<Call>,
    last: M,
    r: Result<(), GeozeroError>,
)
    requires
        replay(initial, before) == Some(state),
        replay(initial, after) == Some(last),
        delivered(before, walk, after, r),
        run(state, walk.events) is None,
    ensures
        r is Err,
        after.len() > 0,
        after.last().outcome == r,
        0 <= accepted_count(state, walk.events) < walk.events.len(),
        after.last().event == walk.events[accepted_count(state, walk.events)],
{
    let events = walk.events;
    lemma_replay_accepted(initial, before, state, events);
    let k = after.len() - before.len() - 1;
    let done = events.take(k);
    lemma_replay_accepted(initial, before, state, done);
    assert(after.drop_last() =~= before + accepted(done));
    assert(events.take(k + 1) =~= done.push(events[k]));
    lemma_run_push(state, done, events[k]);
    lemma_accepted_count(state, events, k);
}

} // verus!
