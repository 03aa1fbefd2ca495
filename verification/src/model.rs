//! The protocol of a bridge, as a transition system: one worker, one bounded
//! queue, one consumer, and every order in which they may take their turns.
//!
//! The worker's transitions are the decisions of `bridge`; the queue answers
//! with the outcomes of `error`. What the consumer receives is then shown to
//! depend on the producer alone, whatever the capacity and the schedule.

use crate::bridge::{action_for, verdict_for, Action, Verdict};
use crate::error::MpscSendError;
use vstd::prelude::*;

verus! {

/// Where the worker stands.
pub enum Phase<T> {
    /// About to pull the next step from the producer.
    Pulling,
    /// Holding an item for which the queue has no room yet.
    Holding(T),
    /// Stopped for good: the write end is released.
    Stopped,
}

/// A bridge between two turns.
pub struct Bridge<T> {
    /// The steps that the producer gives, in order: an item, or a step without one.
    pub steps: Seq<Option<T>>,
    /// How many steps the worker has pulled.
    pub pulled: nat,
    /// Where the worker stands.
    pub phase: Phase<T>,
    /// The items in the queue, oldest first.
    pub queue: Seq<T>,
    /// The most items that the queue holds.
    pub capacity: nat,
    /// The items that the consumer has received, in order.
    pub received: Seq<T>,
    /// The consumer still holds the read end.
    pub attached: bool,
    /// The consumer has seen the end of the sequence.
    pub ended: bool,
}

/// Whose turn it is.
pub enum Turn {
    /// The worker pulls and offers, or offers again what it holds.
    Work,
    /// The consumer asks for the next item.
    Receive,
    /// The consumer drops the read end.
    Detach,
}

/// A bridge over `steps` with a queue of `capacity`, before the first turn.
pub open spec fn start<T>(steps: Seq<Option<T>>, capacity: nat) -> Bridge<T> {
    Bridge {
        steps,
        pulled: 0,
        phase: Phase::Pulling,
        queue: Seq::empty(),
        capacity,
        received: Seq::empty(),
        attached: true,
        ended: false,
    }
}

/// The steps of a producer whose every step is an item.
pub open spec fn plain_steps<T>(items: Seq<T>) -> Seq<Option<T>> {
    items.map_values(|item: T| Some(item))
}

/// The items among `steps`, in order.
pub open spec fn items_of<T>(steps: Seq<Option<T>>) -> Seq<T>
    decreases steps.len(),
{
    if steps.len() == 0 {
        Seq::empty()
    } else {
        match steps.last() {
            Some(item) => items_of(steps.drop_last()).push(item),
            None => items_of(steps.drop_last()),
        }
    }
}

/// How the queue answers an offer: with a rejection where the read end is
/// gone, with success where it has room, and not yet where it is full.
pub open spec fn send_outcome<T>(b: Bridge<T>, item: T) -> Option<Result<(), MpscSendError<T>>> {
    if !b.attached {
        Some(Err(MpscSendError::Closed(item)))
    } else if b.queue.len() < b.capacity {
        Some(Ok(()))
    } else {
        None
    }
}

/// How the queue answers a probe: at once, and with a rejection exactly
/// where the read end is gone.
pub open spec fn probe_outcome<T>(b: Bridge<T>) -> Result<(), MpscSendError<T>> {
    if b.attached {
        Ok(())
    } else {
        Err(MpscSendError::ClosedNoValue)
    }
}

/// The worker offers `item` to the queue.
pub open spec fn offer<T>(b: Bridge<T>, item: T) -> Bridge<T> {
    match send_outcome(b, item) {
        None => Bridge { phase: Phase::Holding(item), ..b },
        Some(outcome) => match verdict_for(outcome) {
            Verdict::Continue => Bridge { queue: b.queue.push(item), phase: Phase::Pulling, ..b },
            Verdict::Halt(_) => Bridge { phase: Phase::Stopped, ..b },
        },
    }
}

/// What the producer gives at the worker's next pull.
pub open spec fn next_step<T>(b: Bridge<T>) -> Option<Option<T>> {
    if b.pulled < b.steps.len() {
        Some(b.steps[b.pulled as int])
    } else {
        None
    }
}

/// A turn of the worker.
pub open spec fn work<T>(b: Bridge<T>) -> Bridge<T> {
    match b.phase {
        Phase::Stopped => b,
        Phase::Holding(item) => offer(b, item),
        Phase::Pulling => match action_for(next_step(b)) {
            Action::Finish => Bridge { phase: Phase::Stopped, ..b },
            Action::Probe => match verdict_for(probe_outcome(b)) {
                Verdict::Continue => Bridge { pulled: b.pulled + 1, ..b },
                Verdict::Halt(_) => Bridge { pulled: b.pulled + 1, phase: Phase::Stopped, ..b },
            },
            Action::Send(item) => offer(Bridge { pulled: b.pulled + 1, ..b }, item),
        },
    }
}

/// A turn of the consumer: it takes the oldest item of the queue; where the
/// queue is empty and the worker has stopped, it sees the end.
pub open spec fn receive<T>(b: Bridge<T>) -> Bridge<T> {
    if !b.attached || b.ended {
        b
    } else if b.queue.len() > 0 {
        Bridge { received: b.received.push(b.queue.first()), queue: b.queue.drop_first(), ..b }
    } else if b.phase is Stopped {
        Bridge { ended: true, ..b }
    } else {
        b
    }
}

/// The consumer drops the read end.
pub open spec fn detach<T>(b: Bridge<T>) -> Bridge<T> {
    Bridge { attached: false, ..b }
}

/// One turn.
pub open spec fn turn<T>(b: Bridge<T>, t: Turn) -> Bridge<T> {
    match t {
        Turn::Work => work(b),
        Turn::Receive => receive(b),
        Turn::Detach => detach(b),
    }
}

/// The bridge after the turns of `schedule`, taken in order.
pub open spec fn run<T>(b: Bridge<T>, schedule: Seq<Turn>) -> Bridge<T>
    decreases schedule.len(),
{
    if schedule.len() == 0 {
        b
    } else {
        turn(run(b, schedule.drop_last()), schedule.last())
    }
}

/// The item that the worker holds, if it holds one.
pub open spec fn held<T>(phase: Phase<T>) -> Seq<T> {
    match phase {
        Phase::Holding(item) => seq![item],
        _ => Seq::empty(),
    }
}

/// What holds of a bridge at every moment.
pub open spec fn consistent<T>(b: Bridge<T>) -> bool {
    &&& b.pulled <= b.steps.len()
    &&& b.queue.len() <= b.capacity
    &&& b.received.is_prefix_of(items_of(b.steps.take(b.pulled as int)))
    &&& b.attached ==> b.received + b.queue + held(b.phase) == items_of(
        b.steps.take(b.pulled as int),
    )
    &&& b.attached && b.phase is Stopped ==> b.pulled == b.steps.len()
    &&& b.ended ==> b.queue.len() == 0 && b.phase is Stopped
}

/// The consumer has drained the bridge: it has seen the end, and has not let go.
pub open spec fn drained<T>(b: Bridge<T>) -> bool {
    b.ended && b.attached
}

/// Pulling one more step adds its item, if it has one, to the items pulled.
pub proof fn lemma_items_of_next<T>(steps: Seq<Option<T>>, pulled: nat)
    requires
        pulled < steps.len(),
    ensures
        items_of(steps.take(pulled + 1 as int)) == match steps[pulled as int] {
            Some(item) => items_of(steps.take(pulled as int)).push(item),
            None => items_of(steps.take(pulled as int)),
        },
{
    let longer = steps.take(pulled + 1 as int);
    assert(longer.drop_last() =~= steps.take(pulled as int));
    assert(longer.last() == steps[pulled as int]);
}

/// A bridge is consistent before its first turn.
pub proof fn lemma_start_consistent<T>(steps: Seq<Option<T>>, capacity: nat)
    ensures
        consistent(start(steps, capacity)),
{
    let b = start(steps, capacity);
    assert(steps.take(0) =~= Seq::<Option<T>>::empty());
    assert(b.received + b.queue + held(b.phase) =~= Seq::<T>::empty());
}

/// An offer keeps a consistent bridge consistent, where the item offered is
/// the one that the worker has pulled last and not yet brought into the queue.
proof fn lemma_offer_consistent<T>(b: Bridge<T>, item: T)
    requires
        b.pulled <= b.steps.len(),
        b.queue.len() <= b.capacity,
        b.received.is_prefix_of(items_of(b.steps.take(b.pulled as int))),
        b.attached ==> b.received + b.queue + seq![item] == items_of(
            b.steps.take(b.pulled as int),
        ),
        !b.ended || !b.attached,
        b.ended ==> b.queue.len() == 0,
        !(b.phase is Stopped),
    ensures
        consistent(offer(b, item)),
{
    let after = offer(b, item);
    if b.attached {
        assert(after.received + after.queue + held(after.phase) =~= b.received + b.queue
            + seq![item]);
    }
}

/// Every turn keeps a consistent bridge consistent.
pub proof fn lemma_turn_consistent<T>(b: Bridge<T>, t: Turn)
    requires
        consistent(b),
    ensures
        consistent(turn(b, t)),
{
    let whole = items_of(b.steps.take(b.pulled as int));
    match t {
        Turn::Detach => {},
        Turn::Receive => {
            if b.attached && !b.ended && b.queue.len() > 0 {
                let after = receive(b);
                assert(after.received + after.queue =~= b.received + b.queue);
                assert(after.received.is_prefix_of(whole)) by {
                    assert(after.received =~= whole.subrange(0, after.received.len() as int));
                }
            }
        },
        Turn::Work => {
            match b.phase {
                Phase::Stopped => {},
                Phase::Holding(item) => {
                    lemma_offer_consistent(b, item);
                },
                Phase::Pulling => {
                    if b.pulled < b.steps.len() {
                        lemma_items_of_next(b.steps, b.pulled);
                        let longer = items_of(b.steps.take(b.pulled + 1 as int));
                        assert(b.received.is_prefix_of(longer)) by {
                            assert(b.received =~= longer.subrange(0, b.received.len() as int));
                        }
                        match b.steps[b.pulled as int] {
                            None => {
                                let after = work(b);
                                assert(after.received + after.queue + held(after.phase)
                                    =~= b.received + b.queue + held(b.phase));
                            },
                            Some(item) => {
                                let pulled = Bridge { pulled: b.pulled + 1, ..b };
                                if b.attached {
                                    assert(b.received + b.queue + held(b.phase) =~= b.received
                                        + b.queue);
                                }
                                lemma_offer_consistent(pulled, item);
                            },
                        }
                    }
                },
            }
        },
    }
}

/// Every schedule keeps a consistent bridge consistent.
pub proof fn lemma_run_consistent<T>(b: Bridge<T>, schedule: Seq<Turn>)
    requires
        consistent(b),
    ensures
        consistent(run(b, schedule)),
    decreases schedule.len(),
{
    if schedule.len() > 0 {
        lemma_run_consistent(b, schedule.drop_last());
        lemma_turn_consistent(run(b, schedule.drop_last()), schedule.last());
    }
}

/// A single step gives its item, if it has one.
pub proof fn lemma_items_of_single<T>(step: Option<T>)
    ensures
        items_of(seq![step]) == match step {
            Some(item) => seq![item],
            None => Seq::empty(),
        },
{
    let single = seq![step];
    assert(single.drop_last() =~= Seq::<Option<T>>::empty());
    assert(items_of(single.drop_last()) =~= Seq::<T>::empty());
    assert(single.last() == step);
    match step {
        Some(item) => {
            assert(Seq::<T>::empty().push(item) =~= seq![item]);
        },
        None => {},
    }
}

/// The items of two runs of steps, one after the other, are the items of the
/// first followed by those of the second.
pub proof fn lemma_items_of_concat<T>(front: Seq<Option<T>>, back: Seq<Option<T>>)
    ensures
        items_of(front + back) == items_of(front) + items_of(back),
    decreases back.len(),
{
    if back.len() == 0 {
        assert(front + back =~= front);
        assert(items_of(front) + items_of(back) =~= items_of(front));
    } else {
        lemma_items_of_concat(front, back.drop_last());
        assert((front + back).drop_last() =~= front + back.drop_last());
        assert((front + back).last() == back.last());
        match back.last() {
            Some(item) => {
                assert((items_of(front) + items_of(back.drop_last())).push(item) =~= items_of(front)
                    + items_of(back.drop_last()).push(item));
            },
            None => {},
        }
    }
}

/// The items among the first `count` steps open the items among all steps.
pub proof fn lemma_items_of_take<T>(steps: Seq<Option<T>>, count: nat)
    requires
        count <= steps.len(),
    ensures
        items_of(steps.take(count as int)).is_prefix_of(items_of(steps)),
{
    let front = steps.take(count as int);
    let back = steps.skip(count as int);
    assert(front + back =~= steps);
    lemma_items_of_concat(front, back);
    assert(items_of(front) =~= (items_of(front) + items_of(back)).subrange(
        0,
        items_of(front).len() as int,
    ));
}

/// Every item among `steps` is the item of one step.
pub proof fn lemma_items_of_come_from_steps<T>(steps: Seq<Option<T>>, index: int)
    requires
        0 <= index < items_of(steps).len(),
    ensures
        steps.contains(Some(items_of(steps)[index])),
    decreases steps.len(),
{
    if steps.len() > 0 {
        let rest = steps.drop_last();
        if index < items_of(rest).len() {
            lemma_items_of_come_from_steps(rest, index);
            let at = choose|at: int| 0 <= at < rest.len() && rest[at] == Some(items_of(rest)[index]);
            assert(steps[at] == rest[at]);
        } else {
            assert(steps[steps.len() - 1] == steps.last());
        }
    }
}

/// A producer whose every step is an item gives exactly its items.
pub proof fn lemma_items_of_plain<T>(items: Seq<T>)
    ensures
        items_of(plain_steps(items)) == items,
    decreases items.len(),
{
    if items.len() == 0 {
        assert(items_of(plain_steps(items)) =~= items);
    } else {
        lemma_items_of_plain(items.drop_last());
        assert(plain_steps(items).drop_last() =~= plain_steps(items.drop_last()));
        assert(items.drop_last().push(items.last()) =~= items);
    }
}

/// No turn changes the producer or the capacity of the queue.
pub proof fn lemma_run_keeps_producer<T>(b: Bridge<T>, schedule: Seq<Turn>)
    ensures
        run(b, schedule).steps == b.steps,
        run(b, schedule).capacity == b.capacity,
    decreases schedule.len(),
{
    if schedule.len() > 0 {
        lemma_run_keeps_producer(b, schedule.drop_last());
    }
}

/// At every moment, whatever the capacity and the schedule, the consumer has
/// received the first items of the producer, in the producer's order.
pub proof fn lemma_received_in_order<T>(steps: Seq<Option<T>>, capacity: nat, schedule: Seq<Turn>)
    ensures
        run(start(steps, capacity), schedule).received.is_prefix_of(items_of(steps)),
{
    let after = run(start(steps, capacity), schedule);
    lemma_start_consistent(steps, capacity);
    lemma_run_consistent(start(steps, capacity), schedule);
    lemma_run_keeps_producer(start(steps, capacity), schedule);
    lemma_items_of_take(steps, after.pulled);
    let pulled = items_of(steps.take(after.pulled as int));
    assert(after.received =~= items_of(steps).subrange(0, after.received.len() as int)) by {
        assert(after.received =~= pulled.subrange(0, after.received.len() as int));
        assert(pulled =~= items_of(steps).subrange(0, pulled.len() as int));
    }
}

/// A consumer that drains the bridge receives every item of the producer, in
/// the producer's order and nothing else, whatever the capacity and the
/// schedule.
pub proof fn lemma_drained_receives_all<T>(
    steps: Seq<Option<T>>,
    capacity: nat,
    schedule: Seq<Turn>,
)
    requires
        drained(run(start(steps, capacity), schedule)),
    ensures
        run(start(steps, capacity), schedule).received == items_of(steps),
{
    let after = run(start(steps, capacity), schedule);
    lemma_start_consistent(steps, capacity);
    lemma_run_consistent(start(steps, capacity), schedule);
    lemma_run_keeps_producer(start(steps, capacity), schedule);
    assert(steps.take(after.pulled as int) =~= steps);
    assert(after.received + after.queue + held(after.phase) =~= after.received);
}

/// Draining the bridge over a producer whose every step is an item gives the
/// very sequence that the producer gives.
pub proof fn lemma_drained_plain_is_identity<T>(
    items: Seq<T>,
    capacity: nat,
    schedule: Seq<Turn>,
)
    requires
        capacity >= 1,
        drained(run(start(plain_steps(items), capacity), schedule)),
    ensures
        run(start(plain_steps(items), capacity), schedule).received == items,
{
    lemma_drained_receives_all(plain_steps(items), capacity, schedule);
    lemma_items_of_plain(items);
}

/// The capacity of the queue changes nothing that the consumer sees: two
/// drained bridges over one producer have received the same sequence, and two
/// bridges at any moment have received sequences of which one opens the other.
pub proof fn lemma_capacity_unobservable<T>(
    steps: Seq<Option<T>>,
    capacity: nat,
    schedule: Seq<Turn>,
    other_capacity: nat,
    other_schedule: Seq<Turn>,
)
    ensures
        ({
            let one = run(start(steps, capacity), schedule);
            let other = run(start(steps, other_capacity), other_schedule);
            &&& drained(one) && drained(other) ==> one.received == other.received
            &&& one.received.is_prefix_of(other.received) || other.received.is_prefix_of(
                one.received,
            )
        }),
{
    let one = run(start(steps, capacity), schedule);
    let other = run(start(steps, other_capacity), other_schedule);
    lemma_received_in_order(steps, capacity, schedule);
    lemma_received_in_order(steps, other_capacity, other_schedule);
    if drained(one) && drained(other) {
        lemma_drained_receives_all(steps, capacity, schedule);
        lemma_drained_receives_all(steps, other_capacity, other_schedule);
    }
    if one.received.len() <= other.received.len() {
        assert(one.received =~= other.received.subrange(0, one.received.len() as int));
    } else {
        assert(other.received =~= one.received.subrange(0, other.received.len() as int));
    }
}

/// No step without an item shows in what the consumer receives: every item
/// received is the item of a step of the producer.
pub proof fn lemma_received_are_items<T>(
    steps: Seq<Option<T>>,
    capacity: nat,
    schedule: Seq<Turn>,
    index: int,
)
    requires
        0 <= index < run(start(steps, capacity), schedule).received.len(),
    ensures
        steps.contains(Some(run(start(steps, capacity), schedule).received[index])),
{
    let after = run(start(steps, capacity), schedule);
    lemma_received_in_order(steps, capacity, schedule);
    assert(after.received[index] == items_of(steps)[index]);
    lemma_items_of_come_from_steps(steps, index);
}

/// Once the consumer has let go, the worker stops at its next turn, having
/// pulled at most one step more, and the consumer receives nothing further.
pub proof fn lemma_detached_worker_stops<T>(b: Bridge<T>, schedule: Seq<Turn>)
    requires
        !b.attached,
    ensures
        ({
            let after = run(b, schedule);
            &&& !after.attached
            &&& after.received == b.received
            &&& after.pulled <= b.pulled + 1
            &&& schedule.contains(Turn::Work) ==> after.phase is Stopped
            &&& !schedule.contains(Turn::Work) ==> after.phase == b.phase && after.pulled
                == b.pulled
        }),
    decreases schedule.len(),
{
    if schedule.len() > 0 {
        let earlier = schedule.drop_last();
        lemma_detached_worker_stops(b, earlier);
        assert(schedule[schedule.len() - 1] == schedule.last());
        if earlier.contains(Turn::Work) {
            let at = choose|at: int| 0 <= at < earlier.len() && earlier[at] == Turn::Work;
            assert(schedule[at] == Turn::Work);
        }
        if schedule.contains(Turn::Work) && !earlier.contains(Turn::Work) {
            let at = choose|at: int| 0 <= at < schedule.len() && schedule[at] == Turn::Work;
            if at < earlier.len() {
                assert(earlier[at] == Turn::Work);
            }
        }
    }
}

/// The schedule in which the worker and the consumer take turns, `rounds` times over.
pub open spec fn alternating(rounds: nat) -> Seq<Turn>
    decreases rounds,
{
    if rounds == 0 {
        Seq::empty()
    } else {
        alternating((rounds - 1) as nat).push(Turn::Work).push(Turn::Receive)
    }
}

/// A schedule with one more turn runs as the schedule, and then the turn.
pub proof fn lemma_run_push<T>(b: Bridge<T>, schedule: Seq<Turn>, t: Turn)
    ensures
        run(b, schedule.push(t)) == turn(run(b, schedule), t),
{
    assert(schedule.push(t).drop_last() =~= schedule);
}

/// While the producer has steps left, each round of taking turns pulls one
/// step and leaves the queue empty.
proof fn lemma_alternating_keeps_pace<T>(steps: Seq<Option<T>>, capacity: nat, rounds: nat)
    requires
        capacity >= 1,
        rounds <= steps.len(),
    ensures
        ({
            let b = run(start(steps, capacity), alternating(rounds));
            &&& b.steps == steps
            &&& b.capacity == capacity
            &&& b.pulled == rounds
            &&& b.phase is Pulling
            &&& b.queue.len() == 0
            &&& b.attached
            &&& !b.ended
        }),
    decreases rounds,
{
    if rounds > 0 {
        let earlier = alternating((rounds - 1) as nat);
        lemma_alternating_keeps_pace(steps, capacity, (rounds - 1) as nat);
        lemma_run_push(start(steps, capacity), earlier, Turn::Work);
        lemma_run_push(start(steps, capacity), earlier.push(Turn::Work), Turn::Receive);
    }
}

/// The bridge cannot lock up: with room for one item or more, a worker and a
/// consumer that take turns drain every finite producer.
pub proof fn lemma_taking_turns_drains<T>(steps: Seq<Option<T>>, capacity: nat)
    requires
        capacity >= 1,
    ensures
        drained(run(start(steps, capacity), alternating(steps.len() + 1))),
{
    let earlier = alternating(steps.len());
    lemma_alternating_keeps_pace(steps, capacity, steps.len());
    lemma_run_push(start(steps, capacity), earlier, Turn::Work);
    lemma_run_push(start(steps, capacity), earlier.push(Turn::Work), Turn::Receive);
}

} // verus!
