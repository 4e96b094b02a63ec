//! Holding values back until no newer one has come for a while.

use vstd::prelude::*;
use vstd::std_specs::cmp::PartialEqSpec;

verus! {

/// What a stream gave when it was asked.
#[derive(Debug)]
pub enum Inner<T> {
    /// Nothing for now.
    Pending,
    /// A value.
    Value(T),
    /// It has ended.
    Ended,
}

/// What is to be done after a stream was asked.
#[derive(Clone, Copy, PartialEq, Eq, Debug, Hash, Structural)]
pub enum Received {
    /// The stream is to be asked again.
    Again,
    /// There will be no more values.
    Ended,
    /// A new value is held back: the wait begins anew.
    Restart,
    /// The wait goes on, if a value is held back.
    Wait,
}

/// A value that is held back, and the last one that was let through.
#[derive(Debug)]
pub struct Debounced<T> {
    /// How long values are held back, in milliseconds.
    pub delay: u64,
    pub last: Option<T>,
    pub pending: Option<T>,
}

/// What happens to a value that is held back.
pub enum Event<T> {
    /// The stream was asked.
    Asked(Inner<T>),
    /// A value was to be let through if the wait is over.
    Polled(bool),
}

/// The value that an event lets through.
pub open spec fn let_through<T>(before: Debounced<T>, event: Event<T>) -> Option<T> {
    match event {
        Event::Polled(elapsed) => if elapsed {
            before.pending
        } else {
            None
        },
        Event::Asked(_) => None,
    }
}

/// Whether an event leads from one state to another. A value of the stream is passed over if it is
/// the last one let through, and else held back in place of the one that was.
pub open spec fn leads<T: PartialEq + Clone>(
    before: Debounced<T>,
    event: Event<T>,
    after: Debounced<T>,
) -> bool {
    &&& after.delay == before.delay
    &&& match let_through(before, event) {
        Some(value) => after.pending is None && after.last is Some && cloned(value, after.last->0),
        None => after.last == before.last && after.pending == match event {
            Event::Asked(Inner::Value(value)) => if before.last is Some
                && before.last->0.eq_spec(&value) {
                before.pending
            } else {
                Some(value)
            },
            _ => before.pending,
        },
    }
}

/// Whether the value that is held back, if there is one, is not the last one let through.
pub open spec fn held_is_new<T: PartialEq>(state: Debounced<T>) -> bool {
    state.pending is Some && state.last is Some ==> !state.last->0.eq_spec(&state.pending->0)
}

/// Whether events lead from each state to the next, from the one in which nothing was held back.
pub open spec fn history<T: PartialEq + Clone>(
    states: Seq<Debounced<T>>,
    events: Seq<Event<T>>,
) -> bool {
    &&& states.len() == events.len() + 1
    &&& states[0].last is None && states[0].pending is None
    &&& forall|i: int|
        0 <= i < events.len() ==> leads(states[i], #[trigger] events[i], states[i + 1])
}

/// In a history the value that is held back is never the last one let through, and it came from
/// the stream.
proof fn lemma_held_is_new<T: PartialEq + Clone>(
    states: Seq<Debounced<T>>,
    events: Seq<Event<T>>,
    at: int,
)
    requires
        history(states, events),
        0 <= at < states.len(),
    ensures
        held_is_new(states[at]),
        states[at].pending matches Some(value) ==> exists|k: int|
            0 <= k < at && #[trigger] events[k] == Event::Asked(Inner::Value(value)),
    decreases at,
{
    if at > 0 {
        lemma_held_is_new(states, events, at - 1);
        assert(leads(states[at - 1], events[at - 1], states[at]));
        if let Some(value) = states[at].pending {
            if states[at - 1].pending == Some(value) && let_through(
                states[at - 1],
                events[at - 1],
            ) is None && events[at - 1] != Event::Asked(Inner::Value(value)) {
                let k = choose|k: int|
                    0 <= k < at - 1 && #[trigger] events[k] == Event::Asked(Inner::Value(value));
                assert(events[k] == Event::Asked(Inner::Value(value)));
            }
        }
    }
}

/// As long as nothing is let through, the last value that was stays the same.
proof fn lemma_last_stays<T: PartialEq + Clone>(
    states: Seq<Debounced<T>>,
    events: Seq<Event<T>>,
    from: int,
    to: int,
)
    requires
        history(states, events),
        0 <= from <= to < states.len(),
        forall|k: int|
            from <= k < to ==> let_through(states[k], #[trigger] events[k]) is None,
    ensures
        states[to].last == states[from].last,
    decreases to - from,
{
    if from < to {
        lemma_last_stays(states, events, from, to - 1);
        assert(leads(states[to - 1], events[to - 1], states[to]));
    }
}

/// Equal values never follow each other: where one value is let through after another, with none
/// between them, the two differ, and each came from the stream. This holds where a copy of a value
/// equals what the value equals.
pub proof fn law_equal_values_do_not_follow<T: PartialEq + Clone>(
    states: Seq<Debounced<T>>,
    events: Seq<Event<T>>,
    first: int,
    second: int,
    v: T,
    w: T,
)
    requires
        history(states, events),
        0 <= first < second < events.len(),
        let_through(states[first], events[first]) == Some(v),
        let_through(states[second], events[second]) == Some(w),
        forall|k: int|
            first < k < second ==> let_through(states[k], #[trigger] events[k]) is None,
        forall|a: T, b: T, c: T|
            #[trigger] cloned(a, b) ==> a.eq_spec(&c) == #[trigger] b.eq_spec(&c),
    ensures
        !v.eq_spec(&w),
        exists|k: int| 0 <= k < first && #[trigger] events[k] == Event::Asked(Inner::Value(v)),
        exists|k: int| 0 <= k < second && #[trigger] events[k] == Event::Asked(Inner::Value(w)),
{
    lemma_held_is_new(states, events, first);
    lemma_held_is_new(states, events, second);
    assert(leads(states[first], events[first], states[first + 1]));
    lemma_last_stays(states, events, first + 1, second);
    let last = states[second].last->0;
    assert(cloned(v, last));
    assert(v.eq_spec(&w) == last.eq_spec(&w));
}

impl<T: PartialEq + Clone> Debounced<T> {
    /// Nothing is held back at first.
    pub fn new(delay: u64) -> (r: Debounced<T>)
        ensures
            r.delay == delay,
            r.last is None,
            r.pending is None,
    {
        Debounced { delay, last: None, pending: None }
    }

    /// Takes what the stream gave. A value that is the last one let through is passed over; any
    /// other is held back in place of the one that was.
    pub fn receive(&mut self, inner: Inner<T>) -> (r: Received)
        requires
            T::obeys_eq_spec(),
        ensures
            final(self).delay == old(self).delay,
            final(self).last == old(self).last,
            match inner {
                Inner::Pending => r == Received::Wait && final(self).pending == old(self).pending,
                Inner::Ended => r == Received::Ended && final(self).pending == old(self).pending,
                Inner::Value(value) => if old(self).last is Some && old(self).last->0.eq_spec(
                    &value,
                ) {
                    r == Received::Again && final(self).pending == old(self).pending
                } else {
                    r == Received::Restart && final(self).pending == Some(value)
                },
            },
            leads(*old(self), Event::Asked(inner), *final(self)),
    {
        match inner {
            Inner::Pending => Received::Wait,
            Inner::Ended => Received::Ended,
            Inner::Value(value) => {
                if let Some(last) = &self.last {
                    if *last == value {
                        return Received::Again;
                    }
                }
                self.pending = Some(value);
                Received::Restart
            },
        }
    }

    /// Lets the value that is held back through, if the wait is over.
    pub fn poll_next(&mut self, elapsed: bool) -> (r: Option<T>)
        ensures
            final(self).delay == old(self).delay,
            if elapsed && old(self).pending is Some {
                &&& r == old(self).pending
                &&& final(self).pending is None
                &&& final(self).last is Some
                &&& cloned(old(self).pending->0, final(self).last->0)
            } else {
                r is None && *final(self) == *old(self)
            },
            r == let_through(*old(self), Event::Polled(elapsed)),
            leads(*old(self), Event::Polled(elapsed), *final(self)),
    {
        if !elapsed {
            return None;
        }
        match self.pending.take() {
            Some(item) => {
                self.last = Some(item.clone());
                Some(item)
            },
            None => None,
        }
    }
}

/// A value of the stream that is not the last one let through is let through as soon as the wait is
/// over, where no other value came meanwhile.
pub proof fn law_newest_value_is_let_through<T: PartialEq + Clone>(
    states: Seq<Debounced<T>>,
    events: Seq<Event<T>>,
    came: int,
    polled: int,
    value: T,
)
    requires
        history(states, events),
        0 <= came < polled < events.len(),
        events[came] == Event::Asked(Inner::Value(value)),
        states[came].last is Some ==> !states[came].last->0.eq_spec(&value),
        forall|i: int|
            came < i < polled ==> match #[trigger] events[i] {
                Event::Asked(Inner::Value(_)) => false,
                Event::Polled(elapsed) => !elapsed,
                _ => true,
            },
        events[polled] == Event::<T>::Polled(true),
    ensures
        let_through(states[polled], events[polled]) == Some(value),
{
    assert(leads(states[came], events[came], states[came + 1]));
    lemma_held_until(states, events, came + 1, polled, value);
}

/// A value stays held back until another comes or the wait is over.
proof fn lemma_held_until<T: PartialEq + Clone>(
    states: Seq<Debounced<T>>,
    events: Seq<Event<T>>,
    from: int,
    to: int,
    value: T,
)
    requires
        history(states, events),
        0 <= from <= to < events.len(),
        states[from].pending == Some(value),
        forall|i: int|
            from <= i < to ==> match #[trigger] events[i] {
                Event::Asked(Inner::Value(_)) => false,
                Event::Polled(elapsed) => !elapsed,
                _ => true,
            },
    ensures
        states[to].pending == Some(value),
    decreases to - from,
{
    if from < to {
        assert(leads(states[from], events[from], states[from + 1]));
        lemma_held_until(states, events, from + 1, to, value);
    }
}

} // verus!
