//! A waiting time that is handed out and grows each time.

use vstd::prelude::*;

verus! {

/// A waiting time, in milliseconds, with the one to begin with and the limit.
#[derive(Clone, Copy, PartialEq, Eq, Debug, Hash, Structural)]
pub struct Backoff {
    pub initial: u64,
    pub max: u64,
    pub next: u64,
}

/// What follows when the waiting time was handed out: the next one is the one given, as far as the
/// limit allows.
pub open spec fn handed_out(backoff: Backoff, scaled: u64) -> Backoff {
    Backoff {
        next: if scaled < backoff.max {
            scaled
        } else {
            backoff.max
        },
        ..backoff
    }
}

/// Waiting times that are handed out one after the other: the first is the one to begin with, and
/// where the one that is given each time is no shorter than the one before, none is shorter than
/// the one before it, nor longer than the limit.
pub proof fn law_waiting_times_grow(states: Seq<Backoff>, scaled: Seq<u64>, at: int)
    requires
        states.len() == scaled.len() + 1,
        states[0].next == states[0].initial,
        states[0].initial <= states[0].max,
        forall|i: int|
            0 <= i < scaled.len() ==> states[i + 1] == handed_out(
                states[i],
                #[trigger] scaled[i],
            ) && scaled[i] >= states[i].next,
        0 <= at < scaled.len(),
    ensures
        states[at].next <= states[at + 1].next <= states[0].max,
        states[at].max == states[0].max,
    decreases at,
{
    assert(scaled[at] >= states[at].next);
    if at > 0 {
        law_waiting_times_grow(states, scaled, at - 1);
        assert(scaled[at - 1] >= states[at - 1].next);
    }
}

impl Backoff {
    /// A waiting time.
    pub fn new(initial: u64, max: u64) -> (r: Backoff)
        ensures
            r == (Backoff { initial, max, next: initial }),
    {
        Backoff { initial, max, next: initial }
    }

    /// Goes back to the waiting time to begin with.
    pub fn reset(&mut self)
        ensures
            *final(self) == (Backoff { next: old(self).initial, ..*old(self) }),
    {
        self.next = self.initial;
    }

    /// Hands the waiting time out. The next one is the one given, as far as the limit allows.
    pub fn next(&mut self, scaled: u64) -> (r: u64)
        ensures
            r == old(self).next,
            *final(self) == handed_out(*old(self), scaled),
    {
        let result: u64 = self.next;
        self.next = if scaled < self.max {
            scaled
        } else {
            self.max
        };
        result
    }
}

impl Default for Backoff {
    fn default() -> (r: Self)
        ensures
            r == (Backoff { initial: 1000, max: 30000, next: 1000 }),
    {
        Backoff::new(1000, 30000)
    }
}

/// The waiting time that follows is the one given or the limit, whichever is shorter; what it began
/// with and the limit stay.
pub proof fn law_waiting_times_are_limited(backoff: Backoff, scaled: u64)
    ensures
        ({
            let after = handed_out(backoff, scaled);
            &&& after.next <= scaled && after.next <= backoff.max
            &&& after.next == scaled || after.next == backoff.max
            &&& after.initial == backoff.initial
            &&& after.max == backoff.max
        }),
{
}

} // verus!
