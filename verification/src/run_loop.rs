//! How long a source waits between attempts.

use vstd::prelude::*;

verus! {

/// What one round of a source came to.
#[derive(Clone, Copy, PartialEq, Eq, Debug, Hash, Structural)]
pub enum LoopResult {
    Sleep,
    Backoff,
    Quit,
}

/// A waiting time that grows with each failure, up to a limit.
#[derive(Clone, Copy, PartialEq, Eq, Debug, Hash, Structural)]
pub struct Backoff {
    default: u64,
    max: u64,
    current: u64,
}

impl Backoff {
    /// The waiting time to begin with, in milliseconds.
    pub closed spec fn initial(self) -> u64 {
        self.default
    }

    /// The limit of the waiting time, in milliseconds.
    pub closed spec fn limit(self) -> u64 {
        self.max
    }

    /// The waiting time, in milliseconds.
    pub closed spec fn millis(self) -> u64 {
        self.current
    }

    #[verifier::type_invariant]
    closed spec fn inv(self) -> bool {
        self.current <= self.max && self.default <= self.max
    }

    /// A waiting time, which may grow tenfold.
    pub fn new(interval: u64) -> (r: Backoff)
        requires
            interval * 10 <= u64::MAX,
        ensures
            r.initial() == interval,
            r.limit() == interval * 10,
            r.millis() == interval,
    {
        Backoff { default: interval, max: interval * 10, current: interval }
    }

    /// Goes back to the waiting time to begin with.
    pub fn reset(&mut self)
        ensures
            final(self).millis() == old(self).initial(),
            final(self).initial() == old(self).initial(),
            final(self).limit() == old(self).limit(),
    {
        proof {
            use_type_invariant(&*self);
        }
        self.current = self.default;
    }

    /// Makes the waiting time a longer one, as far as the limit allows.
    pub fn backoff(&mut self, scaled: u64)
        ensures
            final(self).millis() == if scaled < old(self).limit() {
                scaled
            } else {
                old(self).limit()
            },
            final(self).initial() == old(self).initial(),
            final(self).limit() == old(self).limit(),
    {
        proof {
            use_type_invariant(&*self);
        }
        self.current = if scaled < self.max {
            scaled
        } else {
            self.max
        };
    }

    /// The waiting time, in milliseconds. It is within the limit.
    pub fn duration(&self) -> (r: u64)
        ensures
            r == self.millis(),
            r <= self.limit(),
    {
        proof {
            use_type_invariant(self);
        }
        self.current
    }
}

/// What a source does after a round: whether its records are dropped, and whether it goes on.
#[derive(Clone, Copy, PartialEq, Eq, Debug, Hash, Structural)]
pub struct AfterRound {
    pub clear: bool,
    pub proceed: bool,
}

/// Loops that run a source again and again.
#[derive(Clone, Copy, PartialEq, Eq, Debug, Hash, Structural)]
pub struct RunLoop {
    pub backoff: Backoff,
}

impl RunLoop {
    /// A loop with a waiting time.
    pub fn new(interval: u64) -> (r: RunLoop)
        requires
            interval * 10 <= u64::MAX,
        ensures
            r.backoff.initial() == interval,
            r.backoff.limit() == interval * 10,
            r.backoff.millis() == interval,
    {
        RunLoop { backoff: Backoff::new(interval) }
    }

    /// Decides what follows a round. After a failure the records are dropped and the waiting time
    /// grows to the one given; after success it goes back; when the source gives up its records are
    /// dropped and it does not go on.
    pub fn run(&mut self, result: LoopResult, scaled: u64) -> (r: AfterRound)
        ensures
            r == (match result {
                LoopResult::Sleep => AfterRound { clear: false, proceed: true },
                LoopResult::Backoff => AfterRound { clear: true, proceed: true },
                LoopResult::Quit => AfterRound { clear: true, proceed: false },
            }),
            final(self).backoff.initial() == old(self).backoff.initial(),
            final(self).backoff.limit() == old(self).backoff.limit(),
            final(self).backoff.millis() == match result {
                LoopResult::Sleep => old(self).backoff.initial(),
                LoopResult::Backoff => if scaled < old(self).backoff.limit() {
                    scaled
                } else {
                    old(self).backoff.limit()
                },
                LoopResult::Quit => old(self).backoff.millis(),
            },
    {
        match result {
            LoopResult::Sleep => {
                self.backoff.reset();
                AfterRound { clear: false, proceed: true }
            },
            LoopResult::Backoff => {
                self.backoff.backoff(scaled);
                AfterRound { clear: true, proceed: true }
            },
            LoopResult::Quit => AfterRound { clear: true, proceed: false },
        }
    }
}

} // verus!
