//! The delay bridge: countdowns that deliver the end tokens of pauses.
//!
//! Time is counted in nanoseconds. The arithmetic of a countdown is that of a
//! one-shot `bevy::time::Timer`, which does the ticking.

use crate::token::EndToken;
use bevy::time::{Timer, TimerMode};
use core::time::Duration;
use vstd::prelude::*;

verus! {

/// A pause under way.
#[derive(Clone, Copy, Debug, PartialEq, Eq, Structural)]
pub struct Countdown {
    /// Length of the pause.
    pub duration: u64,
    /// Time counted so far.
    pub elapsed: u64,
    /// The token to deliver when the pause is over.
    pub token: EndToken,
}

impl Countdown {
    /// Whether `delta` more nanoseconds bring the countdown to its end.
    pub open spec fn runs_out(self, delta: u64) -> bool {
        self.elapsed + delta >= self.duration
    }

    /// The countdown after `delta` more nanoseconds that did not end it.
    pub open spec fn ticked(self, delta: u64) -> Countdown {
        Countdown {
            duration: self.duration,
            elapsed: (self.elapsed + delta) as u64,
            token: self.token,
        }
    }
}

/// The tokens of the countdowns that `delta` more nanoseconds bring to their
/// end, in the order in which the pauses began.
pub open spec fn delivered(countdowns: Seq<Countdown>, delta: u64) -> Seq<EndToken> {
    countdowns.filter(|c: Countdown| c.runs_out(delta)).map_values(|c: Countdown| c.token)
}

/// The countdowns that are still under way after `delta` more nanoseconds.
pub open spec fn remaining(countdowns: Seq<Countdown>, delta: u64) -> Seq<Countdown> {
    countdowns.filter(|c: Countdown| !c.runs_out(delta)).map_values(
        |c: Countdown| c.ticked(delta),
    )
}

/// The countdowns that do not deliver `token`.
pub open spec fn without(countdowns: Seq<Countdown>, token: EndToken) -> Seq<Countdown> {
    countdowns.filter(|c: Countdown| c.token != token)
}

/// Advances a fresh one-shot `bevy::time::Timer` of length `duration`, set to
/// `elapsed`, by `delta`, and reads it: `Timer::new`, `Timer::set_elapsed`,
/// `Timer::tick`, `Timer::elapsed`, `Timer::just_finished`. All three times
/// are nanoseconds; they go in through `Duration::from_nanos` and come back
/// through `Duration::as_nanos`.
///
/// Not proved, but taken from the timer: it adds `delta` to its elapsed
/// time, it reports `just_finished` exactly when the sum reaches `duration`,
/// and it then holds the elapsed time at `duration`.
#[verifier::external_body]
fn tick_timer(duration: u64, elapsed: u64, delta: u64) -> (r: (u64, bool))
    ensures
        r.1 == (elapsed + delta >= duration),
        r.0 == if elapsed + delta >= duration {
            duration as int
        } else {
            elapsed + delta
        },
{
    let mut timer = Timer::new(Duration::from_nanos(duration), TimerMode::Once);
    timer.set_elapsed(Duration::from_nanos(elapsed));
    timer.tick(Duration::from_nanos(delta));
    (timer.elapsed().as_nanos() as u64, timer.just_finished())
}

/// Holds the countdowns of all pauses under way, whichever root they belong
/// to.
#[derive(Debug)]
pub struct DelayBridge {
    countdowns: Vec<Countdown>,
}

impl View for DelayBridge {
    type V = Seq<Countdown>;

    closed spec fn view(&self) -> Seq<Countdown> {
        self.countdowns@
    }
}

impl DelayBridge {
    /// A bridge without countdowns.
    pub fn new() -> (bridge: DelayBridge)
        ensures
            bridge@ == Seq::<Countdown>::empty(),
    {
        DelayBridge { countdowns: Vec::new() }
    }

    /// Number of pauses under way.
    pub fn len(&self) -> (n: usize)
        ensures
            n == self@.len(),
    {
        self.countdowns.len()
    }

    /// The countdown at `index`, oldest first.
    pub fn get(&self, index: usize) -> (c: Option<Countdown>)
        ensures
            c == if index < self@.len() {
                Some(self@[index as int])
            } else {
                None
            },
    {
        if index < self.countdowns.len() {
            Some(self.countdowns[index])
        } else {
            None
        }
    }

    /// Begins the countdown of a pause of `nanos` nanoseconds that `token`
    /// will end.
    pub fn on_start(&mut self, nanos: u64, token: EndToken)
        ensures
            final(self)@ == old(self)@.push(Countdown { duration: nanos, elapsed: 0, token }),
    {
        self.countdowns.push(Countdown { duration: nanos, elapsed: 0, token });
    }

    /// Lets `delta` nanoseconds pass.
    ///
    /// Every countdown that reaches its end is removed and its token is
    /// returned, once; the others go on from where they stood. Countdowns do
    /// not affect one another.
    pub fn tick(&mut self, delta: u64) -> (tokens: Vec<EndToken>)
        ensures
            tokens@ == delivered(old(self)@, delta),
            final(self)@ == remaining(old(self)@, delta),
    {
        let ghost all = self@;
        let mut tokens: Vec<EndToken> = Vec::new();
        let mut kept: Vec<Countdown> = Vec::new();
        let mut index: usize = 0;
        proof {
            reveal(Seq::filter);
            assert(all.take(0) =~= Seq::<Countdown>::empty());
            assert(tokens@ =~= delivered(all.take(0), delta));
            assert(kept@ =~= remaining(all.take(0), delta));
        }
        while index < self.countdowns.len()
            invariant
                self.countdowns@ == all,
                index <= all.len(),
                tokens@ == delivered(all.take(index as int), delta),
                kept@ == remaining(all.take(index as int), delta),
            decreases all.len() - index,
        {
            let c = self.countdowns[index];
            let (elapsed, finished) = tick_timer(c.duration, c.elapsed, delta);
            proof {
                reveal(Seq::filter);
                let before = all.take(index as int);
                let now = all.take(index + 1);
                assert(now.drop_last() =~= before);
                assert(now.last() == c);
                assert(now.filter(|c: Countdown| c.runs_out(delta)) == if c.runs_out(delta) {
                    before.filter(|c: Countdown| c.runs_out(delta)).push(c)
                } else {
                    before.filter(|c: Countdown| c.runs_out(delta))
                });
                assert(now.filter(|c: Countdown| !c.runs_out(delta)) == if !c.runs_out(delta) {
                    before.filter(|c: Countdown| !c.runs_out(delta)).push(c)
                } else {
                    before.filter(|c: Countdown| !c.runs_out(delta))
                });
            }
            if finished {
                tokens.push(c.token);
                proof {
                    assert(tokens@ =~= delivered(all.take(index + 1), delta));
                }
            } else {
                kept.push(Countdown { duration: c.duration, elapsed, token: c.token });
                proof {
                    assert(kept@ =~= remaining(all.take(index + 1), delta));
                }
            }
            index = index + 1;
        }
        proof {
            assert(all.take(index as int) =~= all);
        }
        self.countdowns = kept;
        tokens
    }

    /// Drops the countdown that would deliver `token`, if there is one: the
    /// pause was called off.
    pub fn release(&mut self, token: EndToken)
        ensures
            final(self)@ == without(old(self)@, token),
    {
        let ghost all = self@;
        let mut kept: Vec<Countdown> = Vec::new();
        let mut index: usize = 0;
        proof {
            reveal(Seq::filter);
            assert(all.take(0) =~= Seq::<Countdown>::empty());
            assert(kept@ =~= without(all.take(0), token));
        }
        while index < self.countdowns.len()
            invariant
                self.countdowns@ == all,
                index <= all.len(),
                kept@ == without(all.take(index as int), token),
            decreases all.len() - index,
        {
            let c = self.countdowns[index];
            proof {
                reveal(Seq::filter);
                assert(all.take(index + 1).drop_last() =~= all.take(index as int));
                assert(all.take(index + 1).last() == c);
            }
            if c.token != token {
                kept.push(c);
            }
            index = index + 1;
        }
        proof {
            assert(all.take(index as int) =~= all);
        }
        self.countdowns = kept;
    }
}

} // verus!
