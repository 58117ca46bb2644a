//! Delivery schedules and the strategies that perturb them.

use vstd::prelude::*;
use crate::network::Instant;

verus! {

/// When, if at all, a message is delivered.
#[derive(Debug, Clone, Copy, PartialEq, Eq, Structural)]
pub enum DeliverySchedule {
    AtInstant(Instant),
    Drop,
}

impl DeliverySchedule {
    pub fn at(instant: Instant) -> (r: DeliverySchedule)
        ensures
            r == DeliverySchedule::AtInstant(instant),
    {
        DeliverySchedule::AtInstant(instant)
    }

    pub fn drop(_instant: Instant) -> (r: DeliverySchedule)
        ensures
            r == DeliverySchedule::Drop,
    {
        DeliverySchedule::Drop
    }
}

impl From<Instant> for DeliverySchedule {
    fn from(instant: Instant) -> (r: Self) {
        DeliverySchedule::at(instant)
    }
}

impl vstd::std_specs::convert::FromSpecImpl<Instant> for DeliverySchedule {
    open spec fn obeys_from_spec() -> bool {
        true
    }

    open spec fn from_spec(instant: Instant) -> Self {
        DeliverySchedule::AtInstant(instant)
    }
}

/// A network condition: transforms the proposed delivery of a message, drawing any randomness
/// it needs from `rng` and from nowhere else.
pub trait Strategy<Item, R> {
    /// The random source after the call, and the answer, for `i` from the random source `rng`.
    spec fn spec_map(&self, rng: R, i: Item) -> (R, Item);

    fn map(&self, rng: &mut R, i: Item) -> (r: Item)
        ensures
            (*final(rng), r) == self.spec_map(*old(rng), i),
    ;
}

/// The strategy that leaves every proposal as it is and draws nothing.
#[derive(Debug, Clone, Copy, PartialEq, Eq)]
pub struct Untampered();

impl<Item, R> Strategy<Item, R> for Untampered {
    open spec fn spec_map(&self, rng: R, i: Item) -> (R, Item) {
        (rng, i)
    }

    fn map(&self, rng: &mut R, i: Item) -> (r: Item) {
        i
    }
}

/// Delays every delivery by a fixed number of ticks (up to the last instant), drops none and
/// draws nothing.
#[derive(Debug, Clone, Copy, PartialEq, Eq)]
pub struct FixedDelay(pub u64);

/// `i` delayed by `delay` ticks, at most up to the last instant.
pub open spec fn delayed(i: DeliverySchedule, delay: u64) -> DeliverySchedule {
    match i {
        DeliverySchedule::AtInstant(t) => DeliverySchedule::AtInstant(
            Instant(if t.0 + delay > u64::MAX { u64::MAX } else { (t.0 + delay) as u64 }),
        ),
        DeliverySchedule::Drop => DeliverySchedule::Drop,
    }
}

impl<R> Strategy<DeliverySchedule, R> for FixedDelay {
    open spec fn spec_map(&self, rng: R, i: DeliverySchedule) -> (R, DeliverySchedule) {
        (rng, delayed(i, self.0))
    }

    fn map(&self, rng: &mut R, i: DeliverySchedule) -> (r: DeliverySchedule) {
        match i {
            DeliverySchedule::AtInstant(t) => {
                if t.0 > u64::MAX - self.0 {
                    DeliverySchedule::AtInstant(Instant(u64::MAX))
                } else {
                    DeliverySchedule::AtInstant(Instant(t.0 + self.0))
                }
            },
            DeliverySchedule::Drop => DeliverySchedule::Drop,
        }
    }
}

/// Drops every message and draws nothing.
#[derive(Debug, Clone, Copy, PartialEq, Eq)]
pub struct DropAll();

impl<R> Strategy<DeliverySchedule, R> for DropAll {
    open spec fn spec_map(&self, rng: R, i: DeliverySchedule) -> (R, DeliverySchedule) {
        (rng, DeliverySchedule::Drop)
    }

    fn map(&self, rng: &mut R, i: DeliverySchedule) -> (r: DeliverySchedule) {
        DeliverySchedule::Drop
    }
}

/// A small seeded source of pseudo-random numbers (SplitMix64): the same seed gives the same
/// numbers.
#[derive(Debug, Clone, Copy, PartialEq, Eq)]
pub struct SplitMix64 {
    pub state: u64,
}

/// The state after one draw from `state`, and the number drawn.
pub open spec fn splitmix_step(state: u64) -> (u64, u64) {
    let s = vstd::wrapping::u64_specs::wrapping_add(state, 0x9e37_79b9_7f4a_7c15u64);
    let z1 = vstd::wrapping::u64_specs::wrapping_mul(s ^ (s >> 30u64), 0xbf58_476d_1ce4_e5b9u64);
    let z2 = vstd::wrapping::u64_specs::wrapping_mul(z1 ^ (z1 >> 27u64), 0x94d0_49bb_1331_11ebu64);
    (s, z2 ^ (z2 >> 31u64))
}

impl SplitMix64 {
    pub fn new(seed: u64) -> (r: Self)
        ensures
            r.state == seed,
    {
        SplitMix64 { state: seed }
    }

    /// Draws the next number.
    pub fn next_u64(&mut self) -> (r: u64)
        ensures
            (final(self).state, r) == splitmix_step(old(self).state),
    {
        let s = self.state.wrapping_add(0x9e37_79b9_7f4a_7c15u64);
        self.state = s;
        let z1 = (s ^ (s >> 30u64)).wrapping_mul(0xbf58_476d_1ce4_e5b9u64);
        let z2 = (z1 ^ (z1 >> 27u64)).wrapping_mul(0x94d0_49bb_1331_11ebu64);
        z2 ^ (z2 >> 31u64)
    }
}

/// Drops a message when a draw is divisible by `drop_one_in`; otherwise delays it by one tick
/// plus a second draw modulo `max_extra_delay`, at most up to the last instant.
#[derive(Debug, Clone, Copy, PartialEq, Eq)]
pub struct RandomDelay {
    pub drop_one_in: u64,
    pub max_extra_delay: u64,
}

/// What `RandomDelay` with the given parameters makes of `i` from the state `state`.
pub open spec fn random_delay_step(drop_one_in: u64, max_extra_delay: u64, state: u64, i: DeliverySchedule) -> (u64, DeliverySchedule) {
    match i {
        DeliverySchedule::Drop => (state, DeliverySchedule::Drop),
        DeliverySchedule::AtInstant(t) => {
            let first = splitmix_step(state);
            if drop_one_in > 0 && first.1 % drop_one_in == 0 {
                (first.0, DeliverySchedule::Drop)
            } else {
                let second = splitmix_step(first.0);
                let extra = if max_extra_delay > 0 { 1 + second.1 % max_extra_delay } else { 1int };
                (second.0, delayed(i, if extra > u64::MAX { u64::MAX } else { extra as u64 }))
            }
        },
    }
}

impl Strategy<DeliverySchedule, SplitMix64> for RandomDelay {
    open spec fn spec_map(&self, rng: SplitMix64, i: DeliverySchedule) -> (SplitMix64, DeliverySchedule) {
        let step = random_delay_step(self.drop_one_in, self.max_extra_delay, rng.state, i);
        (SplitMix64 { state: step.0 }, step.1)
    }

    fn map(&self, rng: &mut SplitMix64, i: DeliverySchedule) -> (r: DeliverySchedule) {
        match i {
            DeliverySchedule::Drop => DeliverySchedule::Drop,
            DeliverySchedule::AtInstant(t) => {
                let first = rng.next_u64();
                if self.drop_one_in > 0 && first % self.drop_one_in == 0 {
                    DeliverySchedule::Drop
                } else {
                    let second = rng.next_u64();
                    let extra: u64 = if self.max_extra_delay > 0 {
                        let m = second % self.max_extra_delay;
                        if m == u64::MAX { u64::MAX } else { m + 1 }
                    } else {
                        1
                    };
                    if t.0 > u64::MAX - extra {
                        DeliverySchedule::AtInstant(Instant(u64::MAX))
                    } else {
                        DeliverySchedule::AtInstant(Instant(t.0 + extra))
                    }
                }
            },
        }
    }
}

} // verus!
