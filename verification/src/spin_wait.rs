//! Exponential backoff for a lock that a thread is about to be parked on.

use vstd::arithmetic::power2::pow2;
use vstd::prelude::*;

verus! {

/// After this many spins a thread should be parked instead.
pub const SLEEP_THRESHOLD: u32 = 10;

/// Up to this many spins the processor is kept busy.
pub const RELAX_LIMIT: u32 = 3;

/// What a spin comes to.
#[derive(Clone, Copy, Debug, PartialEq, Eq, Structural)]
pub enum Spin {
    /// The spin is over: this many busy-wait hints were issued.
    Relaxed(u32),
    /// The caller is to give up the processor to another thread.
    Yield,
    /// The sleep threshold has been reached: further spinning has diminishing returns,
    /// and the thread should be parked instead.
    Exhausted,
}

/// A counter used to perform exponential backoff in spin loops.
#[derive(Clone, Copy, Debug, PartialEq, Eq, Structural)]
pub struct SpinWait {
    pub counter: u32,
}

/// Wastes some processor time for the given number of iterations.
fn cpu_relax(iterations: u32) {
    let mut i: u32 = 0;
    while i < iterations
        decreases iterations - i,
    {
        std::hint::spin_loop();
        i = i + 1;
    }
}

impl SpinWait {
    /// The initial state.
    pub open spec fn fresh() -> SpinWait {
        SpinWait { counter: 0 }
    }

    /// Whether the sleep threshold has been reached.
    pub open spec fn exhausted(self) -> bool {
        self.counter >= SLEEP_THRESHOLD
    }

    /// The state that `spin` leaves.
    pub open spec fn spun(self) -> SpinWait {
        if self.exhausted() {
            self
        } else {
            SpinWait { counter: (self.counter + 1) as u32 }
        }
    }

    /// Whether `spin` asks for the processor to be yielded in this state.
    pub open spec fn spin_yields(self) -> bool {
        RELAX_LIMIT <= self.counter < SLEEP_THRESHOLD
    }

    /// Creates a new `SpinWait`.
    pub fn new() -> (wait: SpinWait)
        ensures
            wait == SpinWait::fresh(),
    {
        SpinWait { counter: 0 }
    }

    /// Resets a `SpinWait` to its initial state.
    pub fn reset(&mut self)
        ensures
            *final(self) == SpinWait::fresh(),
    {
        self.counter = 0;
    }

    /// Spins until the sleep threshold has been reached.
    ///
    /// At first a spin keeps the processor busy, each time for twice as long; after a
    /// few times it asks for the processor to be yielded. Once the threshold has been
    /// reached it does nothing but say so.
    pub fn spin(&mut self) -> (spin: Spin)
        ensures
            *final(self) == old(self).spun(),
            spin == Spin::Exhausted <==> old(self).exhausted(),
            spin == Spin::Yield <==> old(self).spin_yields(),
            old(self).counter < RELAX_LIMIT ==> (spin matches Spin::Relaxed(rounds) && rounds as nat
                == pow2(old(self).counter as nat + 1)),
    {
        if self.counter >= SLEEP_THRESHOLD {
            return Spin::Exhausted;
        }
        self.counter = self.counter + 1;
        if self.counter <= RELAX_LIMIT {
            let rounds: u32 = 1u32 << self.counter;
            proof {
                vstd::arithmetic::power2::lemma2_to64();
                assert(1u32 << 1u32 == 2u32 && 1u32 << 2u32 == 4u32 && 1u32 << 3u32 == 8u32)
                    by (bit_vector);
            }
            cpu_relax(rounds);
            Spin::Relaxed(rounds)
        } else {
            Spin::Yield
        }
    }
}

impl Default for SpinWait {
    fn default() -> (wait: SpinWait)
        ensures
            wait == SpinWait::fresh(),
    {
        SpinWait { counter: 0 }
    }
}

/// The state after `spins` spins from the initial one.
pub open spec fn after_spins(spins: nat) -> SpinWait
    decreases spins,
{
    if spins == 0 {
        SpinWait::fresh()
    } else {
        after_spins((spins - 1) as nat).spun()
    }
}

/// Of the spins from the initial state the first three keep the processor busy, the next seven
/// ask for it to be yielded, and all others say that the thread should be parked.
pub proof fn law_spins_in_turn(spins: nat)
    ensures
        spins < 3 ==> !after_spins(spins).spin_yields() && !after_spins(spins).exhausted(),
        3 <= spins < 10 ==> after_spins(spins).spin_yields() && !after_spins(spins).exhausted(),
        spins >= 10 ==> !after_spins(spins).spin_yields() && after_spins(spins).exhausted(),
        spins <= 10 ==> after_spins(spins).counter == spins,
{
    law_threshold(spins);
}

/// The sleep threshold is reached after ten spins and not before, and stays reached.
pub proof fn law_threshold(spins: nat)
    ensures
        after_spins(spins).exhausted() <==> spins >= SLEEP_THRESHOLD,
        after_spins(spins).counter == (if spins <= SLEEP_THRESHOLD {
            spins as int
        } else {
            SLEEP_THRESHOLD as int
        }),
    decreases spins,
{
    if spins > 0 {
        law_threshold((spins - 1) as nat);
    }
}

} // verus!
