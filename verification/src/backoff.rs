//! Exponential backoff for loops that wait on another thread.

use vstd::arithmetic::power2::pow2;
use vstd::prelude::*;

verus! {

/// Up to this step a pause is a run of processor hints.
pub const SPIN_LIMIT: u32 = 6;

/// Past this step waiting any longer by backoff is pointless.
pub const YIELD_LIMIT: u32 = 10;

/// `std::hint::spin_loop` tells the processor that it is in a busy-wait loop.
/// It returns nothing and changes no value, so nothing is claimed of it.
pub assume_specification[ std::hint::spin_loop ]();

/// Issues `rounds` busy-wait hints.
fn spin_hints(rounds: u32) {
    let mut i: u32 = 0;
    while i < rounds
        decreases rounds - i,
    {
        std::hint::spin_loop();
        i = i + 1;
    }
}

/// How a pause was, or is to be, spent.
#[derive(Clone, Copy, Debug, PartialEq, Eq, Structural)]
pub enum Pause {
    /// The pause is over: this many busy-wait hints were issued.
    Spun(u32),
    /// The caller is to give up the processor to another thread.
    Yield,
}

/// A counter that makes each pause longer than the one before it.
#[derive(Clone, Copy, Debug, PartialEq, Eq, Structural)]
pub struct Backoff {
    pub step: u32,
}

impl Backoff {
    /// The number of hints that `spin` issues in this state.
    pub open spec fn spin_rounds(self) -> nat {
        pow2(if self.step < SPIN_LIMIT { self.step as nat } else { SPIN_LIMIT as nat })
    }

    /// The state that `spin` leaves.
    pub open spec fn spun(self) -> Backoff {
        if self.step <= SPIN_LIMIT {
            Backoff { step: (self.step + 1) as u32 }
        } else {
            self
        }
    }

    /// The state that `nap` leaves.
    pub open spec fn napped(self) -> Backoff {
        if self.step <= YIELD_LIMIT {
            Backoff { step: (self.step + 1) as u32 }
        } else {
            self
        }
    }

    /// Whether `nap` asks for the processor to be yielded in this state.
    pub open spec fn nap_yields(self) -> bool {
        self.step > SPIN_LIMIT
    }

    /// Whether this is how `nap` spends its pause in this state: with twice as many hints as at
    /// the step before, or by yielding.
    pub open spec fn naps(self, pause: Pause) -> bool {
        match pause {
            Pause::Spun(rounds) => !self.nap_yields() && rounds as nat == pow2(self.step as nat),
            Pause::Yield => self.nap_yields(),
        }
    }

    /// Starts at the shortest pause.
    pub fn new() -> (b: Backoff)
        ensures
            b == (Backoff { step: 0 }),
    {
        Backoff { step: 0 }
    }

    /// Goes back to the shortest pause.
    pub fn reset(&mut self)
        ensures
            *final(self) == (Backoff { step: 0 }),
    {
        self.step = 0;
    }

    /// Pauses with busy-wait hints and returns how many were issued: twice as
    /// many as at the step before, up to the spin limit.
    pub fn spin(&mut self) -> (rounds: u32)
        ensures
            rounds as nat == old(self).spin_rounds(),
            *final(self) == old(self).spun(),
    {
        let exponent: u32 = if self.step < SPIN_LIMIT { self.step } else { SPIN_LIMIT };
        let rounds: u32 = 1u32 << exponent;
        proof {
            lemma_shift_is_pow2(exponent);
        }
        spin_hints(rounds);
        if self.step <= SPIN_LIMIT {
            self.step = self.step + 1;
        }
        rounds
    }

    /// Pauses with busy-wait hints up to the spin limit; past it, asks the caller
    /// to yield the processor.
    pub fn nap(&mut self) -> (pause: Pause)
        ensures
            *final(self) == old(self).napped(),
            old(self).naps(pause),
    {
        let pause = if self.step <= SPIN_LIMIT {
            let rounds: u32 = 1u32 << self.step;
            proof {
                lemma_shift_is_pow2(self.step);
            }
            spin_hints(rounds);
            Pause::Spun(rounds)
        } else {
            Pause::Yield
        };
        if self.step <= YIELD_LIMIT {
            self.step = self.step + 1;
        }
        pause
    }

    /// Whether waiting by some other means is advised.
    pub fn is_completed(&self) -> (done: bool)
        ensures
            done == (self.step > YIELD_LIMIT),
    {
        self.step > YIELD_LIMIT
    }
}

impl Default for Backoff {
    fn default() -> (b: Backoff)
        ensures
            b == (Backoff { step: 0 }),
    {
        Backoff::new()
    }
}

proof fn lemma_shift_is_pow2(exponent: u32)
    requires
        exponent <= SPIN_LIMIT,
    ensures
        (1u32 << exponent) as nat == pow2(exponent as nat),
{
    vstd::arithmetic::power2::lemma2_to64();
    assert(1u32 << 0u32 == 1u32 && 1u32 << 1u32 == 2u32 && 1u32 << 2u32 == 4u32 && 1u32 << 3u32
        == 8u32 && 1u32 << 4u32 == 16u32 && 1u32 << 5u32 == 32u32 && 1u32 << 6u32 == 64u32)
        by (bit_vector);
}

/// The state after `naps` naps from a fresh start.
pub open spec fn after_naps(naps: nat) -> Backoff
    decreases naps,
{
    if naps == 0 {
        Backoff { step: 0 }
    } else {
        after_naps((naps - 1) as nat).napped()
    }
}

/// Napping completes a backoff after eleven naps and not before, and no further
/// nap undoes that.
pub proof fn law_naps_complete(naps: nat)
    ensures
        (after_naps(naps).step > YIELD_LIMIT) <==> naps > YIELD_LIMIT,
        after_naps(naps).step == (if naps <= YIELD_LIMIT { naps as int } else { YIELD_LIMIT + 1 }),
    decreases naps,
{
    if naps > 0 {
        law_naps_complete((naps - 1) as nat);
    }
}

/// A nap after so many naps from a fresh start: the first seven are spent with hints, once, and
/// then twice as many each time; all others ask for the processor to be yielded.
pub proof fn law_naps_grow(naps: nat, pause: Pause)
    ensures
        after_naps(naps).naps(pause) <==> (if naps <= 6 {
            pause matches Pause::Spun(rounds) && rounds as nat == pow2(naps)
        } else {
            pause is Yield
        }),
        after_naps(naps).nap_yields() <==> naps >= 7,
        after_naps(naps).step > 10 <==> naps >= 11,
{
    law_naps_complete(naps);
}

/// The state after `spins` spins from a fresh start.
pub open spec fn after_spins(spins: nat) -> Backoff
    decreases spins,
{
    if spins == 0 {
        Backoff { step: 0 }
    } else {
        after_spins((spins - 1) as nat).spun()
    }
}

/// A spin after so many spins from a fresh start issues twice as many hints as the one before
/// it, up to sixty-four.
pub proof fn law_spins_grow(spins: nat)
    ensures
        after_spins(spins).spin_rounds() == (if spins <= 6 {
            pow2(spins)
        } else {
            64
        }),
        after_spins(spins).step == (if spins <= 7 {
            spins as int
        } else {
            7
        }),
    decreases spins,
{
    vstd::arithmetic::power2::lemma2_to64();
    if spins > 0 {
        law_spins_grow((spins - 1) as nat);
    }
}

/// Spinning alone never completes a backoff: the step stops just past the spin limit.
pub proof fn law_spin_never_completes(b: Backoff)
    requires
        b.step <= SPIN_LIMIT + 1,
    ensures
        b.spun().step <= SPIN_LIMIT + 1,
        b.spun().step <= YIELD_LIMIT,
{
}

} // verus!
