//! The word that counts the operations in flight on a stripe.
//!
//! The top bit of the word is the current phase, and the remaining bits are split evenly into the
//! number of operations in flight in phase 0 (low bits) and in phase 1 (high bits).  Keeping all
//! three in one word is what orders an arrival against a flip of the phase: an operation either
//! arrives before the flip, and is then waited for, or after it, and then finds the new phase.
use vstd::prelude::*;

verus! {

/// The bit of the word that holds the current phase.
pub const PHASE_BIT: usize = 1 << (usize::BITS - 1);

/// The number of bits of each of the two counts.
pub const COUNT_BITS: u32 = (usize::BITS - 1) / 2;

/// The largest value that a count can hold.
pub const COUNT_MASK: usize = !0usize >> (usize::BITS - COUNT_BITS);

/// The weight of one count in phase 1, one more than the largest count.
pub open spec fn radix() -> int {
    COUNT_MASK + 1
}

/// The phase that a word holds.
pub open spec fn word_phase(state: usize) -> nat {
    if state >= PHASE_BIT {
        1
    } else {
        0
    }
}

/// The count that a word holds for a phase.
pub open spec fn word_count(state: usize, phase: nat) -> nat {
    if phase == 0 {
        (state as int % radix()) as nat
    } else {
        ((state as int / radix()) % radix()) as nat
    }
}

/// The word is either 32 or 64 bits wide, which fixes the three constants.
pub proof fn lemma_word_size()
    ensures
        usize::BITS == 64 ==> PHASE_BIT == 0x8000_0000_0000_0000int && COUNT_BITS == 31
            && COUNT_MASK == 0x7fff_ffff,
        usize::BITS == 32 ==> PHASE_BIT == 0x8000_0000 && COUNT_BITS == 15 && COUNT_MASK == 0x7fff,
        usize::BITS == 64 || usize::BITS == 32,
{
    assert(usize::BITS == 64 ==> PHASE_BIT == 0x8000_0000_0000_0000u64) by (bit_vector);
    assert(usize::BITS == 32 ==> PHASE_BIT == 0x8000_0000u64) by (bit_vector);
    assert(usize::BITS == 64 ==> COUNT_MASK == 0x7fff_ffffu64) by (bit_vector);
    assert(usize::BITS == 32 ==> COUNT_MASK == 0x7fffu64) by (bit_vector);
}

/// Gets the phase that a word holds.
pub fn phase_of(state: usize) -> (phase: usize)
    ensures
        phase == word_phase(state),
{
    assert(state & PHASE_BIT != 0 <==> state >= PHASE_BIT) by (bit_vector);
    (state & PHASE_BIT != 0) as usize
}

/// The weight of one operation in flight in a phase.
pub open spec fn unit(phase: nat) -> int {
    if phase == 0 {
        1
    } else {
        radix()
    }
}

/// Gets what one operation in flight in a phase adds to the word.
pub fn count_unit(phase: usize) -> (weight: usize)
    requires
        phase < 2,
    ensures
        weight == unit(phase as nat),
{
    proof {
        lemma_word_size();
        assert(phase == 0 ==> phase * COUNT_BITS == 0) by (nonlinear_arith);
        assert(phase == 1 ==> phase * COUNT_BITS == COUNT_BITS) by (nonlinear_arith);
    }
    let shift: u32 = phase as u32 * COUNT_BITS;
    assert(shift == 0 ==> 1usize << shift == 1) by (bit_vector);
    assert(shift == COUNT_BITS ==> 1usize << shift == COUNT_MASK + 1) by (bit_vector);
    1 << shift
}

/// Gets the number of operations in flight in a phase.
pub fn count_of(state: usize, phase: usize) -> (count: usize)
    requires
        phase < 2,
    ensures
        count == word_count(state, phase as nat),
{
    proof {
        lemma_word_size();
        assert(phase == 0 ==> phase * COUNT_BITS == 0) by (nonlinear_arith);
        assert(phase == 1 ==> phase * COUNT_BITS == COUNT_BITS) by (nonlinear_arith);
    }
    let shift: u32 = phase as u32 * COUNT_BITS;
    assert(shift == 0 ==> (state >> shift) & COUNT_MASK == state % (COUNT_MASK + 1) as usize)
        by (bit_vector);
    assert(shift == COUNT_BITS ==> (state >> shift) & COUNT_MASK == (state / (COUNT_MASK
        + 1) as usize) % (COUNT_MASK + 1) as usize) by (bit_vector);
    (state >> shift) & COUNT_MASK
}

/// The current phase of a stripe, and the operations in flight in each of the two phases.
pub struct Gate {
    state: usize,
}

impl Gate {
    /// The word.
    pub closed spec fn word(&self) -> usize {
        self.state
    }

    /// The current phase.
    pub open spec fn phase(&self) -> nat {
        word_phase(self.word())
    }

    /// The number of operations in flight in a phase.
    pub open spec fn count(&self, phase: nat) -> nat {
        word_count(self.word(), phase)
    }

    /// Creates a gate in phase 0, with no operation in flight.
    pub fn new() -> (gate: Gate)
        ensures
            gate.word() == 0,
            gate.phase() == 0,
            gate.count(0) == 0,
            gate.count(1) == 0,
    {
        proof {
            lemma_word_size();
        }
        Gate { state: 0 }
    }

    /// Loads the current phase.
    pub fn current(&self) -> (phase: usize)
        ensures
            phase == self.phase(),
    {
        phase_of(self.state)
    }

    /// Counts one more operation in flight in a phase, and tells whether that phase was the
    /// current one at that moment.
    pub fn arrive(&mut self, phase: usize) -> (current: bool)
        requires
            phase < 2,
            old(self).count(phase as nat) < COUNT_MASK,
        ensures
            current == (old(self).phase() == phase),
            final(self).word() == old(self).word() + unit(phase as nat),
            final(self).phase() == old(self).phase(),
            final(self).count(phase as nat) == old(self).count(phase as nat) + 1,
            final(self).count((1 - phase) as nat) == old(self).count((1 - phase) as nat),
    {
        proof {
            lemma_count_up(self.state, phase as nat);
        }
        let previous: usize = self.state;
        self.state = previous.wrapping_add(count_unit(phase));
        phase_of(previous) == phase
    }

    /// Counts one operation less in flight in a phase.
    pub fn leave(&mut self, phase: usize)
        requires
            phase < 2,
            old(self).count(phase as nat) > 0,
        ensures
            final(self).word() == old(self).word() - unit(phase as nat),
            final(self).phase() == old(self).phase(),
            final(self).count(phase as nat) == old(self).count(phase as nat) - 1,
            final(self).count((1 - phase) as nat) == old(self).count((1 - phase) as nat),
    {
        proof {
            lemma_count_down(self.state, phase as nat);
        }
        self.state = self.state.wrapping_sub(count_unit(phase));
    }

    /// Makes the other phase the current one, and gives the phase that was.
    pub fn flip(&mut self) -> (previous: usize)
        ensures
            previous == old(self).phase(),
            final(self).word() == old(self).word() ^ PHASE_BIT,
            final(self).phase() == 1 - previous,
            final(self).count(0) == old(self).count(0),
            final(self).count(1) == old(self).count(1),
    {
        proof {
            lemma_flip(self.state);
        }
        let previous: usize = self.state;
        self.state = previous ^ PHASE_BIT;
        phase_of(previous)
    }

    /// Tells whether no operation is in flight in a phase.
    pub fn is_drained(&self, phase: usize) -> (drained: bool)
        requires
            phase < 2,
        ensures
            drained == (self.count(phase as nat) == 0),
    {
        count_of(self.state, phase) == 0
    }
}

proof fn lemma_up_64(s: int)
    requires
        0 <= s < 0x1_0000_0000_0000_0000,
    ensures
        s % 0x8000_0000 < 0x7fff_ffff ==> (s + 1) / 0x8000_0000 == s / 0x8000_0000 && (s + 1)
            % 0x8000_0000 == s % 0x8000_0000 + 1 && (s + 1) / 0x8000_0000_0000_0000 == s
            / 0x8000_0000_0000_0000,
        (s + 0x8000_0000) % 0x8000_0000 == s % 0x8000_0000,
        (s + 0x8000_0000) / 0x8000_0000 == s / 0x8000_0000 + 1,
        (s / 0x8000_0000) % 0x8000_0000 < 0x7fff_ffff ==> (s / 0x8000_0000 + 1) % 0x8000_0000 == (s
            / 0x8000_0000) % 0x8000_0000 + 1 && (s + 0x8000_0000) / 0x8000_0000_0000_0000 == s
            / 0x8000_0000_0000_0000,
{
}

proof fn lemma_up_32(s: int)
    requires
        0 <= s < 0x1_0000_0000,
    ensures
        s % 0x8000 < 0x7fff ==> (s + 1) / 0x8000 == s / 0x8000 && (s + 1) % 0x8000 == s % 0x8000 + 1
            && (s + 1) / 0x8000_0000 == s / 0x8000_0000,
        (s + 0x8000) % 0x8000 == s % 0x8000,
        (s + 0x8000) / 0x8000 == s / 0x8000 + 1,
        (s / 0x8000) % 0x8000 < 0x7fff ==> (s / 0x8000 + 1) % 0x8000 == (s / 0x8000) % 0x8000 + 1 && (
        s + 0x8000) / 0x8000_0000 == s / 0x8000_0000,
{
}

/// Adding the weight of a phase to a word raises the count of that phase, and nothing else, as
/// long as the count has room.
pub proof fn lemma_count_up(state: usize, phase: nat)
    requires
        phase < 2,
        word_count(state, phase) < COUNT_MASK,
    ensures
        state + unit(phase) <= usize::MAX,
        word_phase((state + unit(phase)) as usize) == word_phase(state),
        word_count((state + unit(phase)) as usize, phase) == word_count(state, phase) + 1,
        word_count((state + unit(phase)) as usize, (1 - phase) as nat) == word_count(
            state,
            (1 - phase) as nat,
        ),
{
    lemma_word_size();
    if usize::BITS == 64 {
        lemma_up_64(state as int);
        assert(radix() == 0x8000_0000);
    } else {
        lemma_up_32(state as int);
        assert(radix() == 0x8000);
    }
}

/// Taking the weight of a phase from a word lowers the count of that phase, and nothing else.
pub proof fn lemma_count_down(state: usize, phase: nat)
    requires
        phase < 2,
        word_count(state, phase) > 0,
    ensures
        state - unit(phase) >= 0,
        word_phase((state - unit(phase)) as usize) == word_phase(state),
        word_count((state - unit(phase)) as usize, phase) == word_count(state, phase) - 1,
        word_count((state - unit(phase)) as usize, (1 - phase) as nat) == word_count(
            state,
            (1 - phase) as nat,
        ),
{
    lemma_word_size();
    let s = state as int;
    if usize::BITS == 64 {
        assert(radix() == 0x8000_0000);
        assert(s % 0x8000_0000 > 0 ==> s >= 1 && (s - 1) % 0x8000_0000 < 0x7fff_ffff);
        assert((s / 0x8000_0000) % 0x8000_0000 > 0 ==> s >= 0x8000_0000 && ((s - 0x8000_0000)
            / 0x8000_0000) % 0x8000_0000 < 0x7fff_ffff);
    } else {
        assert(radix() == 0x8000);
        assert(s % 0x8000 > 0 ==> s >= 1 && (s - 1) % 0x8000 < 0x7fff);
        assert((s / 0x8000) % 0x8000 > 0 ==> s >= 0x8000 && ((s - 0x8000) / 0x8000) % 0x8000
            < 0x7fff);
    }
    lemma_count_up((state - unit(phase)) as usize, phase);
}

proof fn lemma_top_bit_64(s: int)
    requires
        0 <= s < 0x8000_0000_0000_0000,
    ensures
        (s + 0x8000_0000_0000_0000) % 0x8000_0000 == s % 0x8000_0000,
        ((s + 0x8000_0000_0000_0000) / 0x8000_0000) % 0x8000_0000 == (s / 0x8000_0000)
            % 0x8000_0000,
{
    assert(s + 0x8000_0000_0000_0000 == s + 0x1_0000_0000 * 0x8000_0000);
    assert((s + 0x8000_0000_0000_0000) / 0x8000_0000 == s / 0x8000_0000 + 0x1_0000_0000);
}

proof fn lemma_top_bit_32(s: int)
    requires
        0 <= s < 0x8000_0000,
    ensures
        (s + 0x8000_0000) % 0x8000 == s % 0x8000,
        ((s + 0x8000_0000) / 0x8000) % 0x8000 == (s / 0x8000) % 0x8000,
{
    assert((s + 0x8000_0000) / 0x8000 == s / 0x8000 + 0x1_0000);
}

/// Flipping the phase bit changes the phase and keeps both counts.
pub proof fn lemma_flip(state: usize)
    ensures
        word_phase(state ^ PHASE_BIT) == 1 - word_phase(state),
        word_count(state ^ PHASE_BIT, 0) == word_count(state, 0),
        word_count(state ^ PHASE_BIT, 1) == word_count(state, 1),
{
    assert(state < PHASE_BIT ==> state ^ PHASE_BIT == state + PHASE_BIT) by (bit_vector);
    assert(state >= PHASE_BIT ==> state ^ PHASE_BIT == state - PHASE_BIT) by (bit_vector);
    lemma_word_size();
    let low = if state < PHASE_BIT {
        state as int
    } else {
        state - PHASE_BIT
    };
    if usize::BITS == 64 {
        assert(radix() == 0x8000_0000);
        lemma_top_bit_64(low);
    } else {
        assert(radix() == 0x8000);
        lemma_top_bit_32(low);
    }
}

} // verus!
