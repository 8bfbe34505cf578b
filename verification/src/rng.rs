//! Pseudo-random numbers for offsets and incompressible data.

use vstd::prelude::*;

verus! {

/// One xorshift step.
pub open spec fn stirred(x: u64) -> u64 {
    let a = x ^ (x << 13u64);
    let b = a ^ (a >> 7u64);
    b ^ (b << 17u64)
}

/// One xorshift step.
pub fn stir(x: u64) -> (r: u64)
    ensures
        r == stirred(x),
{
    let a: u64 = x ^ (x << 13u64);
    let b: u64 = a ^ (a >> 7u64);
    b ^ (b << 17u64)
}

/// A step never falls into zero, the one state that it cannot leave.
pub proof fn law_stir_keeps_nonzero(x: u64)
    requires
        x != 0,
    ensures
        stirred(x) != 0,
{
    let a = x ^ (x << 13u64);
    let b = a ^ (a >> 7u64);
    assert(x != 0 ==> x ^ (x << 13u64) != 0) by (bit_vector);
    assert(a != 0 ==> a ^ (a >> 7u64) != 0) by (bit_vector);
    assert(b != 0 ==> b ^ (b << 17u64) != 0) by (bit_vector);
}

/// A step takes different states to different states.
pub proof fn law_stir_is_injective(x: u64, y: u64)
    requires
        stirred(x) == stirred(y),
    ensures
        x == y,
{
    let a = x ^ (x << 13u64);
    let b = a ^ (a >> 7u64);
    let c = y ^ (y << 13u64);
    let d = c ^ (c >> 7u64);
    assert(b ^ (b << 17u64) == d ^ (d << 17u64) ==> b == d) by (bit_vector);
    assert(a ^ (a >> 7u64) == c ^ (c >> 7u64) ==> a == c) by (bit_vector);
    assert(x ^ (x << 13u64) == y ^ (y << 13u64) ==> x == y) by (bit_vector);
}

/// A seed with zero, the state that xorshift cannot escape from, replaced.
pub open spec fn seeded(seed: u64) -> u64 {
    if seed == 0 {
        1
    } else {
        seed
    }
}

/// Multiplier that scrambles the state into an output.
pub const SCRAMBLE: u64 = 0x2545F4914F6CDD1D;

/// The output that belongs to a state.
pub open spec fn output(state: u64) -> u64 {
    (state as int * SCRAMBLE as int % 0x1_0000_0000_0000_0000) as u64
}

/// xorshift64*. Pulling in a full RNG crate for offset selection would only add
/// cross-compilation surface for SBC targets.
pub struct Rng(u64);

impl View for Rng {
    type V = u64;

    closed spec fn view(&self) -> u64 {
        self.0
    }
}

impl Rng {
    #[verifier::type_invariant]
    pub open spec fn alive(self) -> bool {
        self@ != 0
    }

    /// A generator that starts from a seed.
    pub fn new(seed: u64) -> (r: Rng)
        ensures
            r@ == seeded(seed),
    {
        if seed == 0 {
            Rng(1)
        } else {
            Rng(seed)
        }
    }

    /// A generator seeded from a reading of the clock: the seconds since 1970
    /// and the nanoseconds within the second. `None` stands for a clock set
    /// before that.
    pub fn from_clock(reading: Option<(u64, u32)>) -> (r: Rng)
        ensures
            r@ == seeded(
                match reading {
                    Some((secs, nanos)) => nanos as u64 ^ secs,
                    None => SCRAMBLE,
                },
            ),
    {
        match reading {
            Some((secs, nanos)) => Self::new(nanos as u64 ^ secs),
            None => Self::new(SCRAMBLE),
        }
    }

    /// The next output.
    pub fn next_u64(&mut self) -> (r: u64)
        ensures
            final(self)@ == stirred(old(self)@),
            r == output(stirred(old(self)@)),
    {
        let x: u64 = stir(self.0);
        proof {
            use_type_invariant(&*self);
            law_stir_keeps_nonzero(self.0);
        }
        self.0 = x;
        x.wrapping_mul(SCRAMBLE)
    }

    /// A block-aligned offset in `[0, span - block]`.
    pub fn aligned_offset(&mut self, span: u64, block: usize) -> (r: u64)
        requires
            0 < block <= span,
        ensures
            final(self)@ == stirred(old(self)@),
            r == (output(final(self)@) % (span / block as u64)) * block,
            r % block as u64 == 0,
            r + block <= span,
    {
        let size: u64 = block as u64;
        let blocks: u64 = span / size;
        proof {
            assert(blocks >= 1 && blocks * size <= span) by (nonlinear_arith)
                requires
                    0 < size <= span,
                    blocks == span / size,
            ;
        }
        let pick: u64 = self.next_u64() % blocks;
        proof {
            assert((pick + 1) * size <= blocks * size && pick * size + size == (pick + 1) * size)
                by (nonlinear_arith)
                requires
                    pick < blocks,
            ;
            vstd::arithmetic::div_mod::lemma_mod_multiples_basic(pick as int, size as int);
        }
        pick * size
    }
}

/// A random offset is that of a whole block, and the block lies inside the span.
/// Which it is rests on the state alone, which goes on with every offset.
pub proof fn law_random_offsets_stay_inside(rng: &mut Rng, span: u64, block: usize, r: u64)
    requires
        0 < block <= span,
        call_ensures(Rng::aligned_offset, (rng, span, block), r),
    ensures
        r % block as u64 == 0,
        r + block <= span,
        final(rng)@ == stirred(old(rng)@),
{
}

} // verus!
