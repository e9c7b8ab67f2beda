//! The pseudo-random generator behind parameter initialisation.
use vstd::prelude::*;
use crate::nn::error::Error;

verus! {

/// The state used in place of a zero seed.
pub const DEFAULT_STATE: u64 = 0x9E3779B97F4A7C15;

/// The multiplier applied to the state to produce an output.
pub const OUTPUT_MUL: u64 = 0x2545F4914F6CDD1D;

/// One xorshift step: `x ^= x >> 12; x ^= x << 25; x ^= x >> 27`.
pub open spec fn xorshift(x: u64) -> u64 {
    let a = x ^ (x >> 12u64);
    let b = a ^ (a << 25u64);
    b ^ (b >> 27u64)
}

/// A xorshift64* generator. Its state is never zero.
#[derive(Debug)]
pub struct Rng {
    state: u64,
}

impl View for Rng {
    type V = u64;

    closed spec fn view(&self) -> u64 {
        self.state
    }
}

impl Rng {
    #[verifier::type_invariant]
    closed spec fn rng_invariant(self) -> bool {
        self.state != 0
    }

    /// A generator seeded with `seed`; a zero seed is replaced by `DEFAULT_STATE`.
    pub fn new(seed: u64) -> (r: Self)
        ensures
            r@ == (if seed == 0 {
                DEFAULT_STATE
            } else {
                seed
            }),
            r@ != 0,
    {
        let state = if seed == 0 {
            DEFAULT_STATE
        } else {
            seed
        };
        Rng { state }
    }

    /// Advances the state by one xorshift step and returns the new state
    /// multiplied by `OUTPUT_MUL`, wrapping.
    pub fn next_u64(&mut self) -> (r: u64)
        ensures
            final(self)@ == xorshift(old(self)@),
            final(self)@ != 0,
            r == vstd::wrapping::u64_specs::wrapping_mul(xorshift(old(self)@), OUTPUT_MUL),
    {
        proof {
            use_type_invariant(&*self);
            lemma_xorshift_nonzero(self.state);
        }
        let mut x = self.state;
        x ^= x >> 12;
        x ^= x << 25;
        x ^= x >> 27;
        self.state = x;
        x.wrapping_mul(OUTPUT_MUL)
    }

    /// The top 24 bits of the next output, the bits that a float draw in
    /// `[0, 1)` is made of.
    pub fn next_u24(&mut self) -> (r: u32)
        ensures
            final(self)@ == xorshift(old(self)@),
            final(self)@ != 0,
            r == vstd::wrapping::u64_specs::wrapping_mul(xorshift(old(self)@), OUTPUT_MUL) >> 40u64,
            r < 0x100_0000,
    {
        let x = self.next_u64();
        let y = x >> 40;
        assert(y < 0x100_0000) by (bit_vector)
            requires
                y == x >> 40u64,
        ;
        y as u32
    }
}

/// A xorshift step maps a non-zero state to a non-zero state.
pub proof fn lemma_xorshift_nonzero(x: u64)
    requires
        x != 0,
    ensures
        xorshift(x) != 0,
{
    let a = x ^ (x >> 12u64);
    assert(x != 0 ==> x ^ (x >> 12u64) != 0) by (bit_vector);
    let b = a ^ (a << 25u64);
    assert(a != 0 ==> a ^ (a << 25u64) != 0) by (bit_vector);
    assert(b != 0 ==> b ^ (b >> 27u64) != 0) by (bit_vector);
}

/// Checks that a weight of `shape` can take Kaiming-uniform initialisation,
/// which reads its fan-in from the first of at least two dimensions.
pub fn check_kaiming_rank(shape: &[usize]) -> (r: Result<(), Error>)
    ensures
        shape@.len() >= 2 ==> r is Ok,
        shape@.len() < 2 ==> (r matches Err(Error::State(m)) && m@
            == "kaiming_uniform expects at least 2D weight"@),
{
    if shape.len() < 2 {
        return Err(Error::State(String::from_str("kaiming_uniform expects at least 2D weight")));
    }
    Ok(())
}

} // verus!
