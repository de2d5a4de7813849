//! A small deterministic random number generator (PCG32, XSH RR output).
use vstd::prelude::*;

verus! {

pub const MULTIPLIER: u64 = 6364136223846793005;

/// The generator's next state.
pub open spec fn pcg_step(state: u64, increment: u64) -> u64 {
    ((state * MULTIPLIER + increment) % 0x1_0000_0000_0000_0000) as u64
}

/// Rotates `x` right by `r` bits.
pub open spec fn rotr32(x: u32, r: u32) -> u32 {
    ((x >> r) | (x << ((32 - r) % 32) as u32)) as u32
}

/// The 32-bit output drawn from a state: xorshift high bits, then a
/// rotation chosen by the top five bits.
pub open spec fn pcg_output(state: u64) -> u32 {
    let rot = (state >> 59u64) as u32;
    let xsh = (((state >> 18u64) ^ state) >> 27u64) as u32;
    rotr32(xsh, rot)
}

#[derive(Clone)]
pub struct Rng {
    pub state: u64,
    pub increment: u64,
}

fn rotate_right(x: u32, r: u32) -> (v: u32)
    requires
        r < 32,
    ensures
        v == rotr32(x, r),
{
    (x >> r) | (x << ((32 - r) % 32))
}

impl Rng {
    pub fn new(state: u64, increment: u64) -> (r: Rng)
        ensures
            r.state == state,
            r.increment == increment,
    {
        Rng { state, increment }
    }

    pub fn next_u32(&mut self) -> (r: u32)
        ensures
            r == pcg_output(old(self).state),
            final(self).state == pcg_step(old(self).state, old(self).increment),
            final(self).increment == old(self).increment,
    {
        let state = self.state;
        self.step();
        let rot = (state >> 59u64) as u32;
        let xsh = (((state >> 18u64) ^ state) >> 27u64) as u32;
        proof {
            assert(state >> 59u64 < 32) by (bit_vector);
        }
        rotate_right(xsh, rot)
    }

    /// Two outputs, the first in the high half.
    pub fn next_u64(&mut self) -> (r: u64)
        ensures
            ({
                let s1 = pcg_step(old(self).state, old(self).increment);
                &&& r == ((pcg_output(old(self).state) as u64) << 32u64) | pcg_output(s1) as u64
                &&& final(self).state == pcg_step(s1, old(self).increment)
                &&& final(self).increment == old(self).increment
            }),
    {
        let hi = self.next_u32() as u64;
        let lo = self.next_u32() as u64;
        (hi << 32u64) | lo
    }

    fn step(&mut self)
        ensures
            final(self).state == pcg_step(old(self).state, old(self).increment),
            final(self).increment == old(self).increment,
    {
        self.state = self.state.wrapping_mul(MULTIPLIER).wrapping_add(self.increment);
        proof {
            let s = old(self).state as int;
            let m = MULTIPLIER as int;
            let i = old(self).increment as int;
            let p = 0x1_0000_0000_0000_0000int;
            vstd::arithmetic::div_mod::lemma_add_mod_noop(s * m, i, p);
        }
    }
}

/// Repeated squaring of a fixed-point fraction with `shift` fractional bits:
/// each product is truncated back to `shift` bits.
pub open spec fn fixed_pow(base: int, result: int, exp: nat, shift: nat) -> int
    decreases exp,
{
    if exp == 0 {
        result
    } else {
        let one = vstd::arithmetic::power2::pow2(shift) as int;
        let r2 = if exp % 2 == 1 {
            (result * base) / one
        } else {
            result
        };
        fixed_pow((base * base) / one, r2, exp / 2, shift)
    }
}

/// `x` to the power `exp`, reading `x` as a fraction of 2^32; the result
/// is a fraction of 2^32 too, and wraps to 0 when it reaches 2^32 (as for
/// `exp == 0`).
pub fn scale_u32_pow(x: u32, exp: usize) -> (r: u32)
    ensures
        r == fixed_pow(x as int, 0x1_0000_0000, exp as nat, 32) % 0x1_0000_0000,
{
    proof {
        vstd::arithmetic::power2::lemma2_to64();
    }
    let mut exp = exp;
    let mut base = x as u64;
    let mut result: u64 = 1 << 32u64;
    proof {
        assert(1u64 << 32u64 == 0x1_0000_0000) by (bit_vector);
    }
    let ghost target = fixed_pow(x as int, 0x1_0000_0000, exp as nat, 32);
    while exp > 0
        invariant
            base < 0x1_0000_0000,
            result <= 0x1_0000_0000,
            fixed_pow(base as int, result as int, exp as nat, 32) == target,
            vstd::arithmetic::power2::pow2(32) == 0x1_0000_0000,
        decreases exp,
    {
        proof {
            assert(base * base < 0x1_0000_0000_0000_0000) by (nonlinear_arith)
                requires
                    base < 0x1_0000_0000,
            ;
            assert(result * base < 0x1_0000_0000_0000_0000) by (nonlinear_arith)
                requires
                    base < 0x1_0000_0000,
                    result <= 0x1_0000_0000,
            ;
            assert((exp & 1 > 0) == (exp % 2 == 1)) by (bit_vector);
            assert(exp >> 1 == exp / 2) by (bit_vector);
        }
        let ghost old_exp = exp;
        let ghost old_base = base;
        let ghost old_result = result;
        if exp & 1 > 0 {
            result = result * base;
            let p = result;
            result = result >> 32u64;
            proof {
                assert(p >> 32u64 == p / 0x1_0000_0000) by (bit_vector);
                assert(p / 0x1_0000_0000 < 0x1_0000_0000) by (nonlinear_arith)
                    requires
                        p == old_result * old_base,
                        old_base < 0x1_0000_0000,
                        old_result <= 0x1_0000_0000,
                ;
            }
        }
        let sq = base * base;
        base = sq >> 32u64;
        exp = exp >> 1;
        proof {
            assert(sq >> 32u64 == sq / 0x1_0000_0000) by (bit_vector);
            assert(sq / 0x1_0000_0000 < 0x1_0000_0000) by (nonlinear_arith)
                requires
                    sq == old_base * old_base,
                    old_base < 0x1_0000_0000,
            ;
        }
    }
    (result % 0x1_0000_0000) as u32
}

/// `x` to the power `exp`, reading `x` as a fraction of 2^64 (with
/// `u64::MAX` standing for one).
pub fn scale_u64_pow(x: u64, exp: usize) -> (r: u64)
    ensures
        r == fixed_pow(x as int, u64::MAX as int, exp as nat, 64),
{
    proof {
        vstd::arithmetic::power2::lemma2_to64();
        vstd::arithmetic::power2::lemma2_to64_rest();
    }
    let mut exp = exp;
    let mut base = x as u128;
    let mut result: u128 = u64::MAX as u128;
    let ghost target = fixed_pow(x as int, u64::MAX as int, exp as nat, 64);
    while exp > 0
        invariant
            base <= u64::MAX,
            result <= u64::MAX,
            fixed_pow(base as int, result as int, exp as nat, 64) == target,
            vstd::arithmetic::power2::pow2(64) == 0x1_0000_0000_0000_0000,
        decreases exp,
    {
        proof {
            assert(base * base <= u64::MAX * u64::MAX) by (nonlinear_arith)
                requires
                    base <= u64::MAX,
            ;
            assert(result * base <= u64::MAX * u64::MAX) by (nonlinear_arith)
                requires
                    base <= u64::MAX,
                    result <= u64::MAX,
            ;
            assert((exp & 1 > 0) == (exp % 2 == 1)) by (bit_vector);
            assert(exp >> 1 == exp / 2) by (bit_vector);
        }
        let ghost old_base = base;
        let ghost old_result = result;
        if exp & 1 > 0 {
            result = result * base;
            let p = result;
            result = result >> 64u128;
            proof {
                assert(p >> 64u128 == p / 0x1_0000_0000_0000_0000) by (bit_vector);
                assert(p / 0x1_0000_0000_0000_0000 <= u64::MAX) by (nonlinear_arith)
                    requires
                        p == old_result * old_base,
                        old_base <= u64::MAX,
                        old_result <= u64::MAX,
                ;
            }
        }
        let sq = base * base;
        base = sq >> 64u128;
        exp = exp >> 1;
        proof {
            assert(sq >> 64u128 == sq / 0x1_0000_0000_0000_0000) by (bit_vector);
            assert(sq / 0x1_0000_0000_0000_0000 <= u64::MAX) by (nonlinear_arith)
                requires
                    sq == old_base * old_base,
                    old_base <= u64::MAX,
            ;
        }
    }
    result as u64
}

} // verus!
