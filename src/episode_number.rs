//! Episode numbers as `f32` bit patterns, with float_ord's total order.

use vstd::prelude::*;

verus! {

/// An episode number, held as the bit pattern of the `f32` that stores it.
///
/// Fractional values (bonus episodes) are ordinary numbers here. Ordering
/// follows float_ord's `FloatOrd<f32>`: the bit pattern is mapped to an
/// unsigned key (sign bit clear: set it; sign bit set: invert all bits), which
/// orders every non-NaN value numerically and is total on all patterns.
#[derive(Clone, Copy, Debug, PartialEq, Eq, Structural, Hash)]
pub struct EpisodeNumber {
    pub bits: u32,
}

pub const SIGN_BIT: u32 = 0x8000_0000;

/// The unsigned key that float_ord compares for an `f32` bit pattern.
pub open spec fn order_key(bits: u32) -> u32 {
    if bits < SIGN_BIT {
        (bits + SIGN_BIT) as u32
    } else {
        (u32::MAX - bits) as u32
    }
}

impl EpisodeNumber {
    pub open spec fn key(self) -> u32 {
        order_key(self.bits)
    }

    pub fn from_bits(bits: u32) -> (r: EpisodeNumber)
        ensures
            r.bits == bits,
    {
        EpisodeNumber { bits }
    }

    pub fn to_bits(&self) -> (r: u32)
        ensures
            r == self.bits,
    {
        self.bits
    }

    /// The comparison key of this number.
    pub fn order_key(&self) -> (r: u32)
        ensures
            r == self.key(),
    {
        if self.bits < SIGN_BIT {
            self.bits + SIGN_BIT
        } else {
            u32::MAX - self.bits
        }
    }
}

pub open spec fn two_pow(e: nat) -> nat
    decreases e,
{
    if e == 0 {
        1
    } else {
        2 * two_pow((e - 1) as nat)
    }
}

/// The `f32` bit pattern of a positive integer `n` with `2^e <= n < 2^(e+1)`,
/// `e <= 23`: biased exponent `127 + e`, and the bits of `n` below its
/// leading one as the top of the 23-bit mantissa.
pub open spec fn integer_bits(n: nat, e: nat) -> int {
    (127 + e) * two_pow(23) + (n - two_pow(e)) * two_pow((23 - e) as nat)
}

/// `x` is the episode number of the whole episode `n`, as `n as f32` stores it.
pub open spec fn is_integer_number(n: nat, x: EpisodeNumber) -> bool {
    &&& n == 0 ==> x.bits == 0
    &&& forall|e: nat| two_pow(e) <= n < #[trigger] two_pow(e + 1) ==> x.bits == integer_bits(n, e)
}

impl EpisodeNumber {
    /// The episode number of a whole episode `n`, exactly as `n as f32`
    /// stores it (every integer below 2^24 is exact in `f32`).
    pub fn from_integer(n: u32) -> (r: EpisodeNumber)
        requires
            n < 0x100_0000,
        ensures
            is_integer_number(n as nat, r),
    {
        if n == 0 {
            return EpisodeNumber { bits: 0 };
        }
        let mut p: u32 = 1;
        let mut e: u32 = 0;
        while p <= n / 2
            invariant
                1 <= p <= n,
                n < 0x100_0000,
                p == two_pow(e as nat),
                e <= 23,
            decreases n - p,
        {
            proof {
                lemma_two_pow_bound(e as nat);
            }
            p = p * 2;
            e = e + 1;
            assert(p == two_pow(e as nat));
            proof {
                if e > 23 {
                    lemma_two_pow_23();
                    lemma_two_pow_mono(24, e as nat);
                }
            }
        }
        assert(n < two_pow(e as nat + 1));
        let mant = n - p;
        let mut m: u32 = mant;
        let mut k: u32 = e;
        assert(two_pow(0) == 1);
        assert((k - e) as nat == 0);
        assert(mant * two_pow(0) == mant);
        while k < 23
            invariant
                e <= k <= 23,
                m == mant * two_pow((k - e) as nat),
                m < two_pow(k as nat),
                mant < two_pow(e as nat),
            decreases 23 - k,
        {
            proof {
                lemma_two_pow_bound(k as nat);
                assert(two_pow((k + 1 - e) as nat) == 2 * two_pow((k - e) as nat));
            }
            m = m * 2;
            k = k + 1;
            proof {
                assert(mant * two_pow((k - e) as nat) == mant * (2 * two_pow((k - 1 - e) as nat)));
                assert(mant * (2 * two_pow((k - 1 - e) as nat)) == 2 * (mant * two_pow((k - 1 - e) as nat))) by (nonlinear_arith);
            }
        }
        proof {
            lemma_two_pow_bound(23);
            lemma_two_pow_23();
            assert forall|e2: nat| two_pow(e2) <= n < #[trigger] two_pow(e2 + 1) implies e2 == e by {
                if e2 < e {
                    lemma_two_pow_mono(e2 + 1, e as nat);
                } else if e2 > e {
                    lemma_two_pow_mono(e as nat + 1, e2);
                }
            }
        }
        EpisodeNumber { bits: (127 + e) * 0x80_0000 + m }
    }
}

proof fn lemma_two_pow_bound(e: nat)
    requires
        e <= 24,
    ensures
        two_pow(e) <= 0x100_0000,
        e < 24 ==> two_pow(e) <= 0x80_0000,
    decreases e,
{
    if e > 0 {
        lemma_two_pow_bound((e - 1) as nat);
    }
    lemma_two_pow_23();
    if e < 24 {
        lemma_two_pow_mono(e, 23);
    }
}

proof fn lemma_two_pow_23()
    ensures
        two_pow(23) == 0x80_0000,
        two_pow(24) == 0x100_0000,
{
    reveal_with_fuel(two_pow, 25);
}

proof fn lemma_two_pow_mono(a: nat, b: nat)
    requires
        a <= b,
    ensures
        two_pow(a) <= two_pow(b),
    decreases b,
{
    if a < b {
        lemma_two_pow_mono(a, (b - 1) as nat);
    }
}

} // verus!
