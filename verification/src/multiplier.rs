//! The damage multiplier attached to each defending type.
//!
//! A multiplier starts at 1 and is only ever doubled, halved, or forced to
//! zero, so every reachable value is either zero or a power of two. Instead
//! of a float, the multiplier is stored as that exponent, which makes
//! doubling and halving exact inverses of each other.
//!
//! For grouping and display the report rounds a multiplier to hundredths
//! (two decimal places), with halves rounded away from zero, saturating at
//! `u16::MAX`; [`Multiplier::hundredths`] computes that key exactly.

use vstd::prelude::*;
use vstd::arithmetic::power2::pow2;
use vstd::arithmetic::power2::lemma_pow2_adds;
use vstd::arithmetic::power2::lemma_pow2_strictly_increases;
use vstd::arithmetic::power2::lemma2_to64;

verus! {

/// A damage multiplier: either exactly zero, or exactly `2^exp`.
#[derive(Clone, Copy, Debug, PartialEq, Eq, Structural)]
pub enum Multiplier {
    /// The multiplier is exactly zero (the type takes no damage).
    Zero,
    /// The multiplier is exactly `2^exp` (so `exp == 0` means 1).
    Pow2 { exp: i64 },
}

/// The multiplier every type starts with: exactly 1.
pub open spec fn spec_one() -> Multiplier {
    Multiplier::Pow2 { exp: 0 }
}

/// Doubling a multiplier: zero stays zero, `2^exp` becomes `2^(exp+1)`.
/// The exponent saturates at `i64::MAX`, far beyond any reachable value.
pub open spec fn spec_double(m: Multiplier) -> Multiplier {
    match m {
        Multiplier::Zero => Multiplier::Zero,
        Multiplier::Pow2 { exp } => if exp == i64::MAX {
            Multiplier::Pow2 { exp }
        } else {
            Multiplier::Pow2 { exp: (exp + 1) as i64 }
        },
    }
}

/// Halving a multiplier: zero stays zero, `2^exp` becomes `2^(exp-1)`.
/// The exponent saturates at `i64::MIN`, far beyond any reachable value.
pub open spec fn spec_halve(m: Multiplier) -> Multiplier {
    match m {
        Multiplier::Zero => Multiplier::Zero,
        Multiplier::Pow2 { exp } => if exp == i64::MIN {
            Multiplier::Pow2 { exp }
        } else {
            Multiplier::Pow2 { exp: (exp - 1) as i64 }
        },
    }
}

/// True when doubling `m` is exact (the exponent does not saturate).
pub open spec fn double_exact(m: Multiplier) -> bool {
    match m {
        Multiplier::Zero => true,
        Multiplier::Pow2 { exp } => exp < i64::MAX,
    }
}

/// True when halving `m` is exact (the exponent does not saturate).
pub open spec fn halve_exact(m: Multiplier) -> bool {
    match m {
        Multiplier::Zero => true,
        Multiplier::Pow2 { exp } => exp > i64::MIN,
    }
}

/// The multiplier rounded to hundredths: the nearest integer to
/// `100 * value`, halves rounded away from zero, saturating at `u16::MAX`.
///
/// For `2^exp` with `exp < 0` this is `floor((200 + 2^(-exp)) / 2^(1-exp))`,
/// the integer form of rounding `100 / 2^(-exp)` to the nearest whole number
/// with halves rounded up. Exponents at or below -8 round all the way to 0,
/// and exponents at or above 10 exceed `u16::MAX` and saturate.
pub open spec fn spec_hundredths(m: Multiplier) -> u16 {
    match m {
        Multiplier::Zero => 0u16,
        Multiplier::Pow2 { exp } => if exp >= 10 {
            65535u16
        } else if exp >= 0 {
            (100 * pow2(exp as nat)) as u16
        } else if exp <= -8 {
            0u16
        } else {
            ((200 + pow2((-exp) as nat)) / pow2((1 - exp) as nat)) as u16
        },
    }
}

impl Multiplier {
    /// The multiplier every type starts with: exactly 1.
    pub fn one() -> (r: Multiplier)
        ensures
            r == spec_one(),
    {
        Multiplier::Pow2 { exp: 0 }
    }

    /// Doubles the multiplier; zero stays zero.
    pub fn doubled(self) -> (r: Multiplier)
        ensures
            r == spec_double(self),
    {
        match self {
            Multiplier::Zero => Multiplier::Zero,
            Multiplier::Pow2 { exp } => if exp == i64::MAX {
                Multiplier::Pow2 { exp }
            } else {
                Multiplier::Pow2 { exp: exp + 1 }
            },
        }
    }

    /// Halves the multiplier; zero stays zero.
    pub fn halved(self) -> (r: Multiplier)
        ensures
            r == spec_halve(self),
    {
        match self {
            Multiplier::Zero => Multiplier::Zero,
            Multiplier::Pow2 { exp } => if exp == i64::MIN {
                Multiplier::Pow2 { exp }
            } else {
                Multiplier::Pow2 { exp: exp - 1 }
            },
        }
    }

    /// The grouping key: the multiplier rounded to hundredths.
    pub fn hundredths(self) -> (h: u16)
        ensures
            h == spec_hundredths(self),
    {
        match self {
            Multiplier::Zero => 0u16,
            Multiplier::Pow2 { exp } => {
                if exp >= 10 {
                    65535u16
                } else if exp >= 0 {
                    proof {
                        lemma2_to64();
                    }
                    let mut p: u32 = 1;
                    let mut i: i64 = 0;
                    while i < exp
                        invariant
                            0 <= i <= exp <= 9,
                            p == pow2(i as nat),
                        decreases exp - i,
                    {
                        proof {
                            lemma2_to64();
                            lemma_pow2_strictly_increases(i as nat, 9);
                            lemma_pow2_adds(i as nat, 1);
                        }
                        p = p * 2;
                        i = i + 1;
                    }
                    proof {
                        lemma2_to64();
                        if exp < 9 {
                            lemma_pow2_strictly_increases(exp as nat, 9);
                        }
                    }
                    (100 * p) as u16
                } else if exp <= -8 {
                    0u16
                } else {
                    let k: i64 = -exp;
                    proof {
                        lemma2_to64();
                    }
                    let mut p: u32 = 1;
                    let mut i: i64 = 0;
                    while i < k
                        invariant
                            0 <= i <= k <= 7,
                            p == pow2(i as nat),
                        decreases k - i,
                    {
                        proof {
                            lemma2_to64();
                            lemma_pow2_strictly_increases(i as nat, 7);
                            lemma_pow2_adds(i as nat, 1);
                        }
                        p = p * 2;
                        i = i + 1;
                    }
                    proof {
                        lemma2_to64();
                        if k < 7 {
                            lemma_pow2_strictly_increases(k as nat, 7);
                        }
                        lemma_pow2_adds(k as nat, 1);
                    }
                    ((200 + p) / (2 * p)) as u16
                }
            },
        }
    }
}

/// Doubling and then halving a multiplier restores it exactly, as long as
/// the doubling did not saturate the exponent; in particular a multiplier
/// doubled and halved across two separate relation applications is back at
/// its prior value.
pub proof fn lemma_halve_inverts_double(m: Multiplier)
    requires
        double_exact(m),
    ensures
        spec_halve(spec_double(m)) == m,
{
}

/// Halving and then doubling likewise restores the multiplier exactly, as
/// long as the halving did not saturate the exponent.
pub proof fn lemma_double_inverts_halve(m: Multiplier)
    requires
        halve_exact(m),
    ensures
        spec_double(spec_halve(m)) == m,
{
}

/// A zero multiplier is absorbing: once a type takes no damage, doubling or
/// halving leaves it at zero, and its grouping key is 0. This is why a
/// "no damage" relation applied before a "double damage" relation yields
/// zero, not a restored value: the order of application matters.
pub proof fn lemma_zero_absorbs()
    ensures
        spec_double(Multiplier::Zero) == Multiplier::Zero,
        spec_halve(Multiplier::Zero) == Multiplier::Zero,
        spec_hundredths(Multiplier::Zero) == 0,
{
}

} // verus!
