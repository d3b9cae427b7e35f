//! FracMinHash sketching of nucleotide sequences, with a containment
//! algebra, a greedy gather decomposition, and a containment search over a
//! reference collection.
//!
//! A sketch keeps the canonical k-mer hashes of a sequence that fall below a
//! hash-domain cutoff (`max_hash`); containment between two sketches is the
//! exact integer fraction `|a ∩ b| / |a|`, carried as a [`Fraction`] so that
//! no floating point enters the verified core.

use vstd::prelude::*;

pub mod codec;
pub mod extract;
pub mod gather;
pub mod hashing;
pub mod search;
pub mod sketch;

verus! {

/// A ratio of two set cardinalities, kept as exact integer counts.
///
/// A containment result carries the intersection size as `numerator` and the
/// denominator sketch's size as `denominator`; a threshold is an arbitrary
/// non-negative ratio such as 1/10. A fraction with `denominator == 0` only
/// ever arises together with `numerator == 0`, and `0/0` compares below every
/// threshold: this is the fixed policy that containment against an empty
/// sketch counts as zero.
#[derive(Clone, Copy, PartialEq, Eq, Structural, Debug)]
pub struct Fraction {
    pub numerator: usize,
    pub denominator: usize,
}

/// `n1/d1 > n2/d2` compared by cross-multiplication over the integers.
pub open spec fn frac_gt(n1: int, d1: int, n2: int, d2: int) -> bool {
    n1 * d2 > n2 * d1
}

impl Fraction {
    /// Strict comparison of two fractions by cross-multiplication.
    pub fn gt(&self, other: &Fraction) -> (r: bool)
        ensures
            r == frac_gt(
                self.numerator as int,
                self.denominator as int,
                other.numerator as int,
                other.denominator as int,
            ),
    {
        let a: u128 = self.numerator as u128;
        let b: u128 = other.denominator as u128;
        let c: u128 = other.numerator as u128;
        let d: u128 = self.denominator as u128;
        proof {
            assert(a <= 0xFFFF_FFFF_FFFF_FFFFu128 && b <= 0xFFFF_FFFF_FFFF_FFFFu128
                ==> a * b <= 0xFFFF_FFFF_FFFF_FFFF_FFFF_FFFF_FFFF_FFFFu128) by (nonlinear_arith);
            assert(c <= 0xFFFF_FFFF_FFFF_FFFFu128 && d <= 0xFFFF_FFFF_FFFF_FFFFu128
                ==> c * d <= 0xFFFF_FFFF_FFFF_FFFF_FFFF_FFFF_FFFF_FFFFu128) by (nonlinear_arith);
        }
        a * b > c * d
    }
}

/// Why an operation on sketches failed.
#[derive(Clone, Copy, PartialEq, Eq, Structural, Debug)]
pub enum SketchError {
    /// Containment or subtraction was attempted between sketches whose `k`
    /// or `max_hash` differ; the pair is rejected, never silently coerced.
    IncompatibleSketch,
    /// Bytes handed to the sketch decoder are not a serialized sketch.
    Format,
}

} // verus!
