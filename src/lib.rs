//! Discrete Fourier transforms of power-of-two sizes, radix 2, in place.
//!
//! A `Plan` holds the twiddle factors of every butterfly stage of a
//! transform; `transform` applies it to complex points and
//! `transform_real` to real samples held in pairs, whose spectrum is then
//! packed: the real values of bins 0 and `n / 2` first, then bins 1 to
//! `n / 2 - 1`. `unpack` expands a packed spectrum to all `n` bins.
//!
//! The element type is generic: the arithmetic on it (the recurrence of the
//! factors, the butterfly, the scaling and the real recombination) is
//! handed in by the caller, and the contracts state how each result is
//! made from the values handed to it.

use vstd::prelude::*;

pub mod bits;
pub mod complex;
pub mod packed;
pub mod permute;
pub mod plan;

pub use complex::transform;
pub use packed::{transform_real, unpack};
pub use plan::Plan;

verus! {

/// A transform operation.
#[derive(Clone, Copy, Debug, PartialEq, Eq, Structural)]
pub enum Operation {
    /// The forward transform.
    Forward,
    /// The backward transform.
    Backward,
    /// The inverse transform.
    Inverse,
}

impl Operation {
    /// The sign of the imaginary part of the rotation that the twiddle
    /// factors apply: clockwise for the forward transform.
    pub open spec fn sign(self) -> i8 {
        match self {
            Operation::Forward => -1i8,
            _ => 1i8,
        }
    }

    /// Whether the result is divided by the number of points.
    pub open spec fn normalizes(self) -> bool {
        self == Operation::Inverse
    }

    /// The sign of the rotation of the twiddle factors.
    pub fn rotation_sign(self) -> (r: i8)
        ensures
            r == self.sign(),
    {
        match self {
            Operation::Forward => -1,
            _ => 1,
        }
    }

    /// Whether the result is divided by the number of points.
    pub fn is_normalized(self) -> (r: bool)
        ensures
            r == self.normalizes(),
    {
        match self {
            Operation::Inverse => true,
            _ => false,
        }
    }
}

} // verus!
