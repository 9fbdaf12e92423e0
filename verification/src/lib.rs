//! A freestanding first-fit heap allocator for a bare-metal boot
//! environment, together with the plain-data model of the firmware
//! memory map it is seeded from and a small set of pixel-drawing
//! primitives over an owned frame buffer.

use vstd::prelude::*;

pub mod allocator;
pub mod graphics;
pub mod uefi;

verus! {

/// The recoverable failures of this crate: everything else is ruled
/// out by preconditions.
#[derive(Clone, Copy, PartialEq, Eq, Structural, Debug)]
pub enum Error {
    /// An arithmetic rounding request exceeded the representable range.
    OutOfRange,
    /// A drawing request fell outside the target bitmap.
    OutOfBounds,
}

} // verus!
