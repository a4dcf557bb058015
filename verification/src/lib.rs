//! Fixed-width unsigned big-integer arithmetic for constant-time use.
//!
//! A [`UInt`] is an immutable array of 64-bit limbs, least significant first,
//! whose width is fixed at construction. The arithmetic (carry-propagating
//! addition and subtraction, wide multiplication), the comparisons and the
//! conditional selection all process every limb unconditionally, so control
//! flow never depends on the numeric value; the constant-time flag types come
//! from the `subtle` crate. Encoding to and from big- and little-endian byte
//! and hex forms round-trips losslessly.

pub mod arith;
pub mod ct;
pub mod codec;
pub mod decoder;
pub mod laws;
pub mod limb;
pub mod model;
pub mod uint;

pub use decoder::Decoder;
pub use ct::choice_to_bool;
pub use ct::choice_bit;
pub use ct::ctopt_limbs;
pub use ct::ctopt_present;
pub use uint::DecodeError;
pub use uint::UInt;
