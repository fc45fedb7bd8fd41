//! A steganographic codec for binary PPM images.
//!
//! A text message is hidden in the pixel bytes of an image file: each pixel
//! byte carries one binary digit in its parity (even for `'0'`, odd for `'1'`),
//! and a change of at most one in magnitude per byte. A fixed 32-digit header
//! at the start of the pixel payload records the message's bit length and the
//! absolute offset at which its body begins.

pub mod bits;
pub mod codec;
pub mod error;
pub mod header;
pub mod locator;
pub mod parity;

use vstd::prelude::*;

verus! {

} // verus!
