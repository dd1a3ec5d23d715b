//! A bit-regrouping codec: it converts a sequence of 8-bit bytes into a
//! sequence of fixed-width symbols of width `n` (1 <= n <= 7) and back,
//! preserving bit order and producing the minimal, canonical symbol or byte
//! count implied by the input length. It is the arithmetic core of base-N
//! text encodings (binary, octal, base16, base32, base64), together with an
//! alphabet layer that maps symbol values to display characters and a
//! multibase layer that tags encoded text with a prefix character naming the
//! alphabet in use.

pub mod bits;
pub mod errors;
pub mod multibase;
pub mod rfc4648;
