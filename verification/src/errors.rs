//! Typed errors. The codec never recovers from these conditions itself: it
//! surfaces the error immediately to the caller, and either the full output
//! is valid or no output is produced.

use vstd::prelude::*;

verus! {

/// Why an encode call failed.
#[derive(Debug, PartialEq, Eq, Structural, Clone, Copy)]
pub enum EncodeError {
    /// The symbol width lies outside `[1, 7]`: a symbol must be at least one
    /// bit and narrower than a byte.
    InvalidWidth { n: u8 },
    /// A symbol value has no character in the chosen alphabet.
    SymbolOutOfAlphabet { value: u8 },
    /// The chosen encoding is not a bit-regrouping encoding, so this codec
    /// cannot produce it.
    UnsupportedEncoding,
}

/// Why a decode call failed.
#[derive(Debug, PartialEq, Eq, Structural, Clone, Copy)]
pub enum DecodeError {
    /// The symbol width lies outside `[1, 7]`.
    InvalidWidth { n: u8 },
    /// A symbol value `>= 2^n` appeared in the input: corrupt or mistyped
    /// symbol data.
    InvalidSymbol { value: u8, n: u8 },
    /// The input encodes nonzero bits beyond the declared data length, so it
    /// is not the minimal, canonical encoding of any byte sequence.
    NonCanonical,
    /// A multibase string was empty, so it names no encoding.
    EmptyInput,
    /// The first character of a multibase string names no known encoding.
    UnknownPrefix { c: char },
    /// A payload character is not in the chosen alphabet.
    CharNotInAlphabet { c: char },
    /// The chosen encoding is not a bit-regrouping encoding, so this codec
    /// cannot read it.
    UnsupportedEncoding,
}

} // verus!
