//! The closed set of decode-failure kinds. Every failure is fatal to the
//! decode call in progress: there is no recovery and no partial result.

use vstd::prelude::*;

verus! {

/// Why a decode call failed. The decoder reports the first error it meets,
/// left to right.
#[derive(Debug, Clone, Copy, PartialEq, Eq)]
pub enum DecodeError {
    /// The input ended where the grammar still required a character
    /// (an unterminated string, a key with no `=`, a missing value).
    UnexpectedEof,
    /// A value position began with a character no grammar rule accepts,
    /// or a statement was not terminated by `;`.
    SyntaxError,
    /// A numeric token could not be converted to an integer of the
    /// requested width (empty token, stray characters, overflow).
    ExpectedInteger,
    /// A boolean position did not hold the literal `true` or `false`.
    ExpectedBoolean,
    /// A null position did not hold the literal `null`.
    ExpectedNull,
    /// An array body was demanded but the input does not hold its
    /// opening `{`.
    ExpectedArray,
    /// An element other than the first was not preceded by `,`.
    ExpectedArrayComma,
    /// An array body was left before its closing `}`.
    ExpectedArrayEnd,
    /// A class body was demanded but the input does not hold its
    /// opening `{`.
    ExpectedMap,
    /// The caller's schema was satisfied but unconsumed input remained.
    TrailingCharacters,
    /// The caller demanded a shape the format cannot carry (an enum,
    /// a lone character, raw bytes). Raised by schema adapters built on
    /// top of this crate; the decoder itself never produces it.
    UnsupportedConstruct,
}

} // verus!
