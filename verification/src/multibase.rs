//! The multibase layer: encoded text carries a one-character prefix naming
//! the alphabet that wrote it. Encoding maps bytes through the bit-regrouping
//! codec and an alphabet table to text; decoding reads the prefix (or a
//! forced encoding), maps the characters back to symbol values, and decodes
//! them. Only the bit-regrouping encodings — those whose alphabet size is a
//! power of two — are supported by this codec.

use crate::errors::{DecodeError, EncodeError};
use crate::rfc4648::{
    add_padding_chars, alphabet_chars, alphabet_width, canonical, chars_to_symbols, decode_spec,
    encode_spec, from_alphabet_str, group_sizes, lemma_alphabet_sizes, lemma_round_trip,
    ntet_group_to_octets, octet_group_to_ntets, pad_count, payload_ok, push_char,
    symbol_group_size, symbols_to_chars, symbols_valid, to_alphabet_str, Alphabet, PADDING_CHAR,
};
use vstd::arithmetic::power2::pow2 as pow2_spec;
use vstd::prelude::*;

verus! {

/// A multibase encoding: each variant is named by the prefix character that
/// tags text written in it.
#[derive(Debug, Clone, Copy, PartialEq, Eq, Structural)]
pub enum Encoding {
    /// "\0"
    Identity,
    /// "0"
    Base2,
    /// "7"
    Base8,
    /// "9"
    Base10,
    /// "f"
    Base16,
    /// "F"
    Base16Upper,
    /// "v"
    Base32Hex,
    /// "V"
    Base32HexUpper,
    /// "t"
    Base32HexPad,
    /// "T"
    Base32HexPadUpper,
    /// "b"
    Base32,
    /// "B"
    Base32Upper,
    /// "c"
    Base32Pad,
    /// "C"
    Base32PadUpper,
    /// "h"
    Base32z,
    /// "k"
    Base36,
    /// "K"
    Base36Upper,
    /// "z"
    Base58BTC,
    /// "Z"
    Base58Flickr,
    /// "m"
    Base64,
    /// "M"
    Base64Pad,
    /// "u"
    Base64Url,
    /// "U"
    Base64UrlPad,
    /// "p"
    Proquint,
}

/// The prefix character that tags text written in encoding `e`.
pub open spec fn prefix_of(e: Encoding) -> char {
    match e {
        Encoding::Identity => '\0',
        Encoding::Base2 => '0',
        Encoding::Base8 => '7',
        Encoding::Base10 => '9',
        Encoding::Base16 => 'f',
        Encoding::Base16Upper => 'F',
        Encoding::Base32Hex => 'v',
        Encoding::Base32HexUpper => 'V',
        Encoding::Base32HexPad => 't',
        Encoding::Base32HexPadUpper => 'T',
        Encoding::Base32 => 'b',
        Encoding::Base32Upper => 'B',
        Encoding::Base32Pad => 'c',
        Encoding::Base32PadUpper => 'C',
        Encoding::Base32z => 'h',
        Encoding::Base36 => 'k',
        Encoding::Base36Upper => 'K',
        Encoding::Base58BTC => 'z',
        Encoding::Base58Flickr => 'Z',
        Encoding::Base64 => 'm',
        Encoding::Base64Pad => 'M',
        Encoding::Base64Url => 'u',
        Encoding::Base64UrlPad => 'U',
        Encoding::Proquint => 'p',
    }
}

/// The encoding a prefix character names, if any.
pub open spec fn encoding_of_prefix(c: char) -> Option<Encoding> {
    match c {
        '\0' => Some(Encoding::Identity),
        '0' => Some(Encoding::Base2),
        '7' => Some(Encoding::Base8),
        '9' => Some(Encoding::Base10),
        'f' => Some(Encoding::Base16),
        'F' => Some(Encoding::Base16Upper),
        'v' => Some(Encoding::Base32Hex),
        'V' => Some(Encoding::Base32HexUpper),
        't' => Some(Encoding::Base32HexPad),
        'T' => Some(Encoding::Base32HexPadUpper),
        'b' => Some(Encoding::Base32),
        'B' => Some(Encoding::Base32Upper),
        'c' => Some(Encoding::Base32Pad),
        'C' => Some(Encoding::Base32PadUpper),
        'h' => Some(Encoding::Base32z),
        'k' => Some(Encoding::Base36),
        'K' => Some(Encoding::Base36Upper),
        'z' => Some(Encoding::Base58BTC),
        'Z' => Some(Encoding::Base58Flickr),
        'm' => Some(Encoding::Base64),
        'M' => Some(Encoding::Base64Pad),
        'u' => Some(Encoding::Base64Url),
        'U' => Some(Encoding::Base64UrlPad),
        'p' => Some(Encoding::Proquint),
        _ => None,
    }
}

/// Every prefix character names exactly the encoding it tags.
pub proof fn lemma_prefix_round_trip(e: Encoding)
    ensures
        encoding_of_prefix(prefix_of(e)) == Some(e),
{
}

/// The alphabet an encoding writes with, where the encoding regroups bits.
/// The encodings whose alphabet is not a power of two (base10, base36,
/// base58, base32z, proquint) and the identity encoding have none: this
/// codec cannot produce or read them.
pub open spec fn encoding_alphabet(e: Encoding) -> Option<Alphabet> {
    match e {
        Encoding::Base2 => Some(Alphabet::Binary),
        Encoding::Base8 => Some(Alphabet::Octal),
        Encoding::Base16 => Some(Alphabet::Base16),
        Encoding::Base16Upper => Some(Alphabet::Base16Upper),
        Encoding::Base32Hex => Some(Alphabet::Base32Hex),
        Encoding::Base32HexUpper => Some(Alphabet::Base32HexUpper),
        Encoding::Base32HexPad => Some(Alphabet::Base32Hex),
        Encoding::Base32HexPadUpper => Some(Alphabet::Base32HexUpper),
        Encoding::Base32 => Some(Alphabet::Base32),
        Encoding::Base32Upper => Some(Alphabet::Base32Upper),
        Encoding::Base32Pad => Some(Alphabet::Base32),
        Encoding::Base32PadUpper => Some(Alphabet::Base32Upper),
        Encoding::Base64 => Some(Alphabet::Base64),
        Encoding::Base64Pad => Some(Alphabet::Base64),
        Encoding::Base64Url => Some(Alphabet::Base64Url),
        Encoding::Base64UrlPad => Some(Alphabet::Base64Url),
        _ => None,
    }
}

/// Whether the encoding pads its text out to whole groups.
pub open spec fn encoding_pads(e: Encoding) -> bool {
    match e {
        Encoding::Base32HexPad => true,
        Encoding::Base32HexPadUpper => true,
        Encoding::Base32Pad => true,
        Encoding::Base32PadUpper => true,
        Encoding::Base64Pad => true,
        Encoding::Base64UrlPad => true,
        _ => false,
    }
}

/// Whether this codec can write and read the encoding.
pub open spec fn supported(e: Encoding) -> bool {
    encoding_alphabet(e) is Some
}

impl Encoding {
    /// The prefix character that tags this encoding's text.
    pub fn prefix(&self) -> (c: char)
        ensures
            c == prefix_of(*self),
    {
        match self {
            Encoding::Identity => '\0',
            Encoding::Base2 => '0',
            Encoding::Base8 => '7',
            Encoding::Base10 => '9',
            Encoding::Base16 => 'f',
            Encoding::Base16Upper => 'F',
            Encoding::Base32Hex => 'v',
            Encoding::Base32HexUpper => 'V',
            Encoding::Base32HexPad => 't',
            Encoding::Base32HexPadUpper => 'T',
            Encoding::Base32 => 'b',
            Encoding::Base32Upper => 'B',
            Encoding::Base32Pad => 'c',
            Encoding::Base32PadUpper => 'C',
            Encoding::Base32z => 'h',
            Encoding::Base36 => 'k',
            Encoding::Base36Upper => 'K',
            Encoding::Base58BTC => 'z',
            Encoding::Base58Flickr => 'Z',
            Encoding::Base64 => 'm',
            Encoding::Base64Pad => 'M',
            Encoding::Base64Url => 'u',
            Encoding::Base64UrlPad => 'U',
            Encoding::Proquint => 'p',
        }
    }

    /// The encoding a prefix character names, if any.
    pub fn of_prefix(c: char) -> (r: Option<Encoding>)
        ensures
            r == encoding_of_prefix(c),
    {
        match c {
            '\0' => Some(Encoding::Identity),
            '0' => Some(Encoding::Base2),
            '7' => Some(Encoding::Base8),
            '9' => Some(Encoding::Base10),
            'f' => Some(Encoding::Base16),
            'F' => Some(Encoding::Base16Upper),
            'v' => Some(Encoding::Base32Hex),
            'V' => Some(Encoding::Base32HexUpper),
            't' => Some(Encoding::Base32HexPad),
            'T' => Some(Encoding::Base32HexPadUpper),
            'b' => Some(Encoding::Base32),
            'B' => Some(Encoding::Base32Upper),
            'c' => Some(Encoding::Base32Pad),
            'C' => Some(Encoding::Base32PadUpper),
            'h' => Some(Encoding::Base32z),
            'k' => Some(Encoding::Base36),
            'K' => Some(Encoding::Base36Upper),
            'z' => Some(Encoding::Base58BTC),
            'Z' => Some(Encoding::Base58Flickr),
            'm' => Some(Encoding::Base64),
            'M' => Some(Encoding::Base64Pad),
            'u' => Some(Encoding::Base64Url),
            'U' => Some(Encoding::Base64UrlPad),
            'p' => Some(Encoding::Proquint),
            _ => None,
        }
    }

    /// The alphabet this encoding writes with, where it regroups bits.
    pub fn alphabet_for(&self) -> (r: Option<Alphabet>)
        ensures
            r == encoding_alphabet(*self),
    {
        match self {
            Encoding::Base2 => Some(Alphabet::Binary),
            Encoding::Base8 => Some(Alphabet::Octal),
            Encoding::Base16 => Some(Alphabet::Base16),
            Encoding::Base16Upper => Some(Alphabet::Base16Upper),
            Encoding::Base32Hex => Some(Alphabet::Base32Hex),
            Encoding::Base32HexUpper => Some(Alphabet::Base32HexUpper),
            Encoding::Base32HexPad => Some(Alphabet::Base32Hex),
            Encoding::Base32HexPadUpper => Some(Alphabet::Base32HexUpper),
            Encoding::Base32 => Some(Alphabet::Base32),
            Encoding::Base32Upper => Some(Alphabet::Base32Upper),
            Encoding::Base32Pad => Some(Alphabet::Base32),
            Encoding::Base32PadUpper => Some(Alphabet::Base32Upper),
            Encoding::Base64 => Some(Alphabet::Base64),
            Encoding::Base64Pad => Some(Alphabet::Base64),
            Encoding::Base64Url => Some(Alphabet::Base64Url),
            Encoding::Base64UrlPad => Some(Alphabet::Base64Url),
            _ => None,
        }
    }

    /// Whether the encoding pads its text out to whole groups.
    pub fn pads(&self) -> (r: bool)
        ensures
            r == encoding_pads(*self),
    {
        match self {
            Encoding::Base32HexPad => true,
            Encoding::Base32HexPadUpper => true,
            Encoding::Base32Pad => true,
            Encoding::Base32PadUpper => true,
            Encoding::Base64Pad => true,
            Encoding::Base64UrlPad => true,
            _ => false,
        }
    }
}

/// A placeholder for multibase state; the operations are free functions and
/// carry no state between calls.
pub struct Multibase {}

/// Options for multibase encoding.
pub struct EncodingOptions {
    /// The encoding to use.
    pub encoding: Encoding,
    /// Prefix the encoded string with the multibase character.
    pub prefix: bool,
    /// For encodings which support it, pad the output with `padding_char`.
    pub pad: bool,
    /// The character to pad the output with if `pad` is true.
    pub padding_char: char,
}

impl EncodingOptions {
    /// The default options: prefixed, padded where the encoding pads, with
    /// the usual padding character.
    pub fn default(encoding: Encoding) -> (r: Self)
        ensures
            r == (EncodingOptions { encoding, prefix: true, pad: true, padding_char: '=' }),
    {
        EncodingOptions::new(encoding, None, None, None)
    }

    /// Options with each unset choice at its default: prefixed, padded,
    /// padding with `'='`.
    pub fn new(
        encoding: Encoding,
        prefix: Option<bool>,
        pad: Option<bool>,
        padding_char: Option<char>,
    ) -> (r: Self)
        ensures
            r.encoding == encoding,
            r.prefix == match prefix {
                Some(p) => p,
                None => true,
            },
            r.pad == match pad {
                Some(p) => p,
                None => true,
            },
            r.padding_char == match padding_char {
                Some(c) => c,
                None => '=',
            },
    {
        EncodingOptions {
            encoding,
            prefix: match prefix {
                Some(p) => p,
                None => true,
            },
            pad: match pad {
                Some(p) => p,
                None => true,
            },
            padding_char: match padding_char {
                Some(c) => c,
                None => '=',
            },
        }
    }
}

/// Options for multibase decoding.
pub struct DecodingOptions {
    /// Force decode with the given encoding, reading the whole input as
    /// payload. If `None`, detect the encoding from the multibase prefix and
    /// read the rest as payload.
    pub encoding: Option<Encoding>,
}

/// The text an alphabet writes for a byte sequence: the encoding of the
/// bytes at the alphabet's width, one character per symbol.
pub open spec fn multibase_payload(bytes: Seq<u8>, a: Alphabet) -> Seq<char> {
    symbols_to_chars(a, encode_spec(bytes, alphabet_width(a)))
}

/// The full text that `encode_options` produces: the payload, padded out to
/// whole groups where asked and supported, behind the prefix where asked.
pub open spec fn multibase_encode_spec(bytes: Seq<u8>, opts: EncodingOptions) -> Seq<char>
    recommends
        supported(opts.encoding),
{
    let a = encoding_alphabet(opts.encoding).unwrap();
    let payload = multibase_payload(bytes, a);
    let padded = if opts.pad && encoding_pads(opts.encoding) {
        payload + Seq::new(
            pad_count(payload.len(), symbol_group_size(alphabet_width(a))),
            |i: int| opts.padding_char,
        )
    } else {
        payload
    };
    if opts.prefix {
        seq![prefix_of(opts.encoding)] + padded
    } else {
        padded
    }
}

/// Encodes bytes as multibase text under the given options. Fails exactly
/// when the encoding is not a bit-regrouping encoding.
pub fn encode_options(input: &Vec<u8>, options: EncodingOptions) -> (r: Result<
    String,
    EncodeError,
>)
    requires
        8 * input@.len() <= usize::MAX,
    ensures
        match r {
            Ok(s) => supported(options.encoding) && s@ == multibase_encode_spec(input@, options),
            Err(e) => !supported(options.encoding) && e == EncodeError::UnsupportedEncoding,
        },
{
    let a = match options.encoding.alphabet_for() {
        Some(a) => a,
        None => {
            return Err(EncodeError::UnsupportedEncoding);
        },
    };
    let n = a.symbol_width();
    let syms = match octet_group_to_ntets(input, n) {
        Ok(syms) => syms,
        Err(_) => {
            return vstd::pervasive::unreached();
        },
    };
    proof {
        // The encoder's output symbols all have characters in the table.
        lemma_round_trip(input@, n as nat);
        lemma_alphabet_sizes(a);
    }
    let mut payload = match to_alphabet_str(&syms, a) {
        Ok(s) => s,
        Err(_) => {
            return vstd::pervasive::unreached();
        },
    };
    if options.pad && options.encoding.pads() {
        let (_, sgs) = group_sizes(n);
        add_padding_chars(&mut payload, sgs, options.padding_char);
    }
    let mut text = String::new();
    if options.prefix {
        push_char(&mut text, options.encoding.prefix());
    }
    text.append(payload.as_str());
    proof {
        assert(text@ =~= multibase_encode_spec(input@, options));
    }
    Ok(text)
}

/// Encodes bytes as multibase text under the default options for the given
/// encoding. Fails exactly when the encoding is not a bit-regrouping
/// encoding.
pub fn encode(input: &Vec<u8>, encoding: Encoding) -> (r: Result<String, EncodeError>)
    requires
        8 * input@.len() <= usize::MAX,
    ensures
        match r {
            Ok(s) => supported(encoding) && s@ == multibase_encode_spec(
                input@,
                (EncodingOptions { encoding, prefix: true, pad: true, padding_char: '=' }),
            ),
            Err(e) => !supported(encoding) && e == EncodeError::UnsupportedEncoding,
        },
{
    encode_options(input, EncodingOptions::default(encoding))
}

/// Reads the encoding that a multibase string's first character names.
pub fn detect_encoding(string: &str) -> (r: Result<Encoding, DecodeError>)
    ensures
        match r {
            Ok(e) => string@.len() > 0 && encoding_of_prefix(string@[0]) == Some(e),
            Err(e) => match e {
                DecodeError::EmptyInput => string@.len() == 0,
                DecodeError::UnknownPrefix { c } => string@.len() > 0 && c == string@[0]
                    && encoding_of_prefix(c) is None,
                _ => false,
            },
        },
{
    if string.unicode_len() == 0 {
        return Err(DecodeError::EmptyInput);
    }
    let c = string.get_char(0);
    match Encoding::of_prefix(c) {
        Some(e) => Ok(e),
        None => Err(DecodeError::UnknownPrefix { c }),
    }
}

/// What decoding a payload under encoding `e` returns when it succeeds:
/// the payload's characters are all in `e`'s alphabet (or padding), their
/// symbols are a canonical encoding, and `out` is its decoding.
pub open spec fn decode_result_ok(e: Encoding, payload: Seq<char>, out: Seq<u8>) -> bool {
    match encoding_alphabet(e) {
        Some(a) => payload_ok(a, payload) && canonical(
            chars_to_symbols(a, payload),
            alphabet_width(a),
        ) && out == decode_spec(chars_to_symbols(a, payload), alphabet_width(a)),
        None => false,
    }
}

/// Which error decoding a payload under encoding `e` returns, and exactly
/// when it does.
pub open spec fn decode_result_err(e: Encoding, payload: Seq<char>, err: DecodeError) -> bool {
    match err {
        DecodeError::UnsupportedEncoding => encoding_alphabet(e) is None,
        DecodeError::CharNotInAlphabet { c } => encoding_alphabet(e) is Some && {
            let a = encoding_alphabet(e).unwrap();
            exists|i: int|
                #![trigger payload[i]]
                0 <= i < payload.len() && payload[i] == c && c != PADDING_CHAR && !alphabet_chars(
                    a,
                ).contains(c) && forall|k: int|
                    0 <= k < i ==> ((#[trigger] payload[k]) == PADDING_CHAR || alphabet_chars(
                        a,
                    ).contains(payload[k]))
        },
        DecodeError::NonCanonical => encoding_alphabet(e) is Some && {
            let a = encoding_alphabet(e).unwrap();
            payload_ok(a, payload) && !canonical(chars_to_symbols(a, payload), alphabet_width(a))
        },
        _ => false,
    }
}

/// Every symbol a payload's characters map to fits in the alphabet's width.
proof fn lemma_chars_to_symbols_valid(a: Alphabet, s: Seq<char>)
    requires
        payload_ok(a, s),
    ensures
        symbols_valid(chars_to_symbols(a, s), alphabet_width(a)),
    decreases s.len(),
{
    lemma_alphabet_sizes(a);
    vstd::arithmetic::power2::lemma2_to64();
    if s.len() > 0 {
        let head = s.drop_last();
        assert(payload_ok(a, head)) by {
            assert(forall|i: int| 0 <= i < head.len() ==> head[i] == s[i]);
        }
        lemma_chars_to_symbols_valid(a, head);
        if s.last() != PADDING_CHAR {
            alphabet_chars(a).index_of_first_ensures(s.last());
        }
    }
}

/// Decodes a payload known to be written in encoding `e`.
fn decode_payload(payload: &str, e: Encoding) -> (r: Result<Vec<u8>, DecodeError>)
    ensures
        match r {
            Ok(v) => decode_result_ok(e, payload@, v@),
            Err(err) => decode_result_err(e, payload@, err),
        },
{
    let a = match e.alphabet_for() {
        Some(a) => a,
        None => {
            return Err(DecodeError::UnsupportedEncoding);
        },
    };
    let n = a.symbol_width();
    let syms = match from_alphabet_str(payload, a) {
        Ok(v) => v,
        Err(err) => {
            return Err(err);
        },
    };
    proof {
        lemma_chars_to_symbols_valid(a, payload@);
    }
    match ntet_group_to_octets(&syms, n) {
        Ok(bytes) => Ok(bytes),
        Err(err) => match err {
            DecodeError::NonCanonical => Err(DecodeError::NonCanonical),
            _ => vstd::pervasive::unreached(),
        },
    }
}

/// Decodes a multibase string. With a forced encoding the whole input is
/// the payload; otherwise the first character names the encoding and the
/// rest is the payload.
pub fn decode_options(input: &str, options: DecodingOptions) -> (r: Result<Vec<u8>, DecodeError>)
    ensures
        match options.encoding {
            Some(e) => match r {
                Ok(v) => decode_result_ok(e, input@, v@),
                Err(err) => decode_result_err(e, input@, err),
            },
            None => {
                if input@.len() == 0 {
                    r == Err::<Vec<u8>, DecodeError>(DecodeError::EmptyInput)
                } else {
                    match encoding_of_prefix(input@[0]) {
                        Some(e) => match r {
                            Ok(v) => decode_result_ok(e, input@.skip(1), v@),
                            Err(err) => decode_result_err(e, input@.skip(1), err),
                        },
                        None => r == Err::<Vec<u8>, DecodeError>(
                            DecodeError::UnknownPrefix { c: input@[0] },
                        ),
                    }
                }
            },
        },
{
    match options.encoding {
        Some(e) => decode_payload(input, e),
        None => {
            let len = input.unicode_len();
            if len == 0 {
                return Err(DecodeError::EmptyInput);
            }
            let c = input.get_char(0);
            match Encoding::of_prefix(c) {
                Some(e) => {
                    let payload = input.substring_char(1, len);
                    proof {
                        assert(payload@ =~= input@.skip(1));
                    }
                    decode_payload(payload, e)
                },
                None => Err(DecodeError::UnknownPrefix { c }),
            }
        },
    }
}

/// Decodes a multibase string: the first character names the encoding, the
/// rest is the payload.
pub fn decode(input: &str) -> (r: Result<Vec<u8>, DecodeError>)
    ensures
        ({
            if input@.len() == 0 {
                r == Err::<Vec<u8>, DecodeError>(DecodeError::EmptyInput)
            } else {
                match encoding_of_prefix(input@[0]) {
                    Some(e) => match r {
                        Ok(v) => decode_result_ok(e, input@.skip(1), v@),
                        Err(err) => decode_result_err(e, input@.skip(1), err),
                    },
                    None => r == Err::<Vec<u8>, DecodeError>(
                        DecodeError::UnknownPrefix { c: input@[0] },
                    ),
                }
            }
        }),
{
    decode_options(input, DecodingOptions { encoding: None })
}

} // verus!
