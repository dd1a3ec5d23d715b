use ntet_codec::errors::{DecodeError, EncodeError};
use ntet_codec::multibase::{
    decode, decode_options, detect_encoding, encode, encode_options, DecodingOptions, Encoding,
    EncodingOptions,
};
use ntet_codec::rfc4648::{add_padding_chars, from_alphabet_str, to_alphabet_str, Alphabet};

#[test]
fn test_encode_base64() {
    let encoded = encode(&vec![102, 111, 111, 98, 97, 114], Encoding::Base64).unwrap();
    assert_eq!(encoded, "mZm9vYmFy");
}

#[test]
fn test_encode_base64_pad() {
    // "foob" needs two padding characters to fill the four-symbol group.
    let encoded = encode(&vec![102, 111, 111, 98], Encoding::Base64Pad).unwrap();
    assert_eq!(encoded, "MZm9vYg==");
    // The unpadded variant writes the bare symbols.
    let encoded = encode(&vec![102, 111, 111, 98], Encoding::Base64).unwrap();
    assert_eq!(encoded, "mZm9vYg");
}

#[test]
fn test_encode_base16() {
    let encoded = encode(&vec![102, 111, 111, 98, 97, 114], Encoding::Base16).unwrap();
    assert_eq!(encoded, "f666f6f626172");
    let encoded = encode(&vec![102, 111, 111, 98, 97, 114], Encoding::Base16Upper).unwrap();
    assert_eq!(encoded, "F666F6F626172");
}

#[test]
fn test_encode_base32() {
    let encoded = encode(&vec![102, 111, 111, 98, 97, 114], Encoding::Base32).unwrap();
    assert_eq!(encoded, "bmzxw6ytboi");
    let encoded = encode(&vec![102, 111, 111, 98, 97, 114], Encoding::Base32Pad).unwrap();
    assert_eq!(encoded, "cmzxw6ytboi======");
}

#[test]
fn test_encode_base2() {
    let encoded = encode(&vec![201, 111, 111], Encoding::Base2).unwrap();
    assert_eq!(encoded, "0110010010110111101101111");
}

#[test]
fn test_encode_options_bare() {
    // No prefix, no padding: the bare symbols.
    let opts = EncodingOptions::new(Encoding::Base64Pad, Some(false), Some(false), None);
    let encoded = encode_options(&vec![102, 111, 111, 98], opts).unwrap();
    assert_eq!(encoded, "Zm9vYg");
    // A padding character of the caller's choice.
    let opts = EncodingOptions::new(Encoding::Base64Pad, Some(false), Some(true), Some('*'));
    let encoded = encode_options(&vec![102, 111, 111, 98], opts).unwrap();
    assert_eq!(encoded, "Zm9vYg**");
}

#[test]
fn test_encode_unsupported() {
    for e in [
        Encoding::Identity,
        Encoding::Base10,
        Encoding::Base36,
        Encoding::Base58BTC,
        Encoding::Base32z,
        Encoding::Proquint,
    ] {
        assert!(matches!(
            encode(&vec![1, 2, 3], e),
            Err(EncodeError::UnsupportedEncoding)
        ));
    }
}

#[test]
fn test_decode_base64() {
    assert_eq!(decode("mZm9vYmFy").unwrap(), vec![102, 111, 111, 98, 97, 114]);
    assert_eq!(decode("MZm9vYg==").unwrap(), vec![102, 111, 111, 98]);
}

#[test]
fn test_decode_base32() {
    assert_eq!(
        decode("bmzxw6ytboi").unwrap(),
        vec![102, 111, 111, 98, 97, 114]
    );
    assert_eq!(
        decode("cmzxw6ytboi======").unwrap(),
        vec![102, 111, 111, 98, 97, 114]
    );
}

#[test]
fn test_decode_forced_encoding() {
    // A forced encoding reads the whole input as payload, no prefix.
    let opts = DecodingOptions { encoding: Some(Encoding::Base64) };
    assert_eq!(
        decode_options("Zm9vYmFy", opts).unwrap(),
        vec![102, 111, 111, 98, 97, 114]
    );
}

#[test]
fn test_decode_errors() {
    assert!(matches!(decode(""), Err(DecodeError::EmptyInput)));
    assert!(matches!(
        decode("@abc"),
        Err(DecodeError::UnknownPrefix { c: '@' })
    ));
    // 'z' names base58btc, which is no bit-regrouping encoding.
    assert!(matches!(
        decode("zabc"),
        Err(DecodeError::UnsupportedEncoding)
    ));
    assert!(matches!(
        decode("mZm9v!"),
        Err(DecodeError::CharNotInAlphabet { c: '!' })
    ));
    // "B" is valid base64 text whose padding bits are not all zero.
    assert!(matches!(decode("mB"), Err(DecodeError::NonCanonical)));
}

#[test]
fn test_detect_encoding() {
    assert_eq!(detect_encoding("mZm9vYmFy").unwrap(), Encoding::Base64);
    assert_eq!(detect_encoding("f00ff").unwrap(), Encoding::Base16);
    assert_eq!(detect_encoding("0110").unwrap(), Encoding::Base2);
    assert_eq!(detect_encoding("zabc").unwrap(), Encoding::Base58BTC);
    assert!(matches!(detect_encoding(""), Err(DecodeError::EmptyInput)));
    assert!(matches!(
        detect_encoding("!x"),
        Err(DecodeError::UnknownPrefix { c: '!' })
    ));
}

#[test]
fn test_encoding_options_defaults() {
    let opts = EncodingOptions::default(Encoding::Base32);
    assert!(opts.prefix);
    assert!(opts.pad);
    assert_eq!(opts.padding_char, '=');
    let opts = EncodingOptions::new(Encoding::Base32, None, Some(false), Some('~'));
    assert!(opts.prefix);
    assert!(!opts.pad);
    assert_eq!(opts.padding_char, '~');
}

#[test]
fn test_alphabet_tables() {
    assert_eq!(Alphabet::Binary.len(), 2);
    assert_eq!(Alphabet::Octal.len(), 8);
    assert_eq!(Alphabet::Base16.len(), 16);
    assert_eq!(Alphabet::Base32.len(), 32);
    assert_eq!(Alphabet::Base64.len(), 64);
    let table = Alphabet::Base64.alphabet();
    assert_eq!(table[0], 'A');
    assert_eq!(table[25], 'Z');
    assert_eq!(table[26], 'a');
    assert_eq!(table[62], '+');
    assert_eq!(table[63], '/');
}

#[test]
fn test_to_alphabet_str() {
    let s = to_alphabet_str(&vec![25, 38, 61, 47, 24, 38, 5, 50], Alphabet::Base64).unwrap();
    assert_eq!(s, "Zm9vYmFy");
    assert!(matches!(
        to_alphabet_str(&vec![1, 64], Alphabet::Base64),
        Err(EncodeError::SymbolOutOfAlphabet { value: 64 })
    ));
}

#[test]
fn test_from_alphabet_str() {
    let v = from_alphabet_str("Zm9vYg==", Alphabet::Base64).unwrap();
    assert_eq!(v, vec![25, 38, 61, 47, 24, 32]);
    assert!(matches!(
        from_alphabet_str("a#", Alphabet::Base64),
        Err(DecodeError::CharNotInAlphabet { c: '#' })
    ));
}

#[test]
fn test_add_padding_chars() {
    let mut s = String::from("abcde");
    add_padding_chars(&mut s, 4, '=');
    assert_eq!(s, "abcde===");
    let mut s = String::from("abcd");
    add_padding_chars(&mut s, 4, '=');
    assert_eq!(s, "abcd");
}

#[test]
fn test_multibase_random_round_trips() {
    for e in [
        Encoding::Base2,
        Encoding::Base8,
        Encoding::Base16,
        Encoding::Base16Upper,
        Encoding::Base32,
        Encoding::Base32Upper,
        Encoding::Base32Hex,
        Encoding::Base32HexUpper,
        Encoding::Base32Pad,
        Encoding::Base32PadUpper,
        Encoding::Base32HexPad,
        Encoding::Base32HexPadUpper,
        Encoding::Base64,
        Encoding::Base64Pad,
        Encoding::Base64Url,
        Encoding::Base64UrlPad,
    ] {
        for len in 0_usize..24 {
            let bytes: Vec<u8> = (0..len).map(|_| rand::random::<u8>()).collect();
            let text = encode(&bytes, e).unwrap();
            assert_eq!(decode(&text).unwrap(), bytes, "round trip failed");
        }
    }
}
