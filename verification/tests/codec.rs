use ntet_codec::errors::{DecodeError, EncodeError};
use ntet_codec::rfc4648::{group_sizes, ntet_group_to_octets, octet_group_to_ntets, pow2};
use std::collections::HashMap;

#[test]
fn lib_test_octet_group_to_ntets() {
    assert_eq!(
        octet_group_to_ntets(&vec![102, 111, 111, 98, 97, 114], 6).unwrap(),
        // Zm9vYmFy
        [25, 38, 61, 47, 24, 38, 5, 50]
    );
}

#[test]
fn ntets_test_octet_group_to_ntets() {
    assert_eq!(
        octet_group_to_ntets(&vec![77, 97, 110], 6).unwrap(),
        [19, 22, 5, 46]
    );

    assert_eq!(octet_group_to_ntets(&vec![77, 97], 6).unwrap(), [19, 22, 4]);

    assert_eq!(octet_group_to_ntets(&vec![77], 6).unwrap(), [19, 16]);

    assert_eq!(
        octet_group_to_ntets(&vec![102, 111, 111, 98, 97, 114], 6).unwrap(),
        // Zm9vYmFy
        [25, 38, 61, 47, 24, 38, 5, 50]
    );
}

#[test]
fn test_octet_ntet_conversion() {
    let cases_6 = HashMap::<Vec<u8>, Vec<u8>>::from([
        (vec![], vec![]),
        (vec![77, 97, 110], vec![19, 22, 5, 46]),
        (vec![77, 97], vec![19, 22, 4]),
        (vec![77], vec![19, 16]),
        (
            // foobar
            vec![102, 111, 111, 98, 97, 114],
            vec![25, 38, 61, 47, 24, 38, 5, 50],
        ),
        (
            // fooba
            vec![102, 111, 111, 98, 97],
            vec![25, 38, 61, 47, 24, 38, 4],
        ),
        (
            // foob
            vec![102, 111, 111, 98],
            vec![25, 38, 61, 47, 24, 32],
        ),
    ]);

    let cases_5 = HashMap::<Vec<u8>, Vec<u8>>::from([
        (vec![], vec![]),
        (vec![102, 111, 111], vec![12, 25, 23, 22, 30]),
    ]);

    let cases_4 = HashMap::<Vec<u8>, Vec<u8>>::from([(vec![], vec![]), (vec![102], vec![6, 6])]);

    let cases_3 = HashMap::<Vec<u8>, Vec<u8>>::from([(vec![], vec![]), (vec![23], vec![0, 5, 6])]);

    let cases_1 = HashMap::<Vec<u8>, Vec<u8>>::from([
        (vec![], vec![]),
        (
            vec![201, 111, 111],
            vec![
                1, 1, 0, 0, 1, 0, 0, 1, 0, 1, 1, 0, 1, 1, 1, 1, 0, 1, 1, 0, 1, 1, 1, 1,
            ],
        ),
    ]);

    let test_n = |cases: HashMap<Vec<u8>, Vec<u8>>, n: u8| {
        for (i, o) in cases {
            assert_eq!(octet_group_to_ntets(&i, n).unwrap(), o);
            assert_eq!(ntet_group_to_octets(&o, n).unwrap(), i);
        }
    };

    test_n(cases_6, 6);
    test_n(cases_5, 5);
    test_n(cases_4, 4);
    test_n(cases_3, 3);
    test_n(cases_1, 1);
}

#[test]
fn test_random_data() {
    const RANDOM_TRIALS: usize = 10;

    for _ in 0..RANDOM_TRIALS {
        let rand_count = rand::random::<u16>();
        let random_bytes: Vec<u8> = (0..rand_count).map(|_| rand::random::<u8>()).collect();

        (1_u8..=7)
            .map(|n| (n, octet_group_to_ntets(&random_bytes, n).unwrap()))
            .map(|(n, ntets)| (n, ntet_group_to_octets(&ntets, n).unwrap()))
            .for_each(|(n, octets)| {
                assert_eq!(random_bytes, octets, "Equality failed for n={}", n);
            })
    }
}

#[test]
fn test_random_round_trips() {
    // The round-trip law on many random byte sequences of random length,
    // at every width.
    for trial in 0..1200_usize {
        let count = trial % 97;
        let random_bytes: Vec<u8> = (0..count).map(|_| rand::random::<u8>()).collect();
        for n in 1_u8..=7 {
            let ntets = octet_group_to_ntets(&random_bytes, n).unwrap();
            let octets = ntet_group_to_octets(&ntets, n).unwrap();
            assert_eq!(random_bytes, octets, "Equality failed for n={}", n);
        }
    }
}

#[test]
fn test_empty_round_trips() {
    for n in 1_u8..=7 {
        assert_eq!(octet_group_to_ntets(&vec![], n).unwrap(), Vec::<u8>::new());
        assert_eq!(ntet_group_to_octets(&vec![], n).unwrap(), Vec::<u8>::new());
    }
}

#[test]
fn test_encode_lengths() {
    // len(encode(B, n)) == ceil(8 * len(B) / n) for a spread of lengths.
    for len in 0_usize..40 {
        let bytes: Vec<u8> = (0..len).map(|i| (i * 37 % 256) as u8).collect();
        for n in 1_u8..=7 {
            let ntets = octet_group_to_ntets(&bytes, n).unwrap();
            assert_eq!(ntets.len(), (8 * len + n as usize - 1) / n as usize);
        }
    }
}

#[test]
fn test_decode_lengths() {
    // len(decode(S, n)) == floor(len(S) * n / 8) for canonical inputs.
    for len in 0_usize..40 {
        let bytes: Vec<u8> = (0..len).map(|i| (i * 91 % 256) as u8).collect();
        for n in 1_u8..=7 {
            let ntets = octet_group_to_ntets(&bytes, n).unwrap();
            let octets = ntet_group_to_octets(&ntets, n).unwrap();
            assert_eq!(octets.len(), ntets.len() * n as usize / 8);
        }
    }
}

#[test]
fn test_invalid_width() {
    for n in [0_u8, 8, 9, 255] {
        assert!(matches!(
            octet_group_to_ntets(&vec![1, 2, 3], n),
            Err(EncodeError::InvalidWidth { n: m }) if m == n
        ));
        assert!(matches!(
            ntet_group_to_octets(&vec![1, 2, 3], n),
            Err(DecodeError::InvalidWidth { n: m }) if m == n
        ));
    }
}

#[test]
fn test_invalid_symbol() {
    // A symbol value at or above 2^n is rejected, naming the value.
    assert!(matches!(
        ntet_group_to_octets(&vec![64], 6),
        Err(DecodeError::InvalidSymbol { value: 64, n: 6 })
    ));
    assert!(matches!(
        ntet_group_to_octets(&vec![2], 1),
        Err(DecodeError::InvalidSymbol { value: 2, n: 1 })
    ));
    // The first offending value is the one named.
    assert!(matches!(
        ntet_group_to_octets(&vec![1, 9, 8], 3),
        Err(DecodeError::InvalidSymbol { value: 9, n: 3 })
    ));
}

#[test]
fn test_non_canonical() {
    // encode([77], 6) == [19, 16]: forcing the trailing padding bit on
    // makes the sequence non-canonical.
    assert_eq!(ntet_group_to_octets(&vec![19, 16], 6).unwrap(), [77]);
    assert!(matches!(
        ntet_group_to_octets(&vec![19, 17], 6),
        Err(DecodeError::NonCanonical)
    ));
    // A symbol sequence cut short of a byte boundary with data bits in the
    // overhang is non-canonical too.
    assert!(matches!(
        ntet_group_to_octets(&vec![19, 22, 5], 6),
        Err(DecodeError::NonCanonical)
    ));
}

#[test]
fn test_group_sizes() {
    assert_eq!(group_sizes(1), (1, 8));
    assert_eq!(group_sizes(2), (1, 4));
    assert_eq!(group_sizes(3), (3, 8));
    assert_eq!(group_sizes(4), (1, 2));
    assert_eq!(group_sizes(5), (5, 8));
    assert_eq!(group_sizes(6), (3, 4));
    assert_eq!(group_sizes(7), (7, 8));
}

#[test]
fn test_pow2() {
    for (i, v) in [(0_u8, 1_u8), (1, 2), (2, 4), (3, 8), (4, 16), (5, 32), (6, 64), (7, 128)] {
        assert_eq!(pow2(i), v);
    }
}
