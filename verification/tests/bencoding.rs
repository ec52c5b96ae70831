//! Tests of the bencoding decoder: one decoded tree per well-formed input,
//! one typed error per malformed input, and round trips through a small
//! test-local encoder.

use typhoon::bencoding::{as_digit, Bencoding, BencodingError};

#[test]
fn as_digit_test() {
    assert_eq!(Some(1), as_digit(b'1'))
}

#[test]
fn parsing_positive_integers_works() {
    let input = b"i123e";
    let output = Bencoding::parse(input);
    assert_eq!(Ok(Bencoding::Int(123)), output);
}

#[test]
fn parsing_negative_integers_works() {
    let input = b"i-111e";
    let output = Bencoding::parse(input);
    assert_eq!(Ok(Bencoding::Int(-111)), output);
}

#[test]
fn parsing_basic_strings_works() {
    let input = b"4:AAAA";
    let output = Bencoding::parse(input);
    let string = b"AAAA".to_vec();
    assert_eq!(Ok(Bencoding::ByteString(string)), output);
}

#[test]
fn parsing_basic_lists_works() {
    let input = b"li1ei2ei3ee";
    let output = Bencoding::parse(input);
    let expected = Bencoding::List(vec![
        Bencoding::Int(1),
        Bencoding::Int(2),
        Bencoding::Int(3),
    ]);
    assert_eq!(Ok(expected), output);
}

#[test]
fn parsing_basic_dicts_works() {
    let input = b"d1:Ai1e1:Bi2ee";
    let output = Bencoding::parse(input);
    let expected = Bencoding::Dict(vec![
        (b"A".to_vec(), Bencoding::Int(1)),
        (b"B".to_vec(), Bencoding::Int(2)),
    ]);
    assert_eq!(Ok(expected), output);
}

#[test]
fn parsing_zero_works() {
    assert_eq!(Ok(Bencoding::Int(0)), Bencoding::parse(b"i0e"));
}

#[test]
fn parsing_largest_integer_works() {
    let input = b"i9223372036854775807e";
    assert_eq!(Ok(Bencoding::Int(i64::MAX)), Bencoding::parse(input));
}

#[test]
fn parsing_leading_zeros_folds_numerically() {
    assert_eq!(Ok(Bencoding::Int(7)), Bencoding::parse(b"i007e"));
}

#[test]
fn parsing_spam_bytestring_works() {
    let expected = Bencoding::ByteString(b"spam".to_vec());
    assert_eq!(Ok(expected), Bencoding::parse(b"4:spam"));
}

#[test]
fn parsing_empty_bytestring_works() {
    let expected = Bencoding::ByteString(Vec::new());
    assert_eq!(Ok(expected), Bencoding::parse(b"0:"));
}

#[test]
fn parsing_empty_list_works() {
    assert_eq!(Ok(Bencoding::List(Vec::new())), Bencoding::parse(b"le"));
}

#[test]
fn parsing_empty_dict_works() {
    assert_eq!(Ok(Bencoding::Dict(Vec::new())), Bencoding::parse(b"de"));
}

#[test]
fn duplicate_dict_keys_last_write_wins() {
    let expected = Bencoding::Dict(vec![(b"A".to_vec(), Bencoding::Int(2))]);
    assert_eq!(Ok(expected), Bencoding::parse(b"d1:Ai1e1:Ai2ee"));
}

#[test]
fn nested_containers_parse() {
    let input = b"d4:spaml4:infoi-3eee";
    let expected = Bencoding::Dict(vec![(
        b"spam".to_vec(),
        Bencoding::List(vec![
            Bencoding::ByteString(b"info".to_vec()),
            Bencoding::Int(-3),
        ]),
    )]);
    assert_eq!(Ok(expected), Bencoding::parse(input));
}

#[test]
fn trailing_bytes_are_not_inspected() {
    assert_eq!(Ok(Bencoding::Int(1)), Bencoding::parse(b"i1etrailing"));
}

#[test]
fn truncated_integer_is_an_error() {
    assert_eq!(
        Err(BencodingError::UnexpectedEnd),
        Bencoding::parse(b"i12")
    );
}

#[test]
fn short_bytestring_is_an_error() {
    assert_eq!(
        Err(BencodingError::InsufficientBytes { requested: 5 }),
        Bencoding::parse(b"5:abc")
    );
}

#[test]
fn unknown_lead_byte_is_an_error() {
    assert_eq!(Err(BencodingError::UnknownByte(b'x')), Bencoding::parse(b"x"));
}

#[test]
fn empty_input_is_an_error() {
    assert_eq!(Err(BencodingError::UnexpectedEnd), Bencoding::parse(b""));
}

#[test]
fn integer_without_digits_is_an_error() {
    assert_eq!(Err(BencodingError::InvalidDigit), Bencoding::parse(b"ie"));
    assert_eq!(Err(BencodingError::InvalidDigit), Bencoding::parse(b"i-e"));
}

#[test]
fn integer_with_stray_byte_is_an_error() {
    assert_eq!(
        Err(BencodingError::Mismatch {
            expected: b'e',
            found: b'x'
        }),
        Bencoding::parse(b"i1x")
    );
}

#[test]
fn bytestring_without_colon_is_an_error() {
    assert_eq!(
        Err(BencodingError::Mismatch {
            expected: b':',
            found: b'x'
        }),
        Bencoding::parse(b"3x")
    );
}

#[test]
fn truncated_list_element_is_a_fatal_error() {
    // The inner element is malformed: the failure propagates instead of
    // being read as the end of the list.
    assert_eq!(Err(BencodingError::UnexpectedEnd), Bencoding::parse(b"li1"));
    assert_eq!(Err(BencodingError::UnknownByte(b'x')), Bencoding::parse(b"lxe"));
}

#[test]
fn dict_key_must_be_a_bytestring() {
    assert_eq!(
        Err(BencodingError::InvalidDigit),
        Bencoding::parse(b"di1ei2ee")
    );
}

/// A minimal bencoding encoder, for round-trip checks only.
fn encode(value: &Bencoding) -> Vec<u8> {
    let mut out = Vec::new();
    encode_into(value, &mut out);
    out
}

fn encode_into(value: &Bencoding, out: &mut Vec<u8>) {
    match value {
        Bencoding::Int(i) => {
            out.push(b'i');
            out.extend_from_slice(format!("{}", i).as_bytes());
            out.push(b'e');
        }
        Bencoding::ByteString(bytes) => {
            out.extend_from_slice(format!("{}", bytes.len()).as_bytes());
            out.push(b':');
            out.extend_from_slice(bytes);
        }
        Bencoding::List(items) => {
            out.push(b'l');
            for item in items {
                encode_into(item, out);
            }
            out.push(b'e');
        }
        Bencoding::Dict(entries) => {
            out.push(b'd');
            for (key, item) in entries {
                out.extend_from_slice(format!("{}", key.len()).as_bytes());
                out.push(b':');
                out.extend_from_slice(key);
                encode_into(item, out);
            }
            out.push(b'e');
        }
    }
}

/// Clone helper for expected values (the library type does not carry
/// `Clone`).
fn clone_value(value: &Bencoding) -> Bencoding {
    match value {
        Bencoding::Int(i) => Bencoding::Int(*i),
        Bencoding::ByteString(b) => Bencoding::ByteString(b.clone()),
        Bencoding::List(items) => Bencoding::List(items.iter().map(clone_value).collect()),
        Bencoding::Dict(entries) => Bencoding::Dict(
            entries
                .iter()
                .map(|(k, v)| (k.clone(), clone_value(v)))
                .collect(),
        ),
    }
}

#[test]
fn round_trip_scalars() {
    let values = vec![
        Bencoding::Int(0),
        Bencoding::Int(-1),
        Bencoding::Int(i64::MAX),
        Bencoding::Int(i64::MIN),
        Bencoding::ByteString(Vec::new()),
        Bencoding::ByteString(vec![0xff, 0x00, b'e']),
    ];
    for value in values {
        assert_eq!(Ok(clone_value(&value)), Bencoding::parse(&encode(&value)));
    }
}

#[test]
fn round_trip_containers() {
    let value = Bencoding::Dict(vec![
        (
            b"files".to_vec(),
            Bencoding::List(vec![
                Bencoding::Int(42),
                Bencoding::Dict(Vec::new()),
                Bencoding::ByteString(b"i1e".to_vec()),
            ]),
        ),
        (b"z".to_vec(), Bencoding::List(Vec::new())),
    ]);
    assert_eq!(Ok(clone_value(&value)), Bencoding::parse(&encode(&value)));
}
