use bencode::{decode, decode_with, DecodeOptions, DEFAULT_MAX_DEPTH};
use bencode::{DecodeError, DecodeErrorKind};
use bencode::{BValue, Dictionary};

fn bytes(text: &str) -> Vec<u8> {
    text.as_bytes().to_vec()
}

fn failure(input: &[u8]) -> DecodeError {
    decode(input).unwrap_err()
}

fn error(kind: DecodeErrorKind, offset: usize) -> DecodeError {
    DecodeError { kind, offset }
}

#[test]
fn test_integer_decoding() {
    // Basic integers
    assert_eq!(decode(b"i42e").unwrap().0, BValue::Int(42));
    assert_eq!(decode(b"i0e").unwrap().0, BValue::Int(0));
    assert_eq!(decode(b"i-42e").unwrap().0, BValue::Int(-42));

    // Edge cases
    assert_eq!(failure(b"i042e").kind, DecodeErrorKind::MalformedInteger); // Leading zeros not allowed
    assert_eq!(failure(b"i-0e").kind, DecodeErrorKind::MalformedInteger); // Negative zero not allowed
    assert!(decode(b"ie").is_err()); // Empty integer not allowed
    assert!(decode(b"i32be").is_err()); // Non-digit characters not allowed
}

#[test]
fn test_string_decoding() {
    // Basic strings
    assert_eq!(decode(b"4:spam").unwrap().0, BValue::Str(bytes("spam")));
    assert_eq!(decode(b"0:").unwrap().0, BValue::Str(bytes("")));
    assert_eq!(decode(b"5:hello").unwrap().0, BValue::Str(bytes("hello")));

    // Edge cases
    assert!(decode(b"4:spa").is_err()); // String too short
    assert!(decode(b"-1:spam").is_err()); // Negative length
    assert!(decode(b"1x:a").is_err()); // Invalid length delimiter
}

#[test]
fn test_list_decoding() {
    // Empty list
    assert_eq!(decode(b"le").unwrap().0, BValue::List(vec![]));

    // Simple list
    assert_eq!(
        decode(b"l4:spami42ee").unwrap().0,
        BValue::List(vec![BValue::Str(bytes("spam")), BValue::Int(42)])
    );

    // Nested list
    assert_eq!(
        decode(b"ll4:spameli42eee").unwrap().0,
        BValue::List(vec![
            BValue::List(vec![BValue::Str(bytes("spam"))]),
            BValue::List(vec![BValue::Int(42)]),
        ])
    );
}

#[test]
fn test_dict_decoding() {
    // Empty dict
    assert_eq!(decode(b"de").unwrap().0, BValue::Dict(Dictionary::new()));

    // Simple dict
    let mut expected = Dictionary::new();
    expected.insert(bytes("spam"), BValue::Int(42));
    assert_eq!(decode(b"d4:spami42ee").unwrap().0, BValue::Dict(expected));

    // Complex dict
    let mut expected = Dictionary::new();
    expected.insert(bytes("bar"), BValue::Str(bytes("spam")));
    expected.insert(bytes("foo"), BValue::Int(42));
    assert_eq!(
        decode(b"d3:bar4:spam3:fooi42ee").unwrap().0,
        BValue::Dict(expected)
    );

    // Edge cases
    assert!(decode(b"d3:foo").is_err()); // Incomplete dict
}

#[test]
fn test_complex_nested_structures() {
    // A complex structure with nested lists and dicts
    let input = b"d8:announce3:url4:infod5:filesld6:lengthi42e4:path4:spamee6:pieces20:aaaaaaaaaaaaaaaaaaaa6:locale2:enee";

    let mut files = Dictionary::new();
    files.insert(bytes("length"), BValue::Int(42));
    files.insert(bytes("path"), BValue::Str(bytes("spam")));

    let mut info = Dictionary::new();
    info.insert(bytes("files"), BValue::List(vec![BValue::Dict(files)]));
    info.insert(bytes("pieces"), BValue::Str(bytes("aaaaaaaaaaaaaaaaaaaa")));
    info.insert(bytes("locale"), BValue::Str(bytes("en")));

    let mut expected = Dictionary::new();
    expected.insert(bytes("announce"), BValue::Str(bytes("url")));
    expected.insert(bytes("info"), BValue::Dict(info));

    // "locale" follows "pieces": the keys do not ascend, so the input
    // decodes leniently only.
    let lenient = DecodeOptions { max_depth: DEFAULT_MAX_DEPTH, lenient: true };
    assert_eq!(decode_with(input, lenient).unwrap(), (BValue::Dict(expected), input.len()));
    assert_eq!(failure(input), error(DecodeErrorKind::UnorderedKeys, 89));
}

#[test]
fn integers_consume_their_literal() {
    assert_eq!(decode(b"i42e").unwrap(), (BValue::Int(42), 4));
    assert_eq!(decode(b"i0e").unwrap(), (BValue::Int(0), 3));
    assert_eq!(decode(b"i-42e").unwrap(), (BValue::Int(-42), 5));
}

#[test]
fn integers_span_sixty_four_bits() {
    assert_eq!(decode(b"i9223372036854775807e").unwrap(), (BValue::Int(i64::MAX), 21));
    assert_eq!(decode(b"i-9223372036854775808e").unwrap(), (BValue::Int(i64::MIN), 22));
    assert_eq!(failure(b"i9223372036854775808e"), error(DecodeErrorKind::MalformedInteger, 1));
    assert_eq!(failure(b"i-9223372036854775809e"), error(DecodeErrorKind::MalformedInteger, 2));
    assert_eq!(
        failure(b"i340282366920938463463374607431768211456e"),
        error(DecodeErrorKind::MalformedInteger, 1)
    );
}

#[test]
fn malformed_integers_say_where() {
    assert_eq!(failure(b"ie"), error(DecodeErrorKind::EmptyInteger, 1));
    assert_eq!(failure(b"i042e"), error(DecodeErrorKind::MalformedInteger, 1));
    assert_eq!(failure(b"i00e"), error(DecodeErrorKind::MalformedInteger, 1));
    assert_eq!(failure(b"i-0e"), error(DecodeErrorKind::MalformedInteger, 2));
    assert_eq!(failure(b"i-05e"), error(DecodeErrorKind::MalformedInteger, 2));
    assert_eq!(failure(b"i-e"), error(DecodeErrorKind::MalformedInteger, 2));
    assert_eq!(failure(b"i32be"), error(DecodeErrorKind::MalformedInteger, 3));
    assert_eq!(failure(b"i+5e"), error(DecodeErrorKind::MalformedInteger, 1));
    assert_eq!(failure(b"i 5e"), error(DecodeErrorKind::MalformedInteger, 1));
    assert_eq!(failure(b"i0x"), error(DecodeErrorKind::MalformedInteger, 2));
    assert_eq!(failure(b"i--1e"), error(DecodeErrorKind::MalformedInteger, 2));
}

#[test]
fn unterminated_integers_fail_at_the_end() {
    assert_eq!(failure(b"i"), error(DecodeErrorKind::MalformedInteger, 1));
    assert_eq!(failure(b"i-"), error(DecodeErrorKind::MalformedInteger, 2));
    assert_eq!(failure(b"i42"), error(DecodeErrorKind::MalformedInteger, 3));
}

#[test]
fn strings_consume_prefix_colon_and_bytes() {
    assert_eq!(decode(b"4:spam").unwrap(), (BValue::Str(bytes("spam")), 6));
    assert_eq!(decode(b"0:").unwrap(), (BValue::Str(vec![]), 2));
    assert_eq!(
        decode(b"12:hello, world").unwrap(),
        (BValue::Str(bytes("hello, world")), 15)
    );
}

#[test]
fn strings_are_raw_bytes() {
    assert_eq!(
        decode(&[b'3', b':', 0xff, 0x00, 0x80]).unwrap(),
        (BValue::Str(vec![0xff, 0x00, 0x80]), 5)
    );
    // bytes that look like framing belong to the string
    assert_eq!(decode(b"3:e:i").unwrap(), (BValue::Str(bytes("e:i")), 5));
}

#[test]
fn a_length_prefix_may_lead_with_zeros() {
    assert_eq!(decode(b"04:spam").unwrap(), (BValue::Str(bytes("spam")), 7));
    assert_eq!(decode(b"00:").unwrap(), (BValue::Str(vec![]), 3));
}

#[test]
fn bad_length_prefixes_say_where() {
    assert_eq!(failure(b"-1:spam"), error(DecodeErrorKind::InvalidLengthPrefix, 0));
    assert_eq!(failure(b"1x:a"), error(DecodeErrorKind::InvalidLengthPrefix, 1));
    assert_eq!(failure(b"4spam"), error(DecodeErrorKind::InvalidLengthPrefix, 1));
    assert_eq!(failure(b"4"), error(DecodeErrorKind::InvalidLengthPrefix, 1));
    assert_eq!(failure(b"123"), error(DecodeErrorKind::InvalidLengthPrefix, 3));
}

#[test]
fn truncated_strings_fail_at_the_end() {
    assert_eq!(failure(b"4:spa"), error(DecodeErrorKind::TruncatedString, 5));
    assert_eq!(failure(b"1:"), error(DecodeErrorKind::TruncatedString, 2));
    assert_eq!(
        failure(b"99999999999999999999999999999999:x"),
        error(DecodeErrorKind::TruncatedString, 34)
    );
    assert_eq!(
        failure(b"18446744073709551615:x"),
        error(DecodeErrorKind::TruncatedString, 22)
    );
}

#[test]
fn lists_consume_up_to_their_end() {
    assert_eq!(decode(b"le").unwrap(), (BValue::List(vec![]), 2));
    assert_eq!(
        decode(b"l4:spami42ee").unwrap(),
        (BValue::List(vec![BValue::Str(bytes("spam")), BValue::Int(42)]), 12)
    );
}

#[test]
fn dictionaries_decode_in_key_order() {
    let (value, consumed) = decode(b"d3:bar4:spam3:fooi42ee").unwrap();
    assert_eq!(consumed, 22);
    let dict = value.as_dict().unwrap();
    assert_eq!(dict.len(), 2);
    assert_eq!(dict.get(b"bar"), Some(&BValue::Str(bytes("spam"))));
    assert_eq!(dict.get(b"foo"), Some(&BValue::Int(42)));
    assert_eq!(dict.get(b"baz"), None);
}

#[test]
fn dictionary_failures() {
    assert_eq!(
        failure(b"d3:fooi42e3:bar4:spame"),
        error(DecodeErrorKind::UnorderedKeys, 10)
    );
    assert_eq!(failure(b"d3:fooi1e3:fooi2ee"), error(DecodeErrorKind::DuplicateKey, 9));
    assert_eq!(
        failure(b"d1:ai1e1:bi2e1:ai3ee"),
        error(DecodeErrorKind::DuplicateKey, 13)
    );
    assert_eq!(failure(b"d3:foo"), error(DecodeErrorKind::TruncatedDictionary, 6));
    assert_eq!(failure(b"d3:fooe"), error(DecodeErrorKind::TruncatedDictionary, 6));
    assert_eq!(failure(b"di1e3:fooe"), error(DecodeErrorKind::NonStringKey, 1));
    assert_eq!(failure(b"dlei1ee"), error(DecodeErrorKind::NonStringKey, 1));
    assert_eq!(failure(b"dde1:ae"), error(DecodeErrorKind::NonStringKey, 1));
}

#[test]
fn a_key_that_fails_to_decode_fails_as_itself() {
    assert_eq!(failure(b"di0xe"), error(DecodeErrorKind::MalformedInteger, 3));
    assert_eq!(failure(b"d5:ab"), error(DecodeErrorKind::TruncatedString, 5));
}

#[test]
fn containers_cut_short_run_out_of_input() {
    assert_eq!(failure(b"l"), error(DecodeErrorKind::EmptyInput, 1));
    assert_eq!(failure(b"l4:spam"), error(DecodeErrorKind::EmptyInput, 7));
    assert_eq!(failure(b"d"), error(DecodeErrorKind::EmptyInput, 1));
    assert_eq!(failure(b"d3:fooi1e"), error(DecodeErrorKind::EmptyInput, 9));
}

#[test]
fn empty_and_unrecognized_input() {
    assert_eq!(failure(b""), error(DecodeErrorKind::EmptyInput, 0));
    assert_eq!(failure(b"e"), error(DecodeErrorKind::UnrecognizedType, 0));
    assert_eq!(failure(b"x"), error(DecodeErrorKind::UnrecognizedType, 0));
    assert_eq!(failure(b":"), error(DecodeErrorKind::UnrecognizedType, 0));
    assert_eq!(failure(b"li1e?e"), error(DecodeErrorKind::UnrecognizedType, 4));
}

#[test]
fn nested_failures_carry_absolute_offsets() {
    assert_eq!(failure(b"ll4:spa"), error(DecodeErrorKind::TruncatedString, 7));
    assert_eq!(failure(b"ll4:spaee"), error(DecodeErrorKind::EmptyInput, 9));
    assert_eq!(failure(b"d1:ali-0eee"), error(DecodeErrorKind::MalformedInteger, 7));
}

#[test]
fn bytes_behind_the_value_are_left_alone() {
    assert_eq!(decode(b"i42etrailing").unwrap(), (BValue::Int(42), 4));
    assert_eq!(decode(b"lei1e").unwrap(), (BValue::List(vec![]), 2));
    assert_eq!(decode(b"4:spam4:eggs").unwrap(), (BValue::Str(bytes("spam")), 6));
}

fn nested_lists(depth: usize) -> Vec<u8> {
    let mut input = vec![b'l'; depth];
    input.extend(vec![b'e'; depth]);
    input
}

#[test]
fn nesting_is_capped() {
    assert!(decode(&nested_lists(DEFAULT_MAX_DEPTH)).is_ok());
    assert_eq!(
        failure(&nested_lists(DEFAULT_MAX_DEPTH + 1)),
        error(DecodeErrorKind::NestingTooDeep, DEFAULT_MAX_DEPTH)
    );
    // deep enough to exhaust a call stack if nothing stopped the descent
    assert_eq!(
        failure(&vec![b'l'; 10_000_000]),
        error(DecodeErrorKind::NestingTooDeep, DEFAULT_MAX_DEPTH)
    );
    // a dictionary in the place of a key is decoded before it is refused
    assert_eq!(
        failure(&vec![b'd'; 100]),
        error(DecodeErrorKind::NestingTooDeep, DEFAULT_MAX_DEPTH)
    );
}

#[test]
fn the_cap_on_nesting_is_configurable() {
    let scalars_only = DecodeOptions { max_depth: 0, lenient: false };
    assert_eq!(decode_with(b"i1e", scalars_only).unwrap(), (BValue::Int(1), 3));
    assert_eq!(
        decode_with(b"le", scalars_only).unwrap_err(),
        error(DecodeErrorKind::NestingTooDeep, 0)
    );
    let two = DecodeOptions { max_depth: 2, lenient: false };
    assert!(decode_with(b"llee", two).is_ok());
    assert_eq!(
        decode_with(b"llleee", two).unwrap_err(),
        error(DecodeErrorKind::NestingTooDeep, 2)
    );
    assert_eq!(
        decode_with(b"d1:ad1:bdeee", two).unwrap_err(),
        error(DecodeErrorKind::NestingTooDeep, 8)
    );
    let deep = DecodeOptions { max_depth: 200, lenient: false };
    assert!(decode_with(&nested_lists(200), deep).is_ok());
}

#[test]
fn default_options_are_strict() {
    let options = DecodeOptions::default();
    assert_eq!(options, DecodeOptions { max_depth: DEFAULT_MAX_DEPTH, lenient: false });
    assert_eq!(DEFAULT_MAX_DEPTH, 64);
    assert_eq!(
        decode_with(b"d1:bi1e1:ai2ee", options).unwrap_err(),
        error(DecodeErrorKind::UnorderedKeys, 7)
    );
}

#[test]
fn lenient_decoding_puts_keys_in_order() {
    let lenient = DecodeOptions { max_depth: DEFAULT_MAX_DEPTH, lenient: true };
    let (value, consumed) = decode_with(b"d1:ci3e1:ai1e1:bi2ee", lenient).unwrap();
    assert_eq!(consumed, 20);
    let keys: Vec<Vec<u8>> =
        value.as_dict().unwrap().entries().iter().map(|entry| entry.0.clone()).collect();
    assert_eq!(keys, vec![bytes("a"), bytes("b"), bytes("c")]);
    assert_eq!(value, decode(b"d1:ai1e1:bi2e1:ci3ee").unwrap().0);
}

#[test]
fn lenient_decoding_still_refuses_repeated_keys() {
    let lenient = DecodeOptions { max_depth: DEFAULT_MAX_DEPTH, lenient: true };
    assert_eq!(
        decode_with(b"d1:bi1e1:ai2e1:bi3ee", lenient).unwrap_err(),
        error(DecodeErrorKind::DuplicateKey, 13)
    );
    assert_eq!(
        decode_with(b"d1:ai1e1:ai2ee", lenient).unwrap_err(),
        error(DecodeErrorKind::DuplicateKey, 7)
    );
}
