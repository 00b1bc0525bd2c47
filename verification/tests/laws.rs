use bencode::{decode, decode_with, DecodeOptions, DEFAULT_MAX_DEPTH};
use bencode::encode;
use bencode::DecodeErrorKind;
use bencode::{BValue, Dictionary};

fn bytes(text: &str) -> Vec<u8> {
    text.as_bytes().to_vec()
}

fn sample() -> BValue {
    let mut file = Dictionary::new();
    file.insert(bytes("length"), BValue::Int(42));
    file.insert(bytes("path"), BValue::List(vec![BValue::Str(bytes("dir")), BValue::Str(bytes("name"))]));
    let mut info = Dictionary::new();
    info.insert(bytes("pieces"), BValue::Str(vec![0x00, 0xff, 0x65, 0x3a]));
    info.insert(bytes("files"), BValue::List(vec![BValue::Dict(file), BValue::Dict(Dictionary::new())]));
    info.insert(bytes("private"), BValue::Int(-1));
    let mut root = Dictionary::new();
    root.insert(bytes("info"), BValue::Dict(info));
    root.insert(bytes("announce"), BValue::Str(bytes("url")));
    root.insert(bytes(""), BValue::List(vec![]));
    root.insert(bytes("numbers"), BValue::List(vec![BValue::Int(0), BValue::Int(i64::MIN), BValue::Int(i64::MAX)]));
    BValue::Dict(root)
}

fn samples() -> Vec<BValue> {
    vec![
        BValue::Int(0),
        BValue::Int(-7),
        BValue::Int(i64::MAX),
        BValue::Int(i64::MIN),
        BValue::Str(vec![]),
        BValue::Str(bytes("spam")),
        BValue::Str(vec![b'e'; 11]),
        BValue::List(vec![]),
        BValue::List(vec![BValue::List(vec![BValue::List(vec![])])]),
        BValue::Dict(Dictionary::new()),
        sample(),
    ]
}

#[test]
fn decoding_undoes_encoding() {
    for value in samples() {
        let encoded = encode(&value);
        let (decoded, consumed) = decode(&encoded).unwrap();
        assert_eq!(decoded, value);
        assert_eq!(consumed, encoded.len());
    }
}

#[test]
fn decoding_undoes_encoding_leniently_too() {
    let lenient = DecodeOptions { max_depth: DEFAULT_MAX_DEPTH, lenient: true };
    for value in samples() {
        let encoded = encode(&value);
        assert_eq!(decode_with(&encoded, lenient).unwrap(), (value, encoded.len()));
    }
}

#[test]
fn canonical_form_is_stable() {
    for value in samples() {
        let encoded = encode(&value);
        let (decoded, _) = decode(&encoded).unwrap();
        assert_eq!(encode(&decoded), encoded);
    }
}

#[test]
fn an_encoding_followed_by_more_decodes_alike() {
    for value in samples() {
        let encoded = encode(&value);
        let mut longer = encoded.clone();
        longer.extend(bytes("i1e and more"));
        assert_eq!(decode(&longer).unwrap(), (value, encoded.len()));
    }
}

#[test]
fn every_truncation_fails() {
    for value in samples() {
        let encoded = encode(&value);
        for cut in 0..encoded.len() {
            assert!(decode(&encoded[..cut]).is_err());
        }
    }
}

#[test]
fn truncations_of_the_sample_fail_under_any_options() {
    let encoded = encode(&sample());
    for max_depth in 0..6 {
        for lenient in [false, true] {
            let options = DecodeOptions { max_depth, lenient };
            for cut in 0..encoded.len() {
                assert!(decode_with(&encoded[..cut], options).is_err());
            }
        }
    }
}

#[test]
fn a_value_nested_beyond_the_cap_fails_as_too_deep() {
    // the sample nests four deep: root, info, files, file, path
    let encoded = encode(&sample());
    for max_depth in 0..5 {
        let options = DecodeOptions { max_depth, lenient: false };
        assert_eq!(
            decode_with(&encoded, options).unwrap_err().kind,
            DecodeErrorKind::NestingTooDeep
        );
    }
    let options = DecodeOptions { max_depth: 5, lenient: false };
    assert_eq!(decode_with(&encoded, options).unwrap(), (sample(), encoded.len()));
}

#[test]
fn what_decodes_takes_up_some_of_the_input() {
    for input in [&b"i1e"[..], b"0:", b"le", b"de", b"1:a1:b", b"d1:ai1eeee"] {
        let (_, consumed) = decode(input).unwrap();
        assert!(0 < consumed && consumed <= input.len());
    }
}

#[test]
fn a_decode_depends_on_the_bytes_it_takes_up_only() {
    let (value, consumed) = decode(b"l4:spami42eeXYZ").unwrap();
    assert_eq!(consumed, 12);
    assert_eq!(decode(b"l4:spami42ee").unwrap(), (value.clone(), 12));
    assert_eq!(decode(b"l4:spami42eel4:spami42ee").unwrap(), (value, 12));
}
