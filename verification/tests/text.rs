use bencode::decode;
use bencode::encode;
use bencode::{BValue, Dictionary};

#[test]
fn valid_utf8_reads_as_text() {
    assert_eq!(BValue::Str(b"spam".to_vec()).as_text(), Some("spam"));
    assert_eq!(BValue::Str(vec![]).as_text(), Some(""));
    assert_eq!(
        BValue::Str(vec![0x67, 0x72, 0xc3, 0xbc, 0xc3, 0x9f, 0x65]).as_text(),
        Some("gr\u{fc}\u{df}e")
    );
    assert_eq!(BValue::Str(vec![0xf0, 0x9f, 0x8c, 0x8d]).as_text(), Some("\u{1f30d}"));
}

#[test]
fn other_bytes_do_not_read_as_text() {
    assert_eq!(BValue::Str(vec![0xff]).as_text(), None);
    assert_eq!(BValue::Str(vec![0x61, 0x80]).as_text(), None);
    // an overlong encoding, a surrogate, a sequence cut short
    assert_eq!(BValue::Str(vec![0xc0, 0xaf]).as_text(), None);
    assert_eq!(BValue::Str(vec![0xed, 0xa0, 0x80]).as_text(), None);
    assert_eq!(BValue::Str(vec![0xe2, 0x82]).as_text(), None);
}

#[test]
fn only_byte_strings_read_as_text() {
    assert_eq!(BValue::Int(1).as_text(), None);
    assert_eq!(BValue::List(vec![]).as_text(), None);
    assert_eq!(BValue::Dict(Dictionary::new()).as_text(), None);
}

#[test]
fn text_becomes_its_utf8_bytes() {
    assert_eq!(BValue::from_text("spam"), BValue::Str(b"spam".to_vec()));
    assert_eq!(BValue::from_text("\u{fc}"), BValue::Str(vec![0xc3, 0xbc]));
    assert_eq!(BValue::from_text(""), BValue::Str(vec![]));
    assert_eq!(encode(&BValue::from_text("\u{fc}")), vec![b'2', b':', 0xc3, 0xbc]);
    assert_eq!(BValue::from_bytes(&[0xff, 0x00]), BValue::Str(vec![0xff, 0x00]));
}

#[test]
fn decoding_keeps_bytes_that_are_no_text() {
    let (value, consumed) = decode(&[b'2', b':', 0xff, 0xfe]).unwrap();
    assert_eq!(consumed, 4);
    assert_eq!(value.as_bytes(), Some(&[0xff, 0xfe][..]));
    assert_eq!(value.as_text(), None);
}
