//! The wire format, stated over byte sequences and the model of values:
//! what the canonical encoding of a value is, and what a decode of an input
//! yields.

use vstd::prelude::*;
use crate::decimal::{digit_run_end, digits_of, digits_value, is_digit};
use crate::error::{DecodeErrorKind, Failure};
use crate::model::{has_key, insert_entry, Value};
use crate::order::lex_lt;

verus! {

/// `i`, which opens an integer.
pub const INT_START: u8 = 0x69;

/// `l`, which opens a list.
pub const LIST_START: u8 = 0x6c;

/// `d`, which opens a dictionary.
pub const DICT_START: u8 = 0x64;

/// `e`, which closes an integer, a list and a dictionary.
pub const END: u8 = 0x65;

/// `:`, which parts a string's length from its bytes.
pub const COLON: u8 = 0x3a;

/// `-`, the sign of a negative integer.
pub const MINUS: u8 = 0x2d;

/// `0`, the digit zero.
pub const ZERO: u8 = 0x30;

/// What a decode yields: the value and the position just behind it, or the
/// failure.
pub type Decoded = Result<(Value, int), Failure>;

// ----------------------------------------------------------------------
// Encoding
// ----------------------------------------------------------------------

/// The decimal literal of an integer: a minus sign for a negative one, then
/// the digits of its magnitude.
pub open spec fn int_literal(i: int) -> Seq<u8> {
    if i < 0 {
        seq![MINUS] + digits_of((-i) as nat)
    } else {
        digits_of(i as nat)
    }
}

/// The canonical encoding of a value.
pub open spec fn encode_value(v: Value) -> Seq<u8>
    decreases v,
{
    match v {
        Value::Int(i) => seq![INT_START] + int_literal(i) + seq![END],
        Value::Str(bytes) => encode_str(bytes),
        Value::List(items) => seq![LIST_START] + encode_items(items) + seq![END],
        Value::Dict(entries) => seq![DICT_START] + encode_entries(entries) + seq![END],
    }
}

/// The encoding of a byte string: its length in decimal, a colon, its bytes.
pub open spec fn encode_str(bytes: Seq<u8>) -> Seq<u8> {
    digits_of(bytes.len()) + seq![COLON] + bytes
}

/// The encodings of the items of a list, one after the other.
pub open spec fn encode_items(items: Seq<Value>) -> Seq<u8>
    decreases items,
{
    if items.len() == 0 {
        Seq::empty()
    } else {
        encode_value(items[0]) + encode_items(items.drop_first())
    }
}

/// The encodings of the entries of a dictionary in the order given: each
/// key, as a byte string, followed by its value.
pub open spec fn encode_entries(entries: Seq<(Seq<u8>, Value)>) -> Seq<u8>
    decreases entries,
{
    if entries.len() == 0 {
        Seq::empty()
    } else {
        encode_str(entries[0].0) + encode_value(entries[0].1) + encode_entries(
            entries.drop_first(),
        )
    }
}

// ----------------------------------------------------------------------
// Decoding
// ----------------------------------------------------------------------

/// The success that yields `value` and ends at `end`.
pub open spec fn success(value: Value, end: int) -> Decoded {
    Ok((value, end))
}

/// The failure of the given kind at the given offset.
pub open spec fn failure(kind: DecodeErrorKind, offset: int) -> Decoded {
    Err(Failure { kind, offset })
}

/// The decode of the integer whose `i` stands at `pos`.
///
/// Behind the `i` come an optional minus sign and a run of digits. An `e`
/// right behind the `i` is an empty integer. Otherwise the literal is
/// malformed where a digit is missing, at a zero that leads other digits or
/// follows the sign, at the byte behind the digits if that is no `e` (or the
/// input ends there), and where its value does not fit in 64 bits.
pub open spec fn decode_int_at(s: Seq<u8>, pos: int) -> Decoded {
    let sign: int = if pos + 1 < s.len() && s[pos + 1] == MINUS {
        1
    } else {
        0
    };
    let first = pos + 1 + sign;
    let stop = digit_run_end(s, first);
    let magnitude = digits_value(s.subrange(first, stop));
    let value: int = if sign == 1 {
        -magnitude
    } else {
        magnitude as int
    };
    if pos + 1 < s.len() && s[pos + 1] == END {
        failure(DecodeErrorKind::EmptyInteger, pos + 1)
    } else if stop == first {
        failure(DecodeErrorKind::MalformedInteger, first)
    } else if s[first] == ZERO && (sign == 1 || stop > first + 1) {
        failure(DecodeErrorKind::MalformedInteger, first)
    } else if stop >= s.len() || s[stop] != END {
        failure(DecodeErrorKind::MalformedInteger, stop)
    } else if !(i64::MIN <= value <= i64::MAX) {
        failure(DecodeErrorKind::MalformedInteger, first)
    } else {
        Ok((Value::Int(value), stop + 1))
    }
}

/// The decode of the byte string whose length prefix starts at `pos`.
///
/// The prefix is the run of digits from `pos`; the byte behind it must be a
/// colon, else the prefix is invalid at that byte (or at the end of the
/// input). As many bytes as the prefix says must follow the colon, else the
/// string is truncated, which shows at the end of the input.
pub open spec fn decode_str_at(s: Seq<u8>, pos: int) -> Decoded {
    let stop = digit_run_end(s, pos);
    let len = digits_value(s.subrange(pos, stop));
    if stop >= s.len() || s[stop] != COLON {
        failure(DecodeErrorKind::InvalidLengthPrefix, stop)
    } else if stop + 1 + len > s.len() {
        failure(DecodeErrorKind::TruncatedString, s.len() as int)
    } else {
        Ok((Value::Str(s.subrange(stop + 1, stop + 1 + len)), stop + 1 + len))
    }
}

/// A decode that began at `pos` ended at `next`, further on and within an
/// input of length `len`. Every successful decode does so (see
/// `lemma_decode_at_bounds` in `sound`); the definitions below ask it before
/// they go on from `next`, which is what lets them recurse.
pub open spec fn advances(pos: int, next: int, len: nat) -> bool {
    pos < next <= len
}

/// The decode of the value that starts at `pos`, with lists and dictionaries
/// allowed to nest `depth` deep, and with dictionary keys allowed in any
/// order if `lenient`.
///
/// The first byte decides: `i` an integer, `l` a list, `d` a dictionary, a
/// digit a byte string. A minus sign is read as the start of a string
/// length, which it makes invalid. Where the input ends at `pos` there is no
/// value; any other byte begins none.
pub open spec fn decode_at(s: Seq<u8>, pos: int, depth: nat, lenient: bool) -> Decoded
    decreases depth, s.len() - pos, 0nat,
{
    if !(0 <= pos < s.len()) {
        failure(DecodeErrorKind::EmptyInput, pos)
    } else if s[pos] == INT_START {
        decode_int_at(s, pos)
    } else if s[pos] == LIST_START {
        if depth == 0 {
            failure(DecodeErrorKind::NestingTooDeep, pos)
        } else {
            decode_items(s, pos + 1, (depth - 1) as nat, Seq::empty(), lenient)
        }
    } else if s[pos] == DICT_START {
        if depth == 0 {
            failure(DecodeErrorKind::NestingTooDeep, pos)
        } else {
            decode_entries(s, pos + 1, (depth - 1) as nat, Seq::empty(), lenient)
        }
    } else if is_digit(s[pos]) || s[pos] == MINUS {
        decode_str_at(s, pos)
    } else {
        failure(DecodeErrorKind::UnrecognizedType, pos)
    }
}

/// The decode of the rest of a list from `pos`, the items before `pos` being
/// `acc`: the list is complete at an `e`; anything else must be one more
/// item, nested at most `depth` deep.
pub open spec fn decode_items(
    s: Seq<u8>,
    pos: int,
    depth: nat,
    acc: Seq<Value>,
    lenient: bool,
) -> Decoded
    decreases depth, s.len() - pos, 1nat,
{
    if 0 <= pos < s.len() && s[pos] == END {
        Ok((Value::List(acc), pos + 1))
    } else {
        match decode_at(s, pos, depth, lenient) {
            Err(e) => Err(e),
            Ok((item, next)) => if advances(pos, next, s.len()) {
                decode_items(s, next, depth, acc.push(item), lenient)
            } else {
                failure(DecodeErrorKind::EmptyInput, next)
            },
        }
    }
}

/// The decode of the rest of a dictionary from `pos`, the entries before
/// `pos` being `acc`: the dictionary is complete at an `e`; anything else
/// must be one more key and its value.
///
/// The key must decode as a byte string and must not repeat a key of `acc`.
/// It must come after the last of them, unless the decode is lenient: then
/// keys may come in any order, and each entry is put in its place among the
/// others. The value must follow its key: an `e` or the end of the input in
/// its place truncates the dictionary.
pub open spec fn decode_entries(
    s: Seq<u8>,
    pos: int,
    depth: nat,
    acc: Seq<(Seq<u8>, Value)>,
    lenient: bool,
) -> Decoded
    decreases depth, s.len() - pos, 1nat,
{
    if 0 <= pos < s.len() && s[pos] == END {
        Ok((Value::Dict(acc), pos + 1))
    } else {
        match decode_at(s, pos, depth, lenient) {
            Err(e) => Err(e),
            Ok((Value::Str(key), at)) => if has_key(acc, key) {
                failure(DecodeErrorKind::DuplicateKey, pos)
            } else if !lenient && acc.len() > 0 && !lex_lt(acc.last().0, key) {
                failure(DecodeErrorKind::UnorderedKeys, pos)
            } else if !(at < s.len()) || s[at] == END {
                failure(DecodeErrorKind::TruncatedDictionary, at)
            } else if !advances(pos, at, s.len()) {
                failure(DecodeErrorKind::EmptyInput, at)
            } else {
                match decode_at(s, at, depth, lenient) {
                    Err(e) => Err(e),
                    Ok((value, next)) => if advances(at, next, s.len()) {
                        decode_entries(s, next, depth, insert_entry(acc, key, value), lenient)
                    } else {
                        failure(DecodeErrorKind::EmptyInput, next)
                    },
                }
            },
            Ok((_, _)) => failure(DecodeErrorKind::NonStringKey, pos),
        }
    }
}

/// The decode of the value at the start of `s`, with lists and dictionaries
/// allowed to nest `max_depth` deep, and with dictionary keys allowed in any
/// order if `lenient`: the value and the number of bytes it takes up, or the
/// first failure met.
pub open spec fn spec_decode(s: Seq<u8>, max_depth: nat, lenient: bool) -> Decoded {
    decode_at(s, 0, max_depth, lenient)
}

} // verus!
