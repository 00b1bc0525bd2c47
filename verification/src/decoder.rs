//! The decoder: from bytes to a value and the number of bytes it took up.

use vstd::prelude::*;
use vstd::slice::{slice_subrange, slice_to_vec};
use crate::decimal::{digit_run_end, digits_value, is_digit_byte, lemma_digits_value_push};
use crate::error::{DecodeError, DecodeErrorKind};
use crate::model::{
    keys_ascending, lemma_insert_entry, lemma_insert_last, lemma_keys_before, Value,
};
use crate::order::{compare_keys, KeyOrder};
use crate::sound::lemma_decode_sound;
use crate::syntax::{
    decode_at, decode_entries, decode_int_at, decode_items, decode_str_at, spec_decode, Decoded,
    COLON, DICT_START, END, INT_START, LIST_START, MINUS, ZERO,
};
use crate::value::{values_of, BValue, Dictionary};

verus! {

/// The depth to which `decode` lets lists and dictionaries nest.
pub const DEFAULT_MAX_DEPTH: usize = 64;

/// The greatest magnitude of an integer of 64 bits, that of the least one.
const MAX_MAGNITUDE: u64 = 0x8000_0000_0000_0000;

/// What the result of a decode stands for: the model of the value with the
/// position behind it, or the model of the error.
pub open spec fn outcome(r: Result<(BValue, usize), DecodeError>) -> Decoded {
    match r {
        Ok((value, end)) => Ok((value@, end as int)),
        Err(e) => Err(e@),
    }
}

/// How a decode is to go about.
#[derive(Clone, Copy, Debug, PartialEq, Eq, Structural)]
pub struct DecodeOptions {
    /// How deep lists and dictionaries may nest.
    pub max_depth: usize,
    /// Whether the keys of a dictionary may come in any order. If not, keys
    /// that do not ascend fail the decode; if so, the entries are put in
    /// key order as they are read. A key that repeats fails either way.
    pub lenient: bool,
}

impl Default for DecodeOptions {
    /// Nesting up to `DEFAULT_MAX_DEPTH`, keys in ascending order only.
    fn default() -> (options: DecodeOptions)
        ensures
            options == (DecodeOptions { max_depth: DEFAULT_MAX_DEPTH, lenient: false }),
    {
        DecodeOptions { max_depth: DEFAULT_MAX_DEPTH, lenient: false }
    }
}

/// Decodes the value at the start of `input` and says how many bytes it
/// takes up. Lists and dictionaries may nest `DEFAULT_MAX_DEPTH` deep, and
/// the keys of a dictionary must ascend.
///
/// Bytes behind the value are left alone. On malformed input the result is
/// the first failure met, with the offset at which it shows.
pub fn decode(input: &[u8]) -> (r: Result<(BValue, usize), DecodeError>)
    ensures
        outcome(r) == spec_decode(input@, DEFAULT_MAX_DEPTH as nat, false),
        r matches Ok((value, consumed)) ==> {
            &&& 0 < consumed <= input.len()
            &&& value@.wf()
            &&& value@.nesting() <= DEFAULT_MAX_DEPTH
        },
{
    decode_with(input, DecodeOptions { max_depth: DEFAULT_MAX_DEPTH, lenient: false })
}

/// Decodes as `decode` does, with the limit on nesting and the stance on
/// key order that `options` give.
///
/// Each level of nesting takes a level of the call stack, so the limit on
/// nesting is also what bounds the depth of the calls.
pub fn decode_with(input: &[u8], options: DecodeOptions) -> (r: Result<
    (BValue, usize),
    DecodeError,
>)
    ensures
        outcome(r) == spec_decode(input@, options.max_depth as nat, options.lenient),
        r matches Ok((value, consumed)) ==> {
            &&& 0 < consumed <= input.len()
            &&& value@.wf()
            &&& value@.nesting() <= options.max_depth
        },
{
    proof {
        lemma_decode_sound(input@, options.max_depth as nat, options.lenient);
    }
    decode_value(input, 0, options.max_depth, options.lenient)
}

/// The failure of the given kind at the given offset.
fn fail(kind: DecodeErrorKind, offset: usize) -> (r: Result<(BValue, usize), DecodeError>)
    ensures
        r == Err::<(BValue, usize), DecodeError>(DecodeError { kind, offset }),
{
    Err(DecodeError { kind, offset })
}

/// Walks the run of digits from `from` and adds up what they denote, as far
/// as that stays within `limit`.
fn scan_digits(input: &[u8], from: usize, limit: u64) -> (r: (usize, Option<u64>))
    requires
        from <= input.len(),
    ensures
        r.0 == digit_run_end(input@, from as int),
        from <= r.0 <= input.len(),
        match r.1 {
            Some(n) => n == digits_value(input@.subrange(from as int, r.0 as int)) && n <= limit,
            None => digits_value(input@.subrange(from as int, r.0 as int)) > limit,
        },
{
    let mut at: usize = from;
    let mut sum: u64 = 0;
    let mut fits: bool = true;
    proof {
        assert(input@.subrange(from as int, from as int) =~= Seq::<u8>::empty());
    }
    while at < input.len() && is_digit_byte(input[at])
        invariant
            from <= at <= input.len(),
            digit_run_end(input@, from as int) == digit_run_end(input@, at as int),
            fits ==> sum == digits_value(input@.subrange(from as int, at as int)) && sum <= limit,
            !fits ==> digits_value(input@.subrange(from as int, at as int)) > limit,
        decreases input.len() - at,
    {
        let digit: u64 = (input[at] - 0x30) as u64;
        proof {
            let sofar = input@.subrange(from as int, at as int);
            assert(input@.subrange(from as int, at + 1) =~= sofar.push(input@[at as int]));
            lemma_digits_value_push(sofar, input@[at as int]);
        }
        if fits {
            let wide: u128 = sum as u128 * 10 + digit as u128;
            if wide <= limit as u128 {
                sum = wide as u64;
            } else {
                fits = false;
            }
        }
        at += 1;
    }
    if fits {
        (at, Some(sum))
    } else {
        (at, None)
    }
}

/// Decodes the integer whose `i` stands at `pos`.
fn decode_int(input: &[u8], pos: usize) -> (r: Result<(BValue, usize), DecodeError>)
    requires
        pos < input.len(),
    ensures
        outcome(r) == decode_int_at(input@, pos as int),
        r matches Ok((_, end)) ==> pos < end <= input.len(),
{
    let len = input.len();
    if pos + 1 < len && input[pos + 1] == END {
        return fail(DecodeErrorKind::EmptyInteger, pos + 1);
    }
    let negative = pos + 1 < len && input[pos + 1] == MINUS;
    let first: usize = if negative {
        pos + 2
    } else {
        pos + 1
    };
    let (stop, magnitude) = scan_digits(input, first, MAX_MAGNITUDE);
    if stop == first {
        return fail(DecodeErrorKind::MalformedInteger, first);
    }
    if input[first] == ZERO && (negative || stop > first + 1) {
        return fail(DecodeErrorKind::MalformedInteger, first);
    }
    if stop >= len || input[stop] != END {
        return fail(DecodeErrorKind::MalformedInteger, stop);
    }
    match magnitude {
        None => fail(DecodeErrorKind::MalformedInteger, first),
        Some(m) => {
            if negative {
                let value: i64 = if m == MAX_MAGNITUDE {
                    i64::MIN
                } else {
                    -(m as i64)
                };
                Ok((BValue::Int(value), stop + 1))
            } else if m == MAX_MAGNITUDE {
                fail(DecodeErrorKind::MalformedInteger, first)
            } else {
                Ok((BValue::Int(m as i64), stop + 1))
            }
        },
    }
}

/// Decodes the byte string whose length prefix starts at `pos`.
fn decode_str(input: &[u8], pos: usize) -> (r: Result<(BValue, usize), DecodeError>)
    requires
        pos < input.len(),
    ensures
        outcome(r) == decode_str_at(input@, pos as int),
        r matches Ok((_, end)) ==> pos < end <= input.len(),
{
    let len = input.len();
    let (stop, declared) = scan_digits(input, pos, len as u64);
    if stop >= len || input[stop] != COLON {
        return fail(DecodeErrorKind::InvalidLengthPrefix, stop);
    }
    let body: usize = stop + 1;
    match declared {
        None => fail(DecodeErrorKind::TruncatedString, len),
        Some(n) => {
            if n > (len - body) as u64 {
                fail(DecodeErrorKind::TruncatedString, len)
            } else {
                let end: usize = body + n as usize;
                let bytes = slice_to_vec(slice_subrange(input, body, end));
                Ok((BValue::Str(bytes), end))
            }
        },
    }
}

/// Decodes the value that starts at `pos`, with lists and dictionaries
/// allowed to nest `depth` deep.
fn decode_value(input: &[u8], pos: usize, depth: usize, lenient: bool) -> (r: Result<
    (BValue, usize),
    DecodeError,
>)
    requires
        pos <= input.len(),
    ensures
        outcome(r) == decode_at(input@, pos as int, depth as nat, lenient),
        r matches Ok((_, end)) ==> pos < end <= input.len(),
    decreases depth, 0nat,
{
    if pos >= input.len() {
        return fail(DecodeErrorKind::EmptyInput, pos);
    }
    let first = input[pos];
    if first == INT_START {
        decode_int(input, pos)
    } else if first == LIST_START {
        if depth == 0 {
            fail(DecodeErrorKind::NestingTooDeep, pos)
        } else {
            decode_list(input, pos + 1, depth - 1, lenient)
        }
    } else if first == DICT_START {
        if depth == 0 {
            fail(DecodeErrorKind::NestingTooDeep, pos)
        } else {
            decode_dict(input, pos + 1, depth - 1, lenient)
        }
    } else if is_digit_byte(first) || first == MINUS {
        decode_str(input, pos)
    } else {
        fail(DecodeErrorKind::UnrecognizedType, pos)
    }
}

/// Decodes the items of a list from `pos`, just behind its `l`, up to and
/// with its `e`.
fn decode_list(input: &[u8], pos: usize, depth: usize, lenient: bool) -> (r: Result<
    (BValue, usize),
    DecodeError,
>)
    requires
        pos <= input.len(),
    ensures
        outcome(r) == decode_items(input@, pos as int, depth as nat, Seq::empty(), lenient),
        r matches Ok((_, end)) ==> pos < end <= input.len(),
    decreases depth, 1nat,
{
    let mut items: Vec<BValue> = Vec::new();
    let mut at: usize = pos;
    proof {
        assert(values_of(items@) =~= Seq::<Value>::empty());
    }
    loop
        invariant
            pos <= at <= input.len(),
            decode_items(input@, pos as int, depth as nat, Seq::empty(), lenient) == decode_items(
                input@,
                at as int,
                depth as nat,
                values_of(items@),
                lenient,
            ),
        decreases input.len() - at,
    {
        if at < input.len() && input[at] == END {
            return Ok((BValue::List(items), at + 1));
        }
        match decode_value(input, at, depth, lenient) {
            Err(e) => {
                return Err(e);
            },
            Ok((item, next)) => {
                proof {
                    assert(values_of(items@.push(item)) =~= values_of(items@).push(item@));
                }
                items.push(item);
                at = next;
            },
        }
    }
}

/// Decodes the entries of a dictionary from `pos`, just behind its `d`, up
/// to and with its `e`.
fn decode_dict(input: &[u8], pos: usize, depth: usize, lenient: bool) -> (r: Result<
    (BValue, usize),
    DecodeError,
>)
    requires
        pos <= input.len(),
    ensures
        outcome(r) == decode_entries(input@, pos as int, depth as nat, Seq::empty(), lenient),
        r matches Ok((_, end)) ==> pos < end <= input.len(),
    decreases depth, 1nat,
{
    let mut dict = Dictionary::new();
    let mut at: usize = pos;
    loop
        invariant
            pos <= at <= input.len(),
            decode_entries(input@, pos as int, depth as nat, Seq::empty(), lenient)
                == decode_entries(input@, at as int, depth as nat, dict@, lenient),
            keys_ascending(dict@),
        decreases input.len() - at,
    {
        if at < input.len() && input[at] == END {
            return Ok((BValue::Dict(dict), at + 1));
        }
        let (key, value_at) = match decode_value(input, at, depth, lenient) {
            Err(e) => {
                return Err(e);
            },
            Ok((BValue::Str(key), value_at)) => (key, value_at),
            Ok((_, _)) => {
                return fail(DecodeErrorKind::NonStringKey, at);
            },
        };
        let count = dict.len();
        let mut comes_last = true;
        if count > 0 {
            let entries = dict.entries();
            match compare_keys(entries[count - 1].0.as_slice(), key.as_slice()) {
                KeyOrder::Before => {},
                KeyOrder::Same => {
                    assert(dict@[count - 1].0 == key@);
                    return fail(DecodeErrorKind::DuplicateKey, at);
                },
                KeyOrder::After => {
                    if dict.contains_key(key.as_slice()) {
                        return fail(DecodeErrorKind::DuplicateKey, at);
                    } else if !lenient {
                        return fail(DecodeErrorKind::UnorderedKeys, at);
                    }
                    comes_last = false;
                },
            }
        }
        proof {
            if comes_last {
                lemma_keys_before(dict@, key@);
            }
        }
        if value_at >= input.len() || input[value_at] == END {
            return fail(DecodeErrorKind::TruncatedDictionary, value_at);
        }
        match decode_value(input, value_at, depth, lenient) {
            Err(e) => {
                return Err(e);
            },
            Ok((value, next)) => {
                proof {
                    lemma_insert_entry(dict@, key@, value@);
                    if comes_last {
                        lemma_insert_last(dict@, key@, value@);
                    }
                }
                if comes_last {
                    dict.push_last(key, value);
                } else {
                    dict.insert(key, value);
                }
                at = next;
            },
        }
    }
}

} // verus!
