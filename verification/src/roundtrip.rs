//! Decoding undoes encoding: the decode of a canonical encoding, wherever in
//! an input it stands, is the value that was encoded.

use vstd::prelude::*;
use crate::decimal::{digits_of, is_digit, lemma_digit_run_stops, lemma_digits_of};
use crate::error::DecodeErrorKind;
use crate::model::{
    has_key, insert_entry, keys_ascending, lemma_dict_nesting, lemma_insert_last,
    lemma_list_nesting, Value,
};
use crate::order::{lemma_lex_lt_irreflexive, lex_lt};
use crate::syntax::{
    decode_at, decode_entries, decode_int_at, decode_items, decode_str_at, encode_entries,
    encode_items, encode_str, encode_value, spec_decode, success, Decoded, COLON,
    DICT_START, END, INT_START, LIST_START, MINUS,
};

verus! {

/// The bytes `t` stand in `s` from `pos` on.
pub open spec fn occurs_at(s: Seq<u8>, pos: int, t: Seq<u8>) -> bool {
    0 <= pos && pos + t.len() <= s.len() && s.subrange(pos, pos + t.len()) == t
}

/// Where two stretches stand one behind the other, each stands in its place.
pub proof fn lemma_occurs_split(s: Seq<u8>, pos: int, a: Seq<u8>, b: Seq<u8>)
    requires
        occurs_at(s, pos, a + b),
    ensures
        occurs_at(s, pos, a),
        occurs_at(s, pos + a.len(), b),
{
    let whole = s.subrange(pos, pos + (a + b).len());
    assert forall|i: int| 0 <= i < a.len() implies s[pos + i] == a[i] by {
        assert(whole[i] == (a + b)[i]);
    }
    assert forall|i: int| 0 <= i < b.len() implies s[pos + a.len() + i] == b[i] by {
        assert(whole[a.len() + i] == (a + b)[a.len() + i]);
    }
    assert(s.subrange(pos, pos + a.len()) =~= a);
    assert(s.subrange(pos + a.len(), pos + a.len() + b.len()) =~= b);
}

/// What stands in `s` from `pos` on is read there byte by byte.
pub proof fn lemma_occurs_index(s: Seq<u8>, pos: int, t: Seq<u8>, i: int)
    requires
        occurs_at(s, pos, t),
        0 <= i < t.len(),
    ensures
        s[pos + i] == t[i],
{
    assert(s.subrange(pos, pos + t.len())[i] == t[i]);
}

/// The outcome of a decode that fails for too deep a nesting.
pub open spec fn too_deep(r: Decoded) -> bool {
    r matches Err(f) && f.kind == DecodeErrorKind::NestingTooDeep
}

/// The encoding of a byte string starts with a digit and holds two bytes at
/// least.
pub proof fn lemma_str_head(bytes: Seq<u8>)
    ensures
        encode_str(bytes).len() >= 2,
        is_digit(encode_str(bytes)[0]),
{
    lemma_digits_of(bytes.len());
}

/// An encoding holds two bytes at least and starts with `i`, `l`, `d` or a
/// digit.
pub proof fn lemma_encoding_head(v: Value)
    ensures
        encode_value(v).len() >= 2,
        ({
            let head = encode_value(v)[0];
            head == INT_START || head == LIST_START || head == DICT_START || is_digit(head)
        }),
{
    match v {
        Value::Int(i) => {},
        Value::Str(bytes) => {
            lemma_str_head(bytes);
        },
        Value::List(items) => {},
        Value::Dict(entries) => {},
    }
}

/// The encoding of an integer of 64 bits decodes to that integer.
pub proof fn lemma_decode_int_encoded(s: Seq<u8>, pos: int, i: int)
    requires
        i64::MIN <= i <= i64::MAX,
        occurs_at(s, pos, encode_value(Value::Int(i))),
    ensures
        decode_int_at(s, pos) == success(Value::Int(i), pos + encode_value(Value::Int(i)).len()),
{
    let magnitude: nat = if i < 0 {
        (-i) as nat
    } else {
        i as nat
    };
    let sign: int = if i < 0 {
        1
    } else {
        0
    };
    let digits = digits_of(magnitude);
    let encoded = encode_value(Value::Int(i));
    lemma_digits_of(magnitude);
    assert(encoded.len() == 2 + sign + digits.len());
    let first = pos + 1 + sign;
    let stop = first + digits.len();
    assert forall|j: int| 0 <= j < encoded.len() implies s[pos + j] == encoded[j] by {
        lemma_occurs_index(s, pos, encoded, j);
    }
    assert(s[pos + 1] == encoded[1]);
    if i < 0 {
        assert(encoded[1] == MINUS);
    } else {
        assert(encoded[1] == digits[0]);
    }
    assert forall|j: int| first <= j < stop implies is_digit(#[trigger] s[j]) by {
        assert(s[pos + (j - pos)] == encoded[j - pos]);
        assert(encoded[j - pos] == digits[j - first]);
    }
    assert(s[pos + (stop - pos)] == encoded[stop - pos]);
    assert(s[stop] == END);
    lemma_digit_run_stops(s, first, stop);
    assert(s.subrange(first, stop) =~= digits) by {
        assert forall|j: int| 0 <= j < digits.len() implies s[first + j] == digits[j] by {
            assert(s[pos + (first + j - pos)] == encoded[first + j - pos]);
        }
    }
    assert(s[pos + (first - pos)] == encoded[first - pos]);
    assert(s[first] == digits[0]);
}

/// The encoding of a byte string decodes to that string.
pub proof fn lemma_decode_str_encoded(s: Seq<u8>, pos: int, bytes: Seq<u8>)
    requires
        occurs_at(s, pos, encode_str(bytes)),
    ensures
        decode_str_at(s, pos) == success(Value::Str(bytes), pos + encode_str(bytes).len()),
        is_digit(s[pos]),
{
    let digits = digits_of(bytes.len());
    let encoded = encode_str(bytes);
    lemma_digits_of(bytes.len());
    let stop = pos + digits.len();
    assert forall|j: int| 0 <= j < encoded.len() implies s[pos + j] == encoded[j] by {
        lemma_occurs_index(s, pos, encoded, j);
    }
    assert forall|j: int| pos <= j < stop implies is_digit(#[trigger] s[j]) by {
        assert(s[pos + (j - pos)] == encoded[j - pos]);
        assert(encoded[j - pos] == digits[j - pos]);
    }
    assert(s[pos + (stop - pos)] == encoded[stop - pos]);
    assert(s[stop] == COLON);
    lemma_digit_run_stops(s, pos, stop);
    assert(s.subrange(pos, stop) =~= digits) by {
        assert forall|j: int| 0 <= j < digits.len() implies s[pos + j] == digits[j] by {
            assert(encoded[j] == digits[j]);
        }
    }
    assert(s.subrange(stop + 1, stop + 1 + bytes.len()) =~= bytes) by {
        assert forall|j: int| 0 <= j < bytes.len() implies s[stop + 1 + j] == bytes[j] by {
            assert(s[pos + (stop + 1 + j - pos)] == encoded[stop + 1 + j - pos]);
        }
    }
    assert(s[pos + 0] == encoded[0]);
}

/// The decode of the encoding of a well-formed value, wherever it stands:
/// the value and the position behind the encoding if the value nests within
/// `depth`, and the failure for too deep a nesting if it does not.
pub proof fn lemma_decode_encoded(s: Seq<u8>, pos: int, v: Value, depth: nat, lenient: bool)
    requires
        v.wf(),
        occurs_at(s, pos, encode_value(v)),
    ensures
        v.nesting() <= depth ==> decode_at(s, pos, depth, lenient) == success(
            v,
            pos + encode_value(v).len(),
        ),
        v.nesting() > depth ==> too_deep(decode_at(s, pos, depth, lenient)),
    decreases v,
{
    lemma_encoding_head(v);
    lemma_occurs_index(s, pos, encode_value(v), 0);
    match v {
        Value::Int(i) => {
            lemma_decode_int_encoded(s, pos, i);
        },
        Value::Str(bytes) => {
            lemma_decode_str_encoded(s, pos, bytes);
        },
        Value::List(items) => {
            let body = encode_items(items) + seq![END];
            assert(encode_value(v) =~= seq![LIST_START] + body);
            lemma_occurs_split(s, pos, seq![LIST_START], body);
            if depth > 0 {
                let inner = (depth - 1) as nat;
                lemma_list_nesting(items, inner);
                lemma_decode_items_encoded(s, pos + 1, items, inner, Seq::empty(), lenient);
                assert(Seq::<Value>::empty() + items =~= items);
            } else {
                lemma_list_nesting(items, 0);
            }
        },
        Value::Dict(entries) => {
            let body = encode_entries(entries) + seq![END];
            assert(encode_value(v) =~= seq![DICT_START] + body);
            lemma_occurs_split(s, pos, seq![DICT_START], body);
            if depth > 0 {
                let inner = (depth - 1) as nat;
                lemma_dict_nesting(entries, inner);
                assert(Seq::<(Seq<u8>, Value)>::empty() + entries =~= entries);
                lemma_decode_entries_encoded(s, pos + 1, entries, inner, Seq::empty(), lenient);
            } else {
                lemma_dict_nesting(entries, 0);
            }
        },
    }
}

/// The decode of the encoded items of a list and its `e`, the items before
/// being `acc`.
pub proof fn lemma_decode_items_encoded(
    s: Seq<u8>,
    pos: int,
    items: Seq<Value>,
    depth: nat,
    acc: Seq<Value>,
    lenient: bool,
)
    requires
        forall|i: int| 0 <= i < items.len() ==> (#[trigger] items[i]).wf(),
        occurs_at(s, pos, encode_items(items) + seq![END]),
    ensures
        (forall|i: int| 0 <= i < items.len() ==> (#[trigger] items[i]).nesting() <= depth)
            ==> decode_items(s, pos, depth, acc, lenient) == success(
            Value::List(acc + items),
            pos + encode_items(items).len() + 1,
        ),
        !(forall|i: int| 0 <= i < items.len() ==> (#[trigger] items[i]).nesting() <= depth)
            ==> too_deep(decode_items(s, pos, depth, acc, lenient)),
    decreases items,
{
    if items.len() == 0 {
        lemma_occurs_index(s, pos, encode_items(items) + seq![END], 0);
        assert(acc + items =~= acc);
    } else {
        let item = items[0];
        let rest = items.drop_first();
        let tail = encode_items(rest) + seq![END];
        assert(encode_items(items) + seq![END] =~= encode_value(item) + tail);
        lemma_occurs_split(s, pos, encode_value(item), tail);
        lemma_encoding_head(item);
        lemma_occurs_index(s, pos, encode_value(item), 0);
        lemma_decode_encoded(s, pos, item, depth, lenient);
        let next = pos + encode_value(item).len();
        assert forall|i: int| 0 <= i < rest.len() implies (#[trigger] rest[i]).wf() by {
            assert(rest[i] == items[i + 1]);
        }
        lemma_decode_items_encoded(s, next, rest, depth, acc.push(item), lenient);
        assert(acc.push(item) + rest =~= acc + items);
        if forall|i: int| 0 <= i < items.len() ==> (#[trigger] items[i]).nesting() <= depth {
            assert forall|i: int| 0 <= i < rest.len() implies (#[trigger] rest[i]).nesting()
                <= depth by {
                assert(rest[i] == items[i + 1]);
            }
        } else if item.nesting() <= depth {
            let i = choose|i: int|
                0 <= i < items.len() && !((#[trigger] items[i]).nesting() <= depth);
            assert(rest[i - 1] == items[i]);
        }
    }
}

/// The decode of the encoded entries of a dictionary and its `e`, the
/// entries before being `acc`.
pub proof fn lemma_decode_entries_encoded(
    s: Seq<u8>,
    pos: int,
    entries: Seq<(Seq<u8>, Value)>,
    depth: nat,
    acc: Seq<(Seq<u8>, Value)>,
    lenient: bool,
)
    requires
        keys_ascending(acc + entries),
        forall|i: int| 0 <= i < entries.len() ==> (#[trigger] entries[i]).1.wf(),
        occurs_at(s, pos, encode_entries(entries) + seq![END]),
    ensures
        (forall|i: int| 0 <= i < entries.len() ==> (#[trigger] entries[i]).1.nesting() <= depth)
            ==> decode_entries(s, pos, depth, acc, lenient) == success(
            Value::Dict(acc + entries),
            pos + encode_entries(entries).len() + 1,
        ),
        !(forall|i: int| 0 <= i < entries.len() ==> (#[trigger] entries[i]).1.nesting() <= depth)
            ==> too_deep(decode_entries(s, pos, depth, acc, lenient)),
    decreases entries,
{
    if entries.len() == 0 {
        lemma_occurs_index(s, pos, encode_entries(entries) + seq![END], 0);
        assert(acc + entries =~= acc);
    } else {
        let key = entries[0].0;
        let value = entries[0].1;
        let rest = entries.drop_first();
        let all = acc + entries;
        let tail = encode_entries(rest) + seq![END];
        let behind_key = encode_value(value) + tail;
        assert(encode_entries(entries) + seq![END] =~= encode_str(key) + behind_key);
        lemma_occurs_split(s, pos, encode_str(key), behind_key);
        let at = pos + encode_str(key).len();
        lemma_occurs_split(s, at, encode_value(value), tail);
        let next = at + encode_value(value).len();
        // the key
        lemma_str_head(key);
        lemma_decode_str_encoded(s, pos, key);
        assert(decode_at(s, pos, depth, lenient) == success(Value::Str(key), at));
        // it is new and comes last
        assert(all[acc.len() as int] == entries[0]);
        assert forall|i: int| 0 <= i < acc.len() implies (#[trigger] acc[i]).0 != key by {
            assert(all[i] == acc[i]);
            assert(lex_lt(all[i].0, all[acc.len() as int].0));
            lemma_lex_lt_irreflexive(key);
        }
        assert(!has_key(acc, key));
        if acc.len() > 0 {
            assert(all[acc.len() - 1] == acc.last());
            assert(lex_lt(all[acc.len() - 1].0, all[acc.len() as int].0));
        }
        // the value
        lemma_encoding_head(value);
        lemma_occurs_index(s, at, encode_value(value), 0);
        lemma_decode_encoded(s, at, value, depth, lenient);
        // the rest
        let more = insert_entry(acc, key, value);
        assert(keys_ascending(acc)) by {
            assert forall|i: int, j: int| 0 <= i < j < acc.len() implies lex_lt(
                #[trigger] acc[i].0,
                #[trigger] acc[j].0,
            ) by {
                assert(lex_lt(all[i].0, all[j].0));
            }
        }
        lemma_insert_last(acc, key, value);
        assert(more + rest =~= all);
        assert forall|i: int| 0 <= i < rest.len() implies (#[trigger] rest[i]).1.wf() by {
            assert(rest[i] == entries[i + 1]);
        }
        lemma_decode_entries_encoded(s, next, rest, depth, more, lenient);
        if forall|i: int| 0 <= i < entries.len() ==> (#[trigger] entries[i]).1.nesting() <= depth {
            assert forall|i: int| 0 <= i < rest.len() implies (#[trigger] rest[i]).1.nesting()
                <= depth by {
                assert(rest[i] == entries[i + 1]);
            }
        } else if value.nesting() <= depth {
            let i = choose|i: int|
                0 <= i < entries.len() && !((#[trigger] entries[i]).1.nesting() <= depth);
            assert(rest[i - 1] == entries[i]);
        }
    }
}

/// Round trip: a well-formed value that nests within the limit decodes from
/// its encoding, and the decode takes up the whole encoding.
pub proof fn lemma_decode_encode(v: Value, max_depth: nat, lenient: bool)
    requires
        v.wf(),
        v.nesting() <= max_depth,
    ensures
        spec_decode(encode_value(v), max_depth, lenient) == success(
            v,
            encode_value(v).len() as int,
        ),
{
    let s = encode_value(v);
    assert(s.subrange(0, s.len() as int) =~= s);
    lemma_decode_encoded(s, 0, v, max_depth, lenient);
}

/// Round trip with bytes behind: the decode of an encoding that is followed
/// by anything yields the value and takes up the encoding alone.
pub proof fn lemma_decode_encode_then(v: Value, behind: Seq<u8>, max_depth: nat, lenient: bool)
    requires
        v.wf(),
        v.nesting() <= max_depth,
    ensures
        spec_decode(encode_value(v) + behind, max_depth, lenient) == success(
            v,
            encode_value(v).len() as int,
        ),
{
    let s = encode_value(v) + behind;
    assert(s.subrange(0, encode_value(v).len() as int) =~= encode_value(v));
    lemma_decode_encoded(s, 0, v, max_depth, lenient);
}

/// Canonical form is stable: encoding, decoding and encoding again gives
/// the bytes of the first encoding.
pub proof fn lemma_encode_decode_encode(v: Value, max_depth: nat, lenient: bool)
    requires
        v.wf(),
        v.nesting() <= max_depth,
    ensures
        spec_decode(encode_value(v), max_depth, lenient) matches Ok((w, _)) && encode_value(w)
            == encode_value(v),
{
    lemma_decode_encode(v, max_depth, lenient);
}

/// A value that nests deeper than the limit does not decode from its
/// encoding: the decode fails for too deep a nesting.
pub proof fn lemma_decode_too_deep(v: Value, max_depth: nat, lenient: bool)
    requires
        v.wf(),
        v.nesting() > max_depth,
    ensures
        too_deep(spec_decode(encode_value(v), max_depth, lenient)),
{
    let s = encode_value(v);
    assert(s.subrange(0, s.len() as int) =~= s);
    lemma_decode_encoded(s, 0, v, max_depth, lenient);
}

} // verus!
