//! A decode looks at nothing but the bytes it takes up: on any input that
//! holds those bytes in that place the outcome is the same. It follows that
//! no encoding cut short decodes.

use vstd::prelude::*;
use crate::decimal::{lemma_digit_run_end, lemma_digit_run_stops};
use crate::roundtrip::lemma_decode_encoded;
use crate::sound::{
    lemma_decode_at_bounds, lemma_decode_entries_bounds, lemma_decode_items_bounds,
};
use crate::syntax::{
    decode_at, decode_entries, decode_int_at, decode_items, decode_str_at, encode_value,
    spec_decode, success, DICT_START, END, INT_START, LIST_START, MINUS,
};
use crate::model::{insert_entry, Value};

verus! {

/// `s` and `t` both reach to `to` and hold the same bytes from `from` up to
/// there.
pub open spec fn agree(s: Seq<u8>, t: Seq<u8>, from: int, to: int) -> bool {
    &&& to <= s.len()
    &&& to <= t.len()
    &&& forall|i: int| from <= i < to ==> s[i] == t[i]
}

/// An integer decodes alike from inputs that agree on its bytes.
pub proof fn lemma_decode_int_local(s: Seq<u8>, t: Seq<u8>, pos: int, v: Value, end: int)
    requires
        0 <= pos < s.len(),
        decode_int_at(s, pos) == success(v, end),
        agree(s, t, pos, end),
    ensures
        decode_int_at(t, pos) == success(v, end),
{
    let sign: int = if pos + 1 < s.len() && s[pos + 1] == MINUS {
        1
    } else {
        0
    };
    let first = pos + 1 + sign;
    let stop = end - 1;
    lemma_digit_run_end(s, first);
    assert(t[pos + 1] == s[pos + 1]);
    assert forall|i: int| first <= i < stop implies crate::decimal::is_digit(#[trigger] t[i]) by {
        assert(t[i] == s[i]);
    }
    assert(t[stop] == s[stop]);
    lemma_digit_run_stops(t, first, stop);
    assert(t.subrange(first, stop) =~= s.subrange(first, stop));
    assert(t[first] == s[first]);
}

/// A byte string decodes alike from inputs that agree on its bytes.
pub proof fn lemma_decode_str_local(s: Seq<u8>, t: Seq<u8>, pos: int, v: Value, end: int)
    requires
        0 <= pos < s.len(),
        decode_str_at(s, pos) == success(v, end),
        agree(s, t, pos, end),
    ensures
        decode_str_at(t, pos) == success(v, end),
{
    lemma_digit_run_end(s, pos);
    let stop = crate::decimal::digit_run_end(s, pos);
    assert forall|i: int| pos <= i < stop implies crate::decimal::is_digit(#[trigger] t[i]) by {
        assert(t[i] == s[i]);
    }
    assert(t[stop] == s[stop]);
    lemma_digit_run_stops(t, pos, stop);
    assert(t.subrange(pos, stop) =~= s.subrange(pos, stop));
    assert(t.subrange(stop + 1, end) =~= s.subrange(stop + 1, end));
}

/// A value decodes alike from inputs that agree on the bytes it takes up.
pub proof fn lemma_decode_at_local(
    s: Seq<u8>,
    t: Seq<u8>,
    pos: int,
    depth: nat,
    v: Value,
    end: int,
    lenient: bool,
)
    requires
        decode_at(s, pos, depth, lenient) == success(v, end),
        agree(s, t, pos, end),
    ensures
        decode_at(t, pos, depth, lenient) == success(v, end),
    decreases depth, s.len() - pos, 0nat,
{
    lemma_decode_at_bounds(s, pos, depth, lenient);
    assert(t[pos] == s[pos]);
    if s[pos] == INT_START {
        lemma_decode_int_local(s, t, pos, v, end);
    } else if s[pos] == LIST_START {
        lemma_decode_items_local(s, t, pos + 1, (depth - 1) as nat, Seq::empty(), v, end, lenient);
    } else if s[pos] == DICT_START {
        let inner = (depth - 1) as nat;
        lemma_decode_entries_local(s, t, pos + 1, inner, Seq::empty(), v, end, lenient);
    } else {
        lemma_decode_str_local(s, t, pos, v, end);
    }
}

/// The rest of a list decodes alike from inputs that agree on its bytes.
pub proof fn lemma_decode_items_local(
    s: Seq<u8>,
    t: Seq<u8>,
    pos: int,
    depth: nat,
    acc: Seq<Value>,
    v: Value,
    end: int,
    lenient: bool,
)
    requires
        decode_items(s, pos, depth, acc, lenient) == success(v, end),
        agree(s, t, pos, end),
    ensures
        decode_items(t, pos, depth, acc, lenient) == success(v, end),
    decreases depth, s.len() - pos, 1nat,
{
    lemma_decode_items_bounds(s, pos, depth, acc, lenient);
    assert(t[pos] == s[pos]);
    if s[pos] != END {
        match decode_at(s, pos, depth, lenient) {
            Ok((item, next)) => {
                lemma_decode_items_bounds(s, next, depth, acc.push(item), lenient);
                lemma_decode_at_local(s, t, pos, depth, item, next, lenient);
                lemma_decode_items_local(s, t, next, depth, acc.push(item), v, end, lenient);
            },
            Err(_) => {},
        }
    }
}

/// The rest of a dictionary decodes alike from inputs that agree on its
/// bytes.
pub proof fn lemma_decode_entries_local(
    s: Seq<u8>,
    t: Seq<u8>,
    pos: int,
    depth: nat,
    acc: Seq<(Seq<u8>, Value)>,
    v: Value,
    end: int,
    lenient: bool,
)
    requires
        decode_entries(s, pos, depth, acc, lenient) == success(v, end),
        agree(s, t, pos, end),
    ensures
        decode_entries(t, pos, depth, acc, lenient) == success(v, end),
    decreases depth, s.len() - pos, 1nat,
{
    lemma_decode_entries_bounds(s, pos, depth, acc, lenient);
    assert(t[pos] == s[pos]);
    if s[pos] != END {
        match decode_at(s, pos, depth, lenient) {
            Ok((Value::Str(key), at)) => {
                match decode_at(s, at, depth, lenient) {
                    Ok((value, next)) => {
                        lemma_decode_at_bounds(s, at, depth, lenient);
                        let more = insert_entry(acc, key, value);
                        lemma_decode_entries_bounds(s, next, depth, more, lenient);
                        lemma_decode_at_local(s, t, pos, depth, Value::Str(key), at, lenient);
                        assert(t[at] == s[at]);
                        lemma_decode_at_local(s, t, at, depth, value, next, lenient);
                        lemma_decode_entries_local(
                            s,
                            t,
                            next,
                            depth,
                            insert_entry(acc, key, value),
                            v,
                            end,
                            lenient,
                        );
                    },
                    Err(_) => {},
                }
            },
            _ => {},
        }
    }
}

/// A decode depends on the bytes it takes up and on no others: an input
/// that starts with the same `n` bytes decodes to the same value.
pub proof fn lemma_decode_local(
    s: Seq<u8>,
    t: Seq<u8>,
    max_depth: nat,
    v: Value,
    n: int,
    lenient: bool,
)
    requires
        spec_decode(s, max_depth, lenient) == success(v, n),
        n <= t.len(),
        t.subrange(0, n) == s.subrange(0, n),
    ensures
        spec_decode(t, max_depth, lenient) == success(v, n),
{
    lemma_decode_at_bounds(s, 0, max_depth, lenient);
    assert(0 < n <= s.len());
    assert forall|i: int| 0 <= i < n implies s[i] == t[i] by {
        assert(s.subrange(0, n)[i] == s[i]);
        assert(t.subrange(0, n)[i] == t[i]);
    }
    lemma_decode_at_local(s, t, 0, max_depth, v, n, lenient);
}

/// What decodes does not decode when cut short: an input cut anywhere within
/// the bytes that its value takes up fails.
pub proof fn lemma_cut_short_fails(
    s: Seq<u8>,
    cut: int,
    max_depth: nat,
    v: Value,
    n: int,
    lenient: bool,
)
    requires
        spec_decode(s, max_depth, lenient) == success(v, n),
        0 <= cut < n,
    ensures
        spec_decode(s.take(cut), max_depth, lenient) is Err,
{
    let part = s.take(cut);
    lemma_decode_at_bounds(s, 0, max_depth, lenient);
    match spec_decode(part, max_depth, lenient) {
        Ok((w, m)) => {
            lemma_decode_at_bounds(part, 0, max_depth, lenient);
            assert(s.subrange(0, m) =~= part.subrange(0, m));
            lemma_decode_local(part, s, max_depth, w, m, lenient);
        },
        Err(_) => {},
    }
}

/// An encoding cut short does not decode: for a well-formed value, every
/// proper prefix of its encoding fails, whatever the limit on nesting.
pub proof fn lemma_truncated_fails(v: Value, cut: int, max_depth: nat, lenient: bool)
    requires
        v.wf(),
        0 <= cut < encode_value(v).len(),
    ensures
        spec_decode(encode_value(v).take(cut), max_depth, lenient) is Err,
{
    let whole = encode_value(v);
    let part = whole.take(cut);
    match spec_decode(part, max_depth, lenient) {
        Ok((w, n)) => {
            lemma_decode_at_bounds(part, 0, max_depth, lenient);
            assert(whole.subrange(0, n) =~= part.subrange(0, n));
            lemma_decode_local(part, whole, max_depth, w, n, lenient);
            assert(whole.subrange(0, whole.len() as int) =~= whole);
            lemma_decode_encoded(whole, 0, v, max_depth, lenient);
        },
        Err(_) => {},
    }
}

} // verus!
