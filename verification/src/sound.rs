//! What every successful decode yields: progress within the input, and a
//! well-formed value that nests no deeper than allowed.

use vstd::prelude::*;
use crate::decimal::lemma_digit_run_end;
use crate::model::{
    has_key, insert_entry, keys_ascending, lemma_dict_nesting, lemma_insert_entry,
    lemma_list_nesting, lemma_rank, rank, Value,
};
use crate::syntax::{
    decode_at, decode_entries, decode_int_at, decode_items, decode_str_at, spec_decode, Decoded,
    END, MINUS,
};

verus! {

/// If the decode from `pos` succeeded, it ended further on and within `len`
/// bytes.
pub open spec fn ends_within(decoded: Decoded, pos: int, len: nat) -> bool {
    decoded matches Ok((_, end)) ==> 0 <= pos < end <= len
}

/// If the decode succeeded, its value is well-formed and nests at most
/// `depth` deep.
pub open spec fn yields_sound(decoded: Decoded, depth: nat) -> bool {
    decoded matches Ok((v, _)) ==> v.wf() && v.nesting() <= depth
}

/// An integer that decodes ends within the input, three bytes on at least,
/// and fits in 64 bits.
pub proof fn lemma_decode_int_sound(s: Seq<u8>, pos: int)
    requires
        0 <= pos < s.len(),
    ensures
        ends_within(decode_int_at(s, pos), pos + 2, s.len()),
        yields_sound(decode_int_at(s, pos), 0),
{
    let sign: int = if pos + 1 < s.len() && s[pos + 1] == MINUS {
        1
    } else {
        0
    };
    lemma_digit_run_end(s, pos + 1 + sign);
}

/// A byte string that decodes ends further on, within the input.
pub proof fn lemma_decode_str_sound(s: Seq<u8>, pos: int)
    requires
        0 <= pos < s.len(),
    ensures
        ends_within(decode_str_at(s, pos), pos, s.len()),
        yields_sound(decode_str_at(s, pos), 0),
        decode_str_at(s, pos) matches Ok((v, _)) ==> v is Str,
{
    lemma_digit_run_end(s, pos);
}

/// A decode that succeeds ends further on, within the input.
pub proof fn lemma_decode_at_bounds(s: Seq<u8>, pos: int, depth: nat, lenient: bool)
    ensures
        ends_within(decode_at(s, pos, depth, lenient), pos, s.len()),
    decreases depth, s.len() - pos, 0nat,
{
    if 0 <= pos < s.len() {
        lemma_decode_int_sound(s, pos);
        lemma_decode_str_sound(s, pos);
        if depth > 0 {
            let inner = (depth - 1) as nat;
            lemma_decode_items_bounds(s, pos + 1, inner, Seq::empty(), lenient);
            lemma_decode_entries_bounds(s, pos + 1, inner, Seq::empty(), lenient);
        }
    }
}

/// The rest of a list that decodes ends further on, within the input.
pub proof fn lemma_decode_items_bounds(
    s: Seq<u8>,
    pos: int,
    depth: nat,
    acc: Seq<Value>,
    lenient: bool,
)
    ensures
        ends_within(decode_items(s, pos, depth, acc, lenient), pos, s.len()),
    decreases depth, s.len() - pos, 1nat,
{
    if !(0 <= pos < s.len() && s[pos] == END) {
        lemma_decode_at_bounds(s, pos, depth, lenient);
        match decode_at(s, pos, depth, lenient) {
            Ok((item, next)) => {
                if pos < next <= s.len() {
                    lemma_decode_items_bounds(s, next, depth, acc.push(item), lenient);
                }
            },
            Err(_) => {},
        }
    }
}

/// The rest of a dictionary that decodes ends further on, within the input.
pub proof fn lemma_decode_entries_bounds(
    s: Seq<u8>,
    pos: int,
    depth: nat,
    acc: Seq<(Seq<u8>, Value)>,
    lenient: bool,
)
    ensures
        ends_within(decode_entries(s, pos, depth, acc, lenient), pos, s.len()),
    decreases depth, s.len() - pos, 1nat,
{
    if !(0 <= pos < s.len() && s[pos] == END) {
        lemma_decode_at_bounds(s, pos, depth, lenient);
        match decode_at(s, pos, depth, lenient) {
            Ok((Value::Str(key), at)) => {
                if pos < at < s.len() {
                    lemma_decode_at_bounds(s, at, depth, lenient);
                    match decode_at(s, at, depth, lenient) {
                        Ok((value, next)) => {
                            if at < next <= s.len() {
                                let more = insert_entry(acc, key, value);
                                lemma_decode_entries_bounds(s, next, depth, more, lenient);
                            }
                        },
                        Err(_) => {},
                    }
                }
            },
            _ => {},
        }
    }
}

/// A value that decodes is well-formed and nests no deeper than allowed.
pub proof fn lemma_decode_at_sound(s: Seq<u8>, pos: int, depth: nat, lenient: bool)
    ensures
        yields_sound(decode_at(s, pos, depth, lenient), depth),
    decreases depth, s.len() - pos, 0nat,
{
    if 0 <= pos < s.len() {
        lemma_decode_int_sound(s, pos);
        lemma_decode_str_sound(s, pos);
        if depth > 0 {
            let inner = (depth - 1) as nat;
            lemma_decode_items_sound(s, pos + 1, inner, Seq::empty(), lenient);
            lemma_decode_entries_sound(s, pos + 1, inner, Seq::empty(), lenient);
        }
    }
}

/// The list that the rest of a list decodes to is well-formed and nests at
/// most one deeper than its items may, if the items before were so.
pub proof fn lemma_decode_items_sound(
    s: Seq<u8>,
    pos: int,
    depth: nat,
    acc: Seq<Value>,
    lenient: bool,
)
    requires
        forall|i: int| 0 <= i < acc.len() ==> (#[trigger] acc[i]).wf() && acc[i].nesting() <= depth,
    ensures
        yields_sound(decode_items(s, pos, depth, acc, lenient), depth + 1),
    decreases depth, s.len() - pos, 1nat,
{
    if 0 <= pos < s.len() && s[pos] == END {
        lemma_list_nesting(acc, depth);
    } else {
        lemma_decode_at_sound(s, pos, depth, lenient);
        match decode_at(s, pos, depth, lenient) {
            Ok((item, next)) => {
                if pos < next <= s.len() {
                    lemma_decode_items_sound(s, next, depth, acc.push(item), lenient);
                }
            },
            Err(_) => {},
        }
    }
}

/// The dictionary that the rest of a dictionary decodes to is well-formed
/// and nests at most one deeper than its values may, if the entries before
/// were so.
pub proof fn lemma_decode_entries_sound(
    s: Seq<u8>,
    pos: int,
    depth: nat,
    acc: Seq<(Seq<u8>, Value)>,
    lenient: bool,
)
    requires
        keys_ascending(acc),
        forall|i: int|
            0 <= i < acc.len() ==> (#[trigger] acc[i]).1.wf() && acc[i].1.nesting() <= depth,
    ensures
        yields_sound(decode_entries(s, pos, depth, acc, lenient), depth + 1),
    decreases depth, s.len() - pos, 1nat,
{
    if 0 <= pos < s.len() && s[pos] == END {
        lemma_dict_nesting(acc, depth);
    } else {
        lemma_decode_at_sound(s, pos, depth, lenient);
        lemma_decode_at_bounds(s, pos, depth, lenient);
        match decode_at(s, pos, depth, lenient) {
            Ok((Value::Str(key), at)) => {
                if at < s.len() && !has_key(acc, key) {
                    lemma_decode_at_sound(s, at, depth, lenient);
                    match decode_at(s, at, depth, lenient) {
                        Ok((value, next)) => {
                            if at < next <= s.len() {
                                let more = insert_entry(acc, key, value);
                                let place = rank(acc, key) as int;
                                lemma_insert_entry(acc, key, value);
                                lemma_rank(acc, key);
                                assert forall|i: int| 0 <= i < more.len() implies (
                                #[trigger] more[i]).1.wf() && more[i].1.nesting() <= depth by {
                                    if i < place {
                                        assert(more[i] == acc[i]);
                                    } else if i > place {
                                        assert(more[i] == acc[i - 1]);
                                    }
                                }
                                lemma_decode_entries_sound(s, next, depth, more, lenient);
                            }
                        },
                        Err(_) => {},
                    }
                }
            },
            _ => {},
        }
    }
}

/// Whatever decodes is a well-formed value that nests no deeper than the
/// limit, and takes up at least one byte and no more than the input holds.
pub proof fn lemma_decode_sound(s: Seq<u8>, max_depth: nat, lenient: bool)
    ensures
        spec_decode(s, max_depth, lenient) matches Ok((v, n)) ==> {
            &&& v.wf()
            &&& v.nesting() <= max_depth
            &&& 0 < n <= s.len()
        },
{
    lemma_decode_at_sound(s, 0, max_depth, lenient);
    lemma_decode_at_bounds(s, 0, max_depth, lenient);
}

} // verus!
