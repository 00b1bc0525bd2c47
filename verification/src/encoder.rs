//! The encoder: from a value to its canonical bytes.

use vstd::prelude::*;
use crate::decimal::push_decimal;
use crate::syntax::{
    encode_entries, encode_items, encode_str, encode_value, COLON, DICT_START, END,
    INT_START, LIST_START, MINUS,
};
use crate::model::{keys_ascending, lemma_dict_nesting, lemma_list_nesting, Value};
use crate::value::{entries_of, values_of, BValue};

verus! {

/// Encodes a value in canonical form: integers in minimal decimal, strings
/// with their exact length, dictionary entries in ascending key order.
///
/// Every value encodes; the result also states that the value is
/// well-formed, which holds of every `BValue`.
pub fn encode(value: &BValue) -> (out: Vec<u8>)
    ensures
        out@ == encode_value(value@),
        value@.wf(),
{
    let mut out: Vec<u8> = Vec::new();
    encode_into(value, &mut out);
    assert(out@ =~= encode_value(value@));
    out
}

/// Appends the encoding of a byte string to `out`.
fn push_str(out: &mut Vec<u8>, bytes: &Vec<u8>)
    ensures
        final(out)@ == old(out)@ + encode_str(bytes@),
{
    push_decimal(out, bytes.len() as u64);
    out.push(COLON);
    out.extend_from_slice(bytes.as_slice());
    assert(out@ =~= old(out)@ + encode_str(bytes@));
}

/// Appends the canonical encoding of `value` to `out`.
pub fn encode_into(value: &BValue, out: &mut Vec<u8>)
    ensures
        final(out)@ == old(out)@ + encode_value(value@),
        value@.wf(),
    decreases value@.nesting(),
{
    let ghost start = out@;
    match value {
        BValue::Int(i) => {
            out.push(INT_START);
            if *i < 0 {
                out.push(MINUS);
                let magnitude: u64 = (-(*i + 1)) as u64 + 1;
                push_decimal(out, magnitude);
            } else {
                push_decimal(out, *i as u64);
            }
            out.push(END);
            assert(out@ =~= start + encode_value(value@));
        },
        BValue::Str(bytes) => {
            push_str(out, bytes);
        },
        BValue::List(items) => {
            out.push(LIST_START);
            let ghost models = values_of(items@);
            let mut i: usize = 0;
            proof {
                assert(models.skip(0) =~= models);
            }
            while i < items.len()
                invariant
                    i <= items.len(),
                    models == values_of(items@),
                    value@ == Value::List(models),
                    out@ + encode_items(models.skip(i as int)) == start + seq![LIST_START]
                        + encode_items(models),
                    forall|j: int| 0 <= j < i ==> (#[trigger] models[j]).wf(),
                decreases items.len() - i,
            {
                let ghost before = out@;
                proof {
                    lemma_list_nesting(models, (value@.nesting() - 1) as nat);
                    assert(models[i as int] == items[i as int]@);
                }
                encode_into(&items[i], out);
                proof {
                    let rest = models.skip(i as int);
                    assert(rest[0] == models[i as int]);
                    assert(rest.drop_first() =~= models.skip(i + 1));
                    assert(out@ + encode_items(models.skip(i + 1)) =~= before + encode_items(
                        rest,
                    ));
                }
                i += 1;
            }
            out.push(END);
            proof {
                assert(models.skip(i as int) =~= Seq::<Value>::empty());
                assert(out@ =~= start + encode_value(value@));
            }
        },
        BValue::Dict(dict) => {
            out.push(DICT_START);
            let entries = dict.entries();
            let ghost models = entries_of(entries@);
            let mut i: usize = 0;
            proof {
                assert(models.skip(0) =~= models);
            }
            while i < entries.len()
                invariant
                    i <= entries.len(),
                    models == entries_of(entries@),
                    value@ == Value::Dict(models),
                    keys_ascending(models),
                    out@ + encode_entries(models.skip(i as int)) == start + seq![DICT_START]
                        + encode_entries(models),
                    forall|j: int| 0 <= j < i ==> (#[trigger] models[j]).1.wf(),
                decreases entries.len() - i,
            {
                let ghost before = out@;
                proof {
                    lemma_dict_nesting(models, (value@.nesting() - 1) as nat);
                    assert(models[i as int].1 == entries[i as int].1@);
                    assert(models[i as int].0 == entries[i as int].0@);
                }
                push_str(out, &entries[i].0);
                encode_into(&entries[i].1, out);
                proof {
                    let rest = models.skip(i as int);
                    assert(rest[0] == models[i as int]);
                    assert(rest.drop_first() =~= models.skip(i + 1));
                    assert(out@ + encode_entries(models.skip(i + 1)) =~= before + encode_entries(
                        rest,
                    ));
                }
                i += 1;
            }
            out.push(END);
            proof {
                assert(models.skip(i as int) =~= Seq::<(Seq<u8>, Value)>::empty());
                assert(out@ =~= start + encode_value(value@));
            }
        },
    }
}

} // verus!
