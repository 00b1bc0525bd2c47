//! Bencode values as the program holds them.

use vstd::prelude::*;
use vstd::slice::slice_to_vec;
use vstd::string::StringSliceAdditionalSpecFns;
use crate::model::{
    has_key, keys_ascending, lemma_dict_nesting, lemma_insert_last, lemma_key_index,
    lemma_list_nesting, lemma_put_entry, lemma_rank_is, lookup, put_entry, rank, Value,
};
use crate::order::{
    compare_keys, lemma_lex_lt_irreflexive, lemma_lex_lt_total, lemma_lex_lt_transitive, lex_lt,
    KeyOrder,
};

verus! {

/// A Bencode value.
#[derive(Debug, PartialEq, Eq)]
pub enum BValue {
    /// A signed integer.
    Int(i64),
    /// A string of raw bytes, not necessarily text.
    Str(Vec<u8>),
    /// An ordered list of values.
    List(Vec<BValue>),
    /// A dictionary with unique keys, held in key order.
    Dict(Dictionary),
}

/// A dictionary from byte-string keys to values, held in strictly ascending
/// key order.
#[derive(Debug, PartialEq, Eq)]
pub struct Dictionary {
    entries: Vec<(Vec<u8>, BValue)>,
}

/// The model of an executable value.
pub open spec fn value_of(b: BValue) -> Value
    decreases b,
{
    match b {
        BValue::Int(i) => Value::Int(i as int),
        BValue::Str(s) => Value::Str(s@),
        BValue::List(items) => Value::List(values_of(items@)),
        BValue::Dict(d) => Value::Dict(d.model()),
    }
}

/// The models of the items of a list.
pub open spec fn values_of(items: Seq<BValue>) -> Seq<Value>
    decreases items,
{
    Seq::new(
        items.len(),
        |i: int|
            if 0 <= i < items.len() {
                value_of(items[i])
            } else {
                Value::Int(0)
            },
    )
}

/// The models of the entries of a dictionary: each key with the model of its
/// value.
pub open spec fn entries_of(entries: Seq<(Vec<u8>, BValue)>) -> Seq<(Seq<u8>, Value)>
    decreases entries,
{
    Seq::new(
        entries.len(),
        |i: int|
            if 0 <= i < entries.len() {
                (entries[i].0@, value_of(entries[i].1))
            } else {
                (Seq::empty(), Value::Int(0))
            },
    )
}

impl View for BValue {
    type V = Value;

    open spec fn view(&self) -> Value {
        value_of(*self)
    }
}

impl View for Dictionary {
    type V = Seq<(Seq<u8>, Value)>;

    /// The entries in key order, each key with the model of its value.
    open spec fn view(&self) -> Seq<(Seq<u8>, Value)> {
        self.model()
    }
}

impl Dictionary {
    /// The entries in key order, each key with the model of its value.
    pub closed spec fn model(self) -> Seq<(Seq<u8>, Value)>
        decreases self,
    {
        entries_of(self.entries@)
    }

    #[verifier::type_invariant]
    spec fn inv(self) -> bool {
        keys_ascending(self@)
    }

    /// An empty dictionary.
    pub fn new() -> (d: Dictionary)
        ensures
            d@ == Seq::<(Seq<u8>, Value)>::empty(),
    {
        let d = Dictionary { entries: Vec::new() };
        assert(d@ =~= Seq::empty());
        d
    }

    /// The number of entries.
    pub fn len(&self) -> (n: usize)
        ensures
            n == self@.len(),
    {
        self.entries.len()
    }

    /// Whether the dictionary has no entries.
    pub fn is_empty(&self) -> (b: bool)
        ensures
            b == (self@.len() == 0),
    {
        self.entries.len() == 0
    }

    /// The entries in key order, with the fact that this is the order of
    /// the keys.
    pub fn entries(&self) -> (entries: &Vec<(Vec<u8>, BValue)>)
        ensures
            entries@.len() == self@.len(),
            entries_of(entries@) == self@,
            keys_ascending(self@),
    {
        proof {
            use_type_invariant(self);
        }
        &self.entries
    }

    /// Looks for `key` by binary search: the place of the entry that has it,
    /// or else the place at which an entry with it would go.
    pub fn search(&self, key: &[u8]) -> (r: Result<usize, usize>)
        ensures
            match r {
                Ok(at) => at < self@.len() && self@[at as int].0 == key@,
                Err(at) => !has_key(self@, key@) && at == rank(self@, key@) && at <= self@.len(),
            },
    {
        proof {
            use_type_invariant(self);
        }
        let mut low: usize = 0;
        let mut high: usize = self.entries.len();
        while low < high
            invariant
                low <= high <= self@.len(),
                self@ == entries_of(self.entries@),
                keys_ascending(self@),
                forall|i: int| 0 <= i < low ==> lex_lt((#[trigger] self@[i]).0, key@),
                forall|i: int| high <= i < self@.len() ==> lex_lt(key@, (#[trigger] self@[i]).0),
            decreases high - low,
        {
            let mid = low + (high - low) / 2;
            match compare_keys(self.entries[mid].0.as_slice(), key) {
                KeyOrder::Same => {
                    return Ok(mid);
                },
                KeyOrder::Before => {
                    proof {
                        assert forall|i: int| 0 <= i < mid + 1 implies lex_lt(
                            (#[trigger] self@[i]).0,
                            key@,
                        ) by {
                            if i < mid {
                                assert(lex_lt(self@[i].0, self@[mid as int].0));
                                lemma_lex_lt_transitive(self@[i].0, self@[mid as int].0, key@);
                            }
                        }
                    }
                    low = mid + 1;
                },
                KeyOrder::After => {
                    proof {
                        lemma_lex_lt_total(self@[mid as int].0, key@);
                        assert forall|i: int| mid <= i < self@.len() implies lex_lt(
                            key@,
                            (#[trigger] self@[i]).0,
                        ) by {
                            if mid < i {
                                assert(lex_lt(self@[mid as int].0, self@[i].0));
                                lemma_lex_lt_transitive(key@, self@[mid as int].0, self@[i].0);
                            }
                        }
                    }
                    high = mid;
                },
            }
        }
        proof {
            assert forall|i: int| low <= i < self@.len() implies !lex_lt(
                (#[trigger] self@[i]).0,
                key@,
            ) && self@[i].0 != key@ by {
                lemma_lex_lt_total(self@[i].0, key@);
                lemma_lex_lt_irreflexive(key@);
            }
            assert forall|i: int| 0 <= i < low implies (#[trigger] self@[i]).0 != key@ by {
                lemma_lex_lt_irreflexive(key@);
            }
            lemma_rank_is(self@, key@, low as int);
        }
        Err(low)
    }

    /// Whether `key` is a key of the dictionary.
    pub fn contains_key(&self, key: &[u8]) -> (b: bool)
        ensures
            b == has_key(self@, key@),
    {
        match self.search(key) {
            Ok(at) => true,
            Err(_) => false,
        }
    }

    /// The value under `key`, if the dictionary has the key.
    pub fn get(&self, key: &[u8]) -> (r: Option<&BValue>)
        ensures
            match r {
                Some(value) => lookup(self@, key@) == Some(value@),
                None => lookup(self@, key@) is None,
            },
    {
        proof {
            use_type_invariant(self);
        }
        match self.search(key) {
            Ok(at) => {
                proof {
                    lemma_key_index(self@, key@, at as int);
                }
                Some(&self.entries[at].1)
            },
            Err(_) => None,
        }
    }

    /// Puts `value` under `key`, in place of the value that was there, if
    /// any, which is handed back. The entries stay in key order.
    pub fn insert(&mut self, key: Vec<u8>, value: BValue) -> (previous: Option<BValue>)
        ensures
            final(self)@ == put_entry(old(self)@, key@, value@),
            match previous {
                Some(v) => lookup(old(self)@, key@) == Some(v@),
                None => lookup(old(self)@, key@) is None,
            },
    {
        proof {
            use_type_invariant(&*self);
        }
        let found = self.search(key.as_slice());
        let ghost before = self@;
        let ghost k = key@;
        let ghost v = value@;
        proof {
            lemma_put_entry(before, k, v);
        }
        let mut entries: Vec<(Vec<u8>, BValue)> = Vec::new();
        core::mem::swap(&mut self.entries, &mut entries);
        let previous = match found {
            Ok(at) => {
                let replaced = entries.remove(at);
                entries.insert(at, (key, value));
                proof {
                    lemma_key_index(before, k, at as int);
                    assert(entries_of(entries@) =~= before.update(at as int, (k, v)));
                }
                Some(replaced.1)
            },
            Err(at) => {
                entries.insert(at, (key, value));
                proof {
                    assert(entries_of(entries@) =~= before.insert(at as int, (k, v)));
                }
                None
            },
        };
        core::mem::swap(&mut self.entries, &mut entries);
        previous
    }

    /// The dictionary of the given entries, if their keys are strictly
    /// ascending; none if a key repeats or comes out of order.
    pub fn from_entries(entries: Vec<(Vec<u8>, BValue)>) -> (r: Option<Dictionary>)
        ensures
            match r {
                Some(d) => d@ == entries_of(entries@) && keys_ascending(d@),
                None => !keys_ascending(entries_of(entries@)),
            },
    {
        let ghost models = entries_of(entries@);
        let mut i: usize = 1;
        while i < entries.len()
            invariant
                1 <= i,
                models == entries_of(entries@),
                forall|a: int, b: int|
                    0 <= a < b < i && b < models.len() ==> lex_lt(
                        #[trigger] models[a].0,
                        #[trigger] models[b].0,
                    ),
            decreases entries.len() - i,
        {
            match compare_keys(entries[i - 1].0.as_slice(), entries[i].0.as_slice()) {
                KeyOrder::Before => {},
                _ => {
                    proof {
                        assert(models[i - 1].0 == entries[i - 1].0@);
                        assert(models[i as int].0 == entries[i as int].0@);
                        lemma_lex_lt_irreflexive(models[i as int].0);
                        assert(!lex_lt(models[i - 1].0, models[i as int].0));
                    }
                    return None;
                },
            }
            proof {
                assert forall|a: int, b: int| 0 <= a < b < i + 1 && b < models.len() implies lex_lt(
                    #[trigger] models[a].0,
                    #[trigger] models[b].0,
                ) by {
                    if b == i && a < i - 1 {
                        assert(lex_lt(models[a].0, models[i - 1].0));
                        lemma_lex_lt_transitive(models[a].0, models[i - 1].0, models[b].0);
                    }
                }
            }
            i += 1;
        }
        Some(Dictionary { entries })
    }

    /// Adds an entry whose key comes after every key of the dictionary.
    pub(crate) fn push_last(&mut self, key: Vec<u8>, value: BValue)
        requires
            old(self)@.len() > 0 ==> lex_lt(old(self)@.last().0, key@),
        ensures
            final(self)@ == old(self)@.push((key@, value@)),
    {
        proof {
            use_type_invariant(&*self);
        }
        let ghost before = self@;
        let ghost k = key@;
        let ghost v = value@;
        let mut entries: Vec<(Vec<u8>, BValue)> = Vec::new();
        core::mem::swap(&mut self.entries, &mut entries);
        entries.push((key, value));
        proof {
            lemma_insert_last(before, k, v);
            assert(entries_of(entries@) =~= before.push((k, v)));
        }
        core::mem::swap(&mut self.entries, &mut entries);
    }
}

impl BValue {
    /// A byte string with the bytes given.
    pub fn from_bytes(bytes: &[u8]) -> (value: BValue)
        ensures
            value@ == Value::Str(bytes@),
    {
        BValue::Str(slice_to_vec(bytes))
    }

    /// A byte string with the bytes of the text given, which are its UTF-8
    /// encoding.
    pub fn from_text(text: &str) -> (value: BValue)
        ensures
            value@ == Value::Str(text.spec_bytes()),
    {
        BValue::Str(slice_to_vec(text.as_bytes()))
    }

    /// The integer, if the value is one.
    pub fn as_int(&self) -> (r: Option<i64>)
        ensures
            match r {
                Some(i) => self@ == Value::Int(i as int),
                None => self@ !is Int,
            },
    {
        match self {
            BValue::Int(i) => Some(*i),
            _ => None,
        }
    }

    /// The bytes, if the value is a byte string.
    pub fn as_bytes(&self) -> (r: Option<&[u8]>)
        ensures
            match r {
                Some(bytes) => self@ == Value::Str(bytes@),
                None => self@ !is Str,
            },
    {
        match self {
            BValue::Str(bytes) => Some(bytes.as_slice()),
            _ => None,
        }
    }

    /// The items, if the value is a list.
    pub fn as_list(&self) -> (r: Option<&Vec<BValue>>)
        ensures
            match r {
                Some(items) => self@ == Value::List(values_of(items@)),
                None => self@ !is List,
            },
    {
        match self {
            BValue::List(items) => Some(items),
            _ => None,
        }
    }

    /// The dictionary, if the value is one.
    pub fn as_dict(&self) -> (r: Option<&Dictionary>)
        ensures
            match r {
                Some(dict) => self@ == Value::Dict(dict@),
                None => self@ !is Dict,
            },
    {
        match self {
            BValue::Dict(dict) => Some(dict),
            _ => None,
        }
    }
}

impl Clone for BValue {
    /// A copy that stands for the same value.
    fn clone(&self) -> (copy: BValue)
        ensures
            copy@ == self@,
        decreases self@.nesting(), 1nat,
    {
        match self {
            BValue::Int(i) => BValue::Int(*i),
            BValue::Str(bytes) => {
                let copy = bytes.clone();
                assert(copy@ =~= bytes@);
                BValue::Str(copy)
            },
            BValue::List(items) => {
                let mut copies: Vec<BValue> = Vec::new();
                let mut i: usize = 0;
                while i < items.len()
                    invariant
                        i <= items.len(),
                        self@ == Value::List(values_of(items@)),
                        copies@.len() == i,
                        forall|j: int| 0 <= j < i ==> (#[trigger] copies@[j])@ == items@[j]@,
                    decreases items.len() - i,
                {
                    proof {
                        lemma_list_nesting(values_of(items@), (self@.nesting() - 1) as nat);
                        assert(values_of(items@)[i as int] == items@[i as int]@);
                    }
                    let copy = items[i].clone();
                    copies.push(copy);
                    i += 1;
                }
                assert(values_of(copies@) =~= values_of(items@));
                BValue::List(copies)
            },
            BValue::Dict(dict) => BValue::Dict(dict.clone()),
        }
    }
}

impl Clone for Dictionary {
    /// A copy with the same entries.
    fn clone(&self) -> (copy: Dictionary)
        ensures
            copy@ == self@,
        decreases Value::Dict(self@).nesting(), 0nat,
    {
        proof {
            use_type_invariant(self);
        }
        let mut copies: Vec<(Vec<u8>, BValue)> = Vec::new();
        let mut i: usize = 0;
        while i < self.entries.len()
            invariant
                i <= self.entries.len(),
                self@ == entries_of(self.entries@),
                copies@.len() == i,
                forall|j: int|
                    0 <= j < i ==> {
                        &&& (#[trigger] copies@[j]).0@ == self.entries@[j].0@
                        &&& copies@[j].1@ == self.entries@[j].1@
                    },
            decreases self.entries.len() - i,
        {
            proof {
                lemma_dict_nesting(self@, (Value::Dict(self@).nesting() - 1) as nat);
                assert(self@[i as int].1 == self.entries@[i as int].1@);
            }
            let key = self.entries[i].0.clone();
            assert(key@ =~= self.entries@[i as int].0@);
            let value = self.entries[i].1.clone();
            copies.push((key, value));
            i += 1;
        }
        assert(entries_of(copies@) =~= self@);
        Dictionary { entries: copies }
    }
}

} // verus!
