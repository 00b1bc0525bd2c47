//! The mathematical model of Bencode values.

use vstd::prelude::*;
use crate::order::{
    lemma_lex_lt_irreflexive, lemma_lex_lt_total, lemma_lex_lt_transitive, lex_lt,
};

verus! {

/// The mathematical model of a Bencode value.
pub enum Value {
    /// A signed integer.
    Int(int),
    /// A string of raw bytes.
    Str(Seq<u8>),
    /// An ordered list of values.
    List(Seq<Value>),
    /// A dictionary, as its entries in key order.
    Dict(Seq<(Seq<u8>, Value)>),
}

/// The keys of `entries` are strictly ascending, hence unique.
pub open spec fn keys_ascending(entries: Seq<(Seq<u8>, Value)>) -> bool {
    forall|i: int, j: int|
        0 <= i < j < entries.len() ==> lex_lt(#[trigger] entries[i].0, #[trigger] entries[j].0)
}

/// `key` is the key of one of `entries`.
pub open spec fn has_key(entries: Seq<(Seq<u8>, Value)>, key: Seq<u8>) -> bool {
    exists|i: int| 0 <= i < entries.len() && (#[trigger] entries[i]).0 == key
}

/// Where the last of ascending keys comes before `key`, all of them do, and
/// `key` is none of them.
pub proof fn lemma_keys_before(entries: Seq<(Seq<u8>, Value)>, key: Seq<u8>)
    requires
        keys_ascending(entries),
        entries.len() > 0 ==> lex_lt(entries.last().0, key),
    ensures
        forall|i: int| 0 <= i < entries.len() ==> lex_lt((#[trigger] entries[i]).0, key),
        !has_key(entries, key),
{
    assert forall|i: int| 0 <= i < entries.len() implies lex_lt((#[trigger] entries[i]).0, key) by {
        if i < entries.len() - 1 {
            assert(lex_lt(entries[i].0, entries[entries.len() - 1].0));
            lemma_lex_lt_transitive(entries[i].0, entries.last().0, key);
        }
    }
    if has_key(entries, key) {
        let i = choose|i: int| 0 <= i < entries.len() && (#[trigger] entries[i]).0 == key;
        assert(lex_lt(entries[i].0, key));
        lemma_lex_lt_irreflexive(key);
    }
}

impl Value {
    /// The value can be held by a `BValue`: every integer fits in 64 bits and
    /// every dictionary, at any depth, has strictly ascending keys.
    pub open spec fn wf(self) -> bool
        decreases self,
    {
        match self {
            Value::Int(i) => i64::MIN <= i <= i64::MAX,
            Value::Str(_) => true,
            Value::List(items) => forall|i: int|
                0 <= i < items.len() ==> (#[trigger] items[i]).wf(),
            Value::Dict(entries) => {
                &&& keys_ascending(entries)
                &&& forall|i: int| 0 <= i < entries.len() ==> (#[trigger] entries[i]).1.wf()
            },
        }
    }

    /// How deep lists and dictionaries nest in the value: nothing for an
    /// integer or a string, and for a list or dictionary one more than the
    /// deepest of what it holds.
    pub open spec fn nesting(self) -> nat
        decreases self,
    {
        match self {
            Value::Int(_) => 0,
            Value::Str(_) => 0,
            Value::List(items) => 1 + deepest(item_depths(items)),
            Value::Dict(entries) => 1 + deepest(entry_depths(entries)),
        }
    }
}

/// How deep each item of a list nests.
pub open spec fn item_depths(items: Seq<Value>) -> Seq<nat>
    decreases items,
{
    Seq::new(
        items.len(),
        |i: int|
            if 0 <= i < items.len() {
                items[i].nesting()
            } else {
                0
            },
    )
}

/// How deep the value of each entry of a dictionary nests.
pub open spec fn entry_depths(entries: Seq<(Seq<u8>, Value)>) -> Seq<nat>
    decreases entries,
{
    Seq::new(
        entries.len(),
        |i: int|
            if 0 <= i < entries.len() {
                entries[i].1.nesting()
            } else {
                0
            },
    )
}

/// The greatest of `depths`, zero where there are none.
pub open spec fn deepest(depths: Seq<nat>) -> nat
    decreases depths.len(),
{
    if depths.len() == 0 {
        0
    } else if depths.last() > deepest(depths.drop_last()) {
        depths.last()
    } else {
        deepest(depths.drop_last())
    }
}

/// The greatest of `depths` is within a bound just when each of them is.
pub proof fn lemma_deepest(depths: Seq<nat>, bound: nat)
    ensures
        deepest(depths) <= bound <==> forall|i: int|
            0 <= i < depths.len() ==> #[trigger] depths[i] <= bound,
    decreases depths.len(),
{
    if depths.len() > 0 {
        let rest = depths.drop_last();
        lemma_deepest(rest, bound);
        if deepest(depths) <= bound {
            assert forall|i: int| 0 <= i < depths.len() implies #[trigger] depths[i] <= bound by {
                if i < rest.len() {
                    assert(rest[i] == depths[i]);
                }
            }
        } else {
            if depths.last() <= bound {
                let i = choose|i: int| 0 <= i < rest.len() && !(#[trigger] rest[i] <= bound);
                assert(depths[i] == rest[i]);
            }
        }
    }
}

/// A list nests one deeper than the deepest of its items.
pub proof fn lemma_list_nesting(items: Seq<Value>, bound: nat)
    ensures
        Value::List(items).nesting() >= 1,
        Value::List(items).nesting() <= bound + 1 <==> forall|i: int|
            0 <= i < items.len() ==> (#[trigger] items[i]).nesting() <= bound,
{
    let depths = item_depths(items);
    lemma_deepest(depths, bound);
    if deepest(depths) <= bound {
        assert forall|i: int| 0 <= i < items.len() implies (#[trigger] items[i]).nesting()
            <= bound by {
            assert(depths[i] <= bound);
        }
    } else {
        let i = choose|i: int| 0 <= i < depths.len() && !(#[trigger] depths[i] <= bound);
        assert(items[i].nesting() == depths[i]);
    }
}

/// A dictionary nests one deeper than the deepest of its values.
pub proof fn lemma_dict_nesting(entries: Seq<(Seq<u8>, Value)>, bound: nat)
    ensures
        Value::Dict(entries).nesting() >= 1,
        Value::Dict(entries).nesting() <= bound + 1 <==> forall|i: int|
            0 <= i < entries.len() ==> (#[trigger] entries[i]).1.nesting() <= bound,
{
    let depths = entry_depths(entries);
    lemma_deepest(depths, bound);
    if deepest(depths) <= bound {
        assert forall|i: int| 0 <= i < entries.len() implies (#[trigger] entries[i]).1.nesting()
            <= bound by {
            assert(depths[i] <= bound);
        }
    } else {
        let i = choose|i: int| 0 <= i < depths.len() && !(#[trigger] depths[i] <= bound);
        assert(entries[i].1.nesting() == depths[i]);
    }
}

// ----------------------------------------------------------------------
// Dictionaries as mappings
// ----------------------------------------------------------------------

/// The place of an entry with the given key, if there is one.
pub open spec fn key_index(entries: Seq<(Seq<u8>, Value)>, key: Seq<u8>) -> int {
    choose|i: int| 0 <= i < entries.len() && (#[trigger] entries[i]).0 == key
}

/// The value that `entries` hold under `key`, if any.
pub open spec fn lookup(entries: Seq<(Seq<u8>, Value)>, key: Seq<u8>) -> Option<Value> {
    if has_key(entries, key) {
        Some(entries[key_index(entries, key)].1)
    } else {
        None
    }
}

/// The number of keys of `entries` that come before `key`.
pub open spec fn rank(entries: Seq<(Seq<u8>, Value)>, key: Seq<u8>) -> nat
    decreases entries.len(),
{
    if entries.len() == 0 {
        0
    } else if lex_lt(entries.last().0, key) {
        rank(entries.drop_last(), key) + 1
    } else {
        rank(entries.drop_last(), key)
    }
}

/// `entries` with one more entry, put behind the keys that come before its
/// key: where the keys were ascending and the key is new, they stay
/// ascending.
pub open spec fn insert_entry(entries: Seq<(Seq<u8>, Value)>, key: Seq<u8>, value: Value) -> Seq<
    (Seq<u8>, Value),
> {
    entries.insert(rank(entries, key) as int, (key, value))
}

/// `entries` with `value` under `key`: in the place of the entry that had
/// the key, or as a new entry where none had.
pub open spec fn put_entry(entries: Seq<(Seq<u8>, Value)>, key: Seq<u8>, value: Value) -> Seq<
    (Seq<u8>, Value),
> {
    if has_key(entries, key) {
        entries.update(key_index(entries, key), (key, value))
    } else {
        insert_entry(entries, key, value)
    }
}

/// Among ascending keys a key has one place only.
pub proof fn lemma_key_index(entries: Seq<(Seq<u8>, Value)>, key: Seq<u8>, i: int)
    requires
        keys_ascending(entries),
        0 <= i < entries.len(),
        entries[i].0 == key,
    ensures
        has_key(entries, key),
        key_index(entries, key) == i,
        lookup(entries, key) == Some(entries[i].1),
{
    let j = key_index(entries, key);
    lemma_lex_lt_irreflexive(key);
    if j < i {
        assert(lex_lt(entries[j].0, entries[i].0));
    } else if i < j {
        assert(lex_lt(entries[i].0, entries[j].0));
    }
}

/// The rank of a key among ascending keys parts them: the keys before it
/// come before the key, the others do not.
pub proof fn lemma_rank(entries: Seq<(Seq<u8>, Value)>, key: Seq<u8>)
    requires
        keys_ascending(entries),
    ensures
        rank(entries, key) <= entries.len(),
        forall|i: int| 0 <= i < rank(entries, key) ==> lex_lt((#[trigger] entries[i]).0, key),
        forall|i: int|
            rank(entries, key) <= i < entries.len() ==> !lex_lt((#[trigger] entries[i]).0, key),
    decreases entries.len(),
{
    if entries.len() > 0 {
        let front = entries.drop_last();
        let last = entries.len() - 1;
        assert forall|i: int, j: int| 0 <= i < j < front.len() implies lex_lt(
            #[trigger] front[i].0,
            #[trigger] front[j].0,
        ) by {
            assert(lex_lt(entries[i].0, entries[j].0));
        }
        lemma_rank(front, key);
        assert forall|i: int| 0 <= i < front.len() implies front[i] == entries[i] by {}
        if lex_lt(entries.last().0, key) {
            assert forall|i: int| 0 <= i < last implies lex_lt((#[trigger] entries[i]).0, key) by {
                assert(lex_lt(entries[i].0, entries[last].0));
                lemma_lex_lt_transitive(entries[i].0, entries[last].0, key);
            }
            if rank(front, key) < last {
                let r = rank(front, key) as int;
                assert(!lex_lt(front[r].0, key));
                assert(lex_lt(entries[r].0, key));
            }
        } else {
            assert forall|i: int| rank(entries, key) <= i < entries.len() implies !lex_lt(
                (#[trigger] entries[i]).0,
                key,
            ) by {
                if i < last {
                    assert(!lex_lt(front[i].0, key));
                }
            }
            assert forall|i: int| 0 <= i < rank(entries, key) implies lex_lt(
                (#[trigger] entries[i]).0,
                key,
            ) by {
                assert(lex_lt(front[i].0, key));
            }
        }
    }
}

/// A place that parts the keys as the rank does is the rank.
pub proof fn lemma_rank_is(entries: Seq<(Seq<u8>, Value)>, key: Seq<u8>, at: int)
    requires
        0 <= at <= entries.len(),
        forall|i: int| 0 <= i < at ==> lex_lt((#[trigger] entries[i]).0, key),
        forall|i: int| at <= i < entries.len() ==> !lex_lt((#[trigger] entries[i]).0, key),
    ensures
        rank(entries, key) == at,
    decreases entries.len(),
{
    if entries.len() > 0 {
        let front = entries.drop_last();
        let last = entries.len() - 1;
        assert forall|i: int| 0 <= i < front.len() implies front[i] == entries[i] by {}
        if at == entries.len() {
            assert(lex_lt(entries[last].0, key));
            lemma_rank_is(front, key, at - 1);
        } else {
            assert(!lex_lt(entries[last].0, key));
            lemma_rank_is(front, key, at);
        }
    }
}

/// A key that comes after all the others goes last, and the keys stay
/// ascending.
pub proof fn lemma_insert_last(entries: Seq<(Seq<u8>, Value)>, key: Seq<u8>, value: Value)
    requires
        keys_ascending(entries),
        entries.len() > 0 ==> lex_lt(entries.last().0, key),
    ensures
        insert_entry(entries, key, value) == entries.push((key, value)),
        keys_ascending(entries.push((key, value))),
{
    lemma_keys_before(entries, key);
    lemma_rank_is(entries, key, entries.len() as int);
    assert(entries.insert(entries.len() as int, (key, value)) =~= entries.push((key, value)));
    lemma_insert_entry(entries, key, value);
}

/// A new key put among ascending keys leaves them ascending, and the
/// entries hold under each key what they held, and the new value under the
/// new key.
pub proof fn lemma_insert_entry(entries: Seq<(Seq<u8>, Value)>, key: Seq<u8>, value: Value)
    requires
        keys_ascending(entries),
        !has_key(entries, key),
    ensures
        keys_ascending(insert_entry(entries, key, value)),
        lookup(insert_entry(entries, key, value), key) == Some(value),
        forall|other: Seq<u8>|
            other != key ==> lookup(#[trigger] insert_entry(entries, key, value), other) == lookup(
                entries,
                other,
            ),
        forall|other: Seq<u8>|
            #[trigger] has_key(insert_entry(entries, key, value), other) <==> other == key
                || has_key(entries, other),
{
    let r = rank(entries, key) as int;
    let after = insert_entry(entries, key, value);
    lemma_rank(entries, key);
    assert forall|i: int| r <= i < entries.len() implies lex_lt(key, (#[trigger] entries[i]).0) by {
        lemma_lex_lt_total(entries[i].0, key);
    }
    assert forall|i: int, j: int| 0 <= i < j < after.len() implies lex_lt(
        #[trigger] after[i].0,
        #[trigger] after[j].0,
    ) by {
        if j < r {
            assert(lex_lt(entries[i].0, entries[j].0));
        } else if j == r {
            assert(lex_lt(entries[i].0, key));
        } else if i < r {
            assert(lex_lt(entries[i].0, entries[j - 1].0));
        } else if i == r {
            assert(lex_lt(key, entries[j - 1].0));
        } else {
            assert(lex_lt(entries[i - 1].0, entries[j - 1].0));
        }
    }
    assert(after[r] == (key, value));
    lemma_key_index(after, key, r);
    assert forall|other: Seq<u8>| other != key implies (has_key(after, other) <==> has_key(
        entries,
        other,
    )) && lookup(after, other) == lookup(entries, other) by {
        if has_key(entries, other) {
            let i = key_index(entries, other);
            let to = if i < r {
                i
            } else {
                i + 1
            };
            assert(after[to] == entries[i]);
            lemma_key_index(after, other, to);
            lemma_key_index(entries, other, i);
        }
        if has_key(after, other) {
            let i = key_index(after, other);
            let from = if i < r {
                i
            } else {
                i - 1
            };
            assert(entries[from] == after[i]);
            lemma_key_index(entries, other, from);
            lemma_key_index(after, other, i);
        }
    }
}

/// A value put under a key leaves ascending keys ascending; the entries
/// then hold that value under the key, and under every other key what they
/// held.
pub proof fn lemma_put_entry(entries: Seq<(Seq<u8>, Value)>, key: Seq<u8>, value: Value)
    requires
        keys_ascending(entries),
    ensures
        keys_ascending(put_entry(entries, key, value)),
        lookup(put_entry(entries, key, value), key) == Some(value),
        forall|other: Seq<u8>|
            other != key ==> lookup(#[trigger] put_entry(entries, key, value), other) == lookup(
                entries,
                other,
            ),
{
    if has_key(entries, key) {
        let at = key_index(entries, key);
        let after = put_entry(entries, key, value);
        assert forall|i: int, j: int| 0 <= i < j < after.len() implies lex_lt(
            #[trigger] after[i].0,
            #[trigger] after[j].0,
        ) by {
            assert(lex_lt(entries[i].0, entries[j].0));
        }
        lemma_key_index(after, key, at);
        assert forall|other: Seq<u8>| other != key implies lookup(after, other) == lookup(
            entries,
            other,
        ) by {
            if has_key(entries, other) {
                let i = key_index(entries, other);
                assert(after[i] == entries[i]);
                lemma_key_index(after, other, i);
            }
            if has_key(after, other) {
                let i = key_index(after, other);
                assert(entries[i] == after[i]);
                lemma_key_index(entries, other, i);
                lemma_key_index(after, other, i);
            }
        }
    } else {
        lemma_insert_entry(entries, key, value);
    }
}

} // verus!
