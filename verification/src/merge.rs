//! Merging key/value pairs into a mapping that keeps the order in which keys
//! were first seen and, under each key, the order in which its values came.

use crate::flatten::{mapping_value, merged_value};
use crate::datum::{lemma_array_view, lemma_object_view, Datum};
use vstd::prelude::*;

verus! {

/// What one key maps to: its value where the key occurred once, its values in
/// order of occurrence where it occurred more often.
pub enum Merged {
    Single(Seq<char>),
    Many(Seq<Seq<char>>),
}

/// The values that `pairs` gives for `key`, in order of occurrence.
pub open spec fn values_of(pairs: Seq<(Seq<char>, Seq<char>)>, key: Seq<char>) -> Seq<Seq<char>>
    decreases pairs.len(),
{
    if pairs.len() == 0 {
        Seq::empty()
    } else if pairs.last().0 == key {
        values_of(pairs.drop_last(), key).push(pairs.last().1)
    } else {
        values_of(pairs.drop_last(), key)
    }
}

/// The keys of `pairs`, each once, in the order in which they first occur.
pub open spec fn keys_in_order(pairs: Seq<(Seq<char>, Seq<char>)>) -> Seq<Seq<char>>
    decreases pairs.len(),
{
    if pairs.len() == 0 {
        Seq::empty()
    } else if keys_in_order(pairs.drop_last()).contains(pairs.last().0) {
        keys_in_order(pairs.drop_last())
    } else {
        keys_in_order(pairs.drop_last()).push(pairs.last().0)
    }
}

/// One value stays a single value; any other number of values is a sequence.
pub open spec fn merged_from(values: Seq<Seq<char>>) -> Merged {
    if values.len() == 1 {
        Merged::Single(values[0])
    } else {
        Merged::Many(values)
    }
}

/// The mapping that `pairs` merge into: one entry for each key, in order of
/// first occurrence, holding the key's values in order of occurrence.
pub open spec fn merge_all(pairs: Seq<(Seq<char>, Seq<char>)>) -> Seq<(Seq<char>, Merged)> {
    Seq::new(
        keys_in_order(pairs).len(),
        |i: int| (keys_in_order(pairs)[i], merged_from(values_of(pairs, keys_in_order(pairs)[i]))),
    )
}

/// Some entry of `mapping` has the key `key`.
pub open spec fn has_key(mapping: Seq<(Seq<char>, Merged)>, key: Seq<char>) -> bool {
    exists|i: int| 0 <= i < mapping.len() && mapping[i].0 == key
}

/// An entry after one more value for its key: a single value becomes the
/// sequence of the old value and the new one, a sequence grows at its end.
pub open spec fn extended(entry: Merged, value: Seq<char>) -> Merged {
    match entry {
        Merged::Single(first) => Merged::Many(seq![first, value]),
        Merged::Many(values) => Merged::Many(values.push(value)),
    }
}

/// The mapping after one more pair: a new key gets an entry of its own at the
/// end, a known key has its entry extended in place.
pub open spec fn merge_one(
    mapping: Seq<(Seq<char>, Merged)>,
    key: Seq<char>,
    value: Seq<char>,
) -> Seq<(Seq<char>, Merged)> {
    if has_key(mapping, key) {
        Seq::new(
            mapping.len(),
            |i: int|
                if mapping[i].0 == key {
                    (key, extended(mapping[i].1, value))
                } else {
                    mapping[i]
                },
        )
    } else {
        mapping.push((key, Merged::Single(value)))
    }
}

/// No key stands at two positions, and every sequence holds at least two
/// values.
pub open spec fn well_formed(mapping: Seq<(Seq<char>, Merged)>) -> bool {
    &&& forall|i: int, j: int|
        0 <= i < j < mapping.len() ==> (#[trigger] mapping[i]).0 != (#[trigger] mapping[j]).0
    &&& forall|i: int|
        0 <= i < mapping.len() ==> (match (#[trigger] mapping[i]).1 {
            Merged::Single(_) => true,
            Merged::Many(values) => values.len() >= 2,
        })
}

/// The keys in order of first occurrence hold each key of `pairs`, hold
/// nothing else, and hold nothing twice.
pub proof fn lemma_keys_in_order(pairs: Seq<(Seq<char>, Seq<char>)>)
    ensures
        keys_in_order(pairs).len() <= pairs.len(),
        keys_in_order(pairs).no_duplicates(),
        forall|i: int| 0 <= i < pairs.len() ==> keys_in_order(pairs).contains(#[trigger] pairs[i].0),
        forall|k: Seq<char>| #[trigger]
            keys_in_order(pairs).contains(k) ==> exists|i: int|
                0 <= i < pairs.len() && (#[trigger] pairs[i]).0 == k,
    decreases pairs.len(),
{
    if pairs.len() > 0 {
        let front = pairs.drop_last();
        let last = pairs.last();
        lemma_keys_in_order(front);
        let before = keys_in_order(front);
        let keys = keys_in_order(pairs);
        if !before.contains(last.0) {
            assert(keys[before.len() as int] == last.0);
        }
        assert forall|i: int| 0 <= i < pairs.len() implies keys.contains(#[trigger] pairs[i].0) by {
            if i < front.len() {
                assert(front[i] == pairs[i]);
                let at = choose|at: int| 0 <= at < before.len() && before[at] == front[i].0;
                assert(keys[at] == pairs[i].0);
            }
        }
        assert forall|k: Seq<char>| #[trigger] keys.contains(k) implies exists|i: int|
            0 <= i < pairs.len() && (#[trigger] pairs[i]).0 == k by {
            if before.contains(k) {
                let i = choose|i: int| 0 <= i < front.len() && (#[trigger] front[i]).0 == k;
                assert(pairs[i].0 == k);
            } else {
                assert(pairs[pairs.len() - 1].0 == k);
            }
        }
    }
}

/// A key has values among `pairs` exactly where it is one of their keys, and
/// never more values than there are pairs.
pub proof fn lemma_values_of_len(pairs: Seq<(Seq<char>, Seq<char>)>, key: Seq<char>)
    ensures
        values_of(pairs, key).len() <= pairs.len(),
        values_of(pairs, key).len() > 0 <==> keys_in_order(pairs).contains(key),
    decreases pairs.len(),
{
    if pairs.len() > 0 {
        let front = pairs.drop_last();
        lemma_values_of_len(front, key);
        let before = keys_in_order(front);
        if !before.contains(pairs.last().0) {
            assert(before.push(pairs.last().0)[before.len() as int] == pairs.last().0);
            if before.contains(key) {
                let at = choose|at: int| 0 <= at < before.len() && before[at] == key;
                assert(before.push(pairs.last().0)[at] == key);
            }
        }
    }
}

/// Merging all pairs at once gives what merging them one after the other
/// gives: the mapping of `pairs` and one more pair is the mapping of `pairs`
/// after that pair has been merged into it.
pub proof fn lemma_merge_all_push(
    pairs: Seq<(Seq<char>, Seq<char>)>,
    key: Seq<char>,
    value: Seq<char>,
)
    ensures
        merge_all(pairs.push((key, value))) == merge_one(merge_all(pairs), key, value),
{
    let more = pairs.push((key, value));
    assert(more.drop_last() == pairs);
    assert(more.last() == (key, value));
    let keys = keys_in_order(pairs);
    let mapping = merge_all(pairs);
    lemma_keys_in_order(pairs);
    lemma_values_of_len(pairs, key);
    if keys.contains(key) {
        let at = choose|at: int| 0 <= at < keys.len() && keys[at] == key;
        assert(mapping[at].0 == key);
        assert(has_key(mapping, key));
        assert(keys_in_order(more) == keys);
        let step = merge_one(mapping, key, value);
        assert forall|i: int| 0 <= i < keys.len() implies merge_all(more)[i] == step[i] by {
            if keys[i] == key {
                let values = values_of(pairs, key);
                assert(values_of(more, key) == values.push(value));
                if values.len() == 1 {
                    assert(values.push(value) =~= seq![values[0], value]);
                }
            } else {
                assert(values_of(more, keys[i]) == values_of(pairs, keys[i]));
            }
        }
        assert(merge_all(more) =~= step);
    } else {
        if has_key(mapping, key) {
            let i = choose|i: int| 0 <= i < mapping.len() && mapping[i].0 == key;
            assert(keys[i] == key);
        }
        assert(keys_in_order(more) == keys.push(key));
        let step = mapping.push((key, Merged::Single(value)));
        assert forall|i: int| 0 <= i < keys.len() + 1 implies merge_all(more)[i] == step[i] by {
            if i < keys.len() {
                assert(keys[i] != key);
                assert(values_of(more, keys[i]) == values_of(pairs, keys[i]));
            } else {
                assert(values_of(more, key) == values_of(pairs, key).push(value));
                assert(values_of(pairs, key).len() == 0);
            }
        }
        assert(merge_all(more) =~= step);
    }
}

/// The mapping of any pairs is well formed, and has no more entries than
/// there are pairs.
pub proof fn lemma_merge_all_well_formed(pairs: Seq<(Seq<char>, Seq<char>)>)
    ensures
        well_formed(merge_all(pairs)),
        merge_all(pairs).len() <= pairs.len(),
{
    lemma_keys_in_order(pairs);
    let keys = keys_in_order(pairs);
    let mapping = merge_all(pairs);
    assert forall|i: int| 0 <= i < mapping.len() implies (match (#[trigger] mapping[i]).1 {
        Merged::Single(_) => true,
        Merged::Many(values) => values.len() >= 2,
    }) by {
        lemma_values_of_len(pairs, keys[i]);
    }
}

/// The texts of a vector of strings.
pub open spec fn texts(strings: Seq<String>) -> Seq<Seq<char>> {
    Seq::new(strings.len(), |i: int| strings[i]@)
}

/// What one key of a merged mapping holds.
#[derive(Debug, PartialEq, Eq)]
pub enum MergedValue {
    Single(String),
    Many(Vec<String>),
}

impl View for MergedValue {
    type V = Merged;

    open spec fn view(&self) -> Merged {
        match self {
            MergedValue::Single(value) => Merged::Single(value@),
            MergedValue::Many(values) => Merged::Many(texts(values@)),
        }
    }
}

/// A merged mapping under construction: entries in the order in which their
/// keys were first seen.
pub struct MergedMapping {
    entries: Vec<(String, MergedValue)>,
}

impl View for MergedMapping {
    type V = Seq<(Seq<char>, Merged)>;

    closed spec fn view(&self) -> Seq<(Seq<char>, Merged)> {
        Seq::new(self.entries@.len(), |i: int| (self.entries@[i].0@, self.entries@[i].1@))
    }
}

impl MergedMapping {
    /// The invariant of a mapping: no key twice, no sequence of fewer than
    /// two values.
    pub open spec fn wf(&self) -> bool {
        well_formed(self@)
    }

    /// The empty mapping.
    pub fn new() -> (mapping: MergedMapping)
        ensures
            mapping.wf(),
            mapping@ == Seq::<(Seq<char>, Merged)>::empty(),
    {
        let mapping = MergedMapping { entries: Vec::new() };
        assert(mapping@ =~= Seq::empty());
        mapping
    }

    /// Merges one pair into the mapping.
    pub fn insert(&mut self, key: String, value: String)
        requires
            old(self).wf(),
        ensures
            final(self).wf(),
            final(self)@ == merge_one(old(self)@, key@, value@),
    {
        let count: usize = self.entries.len();
        let ghost before = self@;
        let mut at: usize = 0;
        while at < count
            invariant
                at <= count,
                count == self.entries@.len(),
                *self == *old(self),
                before == self@,
                well_formed(before),
                forall|j: int| 0 <= j < at ==> before[j].0 != key@,
            decreases count - at,
        {
            if self.entries[at].0 == key {
                assert(before[at as int].0 == key@);
                let entry = &mut self.entries[at];
                match &mut entry.1 {
                    MergedValue::Many(values) => {
                        let ghost held = texts(values@);
                        values.push(value);
                        assert(texts(values@) =~= held.push(value@));
                    },
                    MergedValue::Single(first) => {
                        let mut values: Vec<String> = Vec::new();
                        values.push(first.clone());
                        values.push(value);
                        assert(texts(values@) =~= seq![first@, value@]);
                        entry.1 = MergedValue::Many(values);
                    },
                }
                proof {
                    let after = self@;
                    let step = merge_one(before, key@, value@);
                    assert(after.len() == step.len());
                    assert forall|i: int| 0 <= i < after.len() implies after[i] == step[i] by {
                        if i != at {
                            assert(before[i].0 != before[at as int].0);
                        }
                    }
                    assert(after =~= step);
                    assert forall|i: int, j: int| 0 <= i < j < after.len() implies (
                    #[trigger] after[i]).0 != (#[trigger] after[j]).0 by {
                        assert(before[i].0 != before[j].0);
                    }
                }
                return ;
            }
            at = at + 1;
        }
        self.entries.push((key, MergedValue::Single(value)));
        proof {
            assert(!has_key(before, key@));
            assert(self@ =~= before.push((key@, Merged::Single(value@))));
        }
    }

    /// The number of keys.
    pub fn len(&self) -> (count: usize)
        ensures
            count == self@.len(),
    {
        self.entries.len()
    }

    /// What `key` maps to, if the mapping has the key.
    pub fn get(&self, key: &str) -> (found: Option<&MergedValue>)
        ensures
            match found {
                Some(entry) => exists|i: int|
                    0 <= i < self@.len() && self@[i] == (key@, entry@) && forall|j: int|
                        0 <= j < i ==> self@[j].0 != key@,
                None => !has_key(self@, key@),
            },
    {
        let wanted: String = key.to_owned();
        let mut at: usize = 0;
        while at < self.entries.len()
            invariant
                at <= self.entries@.len(),
                wanted@ == key@,
                forall|j: int| 0 <= j < at ==> self@[j].0 != key@,
            decreases self.entries@.len() - at,
        {
            if self.entries[at].0 == wanted {
                assert(self@[at as int] == (key@, self.entries@[at as int].1@));
                return Some(&self.entries[at].1);
            }
            at = at + 1;
        }
        None
    }

    /// The keys, in the order in which they were first seen.
    pub fn keys(&self) -> (keys: Vec<String>)
        ensures
            keys@.len() == self@.len(),
            forall|i: int| 0 <= i < keys@.len() ==> (#[trigger] keys@[i])@ == self@[i].0,
    {
        let mut keys: Vec<String> = Vec::new();
        let mut at: usize = 0;
        while at < self.entries.len()
            invariant
                at <= self.entries@.len(),
                keys@.len() == at,
                forall|i: int| 0 <= i < at ==> (#[trigger] keys@[i])@ == self@[i].0,
            decreases self.entries@.len() - at,
        {
            keys.push(self.entries[at].0.clone());
            at = at + 1;
        }
        keys
    }

    /// The mapping as a value: an object whose fields are the keys, in the
    /// mapping's order, each with its text or its array of texts.
    pub fn to_value(&self) -> (value: Datum)
        ensures
            value@ == mapping_value(self@),
    {
        let mut fields: Vec<(String, Datum)> = Vec::new();
        let mut at: usize = 0;
        while at < self.entries.len()
            invariant
                at <= self.entries@.len(),
                fields@.len() == at,
                forall|i: int|
                    0 <= i < at ==> (#[trigger] fields@[i]).0@ == self@[i].0 && fields@[i].1@
                        == merged_value(self@[i].1),
            decreases self.entries@.len() - at,
        {
            let entry = &self.entries[at];
            let held = match &entry.1 {
                MergedValue::Single(value) => Datum::Text(value.clone()),
                MergedValue::Many(values) => Datum::Array(texts_to_values(values)),
            };
            fields.push((entry.0.clone(), held));
            at = at + 1;
        }
        proof {
            lemma_object_view(fields);
            assert(crate::datum::fields_view(fields@) =~= mapping_value(self@)->Object_0);
        }
        Datum::Object(fields)
    }
}

/// Each text as a value of its own, in order.
fn texts_to_values(values: &Vec<String>) -> (items: Vec<Datum>)
    ensures
        Datum::Array(items)@ == merged_value(Merged::Many(texts(values@))),
{
    let mut items: Vec<Datum> = Vec::new();
    let mut at: usize = 0;
    while at < values.len()
        invariant
            at <= values@.len(),
            items@.len() == at,
            forall|i: int| 0 <= i < at ==> (#[trigger] items@[i])@ == crate::datum::DatumView::Text(values@[i]@),
        decreases values@.len() - at,
    {
        items.push(Datum::Text(values[at].clone()));
        at = at + 1;
    }
    proof {
        lemma_array_view(items);
        assert(crate::datum::items_view(items@) =~= merged_value(Merged::Many(texts(values@)))->Array_0);
    }
    items
}

} // verus!
