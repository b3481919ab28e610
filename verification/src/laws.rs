//! What holds of every flattening: where the keys and values of a mapping
//! come from, in which order they stand, and that the outcome depends on the
//! record alone.

use crate::datum::{
    distinct_names, field_of, first_field_at, lemma_field_of_at, lemma_with_field_lookup, Datum,
    DatumView,
};
use crate::flatten::{
    flatten, flattened, mapping_value, pair_of, tag_list, tag_pairs, OUTPUT_FIELD,
};
use crate::harness::{output_of, same_entries, same_output};
use crate::merge::{
    has_key, keys_in_order, lemma_keys_in_order, lemma_merge_all_well_formed, lemma_values_of_len,
    merge_all, values_of, well_formed, Merged,
};
use vstd::prelude::*;

verus! {

/// The values that an entry holds, in order.
pub open spec fn values_in(entry: Merged) -> Seq<Seq<char>> {
    match entry {
        Merged::Single(value) => seq![value],
        Merged::Many(values) => values,
    }
}

/// The key of one entry of a tag list, where the entry splits.
pub open spec fn key_of(entry: DatumView) -> Option<Seq<char>> {
    match pair_of(entry) {
        Some(pair) => Some(pair.0),
        None => None,
    }
}

/// Some tag of the list is a text that splits into `key` and some value.
pub open spec fn tag_names_key(tags: Seq<DatumView>, key: Seq<char>) -> bool {
    exists|i: int| 0 <= i < tags.len() && #[trigger] key_of(tags[i]) == Some(key)
}

/// Every pair of a tag list is what one of its tags splits into, and there
/// are no more pairs than tags.
pub proof fn lemma_pairs_come_from_tags(tags: Seq<DatumView>)
    ensures
        tag_pairs(tags).len() <= tags.len(),
        forall|j: int|
            0 <= j < tag_pairs(tags).len() ==> exists|i: int|
                0 <= i < tags.len() && #[trigger] pair_of(tags[i]) == Some(
                    #[trigger] tag_pairs(tags)[j],
                ),
    decreases tags.len(),
{
    if tags.len() > 0 {
        let front = tags.drop_last();
        lemma_pairs_come_from_tags(front);
        assert forall|j: int| 0 <= j < tag_pairs(tags).len() implies exists|i: int|
            0 <= i < tags.len() && #[trigger] pair_of(tags[i]) == Some(
                #[trigger] tag_pairs(tags)[j],
            ) by {
            if j < tag_pairs(front).len() {
                assert(tag_pairs(tags)[j] == tag_pairs(front)[j]);
                let i = choose|i: int|
                    0 <= i < front.len() && #[trigger] pair_of(front[i]) == Some(
                        tag_pairs(front)[j],
                    );
                assert(tags[i] == front[i]);
            } else {
                assert(pair_of(tags[tags.len() - 1]) == Some(tag_pairs(tags)[j]));
            }
        }
    }
}

/// What a tag of the list splits into is one of the pairs of the list.
pub proof fn lemma_tags_give_pairs(tags: Seq<DatumView>, i: int)
    requires
        0 <= i < tags.len(),
        pair_of(tags[i]) is Some,
    ensures
        exists|j: int|
            0 <= j < tag_pairs(tags).len() && Some(#[trigger] tag_pairs(tags)[j]) == pair_of(
                tags[i],
            ),
    decreases tags.len(),
{
    let front = tags.drop_last();
    if i < tags.len() - 1 {
        lemma_tags_give_pairs(front, i);
        let j = choose|j: int|
            0 <= j < tag_pairs(front).len() && Some(#[trigger] tag_pairs(front)[j]) == pair_of(
                front[i],
            );
        assert(tag_pairs(tags)[j] == tag_pairs(front)[j]);
    } else {
        let j = tag_pairs(front).len() as int;
        assert(Some(tag_pairs(tags)[j]) == pair_of(tags[i]));
    }
}

/// A mapping has no more keys than the list has tags with a colon, and no
/// key stands in it twice.
pub proof fn lemma_flatten_size(tags: Seq<DatumView>)
    ensures
        flatten(tags).len() <= tag_pairs(tags).len() <= tags.len(),
        well_formed(flatten(tags)),
{
    lemma_pairs_come_from_tags(tags);
    lemma_merge_all_well_formed(tag_pairs(tags));
}

/// A key stands in the mapping of a tag list exactly where one of the tags
/// names it. So a mapping holds no key of another list's tags: nothing of
/// the list `earlier`, flattened before, shows in the mapping of `tags`.
pub proof fn lemma_keys_of_flatten(earlier: Seq<DatumView>, tags: Seq<DatumView>, key: Seq<char>)
    ensures
        has_key(flatten(tags), key) <==> tag_names_key(tags, key),
        tag_names_key(earlier, key) && !tag_names_key(tags, key) ==> !has_key(flatten(tags), key),
{
    let pairs = tag_pairs(tags);
    lemma_keys_in_order(pairs);
    lemma_pairs_come_from_tags(tags);
    if has_key(flatten(tags), key) {
        let at = choose|at: int| 0 <= at < flatten(tags).len() && flatten(tags)[at].0 == key;
        assert(keys_in_order(pairs)[at] == key);
        assert(keys_in_order(pairs).contains(key));
        let j = choose|j: int| 0 <= j < pairs.len() && (#[trigger] pairs[j]).0 == key;
        let i = choose|i: int| 0 <= i < tags.len() && #[trigger] pair_of(tags[i]) == Some(pairs[j]);
        assert(key_of(tags[i]) == Some(key));
        assert(tag_names_key(tags, key));
    }
    if tag_names_key(tags, key) {
        let i = choose|i: int| 0 <= i < tags.len() && #[trigger] key_of(tags[i]) == Some(key);
        lemma_tags_give_pairs(tags, i);
        let j = choose|j: int| 0 <= j < pairs.len() && Some(#[trigger] pairs[j]) == pair_of(tags[i]);
        assert(keys_in_order(pairs).contains(pairs[j].0));
        let at = choose|at: int|
            0 <= at < keys_in_order(pairs).len() && keys_in_order(pairs)[at] == key;
        assert(flatten(tags)[at].0 == key);
    }
}

/// The values of a key among the first `count` pairs are the first of its
/// values among all pairs.
pub proof fn lemma_values_of_prefix(pairs: Seq<(Seq<char>, Seq<char>)>, key: Seq<char>, count: int)
    requires
        0 <= count <= pairs.len(),
    ensures
        values_of(pairs.take(count), key).len() <= values_of(pairs, key).len(),
        values_of(pairs.take(count), key) == values_of(pairs, key).take(
            values_of(pairs.take(count), key).len() as int,
        ),
    decreases pairs.len() - count,
{
    let all = values_of(pairs, key);
    if count < pairs.len() {
        lemma_values_of_prefix(pairs, key, count + 1);
        let longer = values_of(pairs.take(count + 1), key);
        let shorter = values_of(pairs.take(count), key);
        assert(pairs.take(count + 1).drop_last() =~= pairs.take(count));
        assert(shorter =~= all.take(shorter.len() as int)) by {
            assert(longer == all.take(longer.len() as int));
            if pairs.take(count + 1).last().0 == key {
                assert(longer == shorter.push(pairs.take(count + 1).last().1));
            }
        }
    } else {
        assert(pairs.take(count) =~= pairs);
        assert(all =~= all.take(all.len() as int));
    }
}

/// Every pair has its value among the values of its key, at the position
/// that counts the earlier pairs of that key: values stand in the order in
/// which they came, and none is lost.
pub proof fn lemma_value_position(pairs: Seq<(Seq<char>, Seq<char>)>, at: int)
    requires
        0 <= at < pairs.len(),
    ensures
        values_of(pairs.take(at), pairs[at].0).len() < values_of(pairs, pairs[at].0).len(),
        values_of(pairs, pairs[at].0)[values_of(pairs.take(at), pairs[at].0).len() as int]
            == pairs[at].1,
{
    let key = pairs[at].0;
    lemma_values_of_prefix(pairs, key, at + 1);
    assert(pairs.take(at + 1).drop_last() =~= pairs.take(at));
    assert(pairs.take(at + 1).last() == pairs[at]);
    let shorter = values_of(pairs.take(at), key);
    let longer = values_of(pairs.take(at + 1), key);
    assert(longer == shorter.push(pairs[at].1));
    assert(longer[shorter.len() as int] == pairs[at].1);
}

/// Of two pairs with one key, the later has its value at a later position
/// among the values of the key.
pub proof fn lemma_order_is_kept(pairs: Seq<(Seq<char>, Seq<char>)>, first: int, second: int)
    requires
        0 <= first < second < pairs.len(),
        pairs[first].0 == pairs[second].0,
    ensures
        values_of(pairs.take(first), pairs[first].0).len() < values_of(
            pairs.take(second),
            pairs[first].0,
        ).len(),
{
    let key = pairs[first].0;
    let upto = pairs.take(second);
    assert(upto.take(first) =~= pairs.take(first));
    assert(upto[first] == pairs[first]);
    lemma_value_position(upto, first);
}

/// `at` is the first position of `pairs` that has the key `key`.
pub open spec fn first_seen_at(pairs: Seq<(Seq<char>, Seq<char>)>, key: Seq<char>, at: int) -> bool {
    &&& 0 <= at < pairs.len()
    &&& pairs[at].0 == key
    &&& forall|j: int| 0 <= j < at ==> pairs[j].0 != key
}

proof fn lemma_first_seen_exists(pairs: Seq<(Seq<char>, Seq<char>)>, key: Seq<char>, at: int)
    requires
        0 <= at < pairs.len(),
        pairs[at].0 == key,
    ensures
        exists|first: int| first_seen_at(pairs, key, first),
    decreases at,
{
    if exists|j: int| 0 <= j < at && pairs[j].0 == key {
        let j = choose|j: int| 0 <= j < at && pairs[j].0 == key;
        lemma_first_seen_exists(pairs, key, j);
    } else {
        assert(first_seen_at(pairs, key, at));
    }
}

/// The keys of a mapping stand in the order in which they were first seen:
/// of two keys, the one that stands earlier in the mapping has its first
/// pair earlier among the pairs.
pub proof fn lemma_key_order(pairs: Seq<(Seq<char>, Seq<char>)>, earlier: int, later: int)
    requires
        0 <= earlier < later < merge_all(pairs).len(),
    ensures
        exists|i: int, j: int|
            i < j && first_seen_at(pairs, merge_all(pairs)[earlier].0, i) && first_seen_at(
                pairs,
                merge_all(pairs)[later].0,
                j,
            ),
    decreases pairs.len(),
{
    let keys = keys_in_order(pairs);
    assert(merge_all(pairs)[earlier].0 == keys[earlier]);
    assert(merge_all(pairs)[later].0 == keys[later]);
    let front = pairs.drop_last();
    let before = keys_in_order(front);
    lemma_keys_in_order(front);
    if later < before.len() {
        assert(keys[earlier] == before[earlier] && keys[later] == before[later]);
        lemma_key_order(front, earlier, later);
        let (i, j) = choose|i: int, j: int|
            i < j && first_seen_at(front, before[earlier], i) && first_seen_at(
                front,
                before[later],
                j,
            );
        assert(first_seen_at(pairs, keys[earlier], i)) by {
            assert(pairs[i] == front[i]);
            assert forall|k: int| 0 <= k < i implies pairs[k].0 != keys[earlier] by {
                assert(pairs[k] == front[k]);
            }
        }
        assert(first_seen_at(pairs, keys[later], j)) by {
            assert(pairs[j] == front[j]);
            assert forall|k: int| 0 <= k < j implies pairs[k].0 != keys[later] by {
                assert(pairs[k] == front[k]);
            }
        }
    } else {
        let j = pairs.len() - 1;
        assert(!before.contains(pairs.last().0));
        assert(keys == before.push(pairs.last().0));
        assert(keys[later] == pairs[j].0);
        assert forall|k: int| 0 <= k < j implies pairs[k].0 != keys[later] by {
            assert(front[k] == pairs[k]);
            assert(before.contains(front[k].0));
        }
        assert(first_seen_at(pairs, keys[later], j));
        assert(before[earlier] == keys[earlier]);
        assert(before.contains(keys[earlier]));
        let seen = choose|seen: int| 0 <= seen < front.len() && (#[trigger] front[seen]).0 == keys[earlier];
        assert(pairs[seen] == front[seen]);
        lemma_first_seen_exists(pairs, keys[earlier], seen);
        let i = choose|i: int| first_seen_at(pairs, keys[earlier], i);
        if i >= j {
            assert(pairs[seen].0 != keys[earlier]);
        }
    }
}

/// The entry of a key in the mapping holds the values of the key, all of
/// them, in order: as a single value where there is one, as a sequence
/// where there are more.
pub proof fn lemma_entry_holds_values(pairs: Seq<(Seq<char>, Seq<char>)>, at: int)
    requires
        0 <= at < merge_all(pairs).len(),
    ensures
        values_in(merge_all(pairs)[at].1) == values_of(pairs, merge_all(pairs)[at].0),
        merge_all(pairs)[at].1 is Single <==> values_of(pairs, merge_all(pairs)[at].0).len() == 1,
{
    let key = keys_in_order(pairs)[at];
    lemma_values_of_len(pairs, key);
    let values = values_of(pairs, key);
    assert(keys_in_order(pairs).contains(key));
    if values.len() == 1 {
        assert(seq![values[0]] =~= values);
    }
}

/// The mapping of a tag list, as a value, holds each key at one position
/// only.
pub proof fn lemma_mapping_value_distinct(mapping: Seq<(Seq<char>, Merged)>)
    requires
        well_formed(mapping),
    ensures
        mapping_value(mapping) matches DatumView::Object(entries) && distinct_names(entries),
{
    let entries = mapping_value(mapping)->Object_0;
    assert forall|i: int, j: int| 0 <= i < j < entries.len() implies (#[trigger] entries[i]).0 != (
    #[trigger] entries[j]).0 by {
        assert(mapping[i].0 != mapping[j].0);
    }
}

/// Entries with distinct names agree with themselves.
pub proof fn lemma_same_entries_reflexive(entries: Seq<(Seq<char>, DatumView)>)
    requires
        distinct_names(entries),
    ensures
        same_entries(entries, entries),
{
    assert forall|i: int| 0 <= i < entries.len() implies field_of(entries, (#[trigger] entries[i]).0)
        == Some(entries[i].1) by {
        assert forall|j: int| 0 <= j < i implies entries[j].0 != entries[i].0 by {
            assert(entries[j].0 != entries[i].0);
        }
        lemma_field_of_at(entries, entries[i].0, i);
    }
}

/// The names of a list of entries, in order.
pub open spec fn names_of(entries: Seq<(Seq<char>, DatumView)>) -> Seq<Seq<char>> {
    Seq::new(entries.len(), |i: int| entries[i].0)
}

/// A name that is found stands at some first position, and what was found
/// is the value there.
pub proof fn lemma_field_of_found(entries: Seq<(Seq<char>, DatumView)>, name: Seq<char>)
    requires
        field_of(entries, name) is Some,
    ensures
        exists|at: int|
            first_field_at(entries, name, at) && field_of(entries, name) == Some(entries[at].1),
    decreases entries.len(),
{
    if entries[0].0 == name {
        assert(first_field_at(entries, name, 0));
    } else {
        let rest = entries.drop_first();
        lemma_field_of_found(rest, name);
        let at = choose|at: int|
            first_field_at(rest, name, at) && field_of(rest, name) == Some(rest[at].1);
        assert(rest[at] == entries[at + 1]);
        assert forall|j: int| 0 <= j < at + 1 implies entries[j].0 != name by {
            if j > 0 {
                assert(rest[j - 1] == entries[j]);
            }
        }
        assert(first_field_at(entries, name, at + 1));
    }
}

/// Agreement does not depend on which of the two outputs comes first: where
/// no name stands twice, entries that agree with others are agreed with by
/// them.
pub proof fn lemma_same_entries_symmetric(
    a: Seq<(Seq<char>, DatumView)>,
    b: Seq<(Seq<char>, DatumView)>,
)
    requires
        distinct_names(a),
        distinct_names(b),
        same_entries(a, b),
    ensures
        same_entries(b, a),
{
    broadcast use vstd::seq_lib::seq_to_set_is_finite;

    let names_a = names_of(a);
    let names_b = names_of(b);
    assert(names_a.no_duplicates()) by {
        assert forall|i: int, j: int| 0 <= i < j < names_a.len() implies names_a[i] != names_a[j] by {
            assert(a[i].0 != a[j].0);
        }
    }
    assert(names_b.no_duplicates()) by {
        assert forall|i: int, j: int| 0 <= i < j < names_b.len() implies names_b[i] != names_b[j] by {
            assert(b[i].0 != b[j].0);
        }
    }
    names_a.unique_seq_to_set();
    names_b.unique_seq_to_set();
    assert forall|name: Seq<char>| names_a.to_set().contains(name) implies names_b.to_set().contains(
        name,
    ) by {
        let i = choose|i: int| 0 <= i < names_a.len() && names_a[i] == name;
        assert(field_of(b, a[i].0) == Some(a[i].1));
        lemma_field_of_found(b, name);
        let j = choose|j: int| first_field_at(b, name, j);
        assert(names_b[j] == name);
    }
    vstd::set_lib::lemma_subset_equality(names_a.to_set(), names_b.to_set());
    assert forall|j: int| 0 <= j < b.len() implies field_of(a, (#[trigger] b[j]).0) == Some(
        b[j].1,
    ) by {
        assert(names_b[j] == b[j].0);
        assert(names_b.to_set().contains(b[j].0));
        assert(names_a.to_set().contains(b[j].0));
        let i = choose|i: int| 0 <= i < names_a.len() && names_a[i] == b[j].0;
        assert(field_of(b, a[i].0) == Some(a[i].1));
        assert forall|k: int| 0 <= k < j implies b[k].0 != b[j].0 by {
            assert(b[k].0 != b[j].0);
        }
        lemma_field_of_at(b, b[j].0, j);
        assert forall|k: int| 0 <= k < i implies a[k].0 != a[i].0 by {
            assert(a[k].0 != a[i].0);
        }
        lemma_field_of_at(a, a[i].0, i);
    }
}

/// A flattened record holds the mapping of its tag list under `tag`, and
/// every field of another name as the record had it.
pub proof fn lemma_flattened_fields(record: DatumView, name: Seq<char>)
    requires
        flattened(record) is Some,
    ensures
        record is Object,
        flattened(record)->0 is Object,
        output_of(flattened(record)->0) == Some(
            mapping_value(flatten(tag_list(record)->0))->Object_0,
        ),
        name != OUTPUT_FIELD@ ==> field_of(flattened(record)->0->Object_0, name) == field_of(
            record->Object_0,
            name,
        ),
{
    let mapping = mapping_value(flatten(tag_list(record)->0));
    lemma_with_field_lookup(record->Object_0, OUTPUT_FIELD@, mapping, name);
}

/// Flattening is a function of the record: two runs on records that stand
/// for the same value give outputs that stand for the same value, and the
/// two outputs agree as outputs of two paths do.
pub proof fn lemma_same_input_same_output(first: Datum, second: Datum)
    requires
        first@ == second@,
    ensures
        flattened(first@) == flattened(second@),
        flattened(first@) matches Some(output) ==> same_output(output, flattened(second@)->0),
{
    if flattened(first@) is Some {
        let tags = tag_list(first@)->0;
        lemma_flattened_fields(first@, OUTPUT_FIELD@);
        lemma_flatten_size(tags);
        lemma_mapping_value_distinct(flatten(tags));
        lemma_same_entries_reflexive(mapping_value(flatten(tags))->Object_0);
    }
}

} // verus!
