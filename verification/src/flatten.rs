//! Flattening the tag list of a record into a merged mapping, and storing
//! the mapping in the record.

use crate::datum::{
    field_of, fields_view, find_field, items_view, lemma_array_view, lemma_field_of_absent,
    lemma_field_of_at, lemma_object_view, set_field, with_field, Datum, DatumView,
};
use crate::error::FlattenError;
use crate::merge::{lemma_merge_all_push, merge_all, Merged, MergedMapping};
use crate::tag::{parse_tag, split_tag};
use vstd::prelude::*;

verus! {

/// The name of the field that holds the tag list.
pub const TAGS_FIELD: &'static str = "tags";

/// The name of the field that receives the merged mapping.
pub const OUTPUT_FIELD: &'static str = "tag";

/// What one entry of a tag list splits into: key and value of a text with a
/// colon, nothing for a text without one or for an entry that is no text.
pub open spec fn pair_of(entry: DatumView) -> Option<(Seq<char>, Seq<char>)> {
    match entry {
        DatumView::Text(tag) => parse_tag(tag),
        _ => None,
    }
}

/// The key/value pairs of a tag list, in order.
pub open spec fn tag_pairs(tags: Seq<DatumView>) -> Seq<(Seq<char>, Seq<char>)>
    decreases tags.len(),
{
    if tags.len() == 0 {
        Seq::empty()
    } else {
        match pair_of(tags.last()) {
            Some(pair) => tag_pairs(tags.drop_last()).push(pair),
            None => tag_pairs(tags.drop_last()),
        }
    }
}

/// The merged mapping of a tag list.
pub open spec fn flatten(tags: Seq<DatumView>) -> Seq<(Seq<char>, Merged)> {
    merge_all(tag_pairs(tags))
}

/// The tag list of a record: the array under its field `tags`.
pub open spec fn tag_list(record: DatumView) -> Option<Seq<DatumView>> {
    match record {
        DatumView::Object(fields) => match field_of(fields, TAGS_FIELD@) {
            Some(DatumView::Array(tags)) => Some(tags),
            _ => None,
        },
        _ => None,
    }
}

/// One entry of a merged mapping as a value: a text, or an array of texts.
pub open spec fn merged_value(entry: Merged) -> DatumView {
    match entry {
        Merged::Single(value) => DatumView::Text(value),
        Merged::Many(values) => DatumView::Array(
            Seq::new(values.len(), |i: int| DatumView::Text(values[i])),
        ),
    }
}

/// A merged mapping as a value: an object with one field for each key, in
/// the mapping's order.
pub open spec fn mapping_value(mapping: Seq<(Seq<char>, Merged)>) -> DatumView {
    DatumView::Object(
        Seq::new(mapping.len(), |i: int| (mapping[i].0, merged_value(mapping[i].1))),
    )
}

/// The record after flattening: its field `tag` holds the merged mapping of
/// its tag list, and nothing else has changed. `None` for a record without a
/// tag list.
pub open spec fn flattened(record: DatumView) -> Option<DatumView> {
    match tag_list(record) {
        Some(tags) => Some(
            DatumView::Object(
                with_field(record->Object_0, OUTPUT_FIELD@, mapping_value(flatten(tags))),
            ),
        ),
        None => None,
    }
}

/// Merges the tags of a tag list, in order, into a fresh mapping.
pub fn flatten_tags(tags: &Vec<Datum>) -> (mapping: MergedMapping)
    ensures
        mapping.wf(),
        mapping@ == flatten(items_view(tags@)),
{
    let ghost all = items_view(tags@);
    let mut mapping = MergedMapping::new();
    let mut at: usize = 0;
    assert(all.take(0) =~= Seq::empty());
    while at < tags.len()
        invariant
            at <= tags.len(),
            all == items_view(tags@),
            mapping.wf(),
            mapping@ == flatten(all.take(at as int)),
        decreases tags.len() - at,
    {
        let ghost seen = all.take(at as int);
        proof {
            assert(all.take(at + 1).drop_last() =~= seen);
            assert(all.take(at + 1).last() == tags@[at as int]@);
        }
        match &tags[at] {
            Datum::Text(tag) => {
                match split_tag(tag.as_str()) {
                    Some(parts) => {
                        proof {
                            lemma_merge_all_push(tag_pairs(seen), parts.key@, parts.value@);
                        }
                        mapping.insert(parts.key, parts.value);
                    },
                    None => {},
                }
            },
            _ => {},
        }
        at = at + 1;
    }
    assert(all.take(at as int) =~= all);
    mapping
}

/// Flattens a record: merges the tags of its field `tags` and stores the
/// mapping under its field `tag`, in place of what that field held before.
/// Every other field is kept as it is.
pub fn flatten_record(record: Datum) -> (outcome: Result<Datum, FlattenError>)
    ensures
        match outcome {
            Ok(output) => flattened(record@) == Some(output@),
            Err(error) => flattened(record@) is None && error
                == FlattenError::MissingOrWrongTypeField,
        },
{
    match record {
        Datum::Object(mut fields) => {
            proof {
                lemma_object_view(fields);
            }
            let ghost before = fields_view(fields@);
            match find_field(&fields, TAGS_FIELD) {
                Some(at) => {
                    proof {
                        lemma_field_of_at(before, TAGS_FIELD@, at as int);
                    }
                    match &fields[at].1 {
                        Datum::Array(tags) => {
                            proof {
                                lemma_array_view(*tags);
                            }
                            let mapping = flatten_tags(tags);
                            let entry = mapping.to_value();
                            set_field(&mut fields, OUTPUT_FIELD, entry);
                            proof {
                                lemma_object_view(fields);
                            }
                            Ok(Datum::Object(fields))
                        },
                        _ => Err(FlattenError::MissingOrWrongTypeField),
                    }
                },
                None => {
                    proof {
                        lemma_field_of_absent(before, TAGS_FIELD@);
                    }
                    Err(FlattenError::MissingOrWrongTypeField)
                },
            }
        },
        _ => Err(FlattenError::MissingOrWrongTypeField),
    }
}

} // verus!
