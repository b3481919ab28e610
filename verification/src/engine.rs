//! The expression engine that the interpreted path runs on, and the JSON
//! reader of its values. Nothing is proved of the engine or of the reader:
//! each trusted item says in its comment what it calls and what its contract
//! claims. The conversions between the engine's values and `Datum` are
//! verified against those contracts.

use crate::datum::{
    distinct_names, field_of, fields_view, has_field, items_view, lemma_array_view,
    lemma_field_of_at, lemma_object_view, Datum, DatumView,
};
use std::collections::BTreeMap;
use vrl::compiler::runtime::{Runtime, Terminate};
use vrl::compiler::{Program, TargetValueRef, TimeZone};
use vrl::diagnostic::DiagnosticList;
use vrl::value::{Secrets, Value as EngineValue};
use vstd::prelude::*;

verus! {

/// `vrl::value::Value`, the engine's own value type. Opaque here.
#[verifier::external_type_specification]
#[verifier::external_body]
pub struct ExEngineValue(vrl::value::Value);

/// `vrl::compiler::Program`, a compiled program. Opaque here.
#[verifier::external_type_specification]
#[verifier::external_body]
pub struct ExProgram(vrl::compiler::Program);

/// `vrl::compiler::runtime::Runtime`, the state of a run. Opaque here.
#[verifier::external_type_specification]
#[verifier::external_body]
pub struct ExRuntime(vrl::compiler::runtime::Runtime);

/// `vrl::compiler::runtime::Terminate`, the error of a run. Opaque here.
#[verifier::external_type_specification]
#[verifier::external_body]
pub struct ExTerminate(vrl::compiler::runtime::Terminate);

/// `vrl::diagnostic::DiagnosticList`, the errors of a compilation. Opaque
/// here.
#[verifier::external_type_specification]
#[verifier::external_body]
pub struct ExDiagnosticList(vrl::diagnostic::DiagnosticList);

/// `vrl::diagnostic::Diagnostic`, one error of a compilation. Opaque here.
#[verifier::external_type_specification]
#[verifier::external_body]
pub struct ExDiagnostic(vrl::diagnostic::Diagnostic);

/// `serde_json::Error`. Opaque here.
#[verifier::external_type_specification]
#[verifier::external_body]
pub struct ExJsonError(serde_json::Error);

/// What an engine value holds: texts, integers, booleans, nulls, and arrays
/// and objects of these. `None` for an engine value that holds, at any
/// level, something else. This is a name for the contents of a
/// `vrl::value::Value`; `open_value` says how it goes through the variants.
pub uninterp spec fn held(value: EngineValue) -> Option<DatumView>;

/// What `serde_json::from_slice` reads in a JSON text, into the engine's
/// value type: `None` for a text that it refuses, else what the value that
/// it read holds, which is `None` again where `held` has no value for it.
pub uninterp spec fn json_value(text: Seq<char>) -> Option<Option<DatumView>>;

/// Whether a runtime holds no variable: what `Runtime::is_empty` returns.
pub uninterp spec fn runtime_is_empty(runtime: Runtime) -> bool;

/// What an array of engine values holds: the array of what its items hold,
/// where every item holds something.
pub open spec fn held_array(items: Seq<EngineValue>) -> Option<DatumView> {
    if forall|i: int| 0 <= i < items.len() ==> held(#[trigger] items[i]) is Some {
        Some(DatumView::Array(Seq::new(items.len(), |i: int| held(items[i])->0)))
    } else {
        None
    }
}

/// What named engine values hold: the object of the names with what the
/// values hold, where every value holds something.
pub open spec fn held_object(fields: Seq<(String, EngineValue)>) -> Option<DatumView> {
    if forall|i: int| 0 <= i < fields.len() ==> held((#[trigger] fields[i]).1) is Some {
        Some(
            DatumView::Object(
                Seq::new(fields.len(), |i: int| (fields[i].0@, held(fields[i].1)->0)),
            ),
        )
    } else {
        None
    }
}

/// The value has at most `depth` levels: a value that is neither array nor
/// object has one, an array or object one more than what it holds.
pub open spec fn within(datum: DatumView, depth: nat) -> bool
    decreases depth,
{
    depth > 0 && match datum {
        DatumView::Array(items) => forall|i: int|
            0 <= i < items.len() ==> within(#[trigger] items[i], (depth - 1) as nat),
        DatumView::Object(fields) => forall|i: int|
            0 <= i < fields.len() ==> within((#[trigger] fields[i]).1, (depth - 1) as nat),
        _ => true,
    }
}

/// Two fields have the same name and the same value.
pub open spec fn same_field(a: (Seq<char>, DatumView), b: (Seq<char>, DatumView)) -> bool {
    a == b
}

/// The fields `kept` are fields of `given`, one for each name of `given`:
/// no name stands twice in `kept`, every name of `given` stands in it, and
/// each of its fields is a field of `given`. Their order is left open.
pub open spec fn kept_from(
    given: Seq<(Seq<char>, DatumView)>,
    kept: Seq<(Seq<char>, DatumView)>,
) -> bool {
    &&& kept.len() <= given.len()
    &&& distinct_names(kept)
    &&& forall|i: int| 0 <= i < given.len() ==> has_field(kept, (#[trigger] given[i]).0)
    &&& forall|j: int|
        #![trigger kept[j]]
        0 <= j < kept.len() ==> exists|i: int|
            0 <= i < given.len() && #[trigger] same_field(given[i], kept[j])
}

/// No object of the value, at any level, has a name twice.
pub open spec fn distinct_deep(datum: DatumView) -> bool
    decreases datum,
{
    match datum {
        DatumView::Array(items) => forall|i: int|
            0 <= i < items.len() ==> distinct_deep(#[trigger] items[i]),
        DatumView::Object(fields) => distinct_names(fields) && forall|i: int|
            0 <= i < fields.len() ==> distinct_deep((#[trigger] fields[i]).1),
        _ => true,
    }
}

/// `kept` holds what `given` holds, with the fields of every object in one
/// order or another: array for array item by item, object for object with
/// every field found under its name and no field more, and any other value
/// for itself.
pub open spec fn carries(given: DatumView, kept: DatumView) -> bool
    decreases given,
{
    match given {
        DatumView::Array(items) => match kept {
            DatumView::Array(others) => others.len() == items.len() && forall|i: int|
                0 <= i < items.len() ==> carries(#[trigger] items[i], others[i]),
            _ => false,
        },
        DatumView::Object(fields) => match kept {
            DatumView::Object(others) => {
                &&& others.len() <= fields.len()
                &&& distinct_names(others)
                &&& forall|i: int|
                    0 <= i < fields.len() ==> match field_of(others, (#[trigger] fields[i]).0) {
                        Some(found) => carries(fields[i].1, found),
                        None => false,
                    }
            },
            _ => false,
        },
        _ => kept == given,
    }
}

/// One level of an engine value: its variant, with the values below it
/// still in the engine's type.
pub enum Shallow {
    Null,
    Boolean(bool),
    Integer(i64),
    Text(String),
    Array(Vec<EngineValue>),
    Object(Vec<(String, EngineValue)>),
}

/// Takes an engine value apart by matching on `vrl::value::Value`, one level
/// deep. `None` for the variants that this library does not hold (regular
/// expressions, floating-point numbers, timestamps). The contract ties the
/// name `held` to the variants: a null, boolean or integer holds itself, the
/// bytes of a text hold the text that `String::from_utf8_lossy` reads in
/// them, an array or object holds what its parts hold, with the names of an
/// object in the order in which its map walks them. No name of an object
/// comes twice: they are the keys of a map.
#[verifier::external_body]
pub(crate) fn open_value(value: EngineValue) -> (shape: Option<Shallow>)
    ensures
        match shape {
            None => held(value) is None,
            Some(Shallow::Null) => held(value) == Some(DatumView::Null),
            Some(Shallow::Boolean(b)) => held(value) == Some(DatumView::Boolean(b)),
            Some(Shallow::Integer(i)) => held(value) == Some(DatumView::Integer(i as int)),
            Some(Shallow::Text(text)) => held(value) == Some(DatumView::Text(text@)),
            Some(Shallow::Array(items)) => held(value) == held_array(items@),
            Some(Shallow::Object(fields)) => held(value) == held_object(fields@) && forall|
                i: int,
                j: int,
            |
                0 <= i < j < fields@.len() ==> (#[trigger] fields@[i]).0@ != (
                #[trigger] fields@[j]).0@,
        },
{
    match value {
        EngineValue::Null => Some(Shallow::Null),
        EngineValue::Boolean(b) => Some(Shallow::Boolean(b)),
        EngineValue::Integer(i) => Some(Shallow::Integer(i)),
        EngineValue::Bytes(bytes) => Some(Shallow::Text(String::from_utf8_lossy(&bytes).into_owned())),
        EngineValue::Array(items) => Some(Shallow::Array(items)),
        EngineValue::Object(fields) => Some(Shallow::Object(fields.into_iter().map(|(name, held)| (name.into(), held)).collect())),
        _ => None,
    }
}

/// Builds an engine value from one level, with the constructors of
/// `vrl::value::Value`. The contract says what the built value holds: a
/// null, boolean, integer or text holds itself, an array what its items
/// hold. An object is collected into the engine's map, which keeps one field
/// for each name: it holds fields of those given, one for each name, in the
/// map's order.
#[verifier::external_body]
pub(crate) fn close_value(shape: Shallow) -> (value: EngineValue)
    ensures
        match shape {
            Shallow::Null => held(value) == Some(DatumView::Null),
            Shallow::Boolean(b) => held(value) == Some(DatumView::Boolean(b)),
            Shallow::Integer(i) => held(value) == Some(DatumView::Integer(i as int)),
            Shallow::Text(text) => held(value) == Some(DatumView::Text(text@)),
            Shallow::Array(items) => held(value) == held_array(items@),
            Shallow::Object(fields) => held_object(fields@) is Some ==> held(value) is Some
                && held(value)->0 is Object && kept_from(
                held_object(fields@)->0->Object_0,
                held(value)->0->Object_0,
            ),
        },
{
    match shape {
        Shallow::Null => EngineValue::Null,
        Shallow::Boolean(b) => EngineValue::Boolean(b),
        Shallow::Integer(i) => EngineValue::Integer(i),
        Shallow::Text(text) => EngineValue::Bytes(text.into()),
        Shallow::Array(items) => EngineValue::Array(items),
        Shallow::Object(fields) => EngineValue::Object(fields.into_iter().map(|(name, held)| (name.into(), held)).collect()),
    }
}

/// Calls `serde_json::from_slice` for the engine's value type on the bytes
/// of `data`. The contract gives the outcome the name `json_value`: what
/// the value that was read holds, nothing where the text was refused.
#[verifier::external_body]
pub(crate) fn decode_json(data: &str) -> (outcome: Result<EngineValue, serde_json::Error>)
    ensures
        match outcome {
            Ok(value) => json_value(data@) == Some(held(value)),
            Err(_) => json_value(data@) is None,
        },
{
    serde_json::from_slice::<EngineValue>(data.as_bytes())
}

/// Calls `vrl::compiler::compile` on `source`, with the functions of
/// `vrl::stdlib::all`, and keeps the program. Nothing is claimed of the
/// result.
#[verifier::external_body]
pub(crate) fn compile_program(source: &str) -> (outcome: Result<Program, DiagnosticList>) {
    vrl::compiler::compile(source, &vrl::stdlib::all()).map(|compiled| compiled.program)
}

/// Calls `Runtime::default`. The contract says that the new runtime holds no
/// variable: its state is an empty map.
#[verifier::external_body]
pub(crate) fn new_runtime() -> (runtime: Runtime)
    ensures
        runtime_is_empty(runtime),
{
    Runtime::default()
}

/// Calls `Runtime::is_empty`, and gives its result the name
/// `runtime_is_empty`.
#[verifier::external_body]
pub(crate) fn runtime_empty(runtime: &Runtime) -> (empty: bool)
    ensures
        empty == runtime_is_empty(*runtime),
{
    runtime.is_empty()
}

/// Calls `Runtime::clear`, which empties the map of variables that a run
/// has left. The contract says that the runtime then holds no variable.
#[verifier::external_body]
pub(crate) fn clear_runtime(runtime: &mut Runtime)
    ensures
        runtime_is_empty(*final(runtime)),
{
    runtime.clear();
}

/// Calls `Runtime::resolve` with `record` as the target, empty metadata and
/// secrets and the local time zone. Gives back the target as the program
/// left it. Nothing is claimed of the result.
#[verifier::external_body]
pub(crate) fn run_program(runtime: &mut Runtime, program: &Program, record: EngineValue) -> (outcome:
    Result<EngineValue, Terminate>) {
    let mut value = record;
    let mut metadata = EngineValue::Object(BTreeMap::new());
    let mut secrets = Secrets::default();
    let mut target = TargetValueRef { value: &mut value, metadata: &mut metadata, secrets: &mut secrets };
    let outcome = runtime.resolve(&mut target, program, &TimeZone::Local);
    outcome.map(|_| value)
}

/// The engine's value for `value`, built level by level. Where no object of
/// `value` has a name twice, the engine's value holds what `value` holds.
pub fn to_engine(value: &Datum) -> (converted: EngineValue)
    ensures
        held(converted) is Some,
        distinct_deep(value@) ==> carries(value@, held(converted)->0),
    decreases value,
{
    match value {
        Datum::Null => close_value(Shallow::Null),
        Datum::Boolean(b) => close_value(Shallow::Boolean(*b)),
        Datum::Integer(i) => close_value(Shallow::Integer(*i)),
        Datum::Text(text) => close_value(Shallow::Text(text.clone())),
        Datum::Array(items) => {
            let mut converted: Vec<EngineValue> = Vec::new();
            let mut at: usize = 0;
            while at < items.len()
                invariant
                    at <= items.len(),
                    *value == Datum::Array(*items),
                    converted@.len() == at,
                    forall|j: int|
                        0 <= j < at ==> held(#[trigger] converted@[j]) is Some && (distinct_deep(
                            items@[j]@,
                        ) ==> carries(items@[j]@, held(converted@[j])->0)),
                decreases items.len() - at,
            {
                proof {
                    vstd::std_specs::vec::axiom_vec_index_decreases(*items, at as int);
                    assert(decreases_to!(*value => value->Array_0));
                }
                converted.push(to_engine(&items[at]));
                at = at + 1;
            }
            let built = close_value(Shallow::Array(converted));
            proof {
                lemma_array_view(*items);
                let wanted = items_view(items@);
                assert(held_array(converted@) is Some);
                let others = held(built)->0->Array_0;
                assert(value@ == DatumView::Array(wanted));
                if distinct_deep(value@) {
                    assert forall|i: int| 0 <= i < wanted.len() implies carries(
                        #[trigger] wanted[i],
                        others[i],
                    ) by {
                        assert(others[i] == held(converted@[i])->0);
                        assert(decreases_to!(value@ => value@->Array_0));
                        assert(decreases_to!(wanted => wanted[i]));
                        assert(distinct_deep(wanted[i]));
                    }
                }
            }
            built
        },
        Datum::Object(fields) => {
            let mut converted: Vec<(String, EngineValue)> = Vec::new();
            let mut at: usize = 0;
            while at < fields.len()
                invariant
                    at <= fields.len(),
                    *value == Datum::Object(*fields),
                    converted@.len() == at,
                    forall|j: int|
                        0 <= j < at ==> held((#[trigger] converted@[j]).1) is Some
                            && converted@[j].0@ == fields@[j].0@ && (distinct_deep(fields@[j].1@)
                            ==> carries(fields@[j].1@, held(converted@[j].1)->0)),
                decreases fields.len() - at,
            {
                proof {
                    vstd::std_specs::vec::axiom_vec_index_decreases(*fields, at as int);
                    assert(decreases_to!(*value => value->Object_0));
                    assert(decreases_to!(fields@[at as int] => fields@[at as int].1));
                }
                converted.push((fields[at].0.clone(), to_engine(&fields[at].1)));
                at = at + 1;
            }
            let built = close_value(Shallow::Object(converted));
            proof {
                lemma_object_view(*fields);
                assert(held_object(converted@) is Some);
                let given = held_object(converted@)->0->Object_0;
                let kept = held(built)->0->Object_0;
                let wanted = fields_view(fields@);
                assert(value@ == DatumView::Object(wanted));
                if distinct_deep(value@) {
                    assert forall|i: int| 0 <= i < wanted.len() implies (match field_of(
                        kept,
                        (#[trigger] wanted[i]).0,
                    ) {
                        Some(found) => carries(wanted[i].1, found),
                        None => false,
                    }) by {
                        assert(given[i].0 == wanted[i].0);
                        assert(has_field(kept, given[i].0));
                        let j = choose|j: int| 0 <= j < kept.len() && kept[j].0 == given[i].0;
                        let source = choose|source: int|
                            0 <= source < given.len() && #[trigger] same_field(
                                given[source],
                                kept[j],
                            );
                        assert(wanted[source].0 == given[source].0);
                        if source != i {
                            assert(wanted[source].0 != wanted[i].0);
                        }
                        assert forall|k: int| 0 <= k < j implies kept[k].0 != kept[j].0 by {
                            assert(kept[k].0 != kept[j].0);
                        }
                        lemma_field_of_at(kept, wanted[i].0, j);
                        assert(decreases_to!(value@ => value@->Object_0));
                        assert(decreases_to!(wanted => wanted[i]));
                        assert(decreases_to!(wanted[i] => wanted[i].1));
                        assert(distinct_deep(wanted[i].1));
                    }
                }
            }
            built
        },
    }
}

/// The value that an engine value holds, down to `depth` levels. `None`
/// where the engine value holds something that `Datum` has no variant for,
/// or has more levels than that.
pub fn from_engine(value: EngineValue, depth: usize) -> (converted: Option<Datum>)
    ensures
        converted matches Some(datum) ==> held(value) == Some(datum@) && distinct_deep(datum@),
        converted is Some <==> (held(value) matches Some(datum) && within(datum, depth as nat)),
    decreases depth,
{
    if depth == 0 {
        return None;
    }
    match open_value(value) {
        None => None,
        Some(Shallow::Null) => Some(Datum::Null),
        Some(Shallow::Boolean(b)) => Some(Datum::Boolean(b)),
        Some(Shallow::Integer(i)) => Some(Datum::Integer(i)),
        Some(Shallow::Text(text)) => Some(Datum::Text(text)),
        Some(Shallow::Array(items)) => {
            let ghost all = items@;
            let mut converted: Vec<Datum> = Vec::new();
            for item in walk: items
                invariant
                    depth > 0,
                    walk.seq() == all,
                    held(value) == held_array(all),
                    converted@.len() == walk.index(),
                    forall|j: int|
                        0 <= j < converted@.len() ==> held(#[trigger] all[j]) == Some(
                            converted@[j]@,
                        ) && within(converted@[j]@, (depth - 1) as nat) && distinct_deep(
                            converted@[j]@,
                        ),
            {
                match from_engine(item, depth - 1) {
                    Some(datum) => converted.push(datum),
                    None => {
                        proof {
                            let at = walk.index();
                            assert(item == all[at]);
                            if held_array(all) is Some {
                                let items = held_array(all)->0->Array_0;
                                assert(items[at] == held(all[at])->0);
                                assert(!within(items[at], (depth - 1) as nat));
                            }
                        }
                        return None;
                    },
                }
            }
            proof {
                lemma_array_view(converted);
                assert(held_array(all)->0->Array_0 =~= items_view(converted@));
                assert(forall|j: int|
                    0 <= j < converted@.len() ==> distinct_deep(
                        #[trigger] items_view(converted@)[j],
                    ));
            }
            Some(Datum::Array(converted))
        },
        Some(Shallow::Object(fields)) => {
            let ghost all = fields@;
            let mut converted: Vec<(String, Datum)> = Vec::new();
            for field in walk: fields
                invariant
                    depth > 0,
                    walk.seq() == all,
                    held(value) == held_object(all),
                    forall|i: int, j: int|
                        0 <= i < j < all.len() ==> (#[trigger] all[i]).0@ != (#[trigger] all[j]).0@,
                    converted@.len() == walk.index(),
                    forall|j: int|
                        0 <= j < converted@.len() ==> held((#[trigger] all[j]).1) == Some(
                            converted@[j].1@,
                        ) && all[j].0@ == converted@[j].0@ && within(
                            converted@[j].1@,
                            (depth - 1) as nat,
                        ) && distinct_deep(converted@[j].1@),
            {
                match from_engine(field.1, depth - 1) {
                    Some(datum) => converted.push((field.0, datum)),
                    None => {
                        proof {
                            let at = walk.index();
                            assert(field == all[at]);
                            if held_object(all) is Some {
                                let fields = held_object(all)->0->Object_0;
                                assert(fields[at].1 == held(all[at].1)->0);
                                assert(!within(fields[at].1, (depth - 1) as nat));
                            }
                        }
                        return None;
                    },
                }
            }
            proof {
                lemma_object_view(converted);
                let read = fields_view(converted@);
                assert(held_object(all)->0->Object_0 =~= read);
                assert forall|i: int, j: int| 0 <= i < j < read.len() implies (#[trigger] read[i]).0
                    != (#[trigger] read[j]).0 by {
                    assert(all[i].0@ != all[j].0@);
                }
                assert(forall|j: int|
                    0 <= j < read.len() ==> distinct_deep((#[trigger] read[j]).1));
            }
            Some(Datum::Object(converted))
        },
    }
}

} // verus!
