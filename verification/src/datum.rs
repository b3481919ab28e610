//! Structured values: what a record and its fields are made of.

use vstd::prelude::*;

verus! {

/// A structured value. A record is an `Object`; its fields hold values of any
/// shape.
#[derive(Debug, PartialEq, Eq)]
pub enum Datum {
    Null,
    Boolean(bool),
    Integer(i64),
    Text(String),
    Array(Vec<Datum>),
    Object(Vec<(String, Datum)>),
}

/// The mathematical value that a `Datum` stands for.
pub enum DatumView {
    Null,
    Boolean(bool),
    Integer(int),
    Text(Seq<char>),
    Array(Seq<DatumView>),
    Object(Seq<(Seq<char>, DatumView)>),
}

/// The mathematical value of `value`.
pub open spec fn datum_view(value: Datum) -> DatumView
    decreases value,
{
    match value {
        Datum::Null => DatumView::Null,
        Datum::Boolean(b) => DatumView::Boolean(b),
        Datum::Integer(i) => DatumView::Integer(i as int),
        Datum::Text(text) => DatumView::Text(text@),
        Datum::Array(items) => DatumView::Array(
            Seq::new(
                items@.len(),
                |i: int|
                    if 0 <= i < items@.len() {
                        datum_view(items@[i])
                    } else {
                        DatumView::Null
                    },
            ),
        ),
        Datum::Object(fields) => DatumView::Object(
            Seq::new(
                fields@.len(),
                |i: int|
                    if 0 <= i < fields@.len() {
                        (fields@[i].0@, datum_view(fields@[i].1))
                    } else {
                        (Seq::empty(), DatumView::Null)
                    },
            ),
        ),
    }
}

impl View for Datum {
    type V = DatumView;

    open spec fn view(&self) -> DatumView {
        datum_view(*self)
    }
}

/// The values that a vector of values stands for.
pub open spec fn items_view(items: Seq<Datum>) -> Seq<DatumView> {
    Seq::new(items.len(), |i: int| items[i]@)
}

/// The fields that a vector of named values stands for.
pub open spec fn fields_view(fields: Seq<(String, Datum)>) -> Seq<(Seq<char>, DatumView)> {
    Seq::new(fields.len(), |i: int| (fields[i].0@, fields[i].1@))
}

/// An array stands for the values of its items.
pub proof fn lemma_array_view(items: Vec<Datum>)
    ensures
        Datum::Array(items)@ == DatumView::Array(items_view(items@)),
{
    assert(Datum::Array(items)@->Array_0 =~= items_view(items@));
}

/// An object stands for its fields, with their names and values.
pub proof fn lemma_object_view(fields: Vec<(String, Datum)>)
    ensures
        Datum::Object(fields)@ == DatumView::Object(fields_view(fields@)),
{
    assert(Datum::Object(fields)@->Object_0 =~= fields_view(fields@));
}

/// The first position of `fields` that has the name `name`.
pub open spec fn first_field_at(
    fields: Seq<(Seq<char>, DatumView)>,
    name: Seq<char>,
    at: int,
) -> bool {
    &&& 0 <= at < fields.len()
    &&& fields[at].0 == name
    &&& forall|j: int| 0 <= j < at ==> fields[j].0 != name
}

/// Some field has the name `name`.
pub open spec fn has_field(fields: Seq<(Seq<char>, DatumView)>, name: Seq<char>) -> bool {
    exists|at: int| 0 <= at < fields.len() && fields[at].0 == name
}

/// The value of the first field named `name`, if there is such a field.
pub open spec fn field_of(fields: Seq<(Seq<char>, DatumView)>, name: Seq<char>) -> Option<
    DatumView,
>
    decreases fields.len(),
{
    if fields.len() == 0 {
        None
    } else if fields[0].0 == name {
        Some(fields[0].1)
    } else {
        field_of(fields.drop_first(), name)
    }
}

/// The fields after `name` has been set to `value`: the first field of that
/// name holds the new value, or, where there was none, a new field stands at
/// the end. No other field changes.
pub open spec fn with_field(
    fields: Seq<(Seq<char>, DatumView)>,
    name: Seq<char>,
    value: DatumView,
) -> Seq<(Seq<char>, DatumView)>
    decreases fields.len(),
{
    if fields.len() == 0 {
        seq![(name, value)]
    } else if fields[0].0 == name {
        seq![(name, value)] + fields.drop_first()
    } else {
        seq![fields[0]] + with_field(fields.drop_first(), name, value)
    }
}

/// No name stands at two positions.
pub open spec fn distinct_names(fields: Seq<(Seq<char>, DatumView)>) -> bool {
    forall|i: int, j: int|
        0 <= i < j < fields.len() ==> (#[trigger] fields[i]).0 != (#[trigger] fields[j]).0
}

/// Looking a name up gives the value at its first position.
pub proof fn lemma_field_of_at(fields: Seq<(Seq<char>, DatumView)>, name: Seq<char>, at: int)
    requires
        first_field_at(fields, name, at),
    ensures
        field_of(fields, name) == Some(fields[at].1),
    decreases fields.len(),
{
    if at > 0 {
        let rest = fields.drop_first();
        assert(fields[0].0 != name);
        assert forall|j: int| 0 <= j < at - 1 implies rest[j].0 != name by {
            assert(rest[j] == fields[j + 1]);
        }
        lemma_field_of_at(rest, name, at - 1);
    }
}

/// Looking up a name that no field has gives nothing.
pub proof fn lemma_field_of_absent(fields: Seq<(Seq<char>, DatumView)>, name: Seq<char>)
    requires
        !has_field(fields, name),
    ensures
        field_of(fields, name) is None,
    decreases fields.len(),
{
    if fields.len() > 0 {
        let rest = fields.drop_first();
        assert(fields[0].0 != name);
        assert forall|j: int| 0 <= j < rest.len() implies rest[j].0 != name by {
            assert(rest[j] == fields[j + 1]);
        }
        lemma_field_of_absent(rest, name);
    }
}

/// Setting a field at its first position replaces the value there.
pub proof fn lemma_with_field_at(
    fields: Seq<(Seq<char>, DatumView)>,
    name: Seq<char>,
    value: DatumView,
    at: int,
)
    requires
        first_field_at(fields, name, at),
    ensures
        with_field(fields, name, value) == fields.update(at, (name, value)),
    decreases fields.len(),
{
    let rest = fields.drop_first();
    if at > 0 {
        assert(fields[0].0 != name);
        assert forall|j: int| 0 <= j < at - 1 implies rest[j].0 != name by {
            assert(rest[j] == fields[j + 1]);
        }
        lemma_with_field_at(rest, name, value, at - 1);
        assert(seq![fields[0]] + rest.update(at - 1, (name, value)) =~= fields.update(
            at,
            (name, value),
        ));
    } else {
        assert(seq![(name, value)] + rest =~= fields.update(0, (name, value)));
    }
}

/// Setting a field that no field names adds it at the end.
pub proof fn lemma_with_field_absent(
    fields: Seq<(Seq<char>, DatumView)>,
    name: Seq<char>,
    value: DatumView,
)
    requires
        !has_field(fields, name),
    ensures
        with_field(fields, name, value) == fields.push((name, value)),
    decreases fields.len(),
{
    if fields.len() > 0 {
        let rest = fields.drop_first();
        assert(fields[0].0 != name);
        assert forall|j: int| 0 <= j < rest.len() implies rest[j].0 != name by {
            assert(rest[j] == fields[j + 1]);
        }
        lemma_with_field_absent(rest, name, value);
        assert(seq![fields[0]] + rest.push((name, value)) =~= fields.push((name, value)));
    } else {
        assert(seq![(name, value)] =~= fields.push((name, value)));
    }
}

/// After a field has been set, looking its name up gives the new value, and
/// looking any other name up gives what it gave before.
pub proof fn lemma_with_field_lookup(
    fields: Seq<(Seq<char>, DatumView)>,
    name: Seq<char>,
    value: DatumView,
    other: Seq<char>,
)
    ensures
        field_of(with_field(fields, name, value), name) == Some(value),
        other != name ==> field_of(with_field(fields, name, value), other) == field_of(
            fields,
            other,
        ),
    decreases fields.len(),
{
    let after = with_field(fields, name, value);
    if fields.len() == 0 {
        assert(after.drop_first() =~= fields);
        assert(after[0] == (name, value));
    } else if fields[0].0 == name {
        assert(after.drop_first() =~= fields.drop_first());
        assert(after[0] == (name, value));
    } else {
        let rest = with_field(fields.drop_first(), name, value);
        lemma_with_field_lookup(fields.drop_first(), name, value, other);
        assert(after.drop_first() =~= rest);
        assert(after[0] == fields[0]);
    }
}

/// The position of the first field named `name`.
pub fn find_field(fields: &Vec<(String, Datum)>, name: &str) -> (found: Option<usize>)
    ensures
        match found {
            Some(at) => first_field_at(fields_view(fields@), name@, at as int),
            None => !has_field(fields_view(fields@), name@),
        },
{
    let wanted: String = name.to_owned();
    let mut at: usize = 0;
    while at < fields.len()
        invariant
            at <= fields.len(),
            wanted@ == name@,
            forall|j: int| 0 <= j < at ==> fields_view(fields@)[j].0 != name@,
        decreases fields.len() - at,
    {
        if fields[at].0 == wanted {
            return Some(at);
        }
        at = at + 1;
    }
    None
}

impl Datum {
    /// The value of the field `name` of a record: of its first field of that
    /// name. A value that is no object has no fields.
    pub fn get(&self, name: &str) -> (found: Option<&Datum>)
        ensures
            match self@ {
                DatumView::Object(fields) => match found {
                    Some(value) => field_of(fields, name@) == Some(value@),
                    None => field_of(fields, name@) is None,
                },
                _ => found is None,
            },
    {
        match self {
            Datum::Object(fields) => {
                proof {
                    lemma_object_view(*fields);
                }
                match find_field(fields, name) {
                    Some(at) => {
                        proof {
                            lemma_field_of_at(fields_view(fields@), name@, at as int);
                        }
                        Some(&fields[at].1)
                    },
                    None => {
                        proof {
                            lemma_field_of_absent(fields_view(fields@), name@);
                        }
                        None
                    },
                }
            },
            _ => None,
        }
    }
}

/// Sets the field `name` of a list of fields to `value`, in place of the
/// value of the first field of that name, or as a new last field.
pub fn set_field(fields: &mut Vec<(String, Datum)>, name: &str, value: Datum)
    ensures
        fields_view(final(fields)@) == with_field(fields_view(old(fields)@), name@, value@),
{
    let ghost before = fields_view(fields@);
    match find_field(fields, name) {
        Some(at) => {
            fields.set(at, (name.to_owned(), value));
            proof {
                lemma_with_field_at(before, name@, value@, at as int);
                assert(fields_view(fields@) =~= before.update(at as int, (name@, value@)));
            }
        },
        None => {
            fields.push((name.to_owned(), value));
            proof {
                lemma_with_field_absent(before, name@, value@);
                assert(fields_view(fields@) =~= before.push((name@, value@)));
            }
        },
    }
}

/// Whether two values stand for the same mathematical value.
pub fn same_value(a: &Datum, b: &Datum) -> (same: bool)
    ensures
        same == (a@ == b@),
    decreases a,
{
    match (a, b) {
        (Datum::Null, Datum::Null) => true,
        (Datum::Boolean(x), Datum::Boolean(y)) => *x == *y,
        (Datum::Integer(x), Datum::Integer(y)) => *x == *y,
        (Datum::Text(x), Datum::Text(y)) => *x == *y,
        (Datum::Array(x), Datum::Array(y)) => {
            proof {
                lemma_array_view(*x);
                lemma_array_view(*y);
            }
            if x.len() != y.len() {
                assert(items_view(x@).len() != items_view(y@).len());
                return false;
            }
            let mut at: usize = 0;
            while at < x.len()
                invariant
                    at <= x.len(),
                    x.len() == y.len(),
                    *a == Datum::Array(*x),
                    a@ == DatumView::Array(items_view(x@)),
                    b@ == DatumView::Array(items_view(y@)),
                    forall|j: int| 0 <= j < at ==> x@[j]@ == y@[j]@,
                decreases x.len() - at,
            {
                proof {
                    vstd::std_specs::vec::axiom_vec_index_decreases(*x, at as int);
                    assert(decreases_to!(*a => a->Array_0));
                }
                if !same_value(&x[at], &y[at]) {
                    assert(items_view(x@)[at as int] != items_view(y@)[at as int]);
                    return false;
                }
                at = at + 1;
            }
            assert(items_view(x@) =~= items_view(y@));
            true
        },
        (Datum::Object(x), Datum::Object(y)) => {
            proof {
                lemma_object_view(*x);
                lemma_object_view(*y);
            }
            if x.len() != y.len() {
                assert(fields_view(x@).len() != fields_view(y@).len());
                return false;
            }
            let mut at: usize = 0;
            while at < x.len()
                invariant
                    at <= x.len(),
                    x.len() == y.len(),
                    *a == Datum::Object(*x),
                    a@ == DatumView::Object(fields_view(x@)),
                    b@ == DatumView::Object(fields_view(y@)),
                    forall|j: int| 0 <= j < at ==> x@[j].0@ == y@[j].0@ && x@[j].1@ == y@[j].1@,
                decreases x.len() - at,
            {
                proof {
                    vstd::std_specs::vec::axiom_vec_index_decreases(*x, at as int);
                    assert(decreases_to!(*a => a->Object_0));
                    assert(decreases_to!(x@[at as int] => x@[at as int].1));
                }
                if !(x[at].0 == y[at].0) || !same_value(&x[at].1, &y[at].1) {
                    assert(fields_view(x@)[at as int] != fields_view(y@)[at as int]);
                    return false;
                }
                at = at + 1;
            }
            assert(fields_view(x@) =~= fields_view(y@));
            true
        },
        _ => false,
    }
}

} // verus!
