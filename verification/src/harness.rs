//! The two paths that flatten a record, the native routine and a program run
//! by the expression engine, and the comparison of what they give.

use crate::datum::{
    field_of, fields_view, find_field, lemma_field_of_absent, lemma_field_of_at,
    lemma_object_view, same_value, Datum, DatumView,
};
use crate::engine::{
    clear_runtime, compile_program, decode_json, distinct_deep, from_engine, held, json_value,
    new_runtime, run_program, runtime_empty, runtime_is_empty, to_engine, within,
};
use crate::error::FlattenError;
use crate::flatten::{flatten_record, flattened, OUTPUT_FIELD};
use vrl::compiler::runtime::{Runtime, Terminate};
use vrl::compiler::Program;
use vrl::diagnostic::DiagnosticList;
use vrl::value::Value as EngineValue;
use vstd::prelude::*;

verus! {

/// The number of levels of nesting that are read from an engine value.
pub const DEPTH_LIMIT: usize = 128;

/// The program of the interpreted path: for each text of `.tags` that holds
/// a colon, the part before the first colon is the key and the rest the
/// value; a new key gets the value, a key that holds a text gets the array of
/// that text and the value, a key that holds an array gets the value
/// appended. The mapping is stored under `.tag`.
pub const FLATTEN_SCRIPT: &'static str = "
tag = {}

for_each(array!(.tags)) -> |_index, t| {
    if is_string(t) {
        parts = split!(t, \":\", limit: 2)
        if length(parts) == 2 {
            key = string!(parts[0])
            current = get!(tag, [key])
            if is_null(current) {
                tag = set!(value: tag, path: [key], data: parts[1])
            } else if is_string(current) {
                tag = set!(value: tag, path: [key], data: [current, parts[1]])
            } else {
                tag = set!(value: tag, path: [key], data: push(array!(current), parts[1]))
            }
        }
    }
}

.tag = tag
";

/// What reading a JSON text gives: the record that the text denotes, where
/// it denotes one of no more than `DEPTH_LIMIT` levels; `MalformedInput` for
/// a text that is no JSON; `UnsupportedValue` for one that denotes what a
/// record cannot carry.
pub open spec fn read_outcome(text: Seq<char>) -> Result<DatumView, FlattenError> {
    match json_value(text) {
        Some(Some(record)) => if within(record, DEPTH_LIMIT as nat) {
            Ok(record)
        } else {
            Err(FlattenError::UnsupportedValue)
        },
        Some(None) => Err(FlattenError::UnsupportedValue),
        None => Err(FlattenError::MalformedInput),
    }
}

/// Reads the record that a JSON text denotes. A text that is no JSON gives
/// `MalformedInput`; one that denotes what a record cannot carry gives
/// `UnsupportedValue`. No object of a record that was read has a name twice.
pub fn parse_record(data: &str) -> (outcome: Result<Datum, FlattenError>)
    ensures
        match outcome {
            Ok(record) => read_outcome(data@) == Ok::<DatumView, FlattenError>(record@)
                && distinct_deep(record@),
            Err(error) => read_outcome(data@) == Err::<DatumView, FlattenError>(error),
        },
{
    match decode_json(data) {
        Ok(decoded) => match from_engine(decoded, DEPTH_LIMIT) {
            Some(record) => Ok(record),
            None => Err(FlattenError::UnsupportedValue),
        },
        Err(_) => Err(FlattenError::MalformedInput),
    }
}

/// The native path on a JSON text: reads the record and flattens it.
pub fn flatten_json(data: &str) -> (outcome: Result<Datum, FlattenError>)
    ensures
        match read_outcome(data@) {
            Ok(record) => match flattened(record) {
                Some(output) => outcome matches Ok(changed) && changed@ == output,
                None => outcome == Err::<Datum, FlattenError>(
                    FlattenError::MissingOrWrongTypeField,
                ),
            },
            Err(error) => outcome == Err::<Datum, FlattenError>(error),
        },
{
    match parse_record(data) {
        Ok(record) => flatten_record(record),
        Err(error) => Err(error),
    }
}

/// What one run of the engine amounts to: the record that the engine left,
/// where the run ended well and left one that a record can carry.
pub fn outcome_of_run(run: Result<EngineValue, Terminate>) -> (outcome: Result<
    Datum,
    FlattenError,
>)
    ensures
        match run {
            Ok(changed) => match held(changed) {
                Some(output) => if within(output, DEPTH_LIMIT as nat) {
                    outcome matches Ok(record) && record@ == output && distinct_deep(record@)
                } else {
                    outcome == Err::<Datum, FlattenError>(FlattenError::UnsupportedValue)
                },
                None => outcome == Err::<Datum, FlattenError>(FlattenError::UnsupportedValue),
            },
            Err(_) => outcome == Err::<Datum, FlattenError>(
                FlattenError::InterpretedPathEvaluationFailure,
            ),
        },
{
    match run {
        Ok(changed) => match from_engine(changed, DEPTH_LIMIT) {
            Some(output) => Ok(output),
            None => Err(FlattenError::UnsupportedValue),
        },
        Err(_) => Err(FlattenError::InterpretedPathEvaluationFailure),
    }
}

/// The interpreted path: a compiled program and the runtime it runs on.
pub struct Interpreter {
    program: Program,
    runtime: Runtime,
}

impl Interpreter {
    /// The program that the interpreter runs.
    pub closed spec fn program(&self) -> Program {
        self.program
    }

    /// The runtime holds no variable: nothing of an earlier run is left.
    pub closed spec fn fresh(&self) -> bool {
        runtime_is_empty(self.runtime)
    }

    /// An interpreter for `FLATTEN_SCRIPT`, where the engine compiles it. The
    /// interpreter is fresh.
    pub fn new() -> (outcome: Result<Interpreter, FlattenError>)
        ensures
            match outcome {
                Ok(interpreter) => interpreter.fresh(),
                Err(error) => error == FlattenError::InvalidProgram,
            },
    {
        Interpreter::with_script(FLATTEN_SCRIPT)
    }

    /// An interpreter for the program `source`, where the engine compiles
    /// it. The interpreter is fresh.
    pub fn with_script(source: &str) -> (outcome: Result<Interpreter, FlattenError>)
        ensures
            match outcome {
                Ok(interpreter) => interpreter.fresh(),
                Err(error) => error == FlattenError::InvalidProgram,
            },
    {
        Interpreter::from_compiled(compile_program(source))
    }

    /// What a compilation amounts to: a fresh interpreter for the program,
    /// where there is one, and `InvalidProgram` where the engine refused the
    /// source.
    pub fn from_compiled(compiled: Result<Program, DiagnosticList>) -> (outcome: Result<
        Interpreter,
        FlattenError,
    >)
        ensures
            match compiled {
                Ok(program) => outcome matches Ok(interpreter) && interpreter.program() == program
                    && interpreter.fresh(),
                Err(_) => outcome matches Err(error) && error == FlattenError::InvalidProgram,
            },
    {
        match compiled {
            Ok(program) => Ok(Interpreter { program, runtime: new_runtime() }),
            Err(_) => Err(FlattenError::InvalidProgram),
        }
    }

    /// Whether the runtime holds no variable.
    pub fn is_fresh(&self) -> (fresh: bool)
        ensures
            fresh == self.fresh(),
    {
        runtime_empty(&self.runtime)
    }

    /// Runs the program on `record` and gives the record as the program left
    /// it: one of no more than `DEPTH_LIMIT` levels, in which no object has
    /// a name twice. The runtime is cleared after the run, whatever its
    /// outcome, and the program stays.
    pub fn flatten_record(&mut self, record: &Datum) -> (outcome: Result<Datum, FlattenError>)
        ensures
            final(self).fresh(),
            final(self).program() == old(self).program(),
            match outcome {
                Ok(output) => distinct_deep(output@) && within(output@, DEPTH_LIMIT as nat),
                Err(error) => error == FlattenError::InterpretedPathEvaluationFailure || error
                    == FlattenError::UnsupportedValue,
            },
    {
        let target = to_engine(record);
        let run = run_program(&mut self.runtime, &self.program, target);
        clear_runtime(&mut self.runtime);
        outcome_of_run(run)
    }

    /// The interpreted path on a JSON text: reads the record and runs the
    /// program on it. A text that gives no record fails as reading it fails,
    /// and the interpreter is left as it was; on a record the program runs,
    /// as `flatten_record` says.
    pub fn flatten_json(&mut self, data: &str) -> (outcome: Result<Datum, FlattenError>)
        ensures
            match read_outcome(data@) {
                Ok(_) => {
                    &&& final(self).fresh()
                    &&& final(self).program() == old(self).program()
                    &&& match outcome {
                        Ok(output) => distinct_deep(output@) && within(
                            output@,
                            DEPTH_LIMIT as nat,
                        ),
                        Err(error) => error == FlattenError::InterpretedPathEvaluationFailure
                            || error == FlattenError::UnsupportedValue,
                    }
                },
                Err(error) => outcome == Err::<Datum, FlattenError>(error) && *final(self) == *old(
                    self,
                ),
            },
    {
        match parse_record(data) {
            Ok(record) => self.flatten_record(&record),
            Err(error) => Err(error),
        }
    }
}

/// The entries of the mapping that a record holds under its field `tag`.
pub open spec fn output_of(record: DatumView) -> Option<Seq<(Seq<char>, DatumView)>> {
    match record {
        DatumView::Object(fields) => match field_of(fields, OUTPUT_FIELD@) {
            Some(DatumView::Object(entries)) => Some(entries),
            _ => None,
        },
        _ => None,
    }
}

/// Two lists of entries hold the same keys with the same values: they are
/// equally long, and each key of the first is found in the second with an
/// equal value. The order of the keys does not count, the order inside a
/// value does.
pub open spec fn same_entries(
    a: Seq<(Seq<char>, DatumView)>,
    b: Seq<(Seq<char>, DatumView)>,
) -> bool {
    &&& a.len() == b.len()
    &&& forall|i: int| 0 <= i < a.len() ==> field_of(b, (#[trigger] a[i]).0) == Some(a[i].1)
}

/// Two records hold equal mappings under their field `tag`.
pub open spec fn same_output(a: DatumView, b: DatumView) -> bool {
    match (output_of(a), output_of(b)) {
        (Some(x), Some(y)) => same_entries(x, y),
        _ => false,
    }
}

/// The mapping under the field `tag` of a record, where it holds one.
fn output_entries(record: &Datum) -> (found: Option<&Vec<(String, Datum)>>)
    ensures
        match found {
            Some(entries) => output_of(record@) == Some(fields_view(entries@)),
            None => output_of(record@) is None,
        },
{
    match record {
        Datum::Object(fields) => {
            proof {
                lemma_object_view(*fields);
            }
            match find_field(fields, OUTPUT_FIELD) {
                Some(at) => {
                    proof {
                        lemma_field_of_at(fields_view(fields@), OUTPUT_FIELD@, at as int);
                    }
                    match &fields[at].1 {
                        Datum::Object(entries) => {
                            proof {
                                lemma_object_view(*entries);
                            }
                            Some(entries)
                        },
                        _ => None,
                    }
                },
                None => {
                    proof {
                        lemma_field_of_absent(fields_view(fields@), OUTPUT_FIELD@);
                    }
                    None
                },
            }
        },
        _ => None,
    }
}

/// Whether the outputs of the two paths agree: both records hold a mapping
/// under `tag`, with the same keys, and under each key the same text or the
/// same array.
pub fn outputs_agree(native: &Datum, interpreted: &Datum) -> (agree: bool)
    ensures
        agree == same_output(native@, interpreted@),
{
    let first = match output_entries(native) {
        Some(entries) => entries,
        None => {
            return false;
        },
    };
    let second = match output_entries(interpreted) {
        Some(entries) => entries,
        None => {
            return false;
        },
    };
    if first.len() != second.len() {
        return false;
    }
    let ghost a = fields_view(first@);
    let ghost b = fields_view(second@);
    let mut at: usize = 0;
    while at < first.len()
        invariant
            at <= first.len(),
            first.len() == second.len(),
            a == fields_view(first@),
            b == fields_view(second@),
            output_of(native@) == Some(a),
            output_of(interpreted@) == Some(b),
            forall|i: int| 0 <= i < at ==> field_of(b, (#[trigger] a[i]).0) == Some(a[i].1),
        decreases first.len() - at,
    {
        let same = match find_field(second, first[at].0.as_str()) {
            Some(other) => {
                proof {
                    lemma_field_of_at(b, a[at as int].0, other as int);
                }
                same_value(&first[at].1, &second[other].1)
            },
            None => {
                proof {
                    lemma_field_of_absent(b, a[at as int].0);
                }
                false
            },
        };
        if !same {
            assert(field_of(b, a[at as int].0) != Some(a[at as int].1));
            return false;
        }
        at = at + 1;
    }
    true
}

/// Runs both paths on one record and compares what they give. Fails where a
/// path fails; a record without a tag list fails on the native path.
pub fn check_equivalence(interpreter: &mut Interpreter, record: Datum) -> (outcome: Result<
    bool,
    FlattenError,
>)
    ensures
        flattened(record@) is None <==> outcome == Err::<bool, FlattenError>(
            FlattenError::MissingOrWrongTypeField,
        ),
        outcome matches Err(error) ==> error == FlattenError::MissingOrWrongTypeField || error
            == FlattenError::InterpretedPathEvaluationFailure || error
            == FlattenError::UnsupportedValue,
{
    let run = interpreter.flatten_record(&record);
    match flatten_record(record) {
        Ok(native) => match run {
            Ok(interpreted) => {
                Ok(outputs_agree(&native, &interpreted))
            },
            Err(error) => Err(error),
        },
        Err(error) => Err(error),
    }
}

} // verus!
