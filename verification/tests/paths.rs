use tag_flatten::corpus::generate_tags;
use tag_flatten::engine::{from_engine, to_engine};
use tag_flatten::datum::{same_value, Datum};
use tag_flatten::error::FlattenError;
use tag_flatten::flatten::flatten_record;
use tag_flatten::harness::{
    check_equivalence, flatten_json, outcome_of_run, outputs_agree, parse_record, Interpreter,
};
use vrl::compiler::runtime::Terminate;
use vrl::value::Value as EngineValue;

fn text(s: &str) -> Datum {
    Datum::Text(s.to_string())
}

fn texts(items: &[&str]) -> Datum {
    Datum::Array(items.iter().map(|s| text(s)).collect())
}

fn object(fields: Vec<(&str, Datum)>) -> Datum {
    Datum::Object(fields.into_iter().map(|(name, value)| (name.to_string(), value)).collect())
}

fn record(tags: &[&str]) -> Datum {
    object(vec![("tags", texts(tags))])
}

fn interpreted(tags: &[&str]) -> Datum {
    let mut interpreter = Interpreter::new().unwrap();
    interpreter.flatten_record(&record(tags)).unwrap()
}

fn both_agree(tags: &[&str]) -> bool {
    let native = flatten_record(record(tags)).unwrap();
    outputs_agree(&native, &interpreted(tags))
}

#[test]
fn the_program_compiles() {
    assert!(Interpreter::new().is_ok());
}

#[test]
fn a_program_that_is_no_program_is_refused() {
    assert!(matches!(Interpreter::with_script("this is ( not a program"), Err(FlattenError::InvalidProgram)));
}

#[test]
fn interpreted_single_tag() {
    assert_eq!(interpreted(&["env:prod"]).get("tag"), Some(&object(vec![("env", text("prod"))])));
}

#[test]
fn interpreted_duplicate_promotion() {
    assert_eq!(
        interpreted(&["env:prod", "env:staging"]).get("tag"),
        Some(&object(vec![("env", texts(&["prod", "staging"]))]))
    );
}

#[test]
fn interpreted_triple_append() {
    assert_eq!(
        interpreted(&["env:a", "env:b", "env:c"]).get("tag"),
        Some(&object(vec![("env", texts(&["a", "b", "c"]))]))
    );
}

#[test]
fn interpreted_malformed_skip() {
    assert_eq!(
        interpreted(&["noseparator", "env:prod"]).get("tag"),
        Some(&object(vec![("env", text("prod"))]))
    );
}

#[test]
fn interpreted_empty_value_then_second_value() {
    assert_eq!(
        interpreted(&["env:", "env:x"]).get("tag"),
        Some(&object(vec![("env", texts(&["", "x"]))]))
    );
}

#[test]
fn both_paths_agree_on_the_named_cases() {
    assert!(both_agree(&["env:prod"]));
    assert!(both_agree(&["env:prod", "env:staging"]));
    assert!(both_agree(&["env:a", "env:b", "env:c"]));
    assert!(both_agree(&["noseparator", "env:prod"]));
    assert!(both_agree(&["b:1", "a:2", "b:3", "c:4", "a:5", "time:12:30:00"]));
    assert!(both_agree(&[]));
}

#[test]
fn both_paths_agree_on_generated_tags() {
    let mut interpreter = Interpreter::new().unwrap();
    for count in 0..12usize {
        for duplicates in 0..=count {
            let tags: Vec<Datum> = generate_tags(count, duplicates).into_iter().map(Datum::Text).collect();
            let input = Datum::Object(vec![("tags".to_string(), Datum::Array(tags))]);
            assert_eq!(check_equivalence(&mut interpreter, input), Ok(true));
        }
    }
}

#[test]
fn both_paths_agree_on_the_benchmark_inputs() {
    let mut interpreter = Interpreter::new().unwrap();
    for (count, duplicates) in [(1usize, 0usize), (10, 0), (50, 0), (40, 10)] {
        let tags = serde_json::to_string(&generate_tags(count, duplicates)).unwrap();
        let data = format!("{{\"tags\":{}}}", tags);
        let native = flatten_json(&data).unwrap();
        let other = interpreter.flatten_json(&data).unwrap();
        assert!(outputs_agree(&native, &other));
        assert!(outputs_agree(&other, &native));
    }
}

#[test]
fn the_interpreter_keeps_nothing_between_records() {
    let mut interpreter = Interpreter::new().unwrap();
    let first = interpreter.flatten_record(&record(&["only_a:1", "shared:2"])).unwrap();
    assert_eq!(first.get("tag"), Some(&object(vec![("only_a", text("1")), ("shared", text("2"))])));
    let second = interpreter.flatten_record(&record(&["shared:3", "only_b:4"])).unwrap();
    assert_eq!(second.get("tag"), Some(&object(vec![("only_b", text("4")), ("shared", text("3"))])));
    let again = interpreter.flatten_record(&record(&["shared:3", "only_b:4"])).unwrap();
    assert!(same_value(&second, &again));
}

#[test]
fn the_interpreter_fails_on_a_record_without_tags() {
    let mut interpreter = Interpreter::new().unwrap();
    assert_eq!(
        interpreter.flatten_record(&object(vec![("host", text("a"))])),
        Err(FlattenError::InterpretedPathEvaluationFailure)
    );
    assert_eq!(
        check_equivalence(&mut interpreter, object(vec![("host", text("a"))])),
        Err(FlattenError::MissingOrWrongTypeField)
    );
}

#[test]
fn outputs_differ_where_a_value_differs() {
    let a = object(vec![("tag", object(vec![("env", text("prod"))]))]);
    let b = object(vec![("tag", object(vec![("env", text("dev"))]))]);
    let c = object(vec![("tag", object(vec![("env", texts(&["prod"]))]))]);
    let d = object(vec![("tag", object(vec![("env", text("prod")), ("x", text("y"))]))]);
    assert!(outputs_agree(&a, &a));
    assert!(!outputs_agree(&a, &b));
    assert!(!outputs_agree(&a, &c));
    assert!(!outputs_agree(&a, &d));
    assert!(!outputs_agree(&d, &a));
    assert!(!outputs_agree(&a, &object(vec![("tags", texts(&[]))])));
    assert!(!outputs_agree(&a, &Datum::Null));
}

#[test]
fn outputs_agree_whatever_the_order_of_the_keys() {
    let a = object(vec![("tag", object(vec![("a", text("1")), ("b", texts(&["2", "3"]))]))]);
    let b = object(vec![("tag", object(vec![("b", texts(&["2", "3"])), ("a", text("1"))]))]);
    let c = object(vec![("tag", object(vec![("b", texts(&["3", "2"])), ("a", text("1"))]))]);
    assert!(outputs_agree(&a, &b));
    assert!(!outputs_agree(&a, &c));
}

#[test]
fn a_record_is_read_from_json() {
    assert_eq!(
        parse_record("{\"tags\": [\"env:prod\", 7, null, true], \"host\": {\"n\": -3}}"),
        Ok(object(vec![
            ("host", object(vec![("n", Datum::Integer(-3))])),
            ("tags", Datum::Array(vec![text("env:prod"), Datum::Integer(7), Datum::Null, Datum::Boolean(true)])),
        ]))
    );
}

#[test]
fn text_that_is_no_json_is_refused() {
    assert_eq!(parse_record("{\"tags\": ["), Err(FlattenError::MalformedInput));
    assert_eq!(flatten_json("not json"), Err(FlattenError::MalformedInput));
}

#[test]
fn a_number_that_is_no_integer_is_refused() {
    assert_eq!(parse_record("{\"load\": 0.5}"), Err(FlattenError::UnsupportedValue));
}

#[test]
fn json_without_tags_is_refused_by_the_native_path() {
    assert_eq!(flatten_json("{\"host\": \"a\"}"), Err(FlattenError::MissingOrWrongTypeField));
    assert_eq!(flatten_json("[\"env:prod\"]"), Err(FlattenError::MissingOrWrongTypeField));
}

#[test]
fn the_native_path_on_json() {
    assert_eq!(
        flatten_json("{\"tags\": [\"env:prod\", \"env:staging\", \"zone:a\"]}"),
        Ok(object(vec![
            ("tags", texts(&["env:prod", "env:staging", "zone:a"])),
            ("tag", object(vec![("env", texts(&["prod", "staging"])), ("zone", text("a"))])),
        ]))
    );
}

#[test]
fn json_of_more_levels_than_the_limit_is_refused() {
    let deep = format!("{}{}", "[".repeat(127), "]".repeat(127));
    assert!(parse_record(&deep).is_ok());
    let deeper = format!("{}{}", "[".repeat(128), "]".repeat(128));
    assert!(parse_record(&deeper).is_err());
}

#[test]
fn interpreted_empty_value_and_empty_key() {
    assert_eq!(
        interpreted(&["env:", ":value"]).get("tag"),
        Some(&object(vec![("", text("value")), ("env", text(""))]))
    );
    assert!(both_agree(&["env:", ":value"]));
}

#[test]
fn the_interpreted_path_on_json() {
    let mut interpreter = Interpreter::new().unwrap();
    let output = interpreter.flatten_json("{\"tags\": [\"b:1\", \"a:2\", \"b:3\"], \"host\": \"h\"}").unwrap();
    assert_eq!(output.get("host"), Some(&text("h")));
    assert_eq!(output.get("tag"), Some(&object(vec![("a", text("2")), ("b", texts(&["1", "3"]))])));
    assert_eq!(interpreter.flatten_json("nothing"), Err(FlattenError::MalformedInput));
}

#[test]
fn engine_values_are_read_level_by_level() {
    let nested = EngineValue::Array(vec![
        EngineValue::Bytes("x".into()),
        EngineValue::Array(vec![EngineValue::Integer(4), EngineValue::Null]),
    ]);
    assert_eq!(from_engine(nested.clone(), 0), None);
    assert_eq!(from_engine(nested.clone(), 2), None);
    assert_eq!(
        from_engine(nested, 3),
        Some(Datum::Array(vec![text("x"), Datum::Array(vec![Datum::Integer(4), Datum::Null])]))
    );
    assert_eq!(from_engine(EngineValue::Boolean(true), 1), Some(Datum::Boolean(true)));
}

#[test]
fn an_engine_value_that_holds_a_fraction_is_not_read() {
    let fraction = serde_json::from_str::<EngineValue>("[1, 0.5]").unwrap();
    assert_eq!(from_engine(fraction, 10), None);
}

#[test]
fn the_outcome_of_a_run() {
    assert_eq!(outcome_of_run(Ok(EngineValue::Integer(3))), Ok(Datum::Integer(3)));
    let fraction = serde_json::from_str::<EngineValue>("0.5").unwrap();
    assert_eq!(outcome_of_run(Ok(fraction)), Err(FlattenError::UnsupportedValue));
    let stopped = Terminate::Error("stopped".to_owned().into());
    assert_eq!(outcome_of_run(Err(stopped)), Err(FlattenError::InterpretedPathEvaluationFailure));
}

#[test]
fn a_value_goes_to_the_engine_and_back() {
    let value = object(vec![
        ("b", Datum::Array(vec![text("x"), Datum::Integer(-1), Datum::Null, Datum::Boolean(false)])),
        ("a", object(vec![("c", text(""))])),
    ]);
    let back = from_engine(to_engine(&value), 3).unwrap();
    assert_eq!(
        back,
        object(vec![
            ("a", object(vec![("c", text(""))])),
            ("b", Datum::Array(vec![text("x"), Datum::Integer(-1), Datum::Null, Datum::Boolean(false)])),
        ])
    );
    assert_eq!(to_engine(&text("x")), EngineValue::Bytes("x".into()));
}

#[test]
fn the_engine_keeps_one_field_for_each_name() {
    let twice = object(vec![("a", Datum::Integer(1)), ("a", Datum::Integer(2))]);
    let back = from_engine(to_engine(&twice), 2).unwrap();
    assert!(back == object(vec![("a", Datum::Integer(1))]) || back == object(vec![("a", Datum::Integer(2))]));
}

#[test]
fn an_interpreter_is_fresh_before_and_after_each_run() {
    let mut interpreter = Interpreter::new().unwrap();
    assert!(interpreter.is_fresh());
    assert!(interpreter.flatten_record(&record(&["a:1", "a:2"])).is_ok());
    assert!(interpreter.is_fresh());
    assert!(interpreter.flatten_record(&object(vec![("host", text("a"))])).is_err());
    assert!(interpreter.is_fresh());
    assert!(interpreter.flatten_json("{\"tags\": [\"b:1\"]}").is_ok());
    assert!(interpreter.is_fresh());
    assert_eq!(interpreter.flatten_json("no json"), Err(FlattenError::MalformedInput));
    assert_eq!(interpreter.flatten_json("{\"tags\": [0.5]}"), Err(FlattenError::UnsupportedValue));
    assert!(interpreter.is_fresh());
}

#[test]
fn an_interpreter_from_a_compilation() {
    let functions = vrl::stdlib::all();
    let compiled = vrl::compiler::compile(".tag = {}", &functions).map(|done| done.program);
    let mut interpreter = Interpreter::from_compiled(compiled).ok().unwrap();
    assert!(interpreter.is_fresh());
    let output = interpreter.flatten_record(&record(&["a:1"])).unwrap();
    assert_eq!(output.get("tag"), Some(&object(vec![])));
    let refused = vrl::compiler::compile("this is ( not a program", &functions).map(|done| done.program);
    assert!(matches!(Interpreter::from_compiled(refused), Err(FlattenError::InvalidProgram)));
}
