//! The structured textual form: exact encodings, escaping, and round-trips
//! through an independent parser of the same textual family.

use tool_dispatch::codec::encode_value;
use tool_dispatch::dispatch::{run_action_sync, Action};
use tool_dispatch::registry::{Command, CommandContext, Plugin, SampleRun};
use tool_dispatch::value::ScriptValue;

#[test]
fn scalars_encode_exactly() {
    assert_eq!(encode_value(&ScriptValue::Null), "null");
    assert_eq!(encode_value(&ScriptValue::Bool(true)), "true");
    assert_eq!(encode_value(&ScriptValue::Bool(false)), "false");
    assert_eq!(encode_value(&ScriptValue::Int(0)), "0");
    assert_eq!(encode_value(&ScriptValue::Int(-42)), "-42");
    assert_eq!(encode_value(&ScriptValue::Int(i64::MAX)), "9223372036854775807");
    assert_eq!(encode_value(&ScriptValue::Int(i64::MIN)), "-9223372036854775808");
}

#[test]
fn strings_encode_with_escapes() {
    assert_eq!(encode_value(&ScriptValue::Str(String::from("hello"))), "\"hello\"");
    assert_eq!(encode_value(&ScriptValue::Str(String::new())), "\"\"");
    assert_eq!(
        encode_value(&ScriptValue::Str(String::from("say \"hi\" \\ bye"))),
        "\"say \\\"hi\\\" \\\\ bye\""
    );
}

#[test]
fn containers_encode_in_order() {
    assert_eq!(encode_value(&ScriptValue::List(vec![])), "[]");
    assert_eq!(encode_value(&ScriptValue::Dict(vec![])), "{}");
    let nested = ScriptValue::List(vec![
        ScriptValue::Int(1),
        ScriptValue::List(vec![ScriptValue::Str(String::from("x"))]),
        ScriptValue::Dict(vec![
            (String::from("k"), ScriptValue::Bool(false)),
            (String::from("n"), ScriptValue::Null),
        ]),
    ]);
    assert_eq!(encode_value(&nested), "[1,[\"x\"],{\"k\":false,\"n\":null}]");
}

#[test]
fn clone_is_a_deep_copy() {
    let original = ScriptValue::Dict(vec![(
        String::from("items"),
        ScriptValue::List(vec![ScriptValue::Int(3), ScriptValue::Str(String::from("a"))]),
    )]);
    let copy = original.clone();
    assert_eq!(copy, original);
}

fn yaml_round_trip(value: &ScriptValue) -> serde_yaml::Value {
    let text = encode_value(value);
    serde_yaml::from_str(&text).unwrap()
}

#[test]
fn encoded_text_parses_back_through_an_independent_parser() {
    let value = ScriptValue::Dict(vec![
        (String::from("name"), ScriptValue::Str(String::from("echo"))),
        (
            String::from("args"),
            ScriptValue::List(vec![
                ScriptValue::Int(-5),
                ScriptValue::Bool(true),
                ScriptValue::Null,
            ]),
        ),
    ]);
    let parsed = yaml_round_trip(&value);
    let mapping = parsed.as_mapping().unwrap();
    let name_key = serde_yaml::Value::String(String::from("name"));
    let args_key = serde_yaml::Value::String(String::from("args"));
    assert_eq!(
        mapping.get(&name_key).unwrap(),
        &serde_yaml::Value::String(String::from("echo"))
    );
    let args = mapping.get(&args_key).unwrap().as_sequence().unwrap();
    assert_eq!(args[0].as_i64().unwrap(), -5);
    assert_eq!(args[1].as_bool().unwrap(), true);
    assert!(args[2].is_null());
}

#[test]
fn transcript_document_parses_back_to_the_result() {
    let mut context = CommandContext {
        plugins: vec![Plugin {
            commands: vec![Command { name: String::from("echo"), run: SampleRun::Echo }],
        }],
    };
    let action = Action {
        tool: String::from("echo"),
        args: ScriptValue::Str(String::from("say \"hi\"")),
    };
    let out = run_action_sync(&mut context, action).unwrap();
    let marker = out.find("returned:\n").unwrap();
    let document = &out[marker + "returned:\n".len()..];
    let parsed: serde_yaml::Value = serde_yaml::from_str(document).unwrap();
    assert_eq!(parsed, serde_yaml::Value::String(String::from("say \"hi\"")));
}
