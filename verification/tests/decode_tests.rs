//! The library's own parser: round-trips, integer bounds, and rejections.

use tool_dispatch::codec::encode_value;
use tool_dispatch::decode::{decode_document, decode_value};
use tool_dispatch::dispatch::{run_action_sync, Action};
use tool_dispatch::registry::{Command, CommandContext, Plugin, SampleRun};
use tool_dispatch::value::ScriptValue;

#[test]
fn encoding_round_trips_through_the_library_parser() {
    let values = vec![
        ScriptValue::Null,
        ScriptValue::Bool(true),
        ScriptValue::Int(0),
        ScriptValue::Int(i64::MIN),
        ScriptValue::Int(i64::MAX),
        ScriptValue::Str(String::from("say \"hi\" \\ bye")),
        ScriptValue::List(vec![]),
        ScriptValue::Dict(vec![]),
        ScriptValue::Dict(vec![
            (String::from("xs"), ScriptValue::List(vec![
                ScriptValue::Int(-7),
                ScriptValue::Str(String::new()),
                ScriptValue::Dict(vec![(String::from(""), ScriptValue::Null)]),
            ])),
            (String::from("ok"), ScriptValue::Bool(false)),
        ]),
    ];
    for value in values {
        let text = encode_value(&value);
        assert_eq!(decode_value(&text), Some(value));
    }
}

#[test]
fn integer_bounds_are_respected() {
    assert_eq!(decode_value("9223372036854775807"), Some(ScriptValue::Int(i64::MAX)));
    assert_eq!(decode_value("9223372036854775808"), None);
    assert_eq!(decode_value("-9223372036854775808"), Some(ScriptValue::Int(i64::MIN)));
    assert_eq!(decode_value("-9223372036854775809"), None);
    assert_eq!(decode_value("99999999999999999999999999999999999999999999"), None);
}

#[test]
fn malformed_text_is_rejected() {
    assert_eq!(decode_value(""), None);
    assert_eq!(decode_value("nul"), None);
    assert_eq!(decode_value("true false"), None);
    assert_eq!(decode_value("\"open"), None);
    assert_eq!(decode_value("[1,2"), None);
    assert_eq!(decode_value("{\"k\"1}"), None);
    assert_eq!(decode_value("-x"), None);
}

#[test]
fn transcript_document_round_trips_through_the_library_parser() {
    let mut context = CommandContext {
        plugins: vec![Plugin {
            commands: vec![Command { name: String::from("echo"), run: SampleRun::Echo }],
        }],
    };
    let args = ScriptValue::List(vec![
        ScriptValue::Int(1),
        ScriptValue::Str(String::from("two")),
    ]);
    let action = Action { tool: String::from("echo"), args: args.clone() };
    let out = run_action_sync(&mut context, action).unwrap();
    let marker = out.find("returned:\n").unwrap();
    let document = &out[marker + "returned:\n".len()..];
    assert_eq!(decode_document(document), Some(args));
    assert_eq!(decode_document("--- null"), None);
    assert_eq!(decode_document("-- null\n"), None);
}
