//! Dispatch scenarios: lookup, transcripts, missing tools, and failures.

use tool_dispatch::dispatch::{run_action_sync, run_command, Action, DispatchError};
use tool_dispatch::registry::{find_command, Command, CommandContext, Plugin, SampleRun};
use tool_dispatch::value::ScriptValue;

fn single_command_context(name: &str, run: SampleRun) -> CommandContext<SampleRun> {
    CommandContext {
        plugins: vec![Plugin {
            commands: vec![Command { name: String::from(name), run }],
        }],
    }
}

#[test]
fn echo_returns_args_and_appends_transcript() {
    let mut context = single_command_context("echo", SampleRun::Echo);
    let action = Action {
        tool: String::from("echo"),
        args: ScriptValue::Str(String::from("hello")),
    };
    let out = run_action_sync(&mut context, action).unwrap();
    assert_eq!(out, "Tool use echo \"hello\" returned:\n--- \"hello\"\n");
}

#[test]
fn run_command_returns_the_result_value() {
    let mut context = single_command_context("echo", SampleRun::Echo);
    let command = find_command(&context, &String::from("echo")).unwrap();
    let mut out = String::new();
    let result = run_command(
        &mut out,
        String::from("echo"),
        command,
        &mut context,
        ScriptValue::Int(7),
    )
    .unwrap();
    assert_eq!(result, ScriptValue::Int(7));
    assert_eq!(out, "Tool use echo 7 returned:\n--- 7\n");
}

#[test]
fn missing_tool_reports_and_succeeds() {
    let mut context = CommandContext::<SampleRun> { plugins: vec![] };
    let action = Action {
        tool: String::from("anything"),
        args: ScriptValue::Null,
    };
    let out = run_action_sync(&mut context, action).unwrap();
    assert_eq!(out, "Error: No such tool named 'anything'.");
}

#[test]
fn missing_tool_with_plugins_present_still_succeeds() {
    let mut context = single_command_context("echo", SampleRun::Echo);
    let action = Action {
        tool: String::from("Echo"),
        args: ScriptValue::Null,
    };
    let out = run_action_sync(&mut context, action).unwrap();
    assert_eq!(out, "Error: No such tool named 'Echo'.");
}

#[test]
fn failing_command_propagates_kind_and_message() {
    let mut context = single_command_context("fail", SampleRun::Fail(String::from("boom")));
    let action = Action {
        tool: String::from("fail"),
        args: ScriptValue::Dict(vec![]),
    };
    let err = run_action_sync(&mut context, action).unwrap_err();
    assert_eq!(err, DispatchError::CommandFailure(String::from("boom")));
}

#[test]
fn failing_command_appends_no_transcript_line() {
    let mut context = single_command_context("fail", SampleRun::Fail(String::from("boom")));
    let command = find_command(&context, &String::from("fail")).unwrap();
    let mut out = String::from("before");
    let result = run_command(
        &mut out,
        String::from("fail"),
        command,
        &mut context,
        ScriptValue::Null,
    );
    assert!(result.is_err());
    assert_eq!(out, "before");
}

#[test]
fn lookup_is_first_match_across_plugins() {
    let mut context = CommandContext {
        plugins: vec![
            Plugin {
                commands: vec![
                    Command { name: String::from("other"), run: SampleRun::Fail(String::from("wrong")) },
                    Command { name: String::from("dup"), run: SampleRun::Echo },
                ],
            },
            Plugin {
                commands: vec![Command {
                    name: String::from("dup"),
                    run: SampleRun::Fail(String::from("shadowed")),
                }],
            },
        ],
    };
    let action = Action {
        tool: String::from("dup"),
        args: ScriptValue::Bool(true),
    };
    let out = run_action_sync(&mut context, action).unwrap();
    assert_eq!(out, "Tool use dup true returned:\n--- true\n");
}

#[test]
fn lookup_duplicates_the_descriptor() {
    let context = single_command_context("echo", SampleRun::Echo);
    let command = find_command(&context, &String::from("echo")).unwrap();
    assert_eq!(command.name, "echo");
    assert!(find_command(&context, &String::from("nope")).is_none());
}

#[test]
fn repeated_dispatch_produces_identical_transcripts() {
    let mut context = single_command_context("echo", SampleRun::Echo);
    let action1 = Action {
        tool: String::from("echo"),
        args: ScriptValue::List(vec![ScriptValue::Int(1), ScriptValue::Int(2)]),
    };
    let action2 = Action {
        tool: String::from("echo"),
        args: ScriptValue::List(vec![ScriptValue::Int(1), ScriptValue::Int(2)]),
    };
    let out1 = run_action_sync(&mut context, action1).unwrap();
    let out2 = run_action_sync(&mut context, action2).unwrap();
    assert_eq!(out1, out2);
    assert_eq!(out1, "Tool use echo [1,2] returned:\n--- [1,2]\n");
}

#[test]
fn error_variants_carry_their_messages() {
    let e1 = DispatchError::CommandFailure(String::from("a"));
    let e2 = DispatchError::SerializationFailure(String::from("b"));
    let e3 = DispatchError::EnvironmentFailure(String::from("c"));
    assert_eq!(e1.message(), "a");
    assert_eq!(e2.message(), "b");
    assert_eq!(e3.message(), "c");
    assert_eq!(e1.clone(), e1);
}

#[test]
fn action_clone_preserves_fields() {
    let action = Action {
        tool: String::from("echo"),
        args: ScriptValue::Str(String::from("x")),
    };
    let copy = action.clone();
    assert_eq!(copy.tool, action.tool);
    assert_eq!(copy.args, action.args);
}
