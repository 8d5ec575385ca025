//! The invoker: resolves an action's tool name, runs the command, and
//! records the call and its outcome as a transcript line.

use vstd::prelude::*;
use vstd::string::StringExecFns;

use crate::codec::{encode, encode_value};
use crate::registry::{lookup, Command, CommandContext, CommandRun};
use crate::value::{lemma_view_wf, wf, ScriptValue, Val};

verus! {

/// An external request: a tool name plus a dynamic argument value.
#[derive(Debug)]
pub struct Action {
    pub tool: String,
    pub args: ScriptValue,
}

impl Clone for Action {
    /// A deep copy: same tool name, same argument model.
    fn clone(&self) -> (r: Self)
        ensures
            r.tool == self.tool,
            r.args@ == self.args@,
    {
        Action { tool: self.tool.clone(), args: self.args.clone() }
    }
}

/// The failures a dispatch call can report. A missing tool is not among
/// them: it is recorded in the transcript and the call succeeds.
#[derive(PartialEq, Eq, Debug)]
pub enum DispatchError {
    /// The invoked command's own operation failed; carried unchanged.
    CommandFailure(String),
    /// A value could not be rendered in its structured textual form.
    SerializationFailure(String),
    /// The private execution environment for an asynchronous command could
    /// not be constructed.
    EnvironmentFailure(String),
}

impl DispatchError {
    /// The message carried by the failure.
    pub fn message(&self) -> (r: &String)
        ensures
            r@ == self.message_model(),
    {
        match self {
            DispatchError::CommandFailure(m) => m,
            DispatchError::SerializationFailure(m) => m,
            DispatchError::EnvironmentFailure(m) => m,
        }
    }

    /// The model of the carried message.
    pub open spec fn message_model(&self) -> Seq<char> {
        match self {
            DispatchError::CommandFailure(m) => m@,
            DispatchError::SerializationFailure(m) => m@,
            DispatchError::EnvironmentFailure(m) => m@,
        }
    }
}

impl Clone for DispatchError {
    /// A copy with the same kind and message.
    fn clone(&self) -> (r: Self)
        ensures
            r == *self,
    {
        match self {
            DispatchError::CommandFailure(m) => DispatchError::CommandFailure(m.clone()),
            DispatchError::SerializationFailure(m) => DispatchError::SerializationFailure(
                m.clone(),
            ),
            DispatchError::EnvironmentFailure(m) => DispatchError::EnvironmentFailure(m.clone()),
        }
    }
}

/// The serialized result as it stands in a transcript: a one-document
/// structured text, marked and newline-terminated.
pub open spec fn result_document(result: Val) -> Seq<char> {
    "--- "@ + encode(result) + "\n"@
}

/// The transcript line for a completed call: the tool name, the arguments
/// in their structured form, and the result in its structured form.
pub open spec fn transcript_line(name: Seq<char>, args: Val, result: Val) -> Seq<char> {
    "Tool use "@ + name + " "@ + encode(args) + " returned:\n"@ + result_document(result)
}

/// The diagnostic recorded when no command carries the requested name.
pub open spec fn not_found_line(tool: Seq<char>) -> Seq<char> {
    "Error: No such tool named '"@ + tool + "'."@
}

/// Law: a dispatch transcript is a function of the action and the command
/// outcome alone. Two calls that resolve the same way and whose commands
/// return equal results produce textually identical transcripts.
pub proof fn lemma_transcript_deterministic(
    tool: Seq<char>,
    args: Val,
    outcome1: Option<Val>,
    outcome2: Option<Val>,
    s1: Seq<char>,
    s2: Seq<char>,
)
    requires
        outcome1 == outcome2,
        s1 == match outcome1 {
            Some(v) => transcript_line(tool, args, v),
            None => not_found_line(tool),
        },
        s2 == match outcome2 {
            Some(v) => transcript_line(tool, args, v),
            None => not_found_line(tool),
        },
    ensures
        s1 == s2,
{
}

/// Record a command's outcome: on success, append the transcript line for
/// the call and hand the result back; on failure, hand the failure back
/// unchanged, with kind and message preserved and nothing appended.
pub fn record_outcome(
    out: &mut String,
    name: &String,
    args: &ScriptValue,
    outcome: Result<ScriptValue, DispatchError>,
) -> (r: Result<ScriptValue, DispatchError>)
    ensures
        r == outcome,
        outcome matches Ok(v) ==> final(out)@ == old(out)@ + transcript_line(name@, args@, v@),
        outcome is Err ==> final(out)@ == old(out)@,
{
    match outcome {
        Ok(result) => {
            out.append("Tool use ");
            out.append(name.as_str());
            out.append(" ");
            let args_text = encode_value(args);
            out.append(args_text.as_str());
            out.append(" returned:\n");
            out.append("--- ");
            let result_text = encode_value(&result);
            out.append(result_text.as_str());
            out.append("\n");
            proof {
                assert(final(out)@ =~= old(out)@ + transcript_line(name@, args@, result@));
            }
            Ok(result)
        },
        Err(e) => Err(e),
    }
}

/// Execute one resolved command: invoke its capability with a duplicate of
/// the arguments, and on success append the call's transcript line to `out`
/// and return the result; on failure return the failure unchanged with the
/// transcript untouched.
pub fn run_command<R: CommandRun>(
    out: &mut String,
    name: String,
    command: Command<R>,
    context: &mut CommandContext<R>,
    args: ScriptValue,
) -> (r: Result<ScriptValue, DispatchError>)
    ensures
        r matches Ok(v) ==> final(out)@ == old(out)@ + transcript_line(name@, args@, v@),
        r is Err ==> final(out)@ == old(out)@,
{
    let args_for_call = args.clone();
    let outcome = command.run.invoke(context, args_for_call);
    record_outcome(out, &name, &args, outcome)
}

/// Dispatch one action: resolve its tool name against the context and
/// return the transcript text of the call.
///
/// When no command matches, the transcript is exactly the diagnostic line
/// and the call succeeds: a missing tool is a reported condition, not an
/// error. When a command is found it is run; on success the transcript is
/// exactly the call's transcript line for some well-formed result value; a
/// failure is returned unchanged, and only then is the call an error.
pub fn run_action_sync<R: CommandRun>(context: &mut CommandContext<R>, action: Action) -> (r:
    Result<String, DispatchError>)
    ensures
        lookup(*old(context), action.tool@) is None ==> {
            &&& r matches Ok(s) && s@ == not_found_line(action.tool@)
            &&& *final(context) == *old(context)
        },
        r is Err ==> lookup(*old(context), action.tool@) is Some,
        lookup(*old(context), action.tool@) is Some ==> (r matches Ok(s) ==> exists|v: Val|
            wf(v) && s@ == transcript_line(action.tool@, action.args@, v)),
{
    let found = crate::registry::find_command(&*context, &action.tool);
    let mut out = String::new();
    match found {
        Some(command) => {
            let name = action.tool.clone();
            match run_command(&mut out, name, command, context, action.args) {
                Ok(result) => {
                    proof {
                        lemma_view_wf(result);
                        assert(out@ =~= transcript_line(action.tool@, action.args@, result@));
                        assert(exists|v: Val|
                            wf(v) && out@ == transcript_line(action.tool@, action.args@, v));
                    }
                    Ok(out)
                },
                Err(e) => Err(e),
            }
        },
        None => {
            out.append("Error: No such tool named '");
            out.append(action.tool.as_str());
            out.append("'.");
            proof {
                assert(out@ =~= not_found_line(action.tool@));
            }
            Ok(out)
        },
    }
}

} // verus!
