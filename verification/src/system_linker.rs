//! The registry of mocked calls of the `env` namespace, and the guest's abort report.

use crate::error::ConfigurationError;
use crate::text::{decimal_text, format_decimal, same_text};
use vstd::prelude::*;
use vstd::string::StringExecFns;

verus! {

/// The namespace under which the guest imports these calls.
pub const MODULE: &'static str = "env";

/// A call of this namespace that a mock exists for.
#[derive(Debug, Clone, Copy, PartialEq, Eq, Structural)]
pub enum SystemCall {
    /// `abort`: the guest gives up; the whole run ends with its report.
    Abort,
}

/// The call that a configured name selects, if there is one.
pub open spec fn call_named(name: Seq<char>) -> Option<SystemCall> {
    if name == "abort"@ {
        Some(SystemCall::Abort)
    } else {
        None
    }
}

/// The report of an abort: its message, the source file, and the line and
/// column in it, each as the guest gave it.
pub open spec fn abort_text(msg: Seq<char>, file: Seq<char>, line: int, column: int) -> Seq<char> {
    "abort: "@ + msg + " in "@ + file + " at line "@ + decimal_text(line) + ", column "@
        + decimal_text(column)
}

impl SystemCall {
    /// The name under which the guest imports the call.
    pub open spec fn spec_name(self) -> Seq<char> {
        match self {
            SystemCall::Abort => "abort"@,
        }
    }

    /// The call that `name` selects, if a mock exists for it.
    pub fn from_name(name: &str) -> (call: Option<SystemCall>)
        ensures
            call == call_named(name@),
    {
        if same_text(name, "abort") {
            Some(SystemCall::Abort)
        } else {
            None
        }
    }

    /// The name under which the guest imports the call.
    pub fn name(&self) -> (name: &'static str)
        ensures
            name@ == self.spec_name(),
    {
        match self {
            SystemCall::Abort => "abort",
        }
    }
}

/// Binds each configured call name to its mock, in the configured order.
///
/// Setup succeeds only if a mock exists for every name. Otherwise it fails
/// with the first name that has none.
pub fn link(inputs: &Vec<String>) -> (outcome: Result<Vec<SystemCall>, ConfigurationError>)
    ensures
        outcome is Ok <==> forall|i: int|
            0 <= i < inputs@.len() ==> call_named(#[trigger] inputs@[i]@) is Some,
        match outcome {
            Ok(calls) => {
                &&& calls@.len() == inputs@.len()
                &&& forall|i: int|
                    0 <= i < inputs@.len() ==> call_named(inputs@[i]@) == Some(#[trigger] calls@[i])
            },
            Err(e) => exists|i: int|
                {
                    &&& 0 <= i < inputs@.len()
                    &&& call_named(#[trigger] inputs@[i]@) is None
                    &&& e.call@ == inputs@[i]@
                    &&& forall|j: int| 0 <= j < i ==> call_named(#[trigger] inputs@[j]@) is Some
                },
        },
{
    let mut calls: Vec<SystemCall> = Vec::new();
    let mut i: usize = 0;
    while i < inputs.len()
        invariant
            i <= inputs.len(),
            calls@.len() == i,
            forall|j: int| 0 <= j < i ==> call_named(inputs@[j]@) == Some(#[trigger] calls@[j]),
        decreases inputs.len() - i,
    {
        match SystemCall::from_name(inputs[i].as_str()) {
            Some(call) => {
                calls.push(call);
            },
            None => {
                let e = ConfigurationError { call: inputs[i].clone() };
                assert(call_named(inputs@[i as int]@) is None);
                assert forall|j: int| 0 <= j < i implies call_named(
                    #[trigger] inputs@[j]@,
                ) is Some by {
                    assert(call_named(inputs@[j]@) == Some(calls@[j]));
                }
                return Err(e);
            },
        }
        i += 1;
    }
    assert forall|j: int| 0 <= j < inputs@.len() implies call_named(
        #[trigger] inputs@[j]@,
    ) is Some by {
        assert(call_named(inputs@[j]@) == Some(calls@[j]));
    }
    Ok(calls)
}

/// The report with which the run ends when the guest aborts.
pub fn abort_message(msg: &str, file: &str, line: i32, column: i32) -> (report: String)
    ensures
        report@ == abort_text(msg@, file@, line as int, column as int),
{
    let mut report = "abort: ".to_owned();
    report.append(msg);
    report.append(" in ");
    report.append(file);
    report.append(" at line ");
    report.append(format_decimal(line as i64).as_str());
    report.append(", column ");
    report.append(format_decimal(column as i64).as_str());
    report
}

/// Whether `part` stands in `whole`, unbroken and character for character.
pub open spec fn occurs_in(part: Seq<char>, whole: Seq<char>) -> bool {
    exists|at: int|
        0 <= at && at + part.len() <= whole.len() && #[trigger] whole.subrange(
            at,
            at + part.len(),
        ) == part
}

/// The abort report holds the message, the file, the line and the column,
/// each verbatim.
pub proof fn lemma_abort_text_holds_details(
    msg: Seq<char>,
    file: Seq<char>,
    line: int,
    column: int,
)
    ensures
        occurs_in(msg, abort_text(msg, file, line, column)),
        occurs_in(file, abort_text(msg, file, line, column)),
        occurs_in(decimal_text(line), abort_text(msg, file, line, column)),
        occurs_in(decimal_text(column), abort_text(msg, file, line, column)),
{
    let whole = abort_text(msg, file, line, column);
    let at_msg = "abort: "@.len() as int;
    let at_file = at_msg + msg.len() + " in "@.len();
    let at_line = at_file + file.len() + " at line "@.len();
    let at_column = at_line + decimal_text(line).len() + ", column "@.len();
    assert(whole.subrange(at_msg, at_msg + msg.len()) =~= msg);
    assert(whole.subrange(at_file, at_file + file.len()) =~= file);
    assert(whole.subrange(at_line, at_line + decimal_text(line).len()) =~= decimal_text(line));
    assert(whole.subrange(at_column, at_column + decimal_text(column).len()) =~= decimal_text(
        column,
    ));
}

} // verus!
