//! The messages of a build: what of them is shown, and which binary was built.

use vstd::prelude::*;

use crate::text::opt_text;
use crate::text::same_text;
use crate::text::Text;

verus! {

/// The error of `serde_json` on a text that is not JSON.
#[verifier::external_type_specification]
#[verifier::external_body]
pub struct ExJsonError(serde_json::Error);

/// Whether `serde_json::from_str` reads a text as a JSON value.
pub uninterp spec fn json_parses(text: Text) -> bool;

/// The string that `serde_json::Value::pointer` finds in the JSON value of a text, by a JSON pointer;
/// none where there is nothing there, or something that is not a string.
pub uninterp spec fn json_string(text: Text, pointer: Text) -> Option<Text>;

/// Reads a text with `serde_json::from_str`, and looks up a string in the value with
/// `serde_json::Value::pointer`. Both results depend on the text and the pointer alone.
#[verifier::external_body]
fn json_text(text: &str, pointer: &str) -> (r: Result<Option<String>, serde_json::Error>)
    ensures
        r is Ok <==> json_parses(text@),
        r matches Ok(s) ==> opt_text(s) == json_string(text@, pointer@),
{
    let value: serde_json::Value = serde_json::from_str(text)?;
    Ok(value.pointer(pointer).and_then(|v| v.as_str()).map(|s| s.to_string()))
}

/// What a message of a build says of itself.
pub struct Message {
    pub reason: Option<String>,
    /// What a diagnostic looks like.
    pub rendered: Option<String>,
    /// The binary that was built.
    pub executable: Option<String>,
}

#[verifier::ext_equal]
pub struct MessageV {
    pub reason: Option<Text>,
    pub rendered: Option<Text>,
    pub executable: Option<Text>,
}

impl View for Message {
    type V = MessageV;

    open spec fn view(&self) -> MessageV {
        MessageV {
            reason: opt_text(self.reason),
            rendered: opt_text(self.rendered),
            executable: opt_text(self.executable),
        }
    }
}

/// What is to be done with a line of a build's output.
pub enum LineAction {
    /// It is no message, and is passed on as it is.
    Echo,
    /// It is a diagnostic, to be shown in this form.
    Show(String),
    /// It tells of a binary that was built.
    Built(String),
    /// It is of no interest.
    Skip,
}

pub enum LineActionV {
    Echo,
    Show(Text),
    Built(Text),
    Skip,
}

impl View for LineAction {
    type V = LineActionV;

    open spec fn view(&self) -> LineActionV {
        match self {
            LineAction::Echo => LineActionV::Echo,
            LineAction::Show(t) => LineActionV::Show(t@),
            LineAction::Built(t) => LineActionV::Built(t@),
            LineAction::Skip => LineActionV::Skip,
        }
    }
}

/// What a line says of itself; nothing where it is no message.
pub open spec fn message_in(line: Text) -> Option<MessageV> {
    if json_parses(line) {
        Some(
            MessageV {
                reason: json_string(line, "/reason"@),
                rendered: json_string(line, "/message/rendered"@),
                executable: json_string(line, "/executable"@),
            },
        )
    } else {
        None
    }
}

/// What is to be done with a line, by what it says of itself.
pub open spec fn action_for(message: Option<MessageV>) -> LineActionV {
    match message {
        None => LineActionV::Echo,
        Some(m) => if m.reason == Some("compiler-message"@) {
            match m.rendered {
                Some(t) => LineActionV::Show(t),
                None => LineActionV::Skip,
            }
        } else if m.reason == Some("compiler-artifact"@) {
            match m.executable {
                Some(t) => LineActionV::Built(t),
                None => LineActionV::Skip,
            }
        } else {
            LineActionV::Skip
        },
    }
}

/// A message, if there is one, by its view.
pub open spec fn message_view(m: Option<Message>) -> Option<MessageV> {
    match m {
        Some(m) => Some(m@),
        None => None,
    }
}

/// What a line says of itself.
pub fn read_message(line: &str) -> (r: Option<Message>)
    ensures
        message_view(r) == message_in(line@),
{
    match (json_text(line, "/reason"), json_text(line, "/message/rendered"), json_text(line, "/executable")) {
        (Ok(reason), Ok(rendered), Ok(executable)) => Some(Message { reason, rendered, executable }),
        _ => None,
    }
}

/// What is to be done with a line, by what it says of itself.
pub fn decide(message: Option<Message>) -> (r: LineAction)
    ensures
        r@ == action_for(message_view(message)),
{
    proof {
        reveal_strlit("compiler-message");
        reveal_strlit("compiler-artifact");
    }
    match message {
        None => LineAction::Echo,
        Some(m) => match m.reason {
            None => LineAction::Skip,
            Some(reason) => if same_text(reason.as_str(), "compiler-message") {
                match m.rendered {
                    Some(t) => LineAction::Show(t),
                    None => LineAction::Skip,
                }
            } else if same_text(reason.as_str(), "compiler-artifact") {
                match m.executable {
                    Some(t) => LineAction::Built(t),
                    None => LineAction::Skip,
                }
            } else {
                LineAction::Skip
            },
        },
    }
}

/// Why a build gave no binary.
#[derive(Debug, Clone, Copy, PartialEq, Eq, Structural)]
pub enum BuildError {
    /// It failed.
    Failed,
    /// It built no binary.
    NoExecutable,
}

/// The binary that was built, as far as the output tells.
pub struct BuildLog {
    pub executable: Option<String>,
}

impl View for BuildLog {
    type V = Option<Text>;

    open spec fn view(&self) -> Option<Text> {
        opt_text(self.executable)
    }
}

/// The binary that was built once another action is known: the last that was told of.
pub open spec fn built_after(before: Option<Text>, action: LineActionV) -> Option<Text> {
    match action {
        LineActionV::Built(t) => Some(t),
        _ => before,
    }
}

/// The binary that was built, by all the lines of the output.
pub open spec fn built_by(lines: Seq<Text>) -> Option<Text>
    decreases lines.len(),
{
    if lines.len() == 0 {
        None
    } else {
        built_after(built_by(lines.drop_last()), action_for(message_in(lines.last())))
    }
}

/// How a build went.
pub open spec fn build_outcome(succeeded: bool, executable: Option<Text>) -> Result<Text, BuildError> {
    if !succeeded {
        Err(BuildError::Failed)
    } else {
        match executable {
            Some(t) => Ok(t),
            None => Err(BuildError::NoExecutable),
        }
    }
}

impl BuildLog {
    /// Before the first line.
    pub fn new() -> (r: BuildLog)
        ensures
            r@ is None,
    {
        BuildLog { executable: None }
    }

    /// Takes note of an action.
    pub fn note(&mut self, action: &LineAction)
        ensures
            final(self)@ == built_after(old(self)@, action@),
    {
        if let LineAction::Built(path) = action {
            self.executable = Some(path.clone());
        }
    }

    /// Takes a line of the output, and decides what is to be done with it.
    pub fn take_line(&mut self, line: &str) -> (r: LineAction)
        ensures
            r@ == action_for(message_in(line@)),
            final(self)@ == built_after(old(self)@, action_for(message_in(line@))),
    {
        let action: LineAction = decide(read_message(line));
        self.note(&action);
        action
    }

    /// How the build went.
    pub fn finish(self, succeeded: bool) -> (r: Result<String, BuildError>)
        ensures
            match r {
                Ok(path) => build_outcome(succeeded, self@) == Ok::<Text, BuildError>(path@),
                Err(e) => build_outcome(succeeded, self@) == Err::<Text, BuildError>(e),
            },
    {
        if !succeeded {
            return Err(BuildError::Failed);
        }
        match self.executable {
            Some(path) => Ok(path),
            None => Err(BuildError::NoExecutable),
        }
    }
}

// ---- laws ----

/// The binary of a build is the one that the last line tells of that tells of any.
pub proof fn law_last_built(lines: Seq<Text>, i: int)
    requires
        0 <= i < lines.len(),
        action_for(message_in(lines[i])) is Built,
        forall|j: int| i < j < lines.len() ==> !(action_for(message_in(#[trigger] lines[j])) is Built),
    ensures
        built_by(lines) == Some(action_for(message_in(lines[i]))->Built_0),
    decreases lines.len(),
{
    if i < lines.len() - 1 {
        let front = lines.drop_last();
        assert forall|j: int| i < j < front.len() implies !(action_for(message_in(#[trigger] front[j])) is Built) by {
            assert(front[j] == lines[j]);
        }
        law_last_built(front, i);
        assert(lines[lines.len() - 1] == lines.last());
    }
}

} // verus!
