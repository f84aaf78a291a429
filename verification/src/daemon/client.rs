//! The client half of the wire: ask one question, read the answer.
use vstd::prelude::*;

use crate::daemon::protocol::{self, ErrorCode, Frame, FrameView};
use crate::text::{self, chars_of, digits_of, same, slice_text, trim_text};
use crate::{Error, ErrorView};

verus! {

/// How long to wait for an answer, in seconds. Long enough to cover a busy
/// daemon, short enough not to look like a hang.
pub const RESPONSE_SECONDS: u64 = 30;

/// The failure a frame from the daemon stands for.
pub open spec fn raised(code: ErrorCode, message: Seq<char>) -> ErrorView {
    match code {
        ErrorCode::AccessDenied => ErrorView::AccessDenied(message),
        ErrorCode::Ambiguous => ErrorView::Ambiguous(message),
        ErrorCode::SendDisabled => ErrorView::SendDisabled(message),
        ErrorCode::Error => ErrorView::Other(message),
        ErrorCode::Version => ErrorView::Other(message),
    }
}

/// The failure a frame from the daemon stands for.
pub fn raise(code: ErrorCode, message: String) -> (out: Error)
    ensures
        out@ == raised(code, message@),
{
    match code {
        ErrorCode::AccessDenied => Error::AccessDenied(message),
        ErrorCode::Ambiguous => Error::Ambiguous(message),
        ErrorCode::SendDisabled => Error::SendDisabled(message),
        ErrorCode::Error => Error::Other(message),
        ErrorCode::Version => Error::Other(message),
    }
}

/// The field of a frame that says what it is.
pub const KIND_FIELD: &'static str = "type";

/// The field of a frame that holds the code of a failure.
pub const CODE_FIELD: &'static str = "code";

/// The field of a frame that holds what is said of a failure.
pub const MESSAGE_FIELD: &'static str = "message";

/// The field of a frame that holds an answer, or one more of a stream.
pub const VALUE_FIELD: &'static str = "value";

/// What `serde_json` finds in a line: nothing where it is not JSON, and else three
/// fields as texts and a fourth as JSON, where it has them.
pub uninterp spec fn fields(
    line: Seq<char>,
    first: Seq<char>,
    second: Seq<char>,
    third: Seq<char>,
    whole: Seq<char>,
) -> Option<(Option<Seq<char>>, Option<Seq<char>>, Option<Seq<char>>, Option<Seq<char>>)>;

/// What a line from the daemon holds: what it is, the code and the words of a
/// failure, and an answer.
pub open spec fn found(line: Seq<char>) -> Option<
    (Option<Seq<char>>, Option<Seq<char>>, Option<Seq<char>>, Option<Seq<char>>),
> {
    fields(line, KIND_FIELD@, CODE_FIELD@, MESSAGE_FIELD@, VALUE_FIELD@)
}

/// What a line from the daemon holds.
pub struct Found {
    pub kind: Option<String>,
    pub code: Option<String>,
    pub message: Option<String>,
    pub value: Option<String>,
}

/// What a line holds, by its characters.
pub open spec fn seen(found: Option<Found>) -> Option<
    (Option<Seq<char>>, Option<Seq<char>>, Option<Seq<char>>, Option<Seq<char>>),
> {
    match found {
        Some(found) => Some(
            (
                text::maybe(found.kind),
                text::maybe(found.code),
                text::maybe(found.message),
                text::maybe(found.value),
            ),
        ),
        None => None,
    }
}

/// What is found in a line that holds a failure: its code, and its message as it
/// was before it was quoted.
pub open spec fn failures_read_back(
    line: Seq<char>,
    found: Option<(Option<Seq<char>>, Option<Seq<char>>, Option<Seq<char>>, Option<Seq<char>>)>,
) -> bool {
    forall|code: ErrorCode, message: Seq<char>|
        line == #[trigger] protocol::failure_line(code, message) ==> found == Some(
            (
                Some("error"@),
                Some(protocol::spelled(code)),
                Some(message),
                None::<Seq<char>>,
            ),
        )
}

/// `serde_json::from_str` of a line, with `Value::get` of four fields: the first
/// three as texts, and the fourth written out again. A function of the line and of
/// what the fields are called. A field that occurs more than once is read as it
/// occurs last, and a line that is no object has none. A text that
/// `serde_json::to_string` quoted reads back, so a line made of a failure gives
/// back its code and its message.
#[verifier::external_body]
fn read_fields(line: &str, first: &str, second: &str, third: &str, whole: &str) -> (out: Option<
    Found,
>)
    ensures
        seen(out) == fields(line@, first@, second@, third@, whole@),
        first@ == KIND_FIELD@ && second@ == CODE_FIELD@ && third@ == MESSAGE_FIELD@ && whole@
            == VALUE_FIELD@ ==> failures_read_back(line@, seen(out)),
{
    let value: serde_json::Value = serde_json::from_str(line).ok()?;
    Some(
        Found {
            kind: value.get(first).and_then(serde_json::Value::as_str).map(str::to_owned),
            code: value.get(second).and_then(serde_json::Value::as_str).map(str::to_owned),
            message: value.get(third).and_then(serde_json::Value::as_str).map(str::to_owned),
            value: value.get(whole).map(serde_json::Value::to_string),
        },
    )
}

/// The frame a line holds, if it holds one.
pub open spec fn frame_in(
    found: Option<(Option<Seq<char>>, Option<Seq<char>>, Option<Seq<char>>, Option<Seq<char>>)>,
) -> Option<FrameView> {
    match found {
        None => None,
        Some((kind, code, message, value)) => if kind == Some("result"@) {
            match value {
                Some(value) => Some(FrameView::Result(value)),
                None => None,
            }
        } else if kind == Some("item"@) {
            match value {
                Some(value) => Some(FrameView::Item(value)),
                None => None,
            }
        } else if kind == Some("error"@) {
            match (code, message) {
                (Some(code), Some(message)) => match protocol::code_of(code) {
                    Some(code) => Some(FrameView::Error(code, message)),
                    None => None,
                },
                _ => None,
            }
        } else {
            None
        },
    }
}

/// The first `n` characters of a text.
pub open spec fn opening(s: Seq<char>, n: int) -> Seq<char> {
    if s.len() <= n {
        s
    } else {
        s.take(n)
    }
}

/// How much of an unexpected line to repeat.
pub const LINE_SHOWN: usize = 80;

/// The frame what was found in a line makes.
pub fn frame_of(found: Option<Found>) -> (out: Option<Frame>)
    ensures
        out is Some <==> frame_in(seen(found)) is Some,
        out is Some ==> out->0@ == frame_in(seen(found))->0,
{
    let Found { kind, code, message, value } = match found {
        Some(found) => found,
        None => return None,
    };
    let kind: String = match kind {
        Some(kind) => kind,
        None => return None,
    };
    if same(kind.as_str(), "result") {
        match value {
            Some(value) => Some(Frame::Result { value }),
            None => None,
        }
    } else if same(kind.as_str(), "item") {
        match value {
            Some(value) => Some(Frame::Item { value }),
            None => None,
        }
    } else if same(kind.as_str(), "error") {
        match (code, message) {
            (Some(code), Some(message)) => match ErrorCode::named(code.as_str()) {
                Some(code) => Some(Frame::Error { code, message }),
                None => None,
            },
            _ => None,
        }
    } else {
        None
    }
}

/// Read a frame.
pub fn decode(line: &str) -> (out: Result<Frame, Error>)
    ensures
        out is Ok <==> frame_in(found(line@)) is Some,
        out matches Ok(frame) ==> frame@ == frame_in(found(line@))->0,
        out matches Err(error) ==> error@ == ErrorView::Other(
            "unexpected frame from msgd: "@ + opening(line@, LINE_SHOWN as int),
        ),
{
    match frame_of(read_fields(line, KIND_FIELD, CODE_FIELD, MESSAGE_FIELD, VALUE_FIELD)) {
        Some(frame) => Ok(frame),
        None => {
            let chars = chars_of(line);
            let shown: usize = if chars.len() <= LINE_SHOWN {
                chars.len()
            } else {
                LINE_SHOWN
            };
            let mut message: String = "unexpected frame from msgd: ".to_owned();
            let head = slice_text(&chars, 0, shown);
            assert(head@ =~= opening(line@, LINE_SHOWN as int));
            message.append(head.as_str());
            Err(Error::Other(message))
        },
    }
}

/// What a line from the daemon means to one who is waiting.
pub enum Heard {
    /// Nothing: a blank line.
    Nothing,
    /// One more of a stream, as JSON.
    Item(String),
    /// The answer, as JSON.
    Answer(String),
    /// There will be no answer.
    Failed(Error),
}

/// What a line from the daemon means.
pub enum HeardView {
    Nothing,
    Item(Seq<char>),
    Answer(Seq<char>),
    Failed(ErrorView),
}

impl View for Heard {
    type V = HeardView;

    open spec fn view(&self) -> HeardView {
        match self {
            Heard::Nothing => HeardView::Nothing,
            Heard::Item(value) => HeardView::Item(value@),
            Heard::Answer(value) => HeardView::Answer(value@),
            Heard::Failed(error) => HeardView::Failed(error@),
        }
    }
}

/// What a line from the daemon means.
pub open spec fn meaning(line: Seq<char>) -> HeardView {
    let said = text::trim(line);
    if said.len() == 0 {
        HeardView::Nothing
    } else {
        match frame_in(found(said)) {
            Some(FrameView::Result(value)) => HeardView::Answer(value),
            Some(FrameView::Item(value)) => HeardView::Item(value),
            Some(FrameView::Error(code, message)) => HeardView::Failed(raised(code, message)),
            None => HeardView::Failed(
                ErrorView::Other(
                    "unexpected frame from msgd: "@ + opening(said, LINE_SHOWN as int),
                ),
            ),
        }
    }
}

/// What a line from the daemon means: an answer, one more of a stream, a failure,
/// or nothing.
pub fn hear(line: &str) -> (out: Heard)
    ensures
        out@ == meaning(line@),
{
    let said = trim_text(line);
    if said.as_str().is_empty() {
        return Heard::Nothing;
    }
    match decode(said.as_str()) {
        Ok(Frame::Result { value }) => Heard::Answer(value),
        Ok(Frame::Item { value }) => Heard::Item(value),
        Ok(Frame::Error { code, message }) => Heard::Failed(raise(code, message)),
        Err(error) => Heard::Failed(error),
    }
}

/// A failure crosses the wire whole: what the daemon framed and wrote is what
/// the client hears and raises, so a denied read still exits as one.
pub proof fn a_failure_crosses_the_wire(error: ErrorView, line: Seq<char>)
    requires
        line == protocol::encoded(protocol::framed(error)),
        failures_read_back(text::trim(line), found(text::trim(line))),
    ensures
        meaning(line) == HeardView::Failed(error),
{
    if let FrameView::Error(code, message) = protocol::framed(error) {
        let said = protocol::failure_line(code, message);
        protocol::a_failure_is_in_braces(code, message);
        protocol::braces_are_kept(said);
        assert(line =~= said + "\n"@) by {
            reveal_strlit("}\n");
            reveal_strlit("}");
            reveal_strlit("\n");
        }
        protocol::a_code_reads_back(code);
        reveal_strlit("error");
        reveal_strlit("result");
        reveal_strlit("item");
        assert("error"@.len() != "result"@.len());
        assert("error"@.len() != "item"@.len());
    }
}

/// What a stream that ended is, by what was being waited for. Reaching the end
/// without an answer is a failure: a truncated file would otherwise be taken for
/// a whole one, and a watch that stopped for one still following.
pub enum Waiting {
    Answer,
    Attachment,
    Messages,
}

/// What to say of a connection that ended without an answer.
pub open spec fn ended(waiting: Waiting) -> Seq<char> {
    match waiting {
        Waiting::Answer => "msgd closed the connection without answering"@,
        Waiting::Attachment => "msgd stopped part-way through the attachment, so it was not saved whole"@,
        Waiting::Messages => "msgd stopped, so watch ended. Check `msg daemon status`."@,
    }
}

/// What to say of a connection that ended without an answer.
pub fn closed(waiting: Waiting) -> (out: Error)
    ensures
        out@ == ErrorView::Other(ended(waiting)),
{
    match waiting {
        Waiting::Answer => Error::other("msgd closed the connection without answering"),
        Waiting::Attachment => Error::other(
            "msgd stopped part-way through the attachment, so it was not saved whole",
        ),
        Waiting::Messages => Error::other(
            "msgd stopped, so watch ended. Check `msg daemon status`.",
        ),
    }
}

/// What a failed read is told as: a deadline that ran out in a sentence a person
/// can act on, and anything else in its own words.
pub open spec fn timed(command: Seq<char>, timed_out: bool, words: Seq<char>) -> ErrorView {
    if timed_out {
        ErrorView::Other(
            "msgd took more than "@ + text::digits(RESPONSE_SECONDS as nat)
                + " seconds to answer `"@ + command
                + "`, so msg stopped waiting. That is a timeout, not a crash — the daemon is likely still working through it. `msg daemon status` shows whether it is up; a narrower query answers sooner."@,
        )
    } else {
        ErrorView::Other(words)
    }
}

/// What a failed read is told as.
pub fn ran_out_of_time(command: &str, timed_out: bool, words: &str) -> (out: Error)
    ensures
        out@ == timed(command@, timed_out, words@),
{
    if !timed_out {
        return Error::other(words);
    }
    let mut message: String = "msgd took more than ".to_owned();
    message.append(digits_of(RESPONSE_SECONDS).as_str());
    message.append(" seconds to answer `");
    message.append(command);
    message.append(
        "`, so msg stopped waiting. That is a timeout, not a crash — the daemon is likely still working through it. `msg daemon status` shows whether it is up; a narrower query answers sooner.",
    );
    Error::Other(message)
}

/// A line that holds an answer is heard as that answer, one that holds an item as that
/// item, and one that holds neither as a failure that repeats how it begins.
pub proof fn a_line_is_heard_as_what_it_holds(
    line: Seq<char>,
    code: Option<Seq<char>>,
    message: Option<Seq<char>>,
    value: Seq<char>,
)
    requires
        text::trim(line).len() > 0,
    ensures
        found(text::trim(line)) == Some((Some("result"@), code, message, Some(value))) ==> meaning(
            line,
        ) == HeardView::Answer(value),
        found(text::trim(line)) == Some((Some("item"@), code, message, Some(value))) ==> meaning(
            line,
        ) == HeardView::Item(value),
        found(text::trim(line)) is None ==> (meaning(line) matches HeardView::Failed(
            ErrorView::Other(words),
        ) && (text::trim(line).len() <= 80 ==> text::trim(line).is_suffix_of(words)) && (text::trim(
            line,
        ).len() > 80 ==> text::trim(line).take(80).is_suffix_of(words))),
{
    reveal_strlit("result");
    reveal_strlit("item");
    assert("result"@.len() != "item"@.len());
    let said = text::trim(line);
    let shown = opening(said, LINE_SHOWN as int);
    let words = "unexpected frame from msgd: "@ + shown;
    assert(words.skip(words.len() - shown.len()) =~= shown);
}

/// A blank line means nothing, and what is a failure to the daemon is the same failure
/// here: a denial stays a denial.
pub proof fn a_failure_keeps_its_kind(code: ErrorCode, message: Seq<char>)
    ensures
        raised(code, message) is AccessDenied <==> code is AccessDenied,
        raised(code, message) is Ambiguous <==> code is Ambiguous,
        raised(code, message) is SendDisabled <==> code is SendDisabled,
        match raised(code, message) {
            ErrorView::AccessDenied(words) => words == message,
            ErrorView::Ambiguous(words) => words == message,
            ErrorView::SendDisabled(words) => words == message,
            ErrorView::Other(words) => words == message,
        },
{
}

/// A deadline that ran out says which command it was and how long it was given.
pub proof fn a_timeout_names_the_command(command: Seq<char>, words: Seq<char>)
    ensures
        timed(command, false, words) == ErrorView::Other(words),
        timed(command, true, words) matches ErrorView::Other(told) && text::contains(
            told,
            "`"@ + command + "`"@,
        ) && text::contains(told, "30 seconds"@),
{
    let told = timed(command, true, words)->Other_0;
    reveal_strlit("30 seconds");
    reveal_strlit(" seconds to answer `");
    reveal_strlit("`");
    reveal_strlit("`, so msg stopped waiting. That is a timeout, not a crash — the daemon is likely still working through it. `msg daemon status` shows whether it is up; a narrower query answers sooner.");
    reveal_with_fuel(text::digits, 3);
    let head = "msgd took more than "@;
    let limit = text::digits(RESPONSE_SECONDS as nat);
    assert(limit =~= seq!['3', '0']);
    let at = (head + limit + " seconds to answer "@).len() as int;
    reveal_strlit(" seconds to answer ");
    let quoted = "`"@ + command + "`"@;
    assert(told.subrange(at, at + quoted.len()) =~= quoted);
    assert(text::occurs_at(told, quoted, at));
    let from = head.len() as int;
    assert(told.subrange(from, from + "30 seconds"@.len()) =~= "30 seconds"@);
    assert(text::occurs_at(told, "30 seconds"@, from));
}

} // verus!
