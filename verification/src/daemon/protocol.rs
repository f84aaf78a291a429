//! The wire between `msg` and `msgd`: newline-delimited JSON over a unix socket.
//!
//! One request per connection. The daemon answers with `result` and closes, or
//! with a stream of `item` frames that ends when the client disconnects.
use vstd::prelude::*;

use crate::access::{self, path_under, set_to};
use crate::db::{Chat, Message};
use crate::text::{self, chars_of, digits_of, has_char, pieces, same, slice_text, trim_text};
use crate::{Error, ErrorView};

verus! {

/// The protocol both ends have to speak.
///
/// A new request, a new field and a changed answer are each a new protocol: a
/// daemon that predates one would quietly answer a question nobody asked, and
/// this number is what makes that loud.
pub const PROTOCOL_VERSION: u32 = 10;

/// The launchd job label, and the bundle identifier the grant lands on.
pub const LABEL: &'static str = "com.ninjudd.msgd";

/// The client holds no grant and cannot be given one, so a denied read is always
/// fixed on the daemon's side.
pub const DENIED: &'static str = "msgd cannot read the Messages database.
Grant Full Disk Access to msgd in System Settings > Privacy & Security > Full Disk Access,
then try again. `msg daemon status` prints the path to add, and a new entry can take a
minute to appear in that list.";

/// The owner-only directory that holds the socket and the daemon's log.
pub open spec fn state_home(environment: Option<Seq<char>>, home: Seq<char>) -> Seq<char> {
    access::setting_or(environment, access::under(home, ".local/state/msg"@))
}

/// The owner-only directory that holds the socket and the daemon's log: where
/// `MSG_STATE_DIR` says, else in the home directory.
pub fn state_directory(environment: Option<&str>, home: &str) -> (out: String)
    ensures
        out@ == state_home(text::maybe_str(environment), home@),
{
    match set_to(environment) {
        Some(path) => path.to_owned(),
        None => path_under(home, ".local/state/msg"),
    }
}

/// Where the daemon listens: where `MSG_SOCKET` says, else in its state directory.
pub fn socket_path(environment: Option<&str>, state: &str) -> (out: String)
    ensures
        out@ == access::setting_or(
            text::maybe_str(environment),
            access::under(state@, "msgd.sock"@),
        ),
{
    match set_to(environment) {
        Some(path) => path.to_owned(),
        None => path_under(state, "msgd.sock"),
    }
}

/// Which conversations to list.
#[derive(Debug, Clone)]
pub struct ChatsRequest {
    pub query: Option<String>,
    pub limit: Option<i64>,
    pub unknown: Option<bool>,
    pub names: Option<bool>,
}

impl Default for ChatsRequest {
    fn default() -> (out: Self)
        ensures
            out.query is None,
            out.limit is None,
            out.unknown is None,
            out.names is None,
    {
        ChatsRequest { query: None, limit: None, unknown: None, names: None }
    }
}

/// Which conversation to print.
#[derive(Debug, Clone)]
pub struct ReadRequest {
    pub chat: String,
    pub limit: Option<i64>,
    pub since: Option<String>,
    pub tapbacks: Option<bool>,
    pub names: Option<bool>,
    /// Let a thread Messages files under Unknown Senders join the merge.
    pub unknown: Option<bool>,
}

impl Default for ReadRequest {
    fn default() -> (out: Self)
        ensures
            out.chat@.len() == 0,
            out.limit is None,
            out.since is None,
            out.tapbacks is None,
            out.names is None,
            out.unknown is None,
    {
        ReadRequest {
            chat: String::new(),
            limit: None,
            since: None,
            tapbacks: None,
            names: None,
            unknown: None,
        }
    }
}

/// What to search for, and where.
#[derive(Debug, Clone)]
pub struct SearchRequest {
    pub query: String,
    /// Messages to show before and after each hit.
    pub before: Option<i64>,
    pub after: Option<i64>,
    pub chat: Option<String>,
    /// One person, across every conversation: their messages and mine.
    pub with: Option<String>,
    /// One person, across every conversation: only what they sent.
    pub from: Option<String>,
    pub limit: Option<i64>,
    pub since: Option<String>,
    pub unknown: Option<bool>,
    pub names: Option<bool>,
}

impl Default for SearchRequest {
    fn default() -> (out: Self)
        ensures
            out.query@.len() == 0,
            out.before is None,
            out.after is None,
            out.chat is None,
            out.with is None,
            out.from is None,
            out.limit is None,
            out.since is None,
            out.unknown is None,
            out.names is None,
    {
        SearchRequest {
            query: String::new(),
            before: None,
            after: None,
            chat: None,
            with: None,
            from: None,
            limit: None,
            since: None,
            unknown: None,
            names: None,
        }
    }
}

/// Which messages to follow.
#[derive(Debug, Clone)]
pub struct WatchRequest {
    pub chat: Option<String>,
    pub tapbacks: Option<bool>,
    pub unknown: Option<bool>,
    pub names: Option<bool>,
}

impl Default for WatchRequest {
    fn default() -> (out: Self)
        ensures
            out.chat is None,
            out.tapbacks is None,
            out.unknown is None,
            out.names is None,
    {
        WatchRequest { chat: None, tapbacks: None, unknown: None, names: None }
    }
}

/// Naming one conversation, which is what `send` needs before it can address it.
#[derive(Debug, Clone)]
pub struct ResolveRequest {
    pub chat: String,
    pub names: Option<bool>,
}

impl Default for ResolveRequest {
    fn default() -> (out: Self)
        ensures
            out.chat@.len() == 0,
            out.names is None,
    {
        ResolveRequest { chat: String::new(), names: None }
    }
}

/// An attachment, as bytes rather than a path.
#[derive(Debug, Clone)]
pub struct Attachment {
    pub name: String,
    pub base64: String,
}

/// Asking for one attachment's bytes. An id, never a path.
#[derive(Debug, Clone)]
pub struct SaveRequest {
    pub id: i64,
}

impl Default for SaveRequest {
    fn default() -> (out: Self)
        ensures
            out.id == 0,
    {
        SaveRequest { id: 0 }
    }
}

/// One piece of the answer to `save`.
///
/// Streamed rather than returned whole, because these are not small. `Head`
/// arrives first and then `Chunk` until the file is done, so peak memory is one
/// chunk rather than one file.
#[derive(Debug, Clone)]
pub enum SavePart {
    Head { name: String, mime_type: Option<String>, total_bytes: i64 },
    Chunk { base64: String },
}

/// What `save` says when the last chunk has gone.
#[derive(Debug, Clone)]
pub struct SaveReply {
    pub name: String,
    pub bytes: i64,
}

/// Sending, which needs Automation rather than Full Disk Access.
///
/// `chat` may be a guid, in which case the daemon addresses it without reading the
/// database at all. An attachment arrives as bytes rather than a path.
#[derive(Debug, Clone)]
pub struct SendRequest {
    pub chat: String,
    pub body: Option<String>,
    pub file: Option<Attachment>,
    pub names: Option<bool>,
}

impl Default for SendRequest {
    fn default() -> (out: Self)
        ensures
            out.chat@.len() == 0,
            out.body is None,
            out.file is None,
            out.names is None,
    {
        SendRequest { chat: String::new(), body: None, file: None, names: None }
    }
}

/// Whom to look up.
#[derive(Debug, Clone)]
pub struct ContactsRequest {
    pub handles: Vec<String>,
}

impl Default for ContactsRequest {
    fn default() -> (out: Self)
        ensures
            out.handles@.len() == 0,
    {
        ContactsRequest { handles: Vec::new() }
    }
}

/// A card to add to Contacts.
#[derive(Debug, Clone)]
pub struct PersonAddRequest {
    pub name: String,
    pub phones: Vec<String>,
    pub emails: Vec<String>,
    pub title: Option<String>,
    pub org: Option<String>,
    pub note: Option<String>,
    /// Add another person with a name that is already there.
    pub duplicate: Option<bool>,
}

impl Default for PersonAddRequest {
    fn default() -> (out: Self)
        ensures
            out.name@.len() == 0,
            out.phones@.len() == 0,
            out.emails@.len() == 0,
            out.title is None,
            out.org is None,
            out.note is None,
            out.duplicate is None,
    {
        PersonAddRequest {
            name: String::new(),
            phones: Vec::new(),
            emails: Vec::new(),
            title: None,
            org: None,
            note: None,
            duplicate: None,
        }
    }
}

/// What to write onto a card that is in Contacts already.
#[derive(Debug, Clone)]
pub struct PersonUpdateRequest {
    pub term: String,
    pub phones: Vec<String>,
    pub emails: Vec<String>,
    pub title: Option<String>,
    pub org: Option<String>,
    pub note: Option<String>,
}

impl Default for PersonUpdateRequest {
    fn default() -> (out: Self)
        ensures
            out.term@.len() == 0,
            out.phones@.len() == 0,
            out.emails@.len() == 0,
            out.title is None,
            out.org is None,
            out.note is None,
    {
        PersonUpdateRequest {
            term: String::new(),
            phones: Vec::new(),
            emails: Vec::new(),
            title: None,
            org: None,
            note: None,
        }
    }
}

/// What was written, and onto which card.
#[derive(Debug, Clone)]
pub struct PersonWriteReply {
    pub id: String,
    pub name: String,
    pub created: bool,
    pub changed: Vec<String>,
    pub unchanged: Vec<String>,
}

/// A request that carries nothing.
#[derive(Debug, Clone)]
pub struct Empty {}

/// Every request the daemon answers. None of them carries a filesystem path: the
/// daemon holds Full Disk Access, and a path would make it a general-purpose
/// reader.
#[derive(Debug, Clone)]
pub enum Request {
    Chats(ChatsRequest),
    Read(ReadRequest),
    Search(SearchRequest),
    Watch(WatchRequest),
    Resolve(ResolveRequest),
    Send(SendRequest),
    Contacts(ContactsRequest),
    Save(SaveRequest),
    /// Exercise the Automation permission without sending anything, so the entry
    /// in System Settings exists to be switched off.
    Automation(Empty),
    Status(Empty),
}

/// Where a message went.
#[derive(Debug, Clone)]
pub struct SendReply {
    pub guid: String,
    pub name: String,
}

/// Whether the daemon may drive Messages.
#[derive(Debug, Clone)]
pub struct AutomationReply {
    pub allowed: bool,
    pub detail: String,
    /// Whether the config would let a send through, independent of macOS.
    pub config_enabled: bool,
}

/// How the daemon is doing.
#[derive(Debug, Clone)]
pub struct StatusReply {
    pub version: String,
    pub protocol: u32,
    pub pid: u32,
    pub uptime_seconds: u64,
    pub database: String,
    pub message_count: i64,
    pub contact_count: usize,
    /// Why the contact index is empty, when it is.
    pub contact_problems: Vec<String>,
    pub watchers: usize,
}

/// An address and whose it is.
#[derive(Debug, Clone)]
pub struct ResolvedHandle {
    pub handle: String,
    /// What this person is called: the nickname when Contacts holds one.
    pub name: Option<String>,
    /// The name their record is filed under, when a nickname displaced it. Its own
    /// field rather than parentheses inside `name`, which a consumer would have to
    /// parse.
    pub filed_as: Option<String>,
}

/// Who was looked up, and how many are known.
#[derive(Debug, Clone)]
pub struct ContactsReply {
    pub size: usize,
    pub resolved: Vec<ResolvedHandle>,
}

/// A transcript, and the conversation it is of.
#[derive(Debug, Clone)]
pub struct ReadReply {
    /// The thread a reply would go to, which is the most recently active when a
    /// person has several.
    pub chat: Chat,
    pub messages: Vec<Message>,
    /// The other threads folded into this transcript, if any.
    pub merged: Vec<i64>,
}

impl ReadReply {
    /// A reply from the threads a conversation resolved to, most recently active
    /// first: the first is the conversation, and the rest are merged into it.
    pub fn new(threads: Vec<Chat>, messages: Vec<Message>) -> (out: Self)
        requires
            threads@.len() > 0,
        ensures
            out.chat == threads@[0],
            out.messages == messages,
            out.merged@.len() == threads@.len() - 1,
            forall|i: int|
                0 <= i < out.merged@.len() ==> #[trigger] out.merged@[i] == threads@[i + 1].rowid,
    {
        let mut merged: Vec<i64> = Vec::new();
        for i in 1..threads.len()
            invariant
                1 <= i <= threads@.len(),
                merged@.len() == i - 1,
                forall|j: int|
                    0 <= j < merged@.len() ==> #[trigger] merged@[j] == threads@[j + 1].rowid,
        {
            merged.push(threads[i].rowid);
        }
        let mut threads = threads;
        let chat = threads.remove(0);
        ReadReply { chat, messages, merged }
    }
}

/// What kind of failure an error frame carries.
#[derive(Debug, Clone, Copy, PartialEq, Eq, Structural)]
pub enum ErrorCode {
    AccessDenied,
    SendDisabled,
    Ambiguous,
    Error,
    Version,
}

/// A failure's code as the wire spells it.
pub open spec fn spelled(code: ErrorCode) -> Seq<char> {
    match code {
        ErrorCode::AccessDenied => "access-denied"@,
        ErrorCode::SendDisabled => "send-disabled"@,
        ErrorCode::Ambiguous => "ambiguous"@,
        ErrorCode::Error => "error"@,
        ErrorCode::Version => "version"@,
    }
}

/// The code a spelling on the wire stands for.
pub open spec fn code_of(name: Seq<char>) -> Option<ErrorCode> {
    if name == "access-denied"@ {
        Some(ErrorCode::AccessDenied)
    } else if name == "send-disabled"@ {
        Some(ErrorCode::SendDisabled)
    } else if name == "ambiguous"@ {
        Some(ErrorCode::Ambiguous)
    } else if name == "error"@ {
        Some(ErrorCode::Error)
    } else if name == "version"@ {
        Some(ErrorCode::Version)
    } else {
        None
    }
}

impl ErrorCode {
    /// This code as the wire spells it.
    pub fn name(self) -> (out: &'static str)
        ensures
            out@ == spelled(self),
    {
        match self {
            ErrorCode::AccessDenied => "access-denied",
            ErrorCode::SendDisabled => "send-disabled",
            ErrorCode::Ambiguous => "ambiguous",
            ErrorCode::Error => "error",
            ErrorCode::Version => "version",
        }
    }

    /// The code a spelling on the wire stands for.
    pub fn named(name: &str) -> (out: Option<ErrorCode>)
        ensures
            out == code_of(name@),
    {
        if same(name, "access-denied") {
            Some(ErrorCode::AccessDenied)
        } else if same(name, "send-disabled") {
            Some(ErrorCode::SendDisabled)
        } else if same(name, "ambiguous") {
            Some(ErrorCode::Ambiguous)
        } else if same(name, "error") {
            Some(ErrorCode::Error)
        } else if same(name, "version") {
            Some(ErrorCode::Version)
        } else {
            None
        }
    }
}

/// Every code is read as the one that was written.
pub proof fn a_code_reads_back(code: ErrorCode)
    ensures
        code_of(spelled(code)) == Some(code),
{
    reveal_strlit("access-denied");
    reveal_strlit("send-disabled");
    reveal_strlit("ambiguous");
    reveal_strlit("error");
    reveal_strlit("version");
    assert("access-denied"@.len() != "ambiguous"@.len());
    assert("access-denied"@[0] != "send-disabled"@[0]);
    assert("access-denied"@.len() != "error"@.len());
    assert("send-disabled"@.len() != "ambiguous"@.len());
}

/// One line of an answer. A value is JSON already.
#[derive(Debug)]
pub enum Frame {
    Result { value: String },
    Item { value: String },
    Error { code: ErrorCode, message: String },
}

/// A [`Frame`], by its characters.
#[verifier::ext_equal]
pub enum FrameView {
    Result(Seq<char>),
    Item(Seq<char>),
    Error(ErrorCode, Seq<char>),
}

impl View for Frame {
    type V = FrameView;

    open spec fn view(&self) -> FrameView {
        match self {
            Frame::Result { value } => FrameView::Result(value@),
            Frame::Item { value } => FrameView::Item(value@),
            Frame::Error { code, message } => FrameView::Error(*code, message@),
        }
    }
}

/// The frame a failure is sent as. The message is kept rather than replaced: a
/// refused attachment is not a refused database.
pub open spec fn framed(error: ErrorView) -> FrameView {
    match error {
        ErrorView::AccessDenied(message) => FrameView::Error(ErrorCode::AccessDenied, message),
        ErrorView::SendDisabled(message) => FrameView::Error(ErrorCode::SendDisabled, message),
        ErrorView::Ambiguous(message) => FrameView::Error(ErrorCode::Ambiguous, message),
        ErrorView::Other(message) => FrameView::Error(ErrorCode::Error, message),
    }
}

impl Frame {
    /// The frame a failure is sent as.
    pub fn from_error(error: &Error) -> (out: Frame)
        ensures
            out@ == framed(error@),
    {
        match error {
            Error::AccessDenied(message) => Frame::Error {
                code: ErrorCode::AccessDenied,
                message: message.clone(),
            },
            Error::SendDisabled(message) => Frame::Error {
                code: ErrorCode::SendDisabled,
                message: message.clone(),
            },
            Error::Ambiguous(message) => Frame::Error {
                code: ErrorCode::Ambiguous,
                message: message.clone(),
            },
            Error::Other(message) => Frame::Error {
                code: ErrorCode::Error,
                message: message.clone(),
            },
        }
    }
}

/// A text as `serde_json` quotes it.
pub uninterp spec fn quoted(text: Seq<char>) -> Seq<char>;

/// `serde_json::to_string` of a text: the JSON string that stands for it. A
/// function of the text.
#[verifier::external_body]
fn quote(text: &str) -> (out: String)
    ensures
        out@ == quoted(text@),
{
    serde_json::to_string(text).unwrap_or_default()
}

/// A failure as a JSON object.
pub open spec fn failure_line(code: ErrorCode, message: Seq<char>) -> Seq<char> {
    "{\"type\":\"error\",\"code\":\""@ + spelled(code) + "\",\"message\":"@ + quoted(message)
        + "}"@
}

pub(crate) proof fn a_failure_is_in_braces(code: ErrorCode, message: Seq<char>)
    ensures
        failure_line(code, message).len() >= 2,
        failure_line(code, message)[0] == '{',
        failure_line(code, message).last() == '}',
{
    reveal_strlit("{\"type\":\"error\",\"code\":\"");
    reveal_strlit("}");
}

/// A frame as the wire carries it: one line of JSON.
pub open spec fn encoded(frame: FrameView) -> Seq<char> {
    match frame {
        FrameView::Result(value) => "{\"type\":\"result\",\"value\":"@ + value + "}\n"@,
        FrameView::Item(value) => "{\"type\":\"item\",\"value\":"@ + value + "}\n"@,
        FrameView::Error(code, message) => "{\"type\":\"error\",\"code\":\""@ + spelled(code)
            + "\",\"message\":"@ + quoted(message) + "}\n"@,
    }
}

/// A frame as the wire carries it.
pub fn encode(frame: &Frame) -> (out: String)
    ensures
        out@ == encoded(frame@),
{
    let mut out: String = String::new();
    match frame {
        Frame::Result { value } => {
            out.append("{\"type\":\"result\",\"value\":");
            assert(out@ =~= "{\"type\":\"result\",\"value\":"@);
            out.append(value.as_str());
        },
        Frame::Item { value } => {
            out.append("{\"type\":\"item\",\"value\":");
            assert(out@ =~= "{\"type\":\"item\",\"value\":"@);
            out.append(value.as_str());
        },
        Frame::Error { code, message } => {
            out.append("{\"type\":\"error\",\"code\":\"");
            assert(out@ =~= "{\"type\":\"error\",\"code\":\""@);
            out.append(code.name());
            out.append("\",\"message\":");
            out.append(quote(message.as_str()).as_str());
        },
    }
    out.append("}\n");
    out
}

/// The name of a request on the wire.
pub open spec fn called(request: Request) -> Seq<char> {
    match request {
        Request::Chats(_) => "chats"@,
        Request::Read(_) => "read"@,
        Request::Search(_) => "search"@,
        Request::Watch(_) => "watch"@,
        Request::Resolve(_) => "resolve"@,
        Request::Send(_) => "send"@,
        Request::Contacts(_) => "contacts"@,
        Request::Save(_) => "save"@,
        Request::Automation(_) => "automation"@,
        Request::Status(_) => "status"@,
    }
}

/// A command this daemon knows.
pub open spec fn known(name: Seq<char>) -> bool {
    ||| name == "chats"@
    ||| name == "read"@
    ||| name == "search"@
    ||| name == "watch"@
    ||| name == "resolve"@
    ||| name == "send"@
    ||| name == "contacts"@
    ||| name == "save"@
    ||| name == "automation"@
    ||| name == "status"@
}

impl Request {
    /// The name of this request on the wire.
    pub fn command(&self) -> (out: &'static str)
        ensures
            out@ == called(*self),
            known(out@),
    {
        match self {
            Request::Chats(_) => "chats",
            Request::Read(_) => "read",
            Request::Search(_) => "search",
            Request::Watch(_) => "watch",
            Request::Resolve(_) => "resolve",
            Request::Send(_) => "send",
            Request::Contacts(_) => "contacts",
            Request::Save(_) => "save",
            Request::Automation(_) => "automation",
            Request::Status(_) => "status",
        }
    }
}

/// Whether this daemon knows a command, so that an unknown one is reported as
/// such rather than as a request that cannot be read.
pub fn is_command(name: &str) -> (yes: bool)
    ensures
        yes == known(name@),
{
    same(name, "chats") || same(name, "read") || same(name, "search") || same(name, "watch")
        || same(name, "resolve") || same(name, "send") || same(name, "contacts") || same(
        name,
        "save",
    ) || same(name, "automation") || same(name, "status")
}

/// The field of a request that holds the protocol its client speaks.
pub const VERSION_FIELD: &'static str = "v";

/// The field of a request that holds its command.
pub const COMMAND_FIELD: &'static str = "cmd";

/// What `serde_json` finds in a line: nothing where it is not JSON, and else one
/// field as a whole number and another as a text, where it has them.
pub uninterp spec fn fields(line: Seq<char>, number: Seq<char>, name: Seq<char>) -> Option<
    (Option<u64>, Option<Seq<char>>),
>;

/// `serde_json::from_str` of a line, with `Value::get` of two fields, the one as a
/// whole number and the other as a text. A function of the line and of what the
/// fields are called.
#[verifier::external_body]
fn read_fields(line: &str, number: &str, name: &str) -> (out: Option<
    (Option<u64>, Option<String>),
>)
    ensures
        seen_head(out) == fields(line@, number@, name@),
{
    let value: serde_json::Value = serde_json::from_str(line).ok()?;
    Some(
        (
            value.get(number).and_then(serde_json::Value::as_u64),
            value.get(name).and_then(serde_json::Value::as_str).map(str::to_owned),
        ),
    )
}

/// What a request says before anything else is read of it: the protocol its client
/// speaks and its command.
pub open spec fn head(line: Seq<char>) -> Option<(Option<u64>, Option<Seq<char>>)> {
    fields(line, VERSION_FIELD@, COMMAND_FIELD@)
}

/// What `serde_json` makes of a JSON object with a number put into it under a
/// field, and nothing where the text is no object.
pub uninterp spec fn numbered(json: Seq<char>, field: Seq<char>, number: u32) -> Option<Seq<char>>;

/// A text with a number put into it reads back with that number, and with every
/// text it had under another field.
pub open spec fn put_in(json: Seq<char>, field: Seq<char>, number: u32, out: Seq<char>) -> bool {
    forall|name: Seq<char>|
        name != field ==> fields(json, field, name) is Some && #[trigger] fields(out, field, name)
            == Some((Some(number as u64), (fields(json, field, name)->0).1))
}

/// `serde_json::from_str`, `Map::insert` and `Value::to_string`: a JSON object with
/// a number put into it under a field, written out again. A function of the three.
/// Written in braces, it reads back with that number and with the texts it had
/// under other fields.
#[verifier::external_body]
fn put_number(json: &str, field: &str, number: u32) -> (out: Option<String>)
    ensures
        text::maybe(out) == numbered(json@, field@, number),
        out is Some ==> put_in(json@, field@, number, out->0@),
        out is Some ==> out->0@.len() >= 2 && out->0@[0] == '{' && out->0@.last() == '}',
{
    let mut value: serde_json::Value = serde_json::from_str(json).ok()?;
    value.as_object_mut()?.insert(field.to_owned(), serde_json::Value::from(number));
    Some(value.to_string())
}

/// A request with the protocol this client speaks put into it, and nothing where
/// it is no JSON object.
pub open spec fn versioned(json: Seq<char>) -> Option<Seq<char>> {
    numbered(json, VERSION_FIELD@, PROTOCOL_VERSION)
}

/// One request plus the protocol version the client speaks, flattened into one
/// line of JSON. The request comes as the JSON object it is.
pub fn envelope(json: &str) -> (out: Result<String, Error>)
    ensures
        out is Ok <==> versioned(json@) is Some,
        out matches Ok(line) ==> {
            &&& line@ == versioned(json@)->0 + "\n"@
            &&& head(text::trim(line@)) == Some(
                (Some(PROTOCOL_VERSION as u64), (head(json@)->0).1),
            )
        },
        out matches Err(error) ==> error@ == ErrorView::Other("not a request"@),
{
    match put_number(json, VERSION_FIELD, PROTOCOL_VERSION) {
        Some(line) => {
            let ghost whole = line@;
            let mut line = line;
            line.append("\n");
            proof {
                braces_are_kept(whole);
                reveal_strlit("v");
                reveal_strlit("cmd");
                assert(VERSION_FIELD@.len() != COMMAND_FIELD@.len());
            }
            Ok(line)
        },
        None => Err(Error::other("not a request")),
    }
}

pub(crate) proof fn braces_are_kept(s: Seq<char>)
    requires
        s.len() >= 2,
        s[0] == '{',
        s.last() == '}',
    ensures
        text::trim(s + "\n"@) == s,
{
    reveal_strlit("\n");
    let line = s + "\n"@;
    assert(line[0] == '{');
    assert(text::trim_start(line) == line);
    assert(line.last() == '\n');
    assert(line.drop_last() =~= s);
    reveal_with_fuel(text::trim_end, 3);
}

/// Why a request is turned away, and nothing where it is not: it is not JSON, it
/// speaks another protocol, or it is a command this daemon does not know.
pub open spec fn turned_away(head: Option<(Option<u64>, Option<Seq<char>>)>) -> Option<
    (ErrorCode, Seq<char>),
> {
    match head {
        None => Some((ErrorCode::Error, "malformed request"@)),
        Some((version, cmd)) => if version != Some(PROTOCOL_VERSION as u64) {
            Some(
                (
                    ErrorCode::Version,
                    "msgd speaks protocol "@ + text::digits(PROTOCOL_VERSION as nat)
                        + ", this client speaks "@ + (match version {
                        Some(version) => text::digits(version as nat),
                        None => "nothing"@,
                    }) + ". Reinstall the daemon with `msg daemon install`."@,
                ),
            )
        } else {
            let name = match cmd {
                Some(name) => name,
                None => Seq::<char>::empty(),
            };
            if known(name) {
                None
            } else {
                Some(
                    (
                        ErrorCode::Error,
                        "msgd does not understand `"@ + name
                            + "`. Reinstall it with `msg daemon install`."@,
                    ),
                )
            }
        },
    }
}

/// Whether a request is served, by what was found in it.
///
/// Checked by name before it is read further, so that a command this daemon
/// predates is reported as such. Without that it could be answered with no value
/// at all, which the caller would read a field off and crash on.
pub fn let_in(found: Option<(Option<u64>, Option<String>)>) -> (out: Result<
    String,
    (ErrorCode, String),
>)
    ensures
        out is Ok <==> turned_away(seen_head(found)) is None,
        out matches Ok(cmd) ==> found is Some && Some(cmd@) == text::maybe((found->0).1),
        out matches Err(refused) ==> Some((refused.0, refused.1@)) == turned_away(
            seen_head(found),
        ),
{
    let (version, cmd) = match found {
        None => return Err((ErrorCode::Error, "malformed request".to_owned())),
        Some(found) => found,
    };
    let spoken = match version {
        Some(version) => version == PROTOCOL_VERSION as u64,
        None => false,
    };
    if !spoken {
        let mut message: String = "msgd speaks protocol ".to_owned();
        message.append(digits_of(PROTOCOL_VERSION as u64).as_str());
        message.append(", this client speaks ");
        match version {
            Some(version) => message.append(digits_of(version).as_str()),
            None => message.append("nothing"),
        }
        message.append(". Reinstall the daemon with `msg daemon install`.");
        return Err((ErrorCode::Version, message));
    }
    let ghost named = text::maybe(cmd);
    let name: String = match cmd {
        Some(name) => name,
        None => String::new(),
    };
    if is_command(name.as_str()) {
        proof {
            if named is None {
                nothing_is_no_command();
                assert(name@ =~= Seq::<char>::empty());
            }
        }
        Ok(name)
    } else {
        let mut message: String = "msgd does not understand `".to_owned();
        message.append(name.as_str());
        message.append("`. Reinstall it with `msg daemon install`.");
        Err((ErrorCode::Error, message))
    }
}

/// What was found in a line, by its characters.
pub open spec fn seen_head(found: Option<(Option<u64>, Option<String>)>) -> Option<
    (Option<u64>, Option<Seq<char>>),
> {
    match found {
        Some((version, cmd)) => Some((version, text::maybe(cmd))),
        None => None,
    }
}

proof fn nothing_is_no_command()
    ensures
        !known(Seq::<char>::empty()),
{
    reveal_strlit("chats");
    reveal_strlit("read");
    reveal_strlit("search");
    reveal_strlit("watch");
    reveal_strlit("resolve");
    reveal_strlit("send");
    reveal_strlit("contacts");
    reveal_strlit("save");
    reveal_strlit("automation");
    reveal_strlit("status");
    assert("chats"@.len() == 5);
    assert("read"@.len() == 4);
    assert("search"@.len() == 6);
    assert("watch"@.len() == 5);
    assert("resolve"@.len() == 7);
    assert("send"@.len() == 4);
    assert("contacts"@.len() == 8);
    assert("save"@.len() == 4);
    assert("automation"@.len() == 10);
    assert("status"@.len() == 6);
}

/// Whether a line off the socket is served: the command it carries, or why it is
/// turned away.
pub fn serve(line: &str) -> (out: Result<String, (ErrorCode, String)>)
    ensures
        out is Ok <==> turned_away(head(text::trim(line@))) is None,
        out matches Ok(cmd) ==> Some(cmd@) == (head(text::trim(line@))->0).1,
        out matches Err(refused) ==> Some((refused.0, refused.1@)) == turned_away(
            head(text::trim(line@)),
        ),
{
    let line = trim_text(line);
    let_in(read_fields(line.as_str(), VERSION_FIELD, COMMAND_FIELD))
}

/// A client and a daemon of one protocol understand each other: whatever known
/// command a client puts in an envelope, the daemon serves the line.
pub proof fn an_envelope_is_served(json: Seq<char>, line: Seq<char>)
    requires
        head(json) is Some,
        (head(json)->0).1 is Some,
        known((head(json)->0).1->0),
        head(text::trim(line)) == Some((Some(PROTOCOL_VERSION as u64), (head(json)->0).1)),
    ensures
        turned_away(head(text::trim(line))) is None,
{
}

/// A client of another protocol is never answered, whatever it asks.
pub proof fn another_protocol_is_never_answered(version: Option<u64>, cmd: Option<Seq<char>>)
    requires
        version != Some(PROTOCOL_VERSION as u64),
    ensures
        turned_away(Some((version, cmd))) is Some,
        (turned_away(Some((version, cmd)))->0).0 == ErrorCode::Version,
{
}

/// What to say of a request whose command is known and whose fields are not.
pub fn unreadable_request(cmd: &str, error: &str) -> (out: String)
    ensures
        out@ == "msgd could not read this `"@ + cmd@ + "` request: "@ + error@,
{
    let mut out: String = "msgd could not read this `".to_owned();
    out.append(cmd);
    out.append("` request: ");
    out.append(error);
    out
}

/// An ASCII letter.
pub open spec fn letter(c: char) -> bool {
    'a' <= c <= 'z' || 'A' <= c <= 'Z'
}

/// An ASCII letter or digit.
pub open spec fn letter_or_digit(c: char) -> bool {
    letter(c) || text::ascii_digit(c)
}

/// A service as a guid spells it: a letter, and letters and digits behind it.
pub open spec fn service(s: Seq<char>) -> bool {
    s.len() > 0 && letter(s[0]) && forall|i: int| 0 <= i < s.len() ==> letter_or_digit(#[trigger] s[i])
}

/// A chat guid: `<service>;<kind>;<identifier>`, as in `iMessage;-;+13105551234`.
pub open spec fn chat_guid(value: Seq<char>) -> bool {
    let parts = text::split(value, ';');
    let identifier = value.skip(parts[0].len() as int + parts[1].len() + 2);
    &&& parts.len() >= 3
    &&& service(parts[0])
    &&& parts[1] == "-"@ || parts[1] == "+"@
    &&& identifier.len() > 0
    &&& !identifier.contains('\n')
    &&& !identifier.contains('\r')
}

/// Whether a text is a service as a guid spells it.
fn is_service(s: &[char]) -> (yes: bool)
    ensures
        yes == service(s@),
{
    if s.len() == 0 {
        return false;
    }
    let first = s[0];
    if !(('a' <= first && first <= 'z') || ('A' <= first && first <= 'Z')) {
        return false;
    }
    for i in 0..s.len()
        invariant
            forall|j: int| 0 <= j < i ==> letter_or_digit(#[trigger] s@[j]),
    {
        let c = s[i];
        if !(('a' <= c && c <= 'z') || ('A' <= c && c <= 'Z') || ('0' <= c && c <= '9')) {
            assert(!letter_or_digit(s@[i as int]));
            return false;
        }
    }
    true
}

/// Whether a string is a chat guid rather than a name to look up.
///
/// Matched by shape rather than by punctuation: chat names contain semicolons
/// often enough, and treating one as a guid would hand a display name over as an
/// address.
pub fn is_chat_guid(value: &str) -> (yes: bool)
    ensures
        yes == chat_guid(value@),
{
    let chars = chars_of(value);
    let parts = pieces(&chars, ';');
    let ghost all = text::split(value@, ';');
    if parts.len() < 3 {
        return false;
    }
    proof {
        assert(parts@[0]@ == all[0]);
        assert(parts@[1]@ == all[1]);
        parts_fit(value@, ';', 2);
        assert(lengths(all, 0) == 0);
        assert(lengths(all, 1) == all[0].len() + 1);
        assert(lengths(all, 2) == lengths(all, 1) + all[1].len() + 1);
        assert(value@.len() == chars@.len());
    }
    if !is_service(&chars_of(parts[0].as_str())) {
        return false;
    }
    if !same(parts[1].as_str(), "-") && !same(parts[1].as_str(), "+") {
        return false;
    }
    let total: usize = chars.len();
    let first: usize = chars_of(parts[0].as_str()).len();
    let second: usize = chars_of(parts[1].as_str()).len();
    assert(first as int + second as int + 2 <= total);
    let from: usize = first + second + 2;
    let identifier = chars_of(slice_text(&chars, from, chars.len()).as_str());
    assert(identifier@ =~= value@.skip(from as int));
    identifier.len() > 0 && !has_char(&identifier, '\n') && !has_char(&identifier, '\r')
}

/// The lengths of the first `n` parts, and the cut behind each.
spec fn lengths(parts: Seq<Seq<char>>, n: int) -> int
    decreases n,
{
    if n <= 0 {
        0
    } else {
        lengths(parts, n - 1) + parts[n - 1].len() + 1
    }
}

/// Parts and the cuts between them are no longer than what was cut.
proof fn parts_fit(s: Seq<char>, sep: char, n: int)
    requires
        0 <= n < text::split(s, sep).len(),
    ensures
        lengths(text::split(s, sep), n) <= s.len(),
    decreases s.len(),
{
    parts_add_up(s, sep);
    lengths_grow(text::split(s, sep), n, text::split(s, sep).len() as int);
    let parts = text::split(s, sep);
    if n < parts.len() - 1 {
        lengths_grow(parts, n, parts.len() - 1);
    }
    assert(lengths(parts, parts.len() as int) == lengths(parts, parts.len() - 1)
        + parts.last().len() + 1);
}

proof fn lengths_grow(parts: Seq<Seq<char>>, n: int, m: int)
    requires
        0 <= n <= m <= parts.len(),
    ensures
        lengths(parts, n) <= lengths(parts, m),
    decreases m - n,
{
    if n < m {
        lengths_grow(parts, n, m - 1);
    }
}

proof fn lengths_of_front(a: Seq<Seq<char>>, b: Seq<Seq<char>>, n: int)
    requires
        0 <= n <= a.len(),
        n <= b.len(),
        forall|i: int| 0 <= i < n ==> a[i] == b[i],
    ensures
        lengths(a, n) == lengths(b, n),
    decreases n,
{
    if n > 0 {
        lengths_of_front(a, b, n - 1);
    }
}

proof fn parts_add_up(s: Seq<char>, sep: char)
    ensures
        lengths(text::split(s, sep), text::split(s, sep).len() as int) == s.len() + 1,
    decreases s.len(),
{
    let all = text::split(s, sep);
    if s.len() == 0 {
        reveal_with_fuel(lengths, 2);
        assert(all.len() == 1);
    } else {
        let before = text::split(s.drop_last(), sep);
        text::split_is_never_empty(s.drop_last(), sep);
        parts_add_up(s.drop_last(), sep);
        let n = before.len() as int;
        if s.last() == sep {
            lengths_of_front(before, all, n);
            assert(all.len() == n + 1);
            assert(lengths(all, n + 1) == lengths(all, n) + all[n].len() + 1);
        } else {
            lengths_of_front(before, all, n - 1);
            assert(all.len() == n);
            assert(lengths(all, n) == lengths(all, n - 1) + all[n - 1].len() + 1);
            assert(lengths(before, n) == lengths(before, n - 1) + before[n - 1].len() + 1);
        }
    }
}

/// A service, a kind and an address with a semicolon between each two are a guid, whatever
/// the address is, as long as it is there and on one line. A text without semicolons is
/// none, and is looked up as a name.
pub proof fn a_guid_is_told_by_its_shape(
    first: Seq<char>,
    kind: Seq<char>,
    address: Seq<char>,
    name: Seq<char>,
)
    requires
        first.len() > 0,
        letter(first[0]),
        forall|i: int| 0 <= i < first.len() ==> letter_or_digit(#[trigger] first[i]),
        kind == "-"@ || kind == "+"@,
        !name.contains(';'),
    ensures
        chat_guid(first.push(';') + (kind.push(';') + address)) <==> address.len() > 0
            && !address.contains('\n') && !address.contains('\r'),
        !chat_guid(name),
{
    reveal_strlit("-");
    reveal_strlit("+");
    let value = first.push(';') + (kind.push(';') + address);
    assert(!first.contains(';')) by {
        if first.contains(';') {
            let i = choose|i: int| 0 <= i < first.len() && first[i] == ';';
            assert(letter_or_digit(first[i]));
        }
    }
    assert(!kind.contains(';'));
    text::pieces_of_both(first, kind.push(';') + address, ';');
    text::pieces_of_both(kind, address, ';');
    text::what_is_not_cut_is_whole(first, ';');
    text::what_is_not_cut_is_whole(kind, ';');
    text::split_is_never_empty(address, ';');
    let parts = text::split(value, ';');
    assert(parts =~= seq![first] + (seq![kind] + text::split(address, ';')));
    assert(parts[0] == first);
    assert(parts[1] == kind);
    assert(value.skip(first.len() as int + kind.len() + 2) =~= address);
    text::what_is_not_cut_is_whole(name, ';');
}

/// Every request goes by a name the daemon knows, and two of different kinds by different
/// names.
pub proof fn a_request_goes_by_its_own_name(a: Request, b: Request)
    ensures
        known(called(a)),
        called(a) == called(b) ==> {
            &&& a is Chats <==> b is Chats
            &&& a is Read <==> b is Read
            &&& a is Search <==> b is Search
            &&& a is Watch <==> b is Watch
            &&& a is Resolve <==> b is Resolve
            &&& a is Send <==> b is Send
            &&& a is Contacts <==> b is Contacts
            &&& a is Save <==> b is Save
            &&& a is Automation <==> b is Automation
            &&& a is Status <==> b is Status
        },
{
    reveal_strlit("chats");
    reveal_strlit("read");
    reveal_strlit("search");
    reveal_strlit("watch");
    reveal_strlit("resolve");
    reveal_strlit("send");
    reveal_strlit("contacts");
    reveal_strlit("save");
    reveal_strlit("automation");
    reveal_strlit("status");
    assert("chats"@.len() == 5 && "chats"@[0] == 'c');
    assert("read"@.len() == 4 && "read"@[0] == 'r');
    assert("search"@.len() == 6 && "search"@[1] == 'e');
    assert("watch"@.len() == 5 && "watch"@[0] == 'w');
    assert("resolve"@.len() == 7);
    assert("send"@.len() == 4 && "send"@[0] == 's' && "send"@[1] == 'e');
    assert("contacts"@.len() == 8);
    assert("save"@.len() == 4 && "save"@[0] == 's' && "save"@[1] == 'a');
    assert("automation"@.len() == 10);
    assert("status"@.len() == 6 && "status"@[1] == 't');
}

/// Who is turned away is told why: which command it was that is not known, or which
/// protocol each end speaks.
pub proof fn who_is_turned_away_is_told_why(version: Option<u64>, cmd: Option<Seq<char>>)
    ensures
        turned_away(Some((version, cmd))) matches Some((code, words)) ==> (code is Version
            <==> version != Some(PROTOCOL_VERSION as u64)),
        version == Some(PROTOCOL_VERSION as u64) && cmd is Some ==> (turned_away(
            Some((version, cmd)),
        ) is None <==> known(cmd->0)),
        version == Some(PROTOCOL_VERSION as u64) && cmd is Some && !known(cmd->0)
            ==> text::contains((turned_away(Some((version, cmd)))->0).1, "`"@ + cmd->0 + "`"@),
        version is Some && version != Some(PROTOCOL_VERSION as u64) ==> text::contains(
            (turned_away(Some((version, cmd)))->0).1,
            "this client speaks "@ + text::digits(version->0 as nat),
        ),
        turned_away(None) is Some,
{
    if version == Some(PROTOCOL_VERSION as u64) && cmd is Some && !known(cmd->0) {
        reveal_strlit("msgd does not understand `");
        reveal_strlit("`. Reinstall it with `msg daemon install`.");
        reveal_strlit("`");
        let words = (turned_away(Some((version, cmd)))->0).1;
        let front = "msgd does not understand `"@;
        let behind = "`. Reinstall it with `msg daemon install`."@;
        let inner = "`"@ + cmd->0 + "`"@;
        assert(words =~= front.drop_last() + inner + behind.skip(1));
        text::a_piece_is_held(front.drop_last(), inner, behind.skip(1));
    }
    if version is Some && version != Some(PROTOCOL_VERSION as u64) {
        reveal_strlit(", this client speaks ");
        reveal_strlit("this client speaks ");
        let words = (turned_away(Some((version, cmd)))->0).1;
        let front = "msgd speaks protocol "@ + text::digits(PROTOCOL_VERSION as nat);
        let spoken = text::digits(version->0 as nat);
        let behind = ". Reinstall the daemon with `msg daemon install`."@;
        let inner = "this client speaks "@ + spoken;
        assert(", this client speaks "@ =~= seq![',', ' '] + "this client speaks "@);
        assert(words =~= (front + seq![',', ' ']) + inner + behind);
        text::a_piece_is_held(front + seq![',', ' '], inner, behind);
    }
}

/// The state directory is the one that is set, and else one in the home directory.
pub proof fn the_state_is_kept_where_it_is_said_to_be(
    environment: Option<Seq<char>>,
    home: Seq<char>,
)
    ensures
        environment is Some && environment->0.len() > 0 ==> state_home(environment, home)
            == environment->0,
        environment is None || environment->0.len() == 0 ==> home.is_prefix_of(
            state_home(environment, home),
        ) && ".local/state/msg"@.is_suffix_of(state_home(environment, home)),
{
    access::a_path_is_under_its_directory(home, ".local/state/msg"@);
}

} // verus!
