//! What the daemon decides: how a request is read, what may be sent, what a
//! watcher has not seen.
//!
//! It is the only process holding Full Disk Access, so it answers a deliberately
//! small set of questions and takes no filesystem path from anyone.
use vstd::prelude::*;

use crate::VERSION;
use crate::contacts::ContactIndex;
use crate::context::Context;
use crate::daemon::config::{self, Config, disabled_message};
use crate::daemon::protocol::{
    self, Attachment, PROTOCOL_VERSION, Request, SavePart, SaveReply, StatusReply, is_chat_guid,
};
use crate::db;
use crate::db::Message;
use crate::fetch::FetchMessages;
use crate::queries;
use crate::source::{
    self, ChatsQuery, ReadQuery, SearchQuery, SendQuery, WatchQuery, name_of, seen_upto,
};
use crate::sql::Stored;
use crate::text::{self, borrowed, copied, count_of};
use crate::{Error, ErrorView};

verus! {

/// How many new messages are handed over at once.
pub const WATCH_BATCH: i64 = 200;

/// The size of one `save` frame's worth of file, before base64 inflates it by a
/// third. Small enough that peak memory does not follow the size of what is
/// copied.
pub const SAVE_CHUNK: usize = 4_194_304;

/// `sun_path` is 104 bytes on macOS, and the kernel reports a bare EINVAL.
pub const MAX_SOCKET_PATH: usize = 103;

/// How long a contact index is kept, in nanoseconds. Contacts changes are rare.
pub const CONTACTS_TTL: u128 = 600_000_000_000;

/// How soon to try again when the index came back empty, in nanoseconds.
pub const CONTACTS_RETRY: u128 = 10_000_000_000;

/// What the daemon reads, as opposed to what a client may ask for. Both come
/// from the daemon's own environment, and never from the wire.
#[derive(Debug, Clone)]
pub struct DaemonOptions {
    pub db_path: Option<String>,
    /// Where the `send = true` gate is read from. `None` means the documented
    /// location.
    pub config_path: Option<String>,
}

impl Default for DaemonOptions {
    fn default() -> (out: Self)
        ensures
            out.db_path is None,
            out.config_path is None,
    {
        DaemonOptions { db_path: None, config_path: None }
    }
}

/// A socket path the kernel can hold, by its length in bytes.
pub fn check_socket_path(path: &str, bytes: usize) -> (out: Result<(), Error>)
    ensures
        out is Ok <==> bytes <= MAX_SOCKET_PATH,
        out matches Err(error) ==> error@ == ErrorView::Other(
            "socket path is too long for macOS ("@ + text::digits(bytes as nat) + " > "@
                + text::digits(MAX_SOCKET_PATH as nat) + "): "@ + path@,
        ),
{
    if bytes <= MAX_SOCKET_PATH {
        return Ok(());
    }
    let mut message: String = "socket path is too long for macOS (".to_owned();
    message.append(count_of(bytes).as_str());
    message.append(" > ");
    message.append(count_of(MAX_SOCKET_PATH).as_str());
    message.append("): ");
    message.append(path);
    Err(Error::Other(message))
}

/// A contact index that has to be loaded: there is none, or the one there is has
/// been kept long enough, given whether it is empty and how old it is.
pub open spec fn stale(cached: Option<(bool, u128)>) -> bool {
    match cached {
        None => true,
        Some((empty, age)) => age > (if empty {
            CONTACTS_RETRY
        } else {
            CONTACTS_TTL
        }),
    }
}

/// Whether a contact index has to be loaded.
///
/// One that came back empty is retried soon: the daemon runs before its grant
/// exists, so the first attempt is expected to fail, and keeping that failure
/// would leave names broken long after the grant is given.
pub fn is_stale(cached: Option<(bool, u128)>) -> (yes: bool)
    ensures
        yes == stale(cached),
{
    match cached {
        None => true,
        Some((empty, age)) => if empty {
            age > CONTACTS_RETRY
        } else {
            age > CONTACTS_TTL
        },
    }
}

/// What a request asks for, with everything it left unsaid filled in.
#[derive(Debug)]
pub enum Work {
    Chats(ChatsQuery),
    Read(ReadQuery),
    Search(SearchQuery),
    Watch(WatchQuery),
    Resolve { chat: String, names: bool },
    Send(SendQuery),
    Contacts(Vec<String>),
    Save(i64),
    Automation,
    Status,
}

/// A number that was asked for, or what stands without one.
pub open spec fn number_or(asked: Option<i64>, otherwise: i64) -> i64 {
    match asked {
        Some(n) => n,
        None => otherwise,
    }
}

/// A number that was asked for, or what stands without one.
fn asked_or(asked: Option<i64>, otherwise: i64) -> (out: i64)
    ensures
        out == number_or(asked, otherwise),
{
    match asked {
        Some(n) => n,
        None => otherwise,
    }
}

/// Whether a switch was put on.
fn is_on(switch: Option<bool>) -> (yes: bool)
    ensures
        yes == (switch == Some(true)),
{
    match switch {
        Some(on) => on,
        None => false,
    }
}

/// Whether a switch that is on by default was left on.
fn is_left_on(switch: Option<bool>) -> (yes: bool)
    ensures
        yes == (switch != Some(false)),
{
    match switch {
        Some(on) => on,
        None => true,
    }
}

/// What a request asks for: thirty conversations, fifty messages or twenty-five
/// hits unless it says otherwise, names unless it refuses them, and no switch
/// that it does not put on.
pub open spec fn work(request: Request) -> Work {
    match request {
        Request::Chats(ask) => Work::Chats(
            ChatsQuery {
                query: ask.query,
                limit: number_or(ask.limit, 30),
                unknown: ask.unknown == Some(true),
                names: ask.names != Some(false),
            },
        ),
        Request::Read(ask) => Work::Read(
            ReadQuery {
                chat: ask.chat,
                limit: number_or(ask.limit, 50),
                since: ask.since,
                tapbacks: ask.tapbacks == Some(true),
                names: ask.names != Some(false),
                unknown: ask.unknown == Some(true),
            },
        ),
        Request::Search(ask) => Work::Search(
            SearchQuery {
                query: ask.query,
                chat: ask.chat,
                with: ask.with,
                from: ask.from,
                limit: number_or(ask.limit, 25),
                since: ask.since,
                unknown: ask.unknown == Some(true),
                names: ask.names != Some(false),
                context: Context {
                    before: number_or(ask.before, 0),
                    after: number_or(ask.after, 0),
                },
            },
        ),
        Request::Watch(ask) => Work::Watch(
            WatchQuery {
                chat: ask.chat,
                tapbacks: ask.tapbacks == Some(true),
                unknown: ask.unknown == Some(true),
                names: ask.names != Some(false),
                interval: 0,
            },
        ),
        Request::Resolve(ask) => Work::Resolve {
            chat: ask.chat,
            names: ask.names != Some(false),
        },
        Request::Send(ask) => Work::Send(
            SendQuery {
                chat: ask.chat,
                body: ask.body,
                file: ask.file,
                names: ask.names != Some(false),
            },
        ),
        Request::Contacts(ask) => Work::Contacts(ask.handles),
        Request::Save(ask) => Work::Save(ask.id),
        Request::Automation(_) => Work::Automation,
        Request::Status(_) => Work::Status,
    }
}

/// What a request asks for, with everything it left unsaid filled in.
pub fn answer(request: Request) -> (out: Work)
    ensures
        out == work(request),
{
    match request {
        Request::Chats(ask) => Work::Chats(
            ChatsQuery {
                query: ask.query,
                limit: asked_or(ask.limit, 30),
                unknown: is_on(ask.unknown),
                names: is_left_on(ask.names),
            },
        ),
        Request::Read(ask) => Work::Read(
            ReadQuery {
                chat: ask.chat,
                limit: asked_or(ask.limit, 50),
                since: ask.since,
                tapbacks: is_on(ask.tapbacks),
                names: is_left_on(ask.names),
                unknown: is_on(ask.unknown),
            },
        ),
        Request::Search(ask) => Work::Search(
            SearchQuery {
                query: ask.query,
                chat: ask.chat,
                with: ask.with,
                from: ask.from,
                limit: asked_or(ask.limit, 25),
                since: ask.since,
                unknown: is_on(ask.unknown),
                names: is_left_on(ask.names),
                context: Context {
                    before: asked_or(ask.before, 0),
                    after: asked_or(ask.after, 0),
                },
            },
        ),
        Request::Watch(ask) => Work::Watch(
            WatchQuery {
                chat: ask.chat,
                tapbacks: is_on(ask.tapbacks),
                unknown: is_on(ask.unknown),
                names: is_left_on(ask.names),
                interval: 0,
            },
        ),
        Request::Resolve(ask) => Work::Resolve {
            chat: ask.chat,
            names: is_left_on(ask.names),
        },
        Request::Send(ask) => Work::Send(
            SendQuery {
                chat: ask.chat,
                body: ask.body,
                file: ask.file,
                names: is_left_on(ask.names),
            },
        ),
        Request::Contacts(ask) => Work::Contacts(ask.handles),
        Request::Save(ask) => Work::Save(ask.id),
        Request::Automation(_) => Work::Automation,
        Request::Status(_) => Work::Status,
    }
}

/// A query survives the wire: what the daemon works on is what the client asked
/// for. A search asks for no context by leaving its widths out, so a width is
/// one of none or more.
pub proof fn a_query_survives_the_wire(
    chats: ChatsQuery,
    read: ReadQuery,
    search: SearchQuery,
    watch: WatchQuery,
)
    requires
        search.context.before >= 0,
        search.context.after >= 0,
    ensures
        work(
            Request::Chats(
                (protocol::ChatsRequest {
                    query: chats.query,
                    limit: Some(chats.limit),
                    unknown: source::on(chats.unknown),
                    names: source::off(chats.names),
                }),
            ),
        ) == Work::Chats(chats),
        work(
            Request::Read(
                (protocol::ReadRequest {
                    chat: read.chat,
                    limit: Some(read.limit),
                    since: read.since,
                    tapbacks: source::on(read.tapbacks),
                    names: source::off(read.names),
                    unknown: source::on(read.unknown),
                }),
            ),
        ) == Work::Read(read),
        work(
            Request::Search(
                (protocol::SearchRequest {
                    query: search.query,
                    before: source::width(search.context.before),
                    after: source::width(search.context.after),
                    chat: search.chat,
                    with: search.with,
                    from: search.from,
                    limit: Some(search.limit),
                    since: search.since,
                    unknown: source::on(search.unknown),
                    names: source::off(search.names),
                }),
            ),
        ) == Work::Search(search),
        work(
            Request::Watch(
                (protocol::WatchRequest {
                    chat: watch.chat,
                    tapbacks: source::on(watch.tapbacks),
                    unknown: source::on(watch.unknown),
                    names: source::off(watch.names),
                }),
            ),
        ) == Work::Watch((WatchQuery { interval: 0, ..watch })),
{
}

/// Where something is sent.
#[derive(Debug)]
pub enum Target {
    /// A guid, which needs no lookup: a daemon that may drive Messages and may
    /// not read the database can still send.
    Known(String),
    /// A name, which has to be resolved.
    Lookup(String),
}

/// Where something may be sent, if sending is switched on at all. The switch is
/// looked at before anything else: a check the caller runs on itself is advice
/// rather than a gate.
pub fn send_target(config: Config, config_path: &str, chat: String) -> (out: Result<Target, Error>)
    ensures
        !config.send ==> (out matches Err(error) && error@ == ErrorView::SendDisabled(
            config::disabled(config_path@),
        )),
        config.send && protocol::chat_guid(chat@) ==> out == Ok::<Target, Error>(
            Target::Known(chat),
        ),
        config.send && !protocol::chat_guid(chat@) ==> out == Ok::<Target, Error>(
            Target::Lookup(chat),
        ),
{
    if !config.send {
        return Err(Error::SendDisabled(disabled_message(config_path)));
    }
    if is_chat_guid(chat.as_str()) {
        Ok(Target::Known(chat))
    } else {
        Ok(Target::Lookup(chat))
    }
}

/// What `base64`'s standard engine makes of bytes.
pub uninterp spec fn encoded(bytes: Seq<u8>) -> Seq<char>;

/// What `base64`'s standard engine reads a text as: bytes, or what it says is
/// wrong with it.
pub uninterp spec fn decoded(text: Seq<char>) -> Result<Seq<u8>, Seq<char>>;

/// A text is what these bytes are written as.
pub open spec fn reads_back(text: Seq<char>, bytes: Seq<u8>) -> bool {
    decoded(text) == Ok::<Seq<u8>, Seq<char>>(bytes)
}

/// As many bytes as can be written out in base64 on any machine.
pub open spec fn encodable(n: nat) -> bool {
    n <= usize::MAX / 4
}

/// `base64::Engine::encode` of the standard engine. A function of the bytes, and
/// one that `decode` of that engine reads back.
#[verifier::external_body]
fn encode_bytes(bytes: &[u8]) -> (out: String)
    requires
        encodable(bytes@.len()),
    ensures
        out@ == encoded(bytes@),
        reads_back(out@, bytes@),
{
    base64::Engine::encode(&base64::engine::general_purpose::STANDARD, bytes)
}

/// What came of reading base64, by its contents.
pub open spec fn read_as(out: Result<Vec<u8>, String>) -> Result<Seq<u8>, Seq<char>> {
    match out {
        Ok(bytes) => Ok(bytes@),
        Err(words) => Err(words@),
    }
}

/// `base64::Engine::decode` of the standard engine, with the words of its error.
/// A function of the text.
#[verifier::external_body]
fn decode_bytes(text: &str) -> (out: Result<Vec<u8>, String>)
    ensures
        read_as(out) == decoded(text@),
{
    base64::Engine::decode(&base64::engine::general_purpose::STANDARD, text).map_err(
        |error| error.to_string(),
    )
}

/// What is sent.
#[derive(Debug)]
pub enum Payload {
    File { name: String, data: Vec<u8> },
    Text(String),
}

/// What is sent: a file if there is one, as the bytes that were handed over, and
/// otherwise a text that is not empty.
pub fn payload_from(
    file: Option<(String, Result<Vec<u8>, String>)>,
    body: Option<String>,
) -> (out: Result<Payload, Error>)
    ensures
        file matches Some((name, Ok(data))) ==> out == Ok::<Payload, Error>(
            Payload::File { name, data },
        ),
        file matches Some((_, Err(words))) ==> (out matches Err(error) && error@
            == ErrorView::Other("unreadable attachment: "@ + words@)),
        file is None && body is Some && body->0@.len() > 0 ==> out == Ok::<Payload, Error>(
            Payload::Text(body->0),
        ),
        file is None && !(body is Some && body->0@.len() > 0) ==> (out matches Err(error)
            && error@ == ErrorView::Other("nothing to send"@)),
{
    match file {
        Some((name, Ok(data))) => Ok(Payload::File { name, data }),
        Some((_, Err(words))) => {
            let mut message: String = "unreadable attachment: ".to_owned();
            message.append(words.as_str());
            Err(Error::Other(message))
        },
        None => match body {
            Some(body) => if body.as_str().is_empty() {
                Err(Error::other("nothing to send"))
            } else {
                Ok(Payload::Text(body))
            },
            None => Err(Error::other("nothing to send")),
        },
    }
}

/// What a request to send asks to have sent.
pub fn payload(file: Option<Attachment>, body: Option<String>) -> (out: Result<Payload, Error>)
    ensures
        file is Some ==> match decoded(file->0.base64@) {
            Ok(data) => out matches Ok(Payload::File { name, data: handed }) && name
                == file->0.name && handed@ == data,
            Err(words) => out matches Err(error) && error@ == ErrorView::Other(
                "unreadable attachment: "@ + words,
            ),
        },
        file is None && body is Some && body->0@.len() > 0 ==> out == Ok::<Payload, Error>(
            Payload::Text(body->0),
        ),
        file is None && !(body is Some && body->0@.len() > 0) ==> (out matches Err(error)
            && error@ == ErrorView::Other("nothing to send"@)),
{
    match file {
        Some(file) => {
            let data = decode_bytes(file.base64.as_str());
            payload_from(Some((file.name, data)), body)
        },
        None => payload_from(None, body),
    }
}

/// A file as a request to send carries it: its bytes, and only the name of it.
pub fn pack(name: String, bytes: &[u8]) -> (out: Attachment)
    requires
        encodable(bytes@.len()),
    ensures
        out.name == name,
        out.base64@ == encoded(bytes@),
        reads_back(out.base64@, bytes@),
{
    Attachment { name, base64: encode_bytes(bytes) }
}

/// The frame an attachment opens with.
pub fn save_head(attachment: &db::Attachment, id: i64) -> (out: SavePart)
    ensures
        out matches SavePart::Head { name, mime_type, total_bytes } && name@ == source::called(
            text::maybe(attachment.name),
            id,
        ) && mime_type == attachment.mime_type && total_bytes == attachment.total_bytes,
{
    SavePart::Head {
        name: name_of(borrowed(&attachment.name), id),
        mime_type: copied(&attachment.mime_type),
        total_bytes: attachment.total_bytes,
    }
}

/// One frame's worth of an attachment.
pub fn save_chunk(bytes: &[u8]) -> (out: SavePart)
    requires
        bytes@.len() <= SAVE_CHUNK,
    ensures
        out matches SavePart::Chunk { base64 } && base64@ == encoded(bytes@) && reads_back(
            base64@,
            bytes@,
        ),
{
    SavePart::Chunk { base64: encode_bytes(bytes) }
}

/// What is said when the last frame of an attachment has gone.
pub fn save_reply(attachment: &db::Attachment, id: i64, bytes: i64) -> (out: SaveReply)
    ensures
        out.name@ == source::called(text::maybe(attachment.name), id),
        out.bytes == bytes,
{
    SaveReply { name: name_of(borrowed(&attachment.name), id), bytes }
}

/// The bytes one frame of an attachment brings, at the other end.
pub fn received(base64: &str) -> (out: Result<Vec<u8>, Error>)
    ensures
        match decoded(base64@) {
            Ok(bytes) => out matches Ok(got) && got@ == bytes,
            Err(words) => out matches Err(error) && error@ == ErrorView::Other(
                "msgd sent "@ + words,
            ),
        },
{
    match decode_bytes(base64) {
        Ok(bytes) => Ok(bytes),
        Err(words) => {
            let mut message: String = "msgd sent ".to_owned();
            message.append(words.as_str());
            Err(Error::Other(message))
        },
    }
}

/// The bytes that frames bring, one after another.
pub open spec fn brought(chunks: Seq<Seq<char>>) -> Seq<u8>
    decreases chunks.len(),
{
    if chunks.len() == 0 {
        Seq::empty()
    } else {
        brought(chunks.drop_last()) + (match decoded(chunks.last()) {
            Ok(bytes) => bytes,
            Err(_) => Seq::empty(),
        })
    }
}

/// A file in pieces.
pub open spec fn whole(pieces: Seq<Seq<u8>>) -> Seq<u8>
    decreases pieces.len(),
{
    if pieces.len() == 0 {
        Seq::empty()
    } else {
        whole(pieces.drop_last()) + pieces.last()
    }
}

/// A file arrives whole: frames that each read back as the piece they were made
/// of bring the file they were made of, byte for byte.
pub proof fn a_file_arrives_whole(pieces: Seq<Seq<u8>>, chunks: Seq<Seq<char>>)
    requires
        pieces.len() == chunks.len(),
        forall|i: int|
            0 <= i < chunks.len() ==> reads_back(#[trigger] chunks[i], pieces[i]),
    ensures
        brought(chunks) == whole(pieces),
    decreases chunks.len(),
{
    if chunks.len() > 0 {
        let n = chunks.len() - 1;
        assert(reads_back(chunks[n], pieces[n]));
        a_file_arrives_whole(pieces.drop_last(), chunks.drop_last());
    }
}

/// What a watcher is handed next: what is above its watermark, the oldest first.
pub fn watch_options<'a>(
    chat_id: Option<i64>,
    watermark: i64,
    tapbacks: bool,
    unknown: bool,
) -> (out: FetchMessages<'a>)
    ensures
        out == (FetchMessages {
            chat_id,
            after_date: None,
            after_rowid: Some(watermark),
            before_rowid: None,
            query: None,
            person: None,
            limit: WATCH_BATCH,
            include_tapbacks: tapbacks,
            include_filtered: unknown,
            oldest_first: true,
        }),
        forall|ours: Seq<i64>, row: Stored|
            #[trigger] queries::selects(out, ours, row) <==> {
                &&& row.rowid > watermark
                &&& chat_id matches Some(chat) ==> row.chat_id == chat
                &&& chat_id is Some || unknown || row.filtered == Some(0int)
                &&& tapbacks || row.kind == Some(0int)
            },
        forall|a: Stored, b: Stored|
            #[trigger] queries::comes_first(out, a, b) <==> a.rowid < b.rowid,
{
    FetchMessages {
        chat_id,
        after_rowid: Some(watermark),
        limit: WATCH_BATCH,
        include_tapbacks: tapbacks,
        include_filtered: unknown,
        oldest_first: true,
        ..FetchMessages::default()
    }
}

/// A watcher has messages waiting. One that is still behind has them even when
/// nothing has arrived since the last look.
pub fn is_behind(watermark: i64, latest: i64) -> (yes: bool)
    ensures
        yes == (watermark < latest),
{
    watermark < latest
}

/// Where a watcher stands once it was handed a batch.
///
/// A filter can hide every row of one, so a batch that is not full means that
/// everything up to `latest` was read, whether or not it was sent. What arrived
/// since `latest` was read may be in the batch too, and is not sent again.
pub open spec fn advanced(watermark: i64, messages: Seq<Message>, latest: i64) -> i64 {
    let seen = source::highest(watermark, messages);
    if messages.len() < WATCH_BATCH && seen < latest {
        latest
    } else {
        seen
    }
}

/// Where a watcher stands once it was handed a batch.
pub fn advance(watermark: i64, messages: &[Message], latest: i64) -> (out: i64)
    ensures
        out == advanced(watermark, messages@, latest),
{
    let seen: i64 = seen_upto(watermark, messages);
    if (messages.len() as u64) < WATCH_BATCH as u64 && seen < latest {
        latest
    } else {
        seen
    }
}

/// Draining a burst ends, skips nobody and repeats nothing: a watcher that is
/// behind stands strictly higher after each batch of what is above its
/// watermark, at or above everything it was handed, and at no message it was not
/// handed unless it has caught up. A batch that is not full catches it up.
pub proof fn draining_gets_on(watermark: i64, messages: Seq<Message>, latest: i64)
    requires
        watermark < latest,
        forall|i: int| 0 <= i < messages.len() ==> watermark < (#[trigger] messages[i]).rowid,
    ensures
        watermark < advanced(watermark, messages, latest),
        messages.len() < WATCH_BATCH ==> latest <= advanced(watermark, messages, latest),
        forall|i: int|
            0 <= i < messages.len() ==> (#[trigger] messages[i]).rowid <= advanced(
                watermark,
                messages,
                latest,
            ),
        advanced(watermark, messages, latest) == latest || (exists|i: int|
            0 <= i < messages.len() && (#[trigger] messages[i]).rowid == advanced(
                watermark,
                messages,
                latest,
            )),
{
    source::a_watermark_only_climbs(watermark, messages);
    if messages.len() >= WATCH_BATCH {
        assert(messages[0].rowid <= source::highest(watermark, messages));
    }
    if source::highest(watermark, messages) > watermark {
        highest_is_held(watermark, messages);
    }
}

proof fn highest_is_held(watermark: i64, messages: Seq<Message>)
    requires
        source::highest(watermark, messages) > watermark,
    ensures
        exists|i: int|
            0 <= i < messages.len() && (#[trigger] messages[i]).rowid == source::highest(
                watermark,
                messages,
            ),
    decreases messages.len(),
{
    if messages.len() > 0 {
        let rest = messages.drop_last();
        if messages.last().rowid > source::highest(watermark, rest) {
            assert(messages[messages.len() - 1].rowid == source::highest(watermark, messages));
        } else {
            highest_is_held(watermark, rest);
            let i = choose|i: int|
                0 <= i < rest.len() && (#[trigger] rest[i]).rowid == source::highest(
                    watermark,
                    rest,
                );
            assert(messages[i] == rest[i]);
        }
    }
}

/// Copies of texts.
fn copies(all: &Vec<String>) -> (out: Vec<String>)
    ensures
        text::all_of(out@) == text::all_of(all@),
{
    let mut out: Vec<String> = Vec::new();
    for i in 0..all.len()
        invariant
            out@.len() == i,
            forall|j: int| 0 <= j < i ==> (#[trigger] out@[j])@ == all@[j]@,
    {
        out.push(all[i].clone());
    }
    assert(text::all_of(out@) =~= text::all_of(all@));
    out
}

/// How the daemon is doing, up to the nearest second.
pub fn status_reply(
    pid: u32,
    uptime_millis: u64,
    database: String,
    message_count: i64,
    index: &ContactIndex,
    watchers: usize,
) -> (out: StatusReply)
    requires
        uptime_millis <= u64::MAX - 500,
    ensures
        out.version@ == VERSION@,
        out.protocol == PROTOCOL_VERSION,
        out.pid == pid,
        out.uptime_seconds == (uptime_millis + 500) / 1000,
        out.database == database,
        out.message_count == message_count,
        out.contact_count == index@.contacts.len(),
        text::all_of(out.contact_problems@) == index@.problems,
        out.watchers == watchers,
{
    StatusReply {
        version: VERSION.to_owned(),
        protocol: PROTOCOL_VERSION,
        pid,
        uptime_seconds: (uptime_millis + 500) / 1000,
        database,
        message_count,
        contact_count: index.len(),
        contact_problems: copies(index.problems()),
        watchers,
    }
}

/// What a request leaves unsaid is what it would have got by asking: thirty
/// conversations, fifty messages, twenty-five hits without context, names, and neither
/// reactions nor what is filtered.
pub proof fn silence_asks_for_the_usual(
    chats: protocol::ChatsRequest,
    read: protocol::ReadRequest,
    search: protocol::SearchRequest,
    watch: protocol::WatchRequest,
)
    ensures
        work(Request::Chats((protocol::ChatsRequest { limit: None, ..chats }))) == work(
            Request::Chats((protocol::ChatsRequest { limit: Some(30), ..chats })),
        ),
        work(Request::Chats((protocol::ChatsRequest { unknown: None, ..chats }))) == work(
            Request::Chats((protocol::ChatsRequest { unknown: Some(false), ..chats })),
        ),
        work(Request::Chats((protocol::ChatsRequest { names: None, ..chats }))) == work(
            Request::Chats((protocol::ChatsRequest { names: Some(true), ..chats })),
        ),
        work(Request::Read((protocol::ReadRequest { limit: None, ..read }))) == work(
            Request::Read((protocol::ReadRequest { limit: Some(50), ..read })),
        ),
        work(Request::Read((protocol::ReadRequest { tapbacks: None, ..read }))) == work(
            Request::Read((protocol::ReadRequest { tapbacks: Some(false), ..read })),
        ),
        work(Request::Read((protocol::ReadRequest { names: None, ..read }))) == work(
            Request::Read((protocol::ReadRequest { names: Some(true), ..read })),
        ),
        work(Request::Read((protocol::ReadRequest { unknown: None, ..read }))) == work(
            Request::Read((protocol::ReadRequest { unknown: Some(false), ..read })),
        ),
        work(Request::Search((protocol::SearchRequest { limit: None, ..search }))) == work(
            Request::Search((protocol::SearchRequest { limit: Some(25), ..search })),
        ),
        work(Request::Search((protocol::SearchRequest { before: None, ..search }))) == work(
            Request::Search((protocol::SearchRequest { before: Some(0), ..search })),
        ),
        work(Request::Search((protocol::SearchRequest { after: None, ..search }))) == work(
            Request::Search((protocol::SearchRequest { after: Some(0), ..search })),
        ),
        work(Request::Search((protocol::SearchRequest { unknown: None, ..search }))) == work(
            Request::Search((protocol::SearchRequest { unknown: Some(false), ..search })),
        ),
        work(Request::Search((protocol::SearchRequest { names: None, ..search }))) == work(
            Request::Search((protocol::SearchRequest { names: Some(true), ..search })),
        ),
        work(Request::Watch((protocol::WatchRequest { tapbacks: None, ..watch }))) == work(
            Request::Watch((protocol::WatchRequest { tapbacks: Some(false), ..watch })),
        ),
        work(Request::Watch((protocol::WatchRequest { unknown: None, ..watch }))) == work(
            Request::Watch((protocol::WatchRequest { unknown: Some(false), ..watch })),
        ),
        work(Request::Watch((protocol::WatchRequest { names: None, ..watch }))) == work(
            Request::Watch((protocol::WatchRequest { names: Some(true), ..watch })),
        ),
{
}

/// What a request says is what is done: a limit that is given is the limit, a switch that
/// is put on is on, names that are refused are left out, and a person or a conversation
/// that is named is the one.
pub proof fn what_is_said_is_done(
    chats: protocol::ChatsRequest,
    read: protocol::ReadRequest,
    search: protocol::SearchRequest,
    send: protocol::SendRequest,
    resolve: protocol::ResolveRequest,
)
    ensures
        work(Request::Chats(chats)) matches Work::Chats(query) && query.query == chats.query && (
        chats.limit is Some ==> query.limit == chats.limit->0) && (query.unknown
            <==> chats.unknown == Some(true)) && (query.names <==> chats.names != Some(false)),
        work(Request::Read(read)) matches Work::Read(query) && query.chat == read.chat
            && query.since == read.since && (read.limit is Some ==> query.limit == read.limit->0)
            && (query.tapbacks <==> read.tapbacks == Some(true)) && (query.unknown <==> read.unknown
            == Some(true)) && (query.names <==> read.names != Some(false)),
        work(Request::Search(search)) matches Work::Search(query) && query.query == search.query
            && query.chat == search.chat && query.with == search.with && query.from == search.from
            && query.since == search.since && (search.limit is Some ==> query.limit
            == search.limit->0) && (search.before is Some ==> query.context.before
            == search.before->0) && (search.after is Some ==> query.context.after
            == search.after->0),
        work(Request::Send(send)) matches Work::Send(query) && query.chat == send.chat && query.body
            == send.body && query.file == send.file && (query.names <==> send.names != Some(false)),
        work(Request::Resolve(resolve)) matches Work::Resolve { chat, names } && chat
            == resolve.chat && (names <==> resolve.names != Some(false)),
{
}

/// An index only goes stale: one that is fresh enough was so all along, an empty one goes
/// stale no later than one with somebody in it, and no index at all is always to be loaded.
/// Ten seconds are given to an empty one, and ten minutes to any other.
pub proof fn an_index_goes_stale_with_age(empty: bool, age: u128, older: u128)
    requires
        age <= older,
    ensures
        stale(None),
        stale(Some((empty, age))) ==> stale(Some((empty, older))),
        stale(Some((false, age))) ==> stale(Some((true, age))),
        !stale(Some((true, age))) <==> age <= 10 * 1_000_000_000,
        !stale(Some((false, age))) <==> age <= 10 * 60 * 1_000_000_000,
{
}

} // verus!
