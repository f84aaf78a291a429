//! Reading a Messages database: what is asked of it, and what is made of the
//! rows, over an in-memory database with the tables Messages keeps.
use chrono::{DateTime, Utc};
use msg::access;
use msg::apple::to_apple_date;
use msg::attachments::{self, ATTACHMENT_BATCH, AttachmentRow, EXCERPT, FilePath, excerpt};
use msg::bodies::{self, contains_ignoring_case};
use msg::chats::{self, describe_target};
use msg::contacts::ContactIndex;
use msg::context::{self, Context, Surrounded};
use msg::daemon::protocol::{ChatsRequest, ReadReply, ReadRequest, Request, SearchRequest};
use msg::daemon::server::{Work, advance, answer, is_behind, watch_options};
use msg::db::{Attachment, Chat, ChatRow, Message, MessageRow, human_bytes};
use msg::fetch::{self, Candidate, FetchMessages, Lookups, Step};
use msg::iso;
use msg::people::{self, HandleRow, Person, PersonFilter, Sender};
use msg::queries::{self, NAME_SEARCH_SCAN, Query};
use msg::replies::OriginatorRow;
use msg::resolve::{self, CHAT_MATCH_SCAN, MemberRow, Naming, Plan};
use msg::source::search_options;
use msg::tapbacks::TapbackRow;
use msg::Error;
use rusqlite::functions::FunctionFlags;
use rusqlite::types::Value;
use rusqlite::{Connection, Row, params_from_iter};
use std::collections::{BTreeMap, BTreeSet};

/// A failure of the database, in its own words.
fn failed(error: rusqlite::Error) -> Error {
    Error::Other(error.to_string())
}

/// Teach a connection `msg_body_has`, which the message query calls.
fn register_body_match(db: &Connection) -> rusqlite::Result<()> {
    db.create_scalar_function(
        "msg_body_has",
        3,
        FunctionFlags::SQLITE_UTF8 | FunctionFlags::SQLITE_DETERMINISTIC,
        |context| {
            let needle = context.get::<String>(2)?;
            let text = context.get::<String>(0).ok();
            let archive = context.get::<Vec<u8>>(1).ok();
            Ok(bodies::body_has(text.as_deref(), archive.as_deref(), &needle))
        },
    )
}

fn text(row: &Row<'_>, column: &str) -> Option<String> {
    row.get::<_, Option<String>>(column).ok().flatten()
}

fn number(row: &Row<'_>, column: &str) -> Option<i64> {
    row.get::<_, Option<i64>>(column).ok().flatten()
}

fn bytes(row: &Row<'_>, column: &str) -> Option<Vec<u8>> {
    row.get::<_, Option<Vec<u8>>>(column).ok().flatten()
}

fn message_row(row: &Row<'_>) -> MessageRow {
    MessageRow {
        rowid: number(row, "rowid"),
        guid: text(row, "guid"),
        is_from_me: number(row, "isFromMe"),
        text: text(row, "text"),
        attributed_body: bytes(row, "attributedBody"),
        associated_message_type: number(row, "associatedMessageType"),
        date: number(row, "date"),
        handle: text(row, "handle"),
        chat_id: number(row, "chatId"),
        chat_name: text(row, "chatName"),
        service: text(row, "service"),
        thread_originator_guid: text(row, "threadOriginatorGuid"),
    }
}

fn chat_row(row: &Row<'_>) -> ChatRow {
    ChatRow {
        rowid: number(row, "rowid"),
        guid: text(row, "guid"),
        chat_identifier: text(row, "chatIdentifier"),
        display_name: text(row, "displayName"),
        is_filtered: number(row, "isFiltered"),
        handles: text(row, "handles"),
        member_count: number(row, "memberCount"),
        last_date: number(row, "lastDate"),
        message_count: number(row, "messageCount"),
    }
}

fn attachment_row(row: &Row<'_>) -> AttachmentRow {
    AttachmentRow {
        message_id: number(row, "messageId"),
        rowid: number(row, "rowid"),
        name: text(row, "name"),
        mime_type: text(row, "mimeType"),
        uti: text(row, "uti"),
        total_bytes: number(row, "totalBytes"),
        is_sticker: number(row, "isSticker"),
        filename: text(row, "filename"),
    }
}

fn tapback_row(row: &Row<'_>) -> TapbackRow {
    TapbackRow {
        target: text(row, "target"),
        kind: number(row, "kind"),
        emoji: text(row, "emoji"),
        date: number(row, "date"),
        is_from_me: number(row, "isFromMe"),
        handle: text(row, "handle"),
    }
}

fn originator_row(row: &Row<'_>) -> OriginatorRow {
    OriginatorRow {
        guid: text(row, "guid"),
        rowid: number(row, "rowid"),
        is_from_me: number(row, "isFromMe"),
        text: text(row, "text"),
        attributed_body: bytes(row, "attributedBody"),
        handle: text(row, "handle"),
    }
}

fn bound(value: &queries::Value) -> Value {
    match value {
        queries::Value::Integer(number) => Value::Integer(*number),
        queries::Value::Text(text) => Value::Text(text.clone()),
    }
}

/// The rows of one query.
fn select<T>(
    db: &Connection,
    query: &Query,
    read: impl Fn(&Row<'_>) -> rusqlite::Result<T>,
) -> Result<Vec<T>, Error> {
    let mut statement = db.prepare(&query.sql).map_err(failed)?;
    let found = statement
        .query_map(params_from_iter(query.values.iter().map(bound)), |row| read(row))
        .map_err(failed)?
        .collect::<rusqlite::Result<Vec<T>>>()
        .map_err(failed)?;
    Ok(found)
}

/// The rows of a query with nothing to bind.
fn select_all<T>(
    db: &Connection,
    sql: &str,
    read: impl Fn(&Row<'_>) -> rusqlite::Result<T>,
) -> Result<Vec<T>, Error> {
    select(db, &Query { sql: sql.to_string(), values: Vec::new() }, read)
}

/// The rows of one query after another.
fn select_each<T>(
    db: &Connection,
    asked: &[Query],
    read: impl Fn(&Row<'_>) -> rusqlite::Result<T>,
) -> Result<Vec<T>, Error> {
    let mut found = Vec::new();
    for query in asked {
        found.extend(select(db, query, &read)?);
    }
    Ok(found)
}

/// Every address there is. One that is not text names nobody.
fn handles(db: &Connection) -> Result<Vec<HandleRow>, Error> {
    let found = select_all(db, queries::HANDLES_SQL, |row| {
        Ok((row.get::<_, i64>(0)?, row.get::<_, String>(1).ok()))
    })?;
    Ok(found
        .into_iter()
        .filter_map(|(rowid, handle)| Some(HandleRow { rowid, handle: handle? }))
        .collect())
}

fn one_to_one_chats(db: &Connection, person: &Person) -> Result<Vec<i64>, Error> {
    select(db, &queries::one_to_one_query(person), |row| row.get(0))
}

fn attachment_rows(db: &Connection, ids: &[i64]) -> Result<Vec<AttachmentRow>, Error> {
    let ids = attachments::ids_to_ask(ids);
    select_each(db, &queries::attachments_queries(&ids), |row| Ok(attachment_row(row)))
}

/// What belongs on the messages found.
fn lookups(db: &Connection, candidates: &[Candidate]) -> Result<Lookups, Error> {
    let files = attachment_rows(db, &fetch::rowids_of(candidates))?;
    let answered = fetch::answered_guids(candidates);
    let originators = select_each(db, &queries::replies_queries(&answered), |row| {
        Ok(originator_row(row))
    })?;
    let ids: Vec<i64> = originators.iter().map(|row| row.rowid.unwrap_or(0)).collect();
    let quoted = attachment_rows(db, &ids)?;
    let reacted = fetch::reacted_guids(candidates);
    let reactions = if reacted.is_empty() {
        Vec::new()
    } else {
        let columns: Vec<i64> = select_all(db, queries::EMOJI_COLUMN_SQL, |row| row.get(0))?;
        let has_emoji = columns.first().is_some_and(|count| *count > 0);
        let asked = queries::tapbacks_queries(&reacted, has_emoji);
        select_each(db, &asked, |row| Ok(tapback_row(row)))?
    };
    Ok(Lookups { files, originators, quoted, reactions })
}

/// Read messages, oldest first.
fn fetch_messages(
    db: &Connection,
    options: &FetchMessages<'_>,
    contacts: &ContactIndex,
) -> Result<Vec<Message>, Error> {
    let ours = match &options.person {
        Some(filter) if filter.sender == Sender::BothWays => one_to_one_chats(db, filter.person)?,
        _ => Vec::new(),
    };
    let mut asking = fetch::first_ask(options.limit, options.query.is_some());
    loop {
        let mut query = queries::message_query(options, &ours);
        query.values.push(queries::Value::Integer(asking));
        let rows = select(db, &query, |row| Ok(message_row(row)))?;
        match fetch::consider(rows, asking, options.limit, options.query, contacts) {
            Step::Wider(wider) => asking = wider,
            Step::Found(found) => {
                let lookups = lookups(db, &found)?;
                return Ok(fetch::finish(found, &lookups, contacts, options.oldest_first));
            }
        }
    }
}

/// Show hits inside the conversations they were found in.
fn with_context(
    db: &Connection,
    hits: Vec<Message>,
    context: Context,
    contacts: &ContactIndex,
) -> Result<Vec<Message>, Error> {
    let mut surrounded = Vec::new();
    for hit in hits {
        let (earlier, later) = if context.wanted() {
            (
                fetch_messages(db, &context::earlier_options(&hit, context), contacts)?,
                fetch_messages(db, &context::later_options(&hit, context), contacts)?,
            )
        } else {
            (Vec::new(), Vec::new())
        };
        surrounded.push(Surrounded { hit, earlier, later });
    }
    Ok(context::with_context(surrounded, context))
}

/// Read a conversation that may span more than one thread, oldest first.
fn fetch_conversation(
    db: &Connection,
    chats: &[Chat],
    after_date: Option<i64>,
    limit: i64,
    include_tapbacks: bool,
    contacts: &ContactIndex,
) -> Result<Vec<Message>, Error> {
    let mut threads = Vec::new();
    for chat in chats {
        let options = fetch::thread_options(chat.rowid, after_date, limit, include_tapbacks);
        threads.push(fetch_messages(db, &options, contacts)?);
    }
    Ok(fetch::merge_threads(threads, limit))
}

fn chats_by_id(
    db: &Connection,
    ids: &[i64],
    contacts: &ContactIndex,
) -> Result<Vec<Chat>, Error> {
    if ids.is_empty() {
        return Ok(Vec::new());
    }
    let rows = select(db, &queries::chats_by_id_query(ids), |row| Ok(chat_row(row)))?;
    Ok(chats::chats_from_rows(rows, contacts))
}

/// Threads matching a query, newest first.
fn fetch_chats(
    db: &Connection,
    query: Option<&str>,
    limit: i64,
    contacts: &ContactIndex,
    include_filtered: bool,
) -> Result<Vec<Chat>, Error> {
    let asked = queries::chats_query(query.is_some(), limit, include_filtered);
    let rows = select(db, &asked, |row| Ok(chat_row(row)))?;
    Ok(chats::fetch_chats(rows, query, limit, contacts))
}

/// The conversation listing.
fn fetch_conversations(
    db: &Connection,
    query: Option<&str>,
    limit: i64,
    contacts: &ContactIndex,
    include_filtered: bool,
) -> Result<Vec<Chat>, Error> {
    let asked = queries::all_chats_query(include_filtered);
    let rows = select(db, &asked, |row| Ok(chat_row(row)))?;
    let threads = chats::chats_from_rows(rows, contacts);
    Ok(chats::fetch_conversations(threads, query, limit, contacts))
}

/// Find one person, and gather every address they use.
fn resolve_person(
    db: &Connection,
    spec: &str,
    contacts: &ContactIndex,
) -> Result<Person, Error> {
    people::resolve_person(spec, &handles(db)?, contacts)
}

/// Turn the two person flags into one resolved filter.
fn person_filter(
    db: &Connection,
    with: Option<&str>,
    from: Option<&str>,
    contacts: &ContactIndex,
) -> Result<Option<(Person, Sender)>, Error> {
    people::person_filter(with, from, &handles(db)?, contacts)
}

/// Find the room whose members are exactly these people, and me.
fn resolve_room(
    db: &Connection,
    people: &[Person],
    contacts: &ContactIndex,
) -> Result<Chat, Error> {
    let wanted = resolve::room_members(people, contacts)?;
    let ids: Vec<i64> = people
        .iter()
        .flat_map(|person| person.handle_ids.iter().copied())
        .collect();
    let rows = select(db, &queries::members_query(&ids), |row| {
        Ok(MemberRow { chat_id: row.get(0)?, handle: row.get(1)? })
    })?;
    let exact = resolve::exact_rooms(&wanted, &rows, contacts);
    resolve::resolve_room(people, chats_by_id(db, &exact, contacts)?)
}

/// Every conversation with the person a spec names, most recently active first.
fn resolve_conversation(
    db: &Connection,
    spec: &str,
    contacts: &ContactIndex,
    unknown: bool,
) -> Result<Vec<Chat>, Error> {
    let rooms: Vec<String> = select_all(db, queries::ROOM_NAMES_SQL, |row| row.get(0))?;
    match resolve::plan(spec, &handles(db)?, &rooms, contacts)? {
        Plan::Rowid(rowid) => {
            return resolve::by_rowid(spec, chats_by_id(db, &[rowid], contacts)?);
        }
        Plan::Person(person) => {
            let theirs = one_to_one_chats(db, &person)?;
            let threads = chats_by_id(db, &theirs, contacts)?;
            if let Some(found) = resolve::their_own(spec, threads, unknown) {
                return Ok(found);
            }
        }
        Plan::Text => {}
    }
    let matches = fetch_chats(db, Some(spec), resolve::CHAT_MATCH_SCAN, contacts, true)?;
    resolve::by_text(spec, matches, contacts)
}

/// The conversation several specs name, each spec being one person.
fn resolve_conversations(
    db: &Connection,
    specs: &[String],
    contacts: &ContactIndex,
    unknown: bool,
) -> Result<Vec<Chat>, Error> {
    match resolve::naming(specs)? {
        Naming::Alone => resolve_conversation(db, &specs[0], contacts, unknown),
        Naming::Together => {
            let people = resolve::resolve_people(specs, &handles(db)?, contacts)?;
            Ok(vec![resolve_room(db, &people, contacts)?])
        }
    }
}

/// The thread a message for this spec would be sent to.
fn resolve_chat(
    db: &Connection,
    spec: &str,
    contacts: &ContactIndex,
) -> Result<Chat, Error> {
    Ok(resolve::leading(resolve_conversation(db, spec, contacts, false)?))
}

/// The highest message rowid.
fn latest_rowid(db: &Connection) -> Result<i64, Error> {
    let found = select_all(db, queries::LATEST_SQL, |row| Ok(number(row, "max")))?;
    Ok(access::latest_rowid(found.into_iter().next()))
}

/// Where one attachment's bytes are, by rowid.
fn attachment_path(
    db: &Connection,
    rowid: i64,
) -> Result<(attachments::FilePath, Attachment), Error> {
    let asked = Query {
        sql: queries::ATTACHMENT_SQL.to_string(),
        values: vec![queries::Value::Integer(rowid)],
    };
    let found = select(db, &asked, |row| Ok(attachment_row(row)))?;
    attachments::attachment_path(rowid, found.into_iter().next())
}

/// The attachments of each of these messages that has any.
fn attachments_for(
    db: &Connection,
    rowids: &[i64],
) -> Result<BTreeMap<i64, Vec<Attachment>>, Error> {
    let rows = attachment_rows(db, rowids)?;
    Ok(rowids
        .iter()
        .map(|rowid| (*rowid, attachments::attachments_of(&rows, *rowid)))
        .filter(|(_, found)| !found.is_empty())
        .collect())
}



const SCHEMA: &str = "
  CREATE TABLE handle (rowid INTEGER PRIMARY KEY, id TEXT);
  CREATE TABLE chat (
    rowid INTEGER PRIMARY KEY, guid TEXT, chat_identifier TEXT,
    display_name TEXT, is_filtered INTEGER DEFAULT 0
  );
  CREATE TABLE message (
    rowid INTEGER PRIMARY KEY, guid TEXT, text TEXT, attributedBody BLOB,
    is_from_me INTEGER DEFAULT 0, handle_id INTEGER,
    associated_message_type INTEGER DEFAULT 0, associated_message_guid TEXT,
      associated_message_emoji TEXT, date INTEGER, service TEXT,
    thread_originator_guid TEXT, thread_originator_part TEXT
  );
  CREATE TABLE chat_message_join (
    chat_id INTEGER, message_id INTEGER, message_date INTEGER DEFAULT 0
  );
  CREATE TABLE attachment (
    ROWID INTEGER PRIMARY KEY, guid TEXT, filename TEXT, uti TEXT,
    mime_type TEXT, transfer_state INTEGER DEFAULT 0, transfer_name TEXT,
    total_bytes INTEGER DEFAULT 0, is_sticker INTEGER DEFAULT 0,
    hide_attachment INTEGER DEFAULT 0
  );
  CREATE TABLE message_attachment_join (
    message_id INTEGER, attachment_id INTEGER
  );
  CREATE TABLE chat_handle_join (chat_id INTEGER, handle_id INTEGER);
";

fn at(minutes: i64) -> i64 {
    let start = DateTime::parse_from_rfc3339("2026-01-15T17:30:00Z")
        .unwrap()
        .with_timezone(&Utc);
    to_apple_date(start.timestamp_millis() + minutes * 60_000).expect("in range")
}

fn fixture() -> Connection {
    let db = Connection::open_in_memory().unwrap();
    register_body_match(&db).unwrap();
    db.execute_batch(SCHEMA).unwrap();
    db.execute_batch(
        "
        INSERT INTO handle (rowid, id) VALUES (1, '+13105551234'), (2, 'someone@example.com');
        INSERT INTO chat (rowid, guid, chat_identifier, display_name, is_filtered) VALUES
          (1, 'iMessage;-;+13105551234', '+13105551234', '', 0),
          (2, 'iMessage;+;chat9', 'chat9', 'Ship Room', 0),
          (3, 'SMS;-;+18885550000', '+18885550000', '', 1);
        INSERT INTO chat_handle_join (chat_id, handle_id) VALUES (1, 1), (2, 1), (2, 2), (3, 1);
        ",
    )
    .unwrap();


    let rows: [(i64, &str, &str, i64, i64, i64, i64, i64); 5] = [
        (1, "m1", "are you around later", 0, 1, 0, at(0), 1),
        (2, "m2", "after 6, yeah", 1, 1, 0, at(1), 1),
        (3, "m3", "deploy is green", 0, 2, 0, at(2), 2),
        (4, "m4", "your code is 123456", 0, 1, 0, at(3), 3),
        (5, "m5", "Liked \"after 6, yeah\"", 0, 1, 2000, at(4), 1),
    ];
    for (rowid, guid, body, from_me, handle, associated, date, chat) in rows {
        db.execute(
            "INSERT INTO message (rowid, guid, text, is_from_me, handle_id,
                 associated_message_type, date, service)
             VALUES (?, ?, ?, ?, ?, ?, ?, 'iMessage')",
            (rowid, guid, body, from_me, handle, associated, date),
        )
        .unwrap();
        db.execute(
            "INSERT INTO chat_message_join (chat_id, message_id, message_date)
             VALUES (?, ?, ?)",
            (chat, rowid, date),
        )
        .unwrap();
    }
    db
}

fn bodies(messages: &[Message]) -> Vec<&str> {
    messages
        .iter()
        .map(|message| message.body.as_deref().unwrap_or(""))
        .collect()
}

#[test]
fn db_lists_conversations_and_hides_the_filtered_ones() {
    let db = fixture();
    let chats = fetch_chats(&db, None, 30, &ContactIndex::empty(), false).unwrap();
    let names: Vec<&str> = chats.iter().map(|chat| chat.name.as_str()).collect();
    assert_eq!(names, ["+13105551234", "Ship Room"]);
}

#[test]
fn db_includes_filtered_conversations_when_asked() {
    let db = fixture();
    let chats = fetch_chats(&db, None, 30, &ContactIndex::empty(), true).unwrap();
    assert_eq!(chats.len(), 3);
    assert!(chats.iter().any(|chat| chat.is_filtered));
}

#[test]
fn filters_chats_by_name() {
    let db = fixture();
    let chats = fetch_chats(&db, Some("Ship"), 30, &ContactIndex::empty(), false).unwrap();
    assert_eq!(chats.iter().map(|chat| chat.rowid).collect::<Vec<_>>(), [2]);
}

#[test]
fn counts_members_and_marks_groups() {
    let db = fixture();
    let chats = fetch_chats(&db, Some("Ship"), 30, &ContactIndex::empty(), false).unwrap();
    assert_eq!(chats[0].member_count, 2);
    assert!(chats[0].is_group);
}

#[test]
fn db_returns_a_conversation_oldest_first_without_tapbacks() {
    let db = fixture();
    let messages = fetch_messages(
        &db,
        &FetchMessages {
            chat_id: Some(1),
            ..Default::default()
        },
        &ContactIndex::empty(),
    )
    .unwrap();
    assert_eq!(bodies(&messages), ["are you around later", "after 6, yeah"]);
    assert_eq!(messages[1].sender, "me");
}

#[test]
fn db_includes_tapbacks_when_asked() {
    let db = fixture();
    let messages = fetch_messages(
        &db,
        &FetchMessages {
            chat_id: Some(1),
            include_tapbacks: true,
            ..Default::default()
        },
        &ContactIndex::empty(),
    )
    .unwrap();
    assert_eq!(messages.len(), 3);
    assert!(messages[2].is_tapback);
}

#[test]
fn reactions_land_on_the_message_they_react_to() {
    let db = fixture();
    let reactions: [(i64, i64, i64, i64, &str, Option<&str>); 7] = [
        (10, 2000, 0, 2, "p:0/m1", None), // ❤️, cancelled by 13
        (11, 2001, 1, 1, "m1", None),     // 👍, the bare form
        (12, 2006, 0, 1, "p:0/m1", Some("🙏")),
        (13, 3000, 0, 2, "p:0/m1", None), // removes 10: same sender, family
        (14, 2007, 0, 1, "p:0/m1", None), // nothing identifies it (§9)
        (15, 2000, 0, 1, "p:0/ghost", None), // target no longer exists
        (16, 2001, 0, 2, "bp:m1", None),  // 👍, the second prefix form
    ];
    for (rowid, kind, from_me, handle, target, emoji) in reactions {
        db.execute(
            "INSERT INTO message (rowid, guid, text, is_from_me, handle_id,
                 associated_message_type, associated_message_guid,
                 associated_message_emoji, date, service)
             VALUES (?, ?, NULL, ?, ?, ?, ?, ?, ?, 'iMessage')",
            (
                rowid,
                format!("t{rowid}"),
                from_me,
                handle,
                kind,
                target,
                emoji,
                at(10 + rowid)),
        )
        .unwrap();
        db.execute(
            "INSERT INTO chat_message_join (chat_id, message_id, message_date)
             VALUES (1, ?, ?)",
            (rowid, at(10 + rowid)),
        )
        .unwrap();
    }

    let messages = fetch_messages(
        &db,
        &FetchMessages {
            chat_id: Some(1),
            ..Default::default()
        },
        &ContactIndex::empty(),
    )
    .unwrap();
    let m1 = messages
        .iter()
        .find(|message| message.guid == "m1")
        .expect("the target");
    let symbols: Vec<&str> = m1
        .tapbacks
        .iter()
        .map(|tapback| tapback.symbol.as_str())
        .collect();
    assert_eq!(symbols, ["👍", "🙏", "👍"], "{:?}", m1.tapbacks);
    assert_eq!(m1.tapbacks[0].associated_message_type, 2001);
    assert!(m1.tapbacks[0].is_from_me);
    assert_eq!(m1.tapbacks[1].handle.as_deref(), Some("+13105551234"));
    assert!(
        messages
            .iter()
            .filter(|message| message.guid != "m1")
            .all(|message| message.tapbacks.is_empty())
    );
}

#[test]
fn db_reaches_a_filtered_conversation_when_it_is_named_outright() {
    let db = fixture();
    let chat = resolve_chat(&db, "3", &ContactIndex::empty()).unwrap();
    let messages = fetch_messages(
        &db,
        &FetchMessages {
            chat_id: Some(chat.rowid),
            ..Default::default()
        },
        &ContactIndex::empty(),
    )
    .unwrap();
    assert_eq!(messages.len(), 1);
}

fn talkative(db: &Connection) -> i64 {
    let chat = one_to_one(db, 4, "+16175550147");
    for n in 0..12 {
        message_in(db, chat, 100 + n, 10 + n);
    }
    db.execute(
        "UPDATE message SET text = 'the needle' WHERE rowid = 106",
        [],
    )
    .unwrap();
    chat
}

fn found(db: &Connection, context: Context) -> Vec<Message> {
    let hits = fetch_messages(
        db,
        &FetchMessages {
            query: Some("needle"),
            ..Default::default()
        },
        &ContactIndex::empty(),
    )
    .unwrap();
    with_context(db, hits, context, &ContactIndex::empty()).unwrap()
}

#[test]
fn a_hit_comes_back_inside_its_conversation() {
    let db = fixture();
    talkative(&db);

    let out = found(
        &db,
        Context {
            before: 2,
            after: 3,
        },
    );
    let rowids: Vec<i64> = out.iter().map(|message| message.rowid).collect();
    assert_eq!(rowids, [104, 105, 106, 107, 108, 109], "{rowids:?}");

    let hits: Vec<i64> = out
        .iter()
        .filter(|message| message.matched)
        .map(|message| message.rowid)
        .collect();
    assert_eq!(hits, [106]);
    assert!(out.iter().all(|message| message.group == Some(0)));
}

#[test]
fn no_context_asked_for_changes_nothing() {
    let db = fixture();
    talkative(&db);

    let out = found(&db, Context::default());
    assert_eq!(out.len(), 1);
    assert!(out[0].matched && out[0].group.is_none());
}

#[test]
fn a_window_shows_a_reaction_on_its_target_not_as_a_row() {
    let db = fixture();
    let chat = talkative(&db);
    db.execute(
        "INSERT INTO message (rowid, guid, text, is_from_me, handle_id,
             associated_message_type, associated_message_guid, date, service)
         VALUES (200, 'react', 'Liked \"the needle\"', 0, 4, 2000, 'p:0/g106', ?, 'iMessage')",
        [at(23)],
    )
    .unwrap();
    db.execute(
        "INSERT INTO chat_message_join (chat_id, message_id, message_date) VALUES (?, 200, ?)",
        (chat, at(23)),
    )
    .unwrap();

    let bare = found(&db, Context::default());
    assert_eq!(bare.len(), 1, "{bare:?}");
    assert_eq!(bare[0].tapbacks.len(), 1, "{:?}", bare[0].tapbacks);

    let out = found(
        &db,
        Context {
            before: 0,
            after: 8,
        },
    );
    assert!(
        !out.iter().any(|message| message.rowid == 200),
        "{:?}",
        out.iter().map(|m| m.rowid).collect::<Vec<_>>()
    );
    let hit = out.iter().find(|message| message.rowid == 106).unwrap();
    assert_eq!(hit.tapbacks[0].symbol, "❤️");
}

#[test]
fn windows_that_meet_become_one_run() {
    let db = fixture();
    talkative(&db);
    db.execute(
        "UPDATE message SET text = 'the needle' WHERE rowid = 109",
        [],
    )
    .unwrap();

    let out = found(
        &db,
        Context {
            before: 2,
            after: 2,
        },
    );
    let rowids: Vec<i64> = out.iter().map(|message| message.rowid).collect();
    assert_eq!(
        rowids,
        [104, 105, 106, 107, 108, 109, 110, 111],
        "{rowids:?}"
    );
    assert!(out.iter().all(|message| message.group == Some(0)));

    let hits: Vec<i64> = out
        .iter()
        .filter(|message| message.matched)
        .map(|message| message.rowid)
        .collect();
    assert_eq!(hits, [106, 109]);
}

#[test]
fn a_negative_width_is_no_window_rather_than_the_whole_chat() {
    let db = fixture();
    talkative(&db);

    let out = found(
        &db,
        Context {
            before: -1,
            after: 1,
        },
    );
    let rowids: Vec<i64> = out.iter().map(|message| message.rowid).collect();
    assert_eq!(rowids, [106, 107], "{rowids:?}");
}

#[test]
fn a_hit_inside_another_hits_window_keeps_its_marker() {
    let db = fixture();
    talkative(&db);
    db.execute(
        "UPDATE message SET text = 'the needle' WHERE rowid = 107",
        [],
    )
    .unwrap();

    let out = found(
        &db,
        Context {
            before: 2,
            after: 2,
        },
    );
    let rowids: Vec<i64> = out.iter().map(|message| message.rowid).collect();
    assert_eq!(rowids, [104, 105, 106, 107, 108, 109], "{rowids:?}");

    let hits: Vec<i64> = out
        .iter()
        .filter(|message| message.matched)
        .map(|message| message.rowid)
        .collect();
    assert_eq!(hits, [106, 107], "{hits:?}");
}

#[test]
fn windows_that_only_touch_become_one_run() {
    let db = fixture();
    talkative(&db);
    db.execute(
        "UPDATE message SET text = 'the needle' WHERE rowid = 109",
        [],
    )
    .unwrap();

    let out = found(
        &db,
        Context {
            before: 1,
            after: 1,
        },
    );
    let rowids: Vec<i64> = out.iter().map(|message| message.rowid).collect();
    assert_eq!(rowids, [105, 106, 107, 108, 109, 110], "{rowids:?}");
    assert!(out.iter().all(|message| message.group == Some(0)));
}

#[test]
fn windows_with_a_gap_stay_separate_runs() {
    let db = fixture();
    talkative(&db);
    db.execute(
        "UPDATE message SET text = 'the needle' WHERE rowid = 111",
        [],
    )
    .unwrap();

    let out = found(
        &db,
        Context {
            before: 1,
            after: 1,
        },
    );
    let rowids: Vec<i64> = out.iter().map(|message| message.rowid).collect();
    assert_eq!(rowids, [105, 106, 107, 110, 111], "{rowids:?}");
    let groups: Vec<Option<i64>> = out.iter().map(|message| message.group).collect();
    assert_eq!(
        groups,
        [Some(0), Some(0), Some(0), Some(1), Some(1)],
        "{rowids:?}"
    );
}

#[test]
fn a_window_never_reaches_into_another_conversation() {
    let db = fixture();
    let chat = talkative(&db);
    let other = one_to_one(&db, 5, "+16175550148");
    for n in 0..4 {
        message_in(&db, other, 300 + n, 40 + n);
    }
    db.execute(
        "UPDATE message SET text = 'the needle' WHERE rowid = 301",
        [],
    )
    .unwrap();

    let out = found(
        &db,
        Context {
            before: 9,
            after: 9,
        },
    );
    let strayed: Vec<i64> = out
        .iter()
        .filter(|message| message.chat_id != chat && message.chat_id != other)
        .map(|message| message.rowid)
        .collect();
    assert!(strayed.is_empty(), "{strayed:?}");

    for group in [Some(0), Some(1)] {
        let chats: BTreeSet<i64> = out
            .iter()
            .filter(|message| message.group == group)
            .map(|message| message.chat_id)
            .collect();
        assert_eq!(chats.len(), 1, "run {group:?} spans {chats:?}");
    }
}

#[test]
fn searches_message_bodies() {
    let db = fixture();
    let messages = fetch_messages(
        &db,
        &FetchMessages {
            query: Some("deploy"),
            ..Default::default()
        },
        &ContactIndex::empty(),
    )
    .unwrap();
    assert_eq!(bodies(&messages), ["deploy is green"]);
}

#[test]
fn from_is_what_they_sent_and_with_is_the_exchange() {
    let db = fixture();
    let contacts = ContactIndex::empty();
    let person = resolve_person(&db, "+13105551234", &contacts).unwrap();

    let ask = |sender| {
        fetch_messages(
            &db,
            &FetchMessages {
                person: Some(PersonFilter {
                    person: &person,
                    sender,
                }),
                ..Default::default()
            },
            &contacts,
        )
        .unwrap()
    };

    assert_eq!(bodies(&ask(Sender::Only)), ["are you around later"]);
    assert_eq!(
        bodies(&ask(Sender::BothWays)),
        ["are you around later", "after 6, yeah"]
    );
}

#[test]
fn a_message_i_sent_is_never_reported_as_one_they_sent() {
    let db = fixture();
    let contacts = ContactIndex::empty();
    let person = resolve_person(&db, "+13105551234", &contacts).unwrap();
    let mine: i64 = db
        .query_row(
            "SELECT COUNT(*) FROM message WHERE is_from_me = 1 AND handle_id = 1",
            [],
            |row| row.get(0),
        )
        .unwrap();
    assert!(mine > 0, "the fixture no longer covers the case");

    let messages = fetch_messages(
        &db,
        &FetchMessages {
            person: Some(PersonFilter {
                person: &person,
                sender: Sender::Only,
            }),
            ..Default::default()
        },
        &contacts,
    )
    .unwrap();
    assert!(
        messages.iter().all(|message| !message.is_from_me),
        "a message I sent came back from --from"
    );
}

#[test]
fn with_does_not_drag_in_my_half_of_a_group_chat() {
    let db = fixture();
    db.execute(
        "INSERT INTO message (rowid, guid, text, is_from_me, handle_id,
             associated_message_type, date, service)
         VALUES (6, 'm6', 'shipping now', 1, 2, 0, ?, 'iMessage')",
        (at(5),),
    )
    .unwrap();
    db.execute(
        "INSERT INTO chat_message_join (chat_id, message_id, message_date)
         VALUES (2, 6, ?)",
        (at(5),),
    )
    .unwrap();

    let contacts = ContactIndex::empty();
    let person = resolve_person(&db, "someone@example.com", &contacts).unwrap();
    let messages = fetch_messages(
        &db,
        &FetchMessages {
            person: Some(PersonFilter {
                person: &person,
                sender: Sender::BothWays,
            }),
            ..Default::default()
        },
        &contacts,
    )
    .unwrap();
    assert_eq!(bodies(&messages), ["deploy is green"]);
}

#[test]
fn a_contact_is_searched_by_every_address_they_use() {
    let db = fixture();
    let contacts = ContactIndex::for_test([
        ("+13105551234", "source:7", "Sam Rivera"),
        ("someone@example.com", "source:7", "Sam Rivera"),
    ]);

    for spec in [
        "Sam",
        "+13105551234",
        "someone@example.com",
        "(310) 555-1234",
    ] {
        let person = resolve_person(&db, spec, &contacts).unwrap();
        assert_eq!(person.name, "Sam Rivera", "resolving {spec}");
        assert_eq!(person.handle_ids.len(), 2, "resolving {spec}: {person:?}");

        let messages = fetch_messages(
            &db,
            &FetchMessages {
                person: Some(PersonFilter {
                    person: &person,
                    sender: Sender::Only,
                }),
                ..Default::default()
            },
            &contacts,
        )
        .unwrap();
        assert_eq!(
            bodies(&messages),
            ["are you around later", "deploy is green"],
            "resolving {spec}"
        );
    }
}

fn one_to_one(db: &Connection, n: i64, address: &str) -> i64 {
    db.execute(
        "INSERT INTO handle (rowid, id) VALUES (?, ?)",
        (n, address),
    )
    .unwrap();
    db.execute(
        "INSERT INTO chat (rowid, guid, chat_identifier, display_name, is_filtered)
         VALUES (?, ?, ?, '', 0)",
        (n, format!("iMessage;-;{address}"), address),
    )
    .unwrap();
    db.execute(
        "INSERT INTO chat_handle_join (chat_id, handle_id) VALUES (?, ?)",
        (n, n),
    )
    .unwrap();
    n
}

#[test]
fn a_conversation_is_shown_as_the_nickname_and_found_by_either_name() {
    let db = fixture();
    let rowid = one_to_one(&db, 4, "+16175550147");
    let contacts = ContactIndex::for_test([("+16175550147", "source:7", "Robin Adeyemi")])
        .nicknamed("+16175550147", "Rocket");

    for spec in ["rocket", "adeyemi"] {
        let chats = fetch_chats(&db, Some(spec), 30, &contacts, false).unwrap();
        let names: Vec<&str> = chats.iter().map(|chat| chat.name.as_str()).collect();
        assert_eq!(names, ["Rocket"], "searching {spec}");
    }

    for spec in ["Rocket", "Robin Adeyemi"] {
        let chat = resolve_chat(&db, spec, &contacts).unwrap();
        assert_eq!(
            (chat.rowid, chat.name.as_str()),
            (rowid, "Rocket"),
            "{spec}"
        );
    }
}

#[test]
fn a_person_is_shown_as_the_nickname_and_found_by_either_name() {
    let db = fixture();
    let contacts = ContactIndex::for_test([
        ("+13105551234", "source:7", "Robin Adeyemi"),
        ("someone@example.com", "source:7", "Robin Adeyemi"),
    ])
    .nicknamed("+13105551234", "Rocket")
    .nicknamed("someone@example.com", "Rocket");

    for spec in ["rocket", "robin adeyemi"] {
        let person = resolve_person(&db, spec, &contacts).unwrap();
        assert_eq!(person.name, "Rocket", "resolving {spec}: {person:?}");
        assert_eq!(person.handle_ids.len(), 2, "resolving {spec}: {person:?}");
    }
}

#[test]
fn an_exact_nickname_settles_the_tie_a_fragment_creates() {
    let db = fixture();
    let rowid = one_to_one(&db, 4, "+16175550147");
    one_to_one(&db, 5, "rocketry@example.com");
    let contacts = ContactIndex::for_test([("+16175550147", "source:7", "Robin Adeyemi")])
        .nicknamed("+16175550147", "Rocket");

    let matched = fetch_chats(&db, Some("rocket"), 30, &contacts, false).unwrap();
    assert_eq!(matched.len(), 2, "{matched:?}");

    let chat = resolve_chat(&db, "rocket", &contacts).unwrap();
    assert_eq!(chat.rowid, rowid, "{chat:?}");
    let person = resolve_person(&db, "rocket", &contacts).unwrap();
    assert_eq!(person.handles, ["+16175550147"], "{person:?}");
}

fn room(db: &Connection, rowid: i64, members: &[i64]) {
    db.execute(
        "INSERT INTO chat (rowid, guid, chat_identifier, display_name, is_filtered)
         VALUES (?, ?, ?, '', 0)",
        (
            rowid,
            format!("iMessage;+;chat{rowid}"),
            format!("chat{rowid}")),
    )
    .unwrap();
    for member in members {
        db.execute(
            "INSERT INTO chat_handle_join (chat_id, handle_id) VALUES (?, ?)",
            (rowid, member),
        )
        .unwrap();
    }
}

fn also_in_an_unnamed_group(db: &Connection, member: i64) {
    db.execute(
        "INSERT INTO handle (rowid, id) VALUES (9, '+16175550148')",
        [],
    )
    .unwrap();
    db.execute(
        "INSERT INTO chat (rowid, guid, chat_identifier, display_name, is_filtered)
         VALUES (9, 'iMessage;+;chat9x', 'chat9x', '', 0)",
        [],
    )
    .unwrap();
    db.execute(
        "INSERT INTO chat_handle_join (chat_id, handle_id) VALUES (9, ?), (9, 9)",
        [member],
    )
    .unwrap();
}

#[test]
fn a_whole_name_still_picks_the_one_to_one() {
    let db = fixture();
    let alone = one_to_one(&db, 4, "+16175550147");
    also_in_an_unnamed_group(&db, 4);
    let contacts = ContactIndex::for_test([
        ("+16175550147", "source:7", "Robin Adeyemi"),
        ("+16175550148", "source:8", "Kit Alvarez"),
    ]);

    let chat = resolve_chat(&db, "Robin Adeyemi", &contacts).unwrap();
    assert_eq!(chat.rowid, alone, "{chat:?}");
}

#[test]
fn a_whole_nickname_still_picks_the_one_to_one() {
    let db = fixture();
    let alone = one_to_one(&db, 4, "+16175550147");
    also_in_an_unnamed_group(&db, 4);
    let contacts = ContactIndex::for_test([
        ("+16175550147", "source:7", "Robin Adeyemi"),
        ("+16175550148", "source:8", "Kit Alvarez"),
    ])
    .nicknamed("+16175550147", "Rocket");

    let matched = fetch_chats(&db, Some("rocket"), 30, &contacts, false).unwrap();
    assert_eq!(matched.len(), 2, "{matched:?}");

    let chat = resolve_chat(&db, "Rocket", &contacts).unwrap();
    assert_eq!(chat.rowid, alone, "{chat:?}");
}

fn message_in(db: &Connection, chat: i64, rowid: i64, minutes: i64) {
    let date = at(minutes);
    db.execute(
        "INSERT INTO message (rowid, guid, text, is_from_me, handle_id, date, service)
         VALUES (?, ?, 'hi', 0, ?, ?, 'iMessage')",
        (rowid, format!("g{rowid}"), chat, date),
    )
    .unwrap();
    db.execute(
        "INSERT INTO chat_message_join (chat_id, message_id, message_date) VALUES (?, ?, ?)",
        (chat, rowid, date),
    )
    .unwrap();
}

#[test]
fn two_conversations_with_one_person_resolve_to_the_latest() {
    let db = fixture();
    let older = one_to_one(&db, 4, "+16175550147");
    let newer = one_to_one(&db, 5, "robin@example.com");
    message_in(&db, older, 10, 5);
    message_in(&db, newer, 11, 90);

    let contacts = ContactIndex::for_test([
        ("+16175550147", "source:7", "Robin Adeyemi"),
        ("robin@example.com", "source:7", "Robin Adeyemi"),
    ])
    .nicknamed("+16175550147", "Rocket")
    .nicknamed("robin@example.com", "Rocket");

    for spec in ["Robin Adeyemi", "Rocket", "adeyemi", "robin"] {
        let chat = resolve_chat(&db, spec, &contacts).unwrap();
        assert_eq!(chat.rowid, newer, "resolving {spec}: {chat:?}");
    }
}

#[test]
fn both_of_a_persons_threads_are_read_as_one_conversation() {
    let db = fixture();
    let phone = one_to_one(&db, 4, "+16175550147");
    let email = one_to_one(&db, 5, "robin@example.com");
    message_in(&db, phone, 10, 5);
    message_in(&db, email, 11, 6);
    message_in(&db, phone, 12, 7);
    message_in(&db, email, 13, 90);
    let contacts = ContactIndex::for_test([
        ("+16175550147", "source:7", "Robin Adeyemi"),
        ("robin@example.com", "source:7", "Robin Adeyemi"),
    ]);

    let threads = resolve_conversation(&db, "Robin", &contacts, false).unwrap();
    let rowids: Vec<i64> = threads.iter().map(|chat| chat.rowid).collect();
    assert_eq!(rowids, [email, phone], "most recently active first");

    let messages = fetch_conversation(&db, &threads, None, 50, false, &contacts).unwrap();
    let ids: Vec<i64> = messages.iter().map(|message| message.rowid).collect();
    assert_eq!(ids, [10, 11, 12, 13], "one transcript in arrival order");

    let reply = ReadReply::new(threads, messages);
    assert_eq!(reply.chat.rowid, email);
    assert_eq!(reply.merged, [phone]);
}

#[test]
fn the_newest_are_taken_across_both_threads() {
    let db = fixture();
    let phone = one_to_one(&db, 4, "+16175550147");
    let email = one_to_one(&db, 5, "robin@example.com");
    for rowid in [10, 12, 14] {
        message_in(&db, phone, rowid, rowid);
    }
    for rowid in [11, 13, 15] {
        message_in(&db, email, rowid, rowid);
    }
    let contacts = ContactIndex::for_test([
        ("+16175550147", "source:7", "Robin Adeyemi"),
        ("robin@example.com", "source:7", "Robin Adeyemi"),
    ]);

    let threads = resolve_conversation(&db, "Robin", &contacts, false).unwrap();
    let messages = fetch_conversation(&db, &threads, None, 3, false, &contacts).unwrap();
    let ids: Vec<i64> = messages.iter().map(|message| message.rowid).collect();
    assert_eq!(ids, [13, 14, 15]);
}

#[test]
fn a_rowid_names_one_thread_and_never_merges() {
    let db = fixture();
    let phone = one_to_one(&db, 4, "+16175550147");
    let email = one_to_one(&db, 5, "robin@example.com");
    message_in(&db, phone, 10, 5);
    message_in(&db, email, 11, 90);
    let contacts = ContactIndex::for_test([
        ("+16175550147", "source:7", "Robin Adeyemi"),
        ("robin@example.com", "source:7", "Robin Adeyemi"),
    ]);

    let threads = resolve_conversation(&db, &phone.to_string(), &contacts, false).unwrap();
    let rowids: Vec<i64> = threads.iter().map(|chat| chat.rowid).collect();
    assert_eq!(rowids, [phone], "a rowid is a thread, not a person");
    let messages = fetch_conversation(&db, &threads, None, 50, false, &contacts).unwrap();
    let ids: Vec<i64> = messages.iter().map(|message| message.rowid).collect();
    assert_eq!(ids, [10]);
}

#[test]
fn rooms_cannot_crowd_a_persons_own_thread_out_of_the_answer() {
    let db = fixture();
    let phone = one_to_one(&db, 4, "+16175550147");
    let email = one_to_one(&db, 5, "robin@example.com");
    message_in(&db, phone, 10, 5);
    message_in(&db, email, 11, 90);
    for i in 0..CHAT_MATCH_SCAN + 5 {
        let room = 200 + i;
        db.execute(
            "INSERT INTO chat (rowid, guid, chat_identifier, display_name, is_filtered)
             VALUES (?, ?, ?, '', 0)",
            (room, format!("iMessage;+;room{i}"), format!("room{i}")),
        )
        .unwrap();
        db.execute(
            "INSERT INTO chat_handle_join (chat_id, handle_id) VALUES (?, 1), (?, 4)",
            (room, room),
        )
        .unwrap();
        message_in(&db, room, 1000 + i, 10 + i);
    }
    let contacts = ContactIndex::for_test([
        ("+16175550147", "source:7", "Robin Adeyemi"),
        ("robin@example.com", "source:7", "Robin Adeyemi"),
    ]);

    let threads = resolve_conversation(&db, "Robin", &contacts, false).unwrap();
    let rowids: Vec<i64> = threads.iter().map(|chat| chat.rowid).collect();
    assert_eq!(rowids, [email, phone], "both threads, however many rooms");
}

#[test]
fn an_address_keeps_the_send_target_when_threads_merge() {
    let db = fixture();
    let phone = one_to_one(&db, 4, "+16175550147");
    let email = one_to_one(&db, 5, "robin@example.com");
    message_in(&db, phone, 10, 5);
    message_in(&db, email, 11, 90);
    room(&db, 20, &[4, 5]);
    let contacts = ContactIndex::for_test([
        ("+16175550147", "source:7", "Robin Adeyemi"),
        ("robin@example.com", "source:7", "Robin Adeyemi"),
    ]);

    let by_phone = resolve_conversation(&db, "+16175550147", &contacts, false).unwrap();
    let rowids: Vec<i64> = by_phone.iter().map(|chat| chat.rowid).collect();
    assert_eq!(rowids, [phone, email], "the typed address leads");

    let by_email = resolve_conversation(&db, "robin@example.com", &contacts, false).unwrap();
    let rowids: Vec<i64> = by_email.iter().map(|chat| chat.rowid).collect();
    assert_eq!(
        rowids,
        [email, phone],
        "either address, its own thread first"
    );

    let by_part = resolve_conversation(&db, "+1617555014", &contacts, false).unwrap();
    let rowids: Vec<i64> = by_part.iter().map(|chat| chat.rowid).collect();
    assert_eq!(rowids, [phone, email], "a partial number still aims");

    message_in(&db, phone, 12, 200);
    for spec in ["robin@example", "robin@"] {
        let threads = resolve_conversation(&db, spec, &contacts, false).unwrap();
        let rowids: Vec<i64> = threads.iter().map(|chat| chat.rowid).collect();
        assert_eq!(rowids, [email, phone], "a partial email still aims: {spec}");
    }
}

#[test]
fn a_filtered_thread_stays_out_of_the_merge_unless_asked() {
    let db = fixture();
    let known = one_to_one(&db, 4, "+16175550147");
    let filtered = one_to_one(&db, 5, "robin@example.com");
    db.execute(
        "UPDATE chat SET is_filtered = 1 WHERE rowid = ?",
        [filtered],
    )
    .unwrap();
    message_in(&db, filtered, 10, 5);
    message_in(&db, known, 11, 90);
    let contacts = ContactIndex::for_test([
        ("+16175550147", "source:7", "Robin Adeyemi"),
        ("robin@example.com", "source:7", "Robin Adeyemi"),
    ]);

    let threads = resolve_conversation(&db, "Robin", &contacts, false).unwrap();
    assert_eq!(
        threads.iter().map(|chat| chat.rowid).collect::<Vec<_>>(),
        [known],
        "the filtered half is left out"
    );

    let asked = resolve_conversation(&db, "Robin", &contacts, true).unwrap();
    assert_eq!(
        asked.iter().map(|chat| chat.rowid).collect::<Vec<_>>(),
        [known, filtered],
        "--unknown lets it in"
    );
}

#[test]
fn a_filtered_thread_does_not_merge_the_known_one_into_itself() {
    let db = fixture();
    let known = one_to_one(&db, 4, "+16175550147");
    let filtered = one_to_one(&db, 5, "robin@example.com");
    db.execute(
        "UPDATE chat SET is_filtered = 1 WHERE rowid = ?",
        [filtered],
    )
    .unwrap();
    message_in(&db, known, 10, 5);
    message_in(&db, filtered, 11, 90);
    let contacts = ContactIndex::for_test([
        ("+16175550147", "source:7", "Robin Adeyemi"),
        ("robin@example.com", "source:7", "Robin Adeyemi"),
    ]);

    let threads = resolve_conversation(&db, "Robin", &contacts, false).unwrap();
    assert_eq!(
        threads.iter().map(|chat| chat.rowid).collect::<Vec<_>>(),
        [filtered],
        "the known thread stays out of a filtered conversation"
    );

    let asked = resolve_conversation(&db, "Robin", &contacts, true).unwrap();
    assert_eq!(
        asked.iter().map(|chat| chat.rowid).collect::<Vec<_>>(),
        [filtered, known],
        "--unknown merges in both directions"
    );
}

#[test]
fn a_person_is_reached_past_the_resolvers_scan_window() {
    let db = fixture();
    let theirs = one_to_one(&db, 4, "+16175550147");
    message_in(&db, theirs, 10, 5);
    many_chats(&db, NAME_SEARCH_SCAN + 200);
    db.execute_batch("BEGIN").unwrap();
    for i in 0..NAME_SEARCH_SCAN + 200 {
        message_in(&db, 100 + i, 10_000 + i, 10 + i);
    }
    db.execute_batch("COMMIT").unwrap();
    let contacts = ContactIndex::for_test([("+16175550147", "source:7", "Robin Adeyemi")]);

    let threads = resolve_conversation(&db, "Robin", &contacts, false).unwrap();
    let rowids: Vec<i64> = threads.iter().map(|chat| chat.rowid).collect();
    assert_eq!(rowids, [theirs], "found past the entry scan");
}

#[test]
fn an_address_reaches_every_thread_and_leads_with_its_own() {
    let db = fixture();
    let phone = one_to_one(&db, 4, "+16175550147");
    let email = one_to_one(&db, 5, "robin@example.com");
    message_in(&db, phone, 10, 5);
    message_in(&db, email, 11, 90);
    let contacts = ContactIndex::for_test([
        ("+16175550147", "source:7", "Robin Adeyemi"),
        ("robin@example.com", "source:7", "Robin Adeyemi"),
    ]);

    let by_phone = resolve_conversation(&db, "+16175550147", &contacts, false).unwrap();
    let rowids: Vec<i64> = by_phone.iter().map(|chat| chat.rowid).collect();
    assert_eq!(rowids, [phone, email], "the typed address leads");

    let by_email = resolve_conversation(&db, "robin@example.com", &contacts, false).unwrap();
    let rowids: Vec<i64> = by_email.iter().map(|chat| chat.rowid).collect();
    assert_eq!(rowids, [email, phone], "either address, the whole answer");
}

#[test]
fn a_first_name_shared_by_two_contacts_errors() {
    let db = fixture();
    let older = one_to_one(&db, 4, "+16175550147");
    let newer = one_to_one(&db, 5, "+16175550148");
    message_in(&db, older, 10, 5);
    message_in(&db, newer, 11, 90);
    let contacts = ContactIndex::for_test([
        ("+16175550147", "source:7", "Robin Adeyemi"),
        ("+16175550148", "source:9", "Robin Chen"),
    ]);

    let error = resolve_chat(&db, "robin", &contacts)
        .unwrap_err()
        .to_string();
    assert!(error.contains("2 people match"), "{error}");
}

#[test]
fn an_unknown_number_merges_its_own_threads() {
    let db = fixture();
    db.execute(
        "INSERT INTO handle (rowid, id) VALUES (6, '+19995551212')",
        [],
    )
    .unwrap();
    for (chat, minutes) in [(30, 5_i64), (31, 90)] {
        db.execute(
            "INSERT INTO chat (rowid, guid, chat_identifier, display_name, is_filtered)
             VALUES (?, ?, '+19995551212', '', 0)",
            (chat, format!("chat{chat}")),
        )
        .unwrap();
        db.execute(
            "INSERT INTO chat_handle_join (chat_id, handle_id) VALUES (?, 6)",
            [chat],
        )
        .unwrap();
        message_in(&db, chat, 40 + chat, minutes);
    }

    let threads =
        resolve_conversation(&db, "+19995551212", &ContactIndex::empty(), false).unwrap();
    let rowids: Vec<i64> = threads.iter().map(|chat| chat.rowid).collect();
    assert_eq!(rowids, [31, 30], "one number, one conversation");
}

#[test]
fn a_negative_limit_does_not_fetch_the_whole_conversation() {
    let db = fixture();
    let phone = one_to_one(&db, 4, "+16175550147");
    let email = one_to_one(&db, 5, "robin@example.com");
    for rowid in [10, 11, 12] {
        message_in(&db, phone, rowid, rowid);
    }
    for rowid in [13, 14, 15] {
        message_in(&db, email, rowid, rowid);
    }
    let contacts = ContactIndex::for_test([
        ("+16175550147", "source:7", "Robin Adeyemi"),
        ("robin@example.com", "source:7", "Robin Adeyemi"),
    ]);

    let threads = resolve_conversation(&db, "Robin", &contacts, false).unwrap();
    let messages = fetch_conversation(&db, &threads, None, -1, false, &contacts).unwrap();
    assert!(messages.is_empty(), "{} returned", messages.len());
}

#[test]
fn the_limit_agrees_with_the_order_each_thread_was_fetched_in() {
    let db = fixture();
    let phone = one_to_one(&db, 4, "+16175550147");
    let email = one_to_one(&db, 5, "robin@example.com");
    message_in(&db, phone, 30, 1);
    message_in(&db, phone, 10, 80);
    message_in(&db, phone, 11, 81);
    message_in(&db, email, 20, 40);
    message_in(&db, email, 21, 41);
    let contacts = ContactIndex::for_test([
        ("+16175550147", "source:7", "Robin Adeyemi"),
        ("robin@example.com", "source:7", "Robin Adeyemi"),
    ]);

    let threads = resolve_conversation(&db, "Robin", &contacts, false).unwrap();
    let messages = fetch_conversation(&db, &threads, None, 2, false, &contacts).unwrap();
    let ids: Vec<i64> = messages.iter().map(|message| message.rowid).collect();
    assert_eq!(ids, [10, 11]);
}

#[test]
fn a_message_in_both_threads_appears_once() {
    let db = fixture();
    let phone = one_to_one(&db, 4, "+16175550147");
    let email = one_to_one(&db, 5, "robin@example.com");
    message_in(&db, phone, 10, 5);
    message_in(&db, email, 11, 90);
    db.execute(
        "INSERT INTO chat_message_join (chat_id, message_id, message_date)
         VALUES (?, 10, ?)",
        (email, at(5)),
    )
    .unwrap();
    let contacts = ContactIndex::for_test([
        ("+16175550147", "source:7", "Robin Adeyemi"),
        ("robin@example.com", "source:7", "Robin Adeyemi"),
    ]);

    let threads = resolve_conversation(&db, "Robin", &contacts, false).unwrap();
    let messages = fetch_conversation(&db, &threads, None, 50, false, &contacts).unwrap();
    let ids: Vec<i64> = messages.iter().map(|message| message.rowid).collect();
    assert_eq!(ids, [10, 11]);
}

#[test]
fn the_listing_matches_a_name_from_a_word_start_and_an_address_anywhere() {
    let db = fixture();
    let ana = one_to_one(&db, 4, "+16175550147");
    let dana = one_to_one(&db, 5, "+16175550148");
    message_in(&db, ana, 10, 5);
    message_in(&db, dana, 11, 6);
    let contacts = ContactIndex::for_test([
        ("+16175550147", "source:1", "Ana Duarte"),
        ("+16175550148", "source:2", "Dana Reyes"),
    ]);

    let listed = |spec: &str| -> Vec<i64> {
        fetch_chats(&db, Some(spec), 30, &contacts, false)
            .unwrap()
            .iter()
            .map(|chat| chat.rowid)
            .collect()
    };
    assert_eq!(listed("ana"), [ana], "not the one it is spelled inside");
    assert_eq!(listed("dana"), [dana]);
    assert_eq!(listed("5550148"), [dana], "a fragment of a number");
    assert_eq!(listed("617555"), [dana, ana], "a fragment of both");
}

#[test]
fn a_room_the_person_is_in_does_not_beat_the_person() {
    let db = fixture();
    let alone = one_to_one(&db, 4, "+16175550147");
    message_in(&db, alone, 10, 5);
    also_in_an_unnamed_group(&db, 4);
    let contacts = ContactIndex::for_test([
        ("+16175550147", "source:7", "Robin Adeyemi"),
        ("+16175550148", "source:8", "Kit Alvarez"),
    ]);

    for spec in ["adeyemi", "robin", "Robin Adeyemi"] {
        let chat = resolve_chat(&db, spec, &contacts).unwrap();
        assert_eq!(chat.rowid, alone, "resolving {spec}");
    }
}

#[test]
fn several_names_reach_the_room_with_exactly_those_people() {
    let db = fixture();
    one_to_one(&db, 4, "+16175550147");
    one_to_one(&db, 5, "+16175550148");
    one_to_one(&db, 6, "+16175550149");
    room(&db, 20, &[4, 5]);
    room(&db, 21, &[4, 5, 6]);
    let contacts = ContactIndex::for_test([
        ("+16175550147", "source:1", "Ana Duarte"),
        ("+16175550148", "source:2", "Kit Alvarez"),
        ("+16175550149", "source:3", "Sam Oyelaran"),
    ]);

    let pair = resolve_conversations(
        &db,
        &["ana".to_string(), "kit".to_string()],
        &contacts,
        false,
    )
    .unwrap();
    assert_eq!(pair.len(), 1, "a room never merges");
    assert_eq!(pair[0].rowid, 20);

    let other_way = resolve_conversations(
        &db,
        &["kit".to_string(), "ana".to_string()],
        &contacts,
        false,
    )
    .unwrap();
    assert_eq!(other_way[0].rowid, 20);

    let trio = resolve_conversations(
        &db,
        &["ana".to_string(), "kit".to_string(), "sam".to_string()],
        &contacts,
        false,
    )
    .unwrap();
    assert_eq!(trio[0].rowid, 21);
}

#[test]
fn a_room_that_merely_contains_them_is_not_the_room() {
    let db = fixture();
    one_to_one(&db, 4, "+16175550147");
    one_to_one(&db, 5, "+16175550148");
    one_to_one(&db, 6, "+16175550149");
    room(&db, 21, &[4, 5, 6]);
    let contacts = ContactIndex::for_test([
        ("+16175550147", "source:1", "Ana Duarte"),
        ("+16175550148", "source:2", "Kit Alvarez"),
        ("+16175550149", "source:3", "Sam Oyelaran"),
    ]);

    let error = resolve_conversations(
        &db,
        &["ana".to_string(), "kit".to_string()],
        &contacts,
        false,
    )
    .unwrap_err()
    .to_string();
    assert!(error.contains("no conversation with exactly"), "{error}");
    assert!(error.contains("Ana Duarte"), "it says who: {error}");
}

#[test]
fn a_room_counts_people_rather_than_addresses() {
    let db = fixture();
    one_to_one(&db, 4, "+16175550147");
    one_to_one(&db, 5, "robin@example.com");
    one_to_one(&db, 6, "+16175550149");
    room(&db, 20, &[4, 5, 6]);
    let contacts = ContactIndex::for_test([
        ("+16175550147", "source:7", "Robin Adeyemi"),
        ("robin@example.com", "source:7", "Robin Adeyemi"),
        ("+16175550149", "source:3", "Sam Oyelaran"),
    ]);

    let found = resolve_conversations(
        &db,
        &["robin".to_string(), "sam".to_string()],
        &contacts,
        false,
    )
    .unwrap();
    assert_eq!(found[0].rowid, 20, "two addresses, one member");
}

#[test]
fn a_name_that_resolves_to_nobody_is_an_error_not_a_fallback() {
    let db = fixture();
    one_to_one(&db, 4, "+16175550147");
    one_to_one(&db, 5, "+16175550148");
    room(&db, 20, &[4, 5]);
    let contacts = ContactIndex::for_test([
        ("+16175550147", "source:1", "Ana Duarte"),
        ("+16175550148", "source:2", "Kit Alvarez"),
    ]);

    let error = resolve_conversations(
        &db,
        &["ana".to_string(), "nobody-by-that-name".to_string()],
        &contacts,
        false,
    )
    .unwrap_err()
    .to_string();
    assert!(error.contains("no one matching"), "{error}");

    let twice = resolve_conversations(
        &db,
        &["ana".to_string(), "duarte".to_string()],
        &contacts,
        false,
    )
    .unwrap_err()
    .to_string();
    assert!(twice.contains("same person named twice"), "{twice}");
}

#[test]
fn duplicate_members_are_counted_by_identity_not_by_name() {
    let db = fixture();
    one_to_one(&db, 4, "+16175550147");
    one_to_one(&db, 5, "+16175550148");
    room(&db, 20, &[4, 5]);
    let contacts = ContactIndex::for_test([
        ("+16175550147", "source:1", "Ana Duarte"),
        ("+16175550148", "source:2", "Ana Duarte"),
    ]);

    let found = resolve_conversations(
        &db,
        &["+16175550147".to_string(), "+16175550148".to_string()],
        &contacts,
        false,
    )
    .unwrap();
    assert_eq!(found[0].rowid, 20, "same name, different records");
}

#[test]
fn one_person_named_two_ways_is_not_a_room() {
    let db = fixture();
    let alone = one_to_one(&db, 4, "+16175550147");
    one_to_one(&db, 5, "robin@example.com");
    message_in(&db, alone, 10, 5);
    let contacts = ContactIndex::for_test([
        ("+16175550147", "source:7", "Robin Adeyemi"),
        ("robin@example.com", "source:7", "Robin Adeyemi"),
    ]);

    for pair in [
        ["+16175550147", "adeyemi"],
        ["+16175550147", "robin@example.com"],
    ] {
        let error = resolve_conversations(
            &db,
            &[pair[0].to_string(), pair[1].to_string()],
            &contacts,
            false,
        )
        .unwrap_err()
        .to_string();
        assert!(
            error.contains("same person named twice"),
            "naming {pair:?}: {error}"
        );
    }
}

#[test]
fn a_conversation_with_no_activity_is_still_found_by_id() {
    let db = fixture();
    one_to_one(&db, 4, "+16175550147");
    one_to_one(&db, 5, "+16175550148");
    room(&db, 20, &[4, 5]);
    let contacts = ContactIndex::for_test([
        ("+16175550147", "source:1", "Ana Duarte"),
        ("+16175550148", "source:2", "Kit Alvarez"),
    ]);

    let found = resolve_conversations(
        &db,
        &["ana".to_string(), "kit".to_string()],
        &contacts,
        false,
    )
    .unwrap();
    assert_eq!(found[0].rowid, 20);

    let by_id = resolve_chat(&db, "20", &contacts).unwrap();
    assert_eq!(by_id.rowid, 20);
}

#[test]
fn a_room_named_after_a_person_keeps_the_ambiguity() {
    let db = fixture();
    let alone = one_to_one(&db, 4, "+16175550147");
    message_in(&db, alone, 10, 5);
    db.execute(
        "UPDATE chat SET display_name = 'Robin Adeyemi' WHERE rowid = 2",
        [],
    )
    .unwrap();
    let contacts = ContactIndex::for_test([("+16175550147", "source:7", "Robin Adeyemi")]);

    let error = resolve_chat(&db, "Robin Adeyemi", &contacts)
        .unwrap_err()
        .to_string();
    assert!(error.contains("2 chats match"), "{error}");

    let chat = resolve_chat(&db, "robin", &contacts).unwrap();
    assert_eq!(chat.rowid, alone);
}

#[test]
fn a_room_named_outright_beats_an_ambiguity_between_people() {
    let db = fixture();
    let one = one_to_one(&db, 4, "+16175550147");
    let two = one_to_one(&db, 5, "+16175550148");
    message_in(&db, one, 10, 5);
    message_in(&db, two, 11, 6);
    db.execute("UPDATE chat SET display_name = 'Robin' WHERE rowid = 2", [])
        .unwrap();
    let contacts = ContactIndex::for_test([
        ("+16175550147", "source:7", "Robin Adeyemi"),
        ("+16175550148", "source:9", "Robin Chen"),
    ]);

    let chat = resolve_chat(&db, "Robin", &contacts).unwrap();
    assert_eq!((chat.rowid, chat.is_group), (2, true), "the label wins");

    db.execute(
        "UPDATE chat SET display_name = 'Ship Room' WHERE rowid = 2",
        [],
    )
    .unwrap();
    let error = resolve_chat(&db, "Robin", &contacts)
        .unwrap_err()
        .to_string();
    assert!(error.contains("2 people match"), "{error}");
}

#[test]
fn a_named_room_still_resolves_to_the_room() {
    let db = fixture();
    let contacts = ContactIndex::empty();
    let chat = resolve_chat(&db, "Ship Room", &contacts).unwrap();
    assert_eq!(chat.rowid, 2);
    assert!(chat.is_group);
}

#[test]
fn somebody_you_only_share_a_room_with_still_finds_the_room() {
    let db = fixture();
    db.execute(
        "INSERT INTO handle (rowid, id) VALUES (4, '+16175550147')",
        [],
    )
    .unwrap();
    also_in_an_unnamed_group(&db, 4);
    let contacts = ContactIndex::for_test([
        ("+16175550147", "source:7", "Robin Adeyemi"),
        ("+16175550148", "source:8", "Kit Alvarez"),
    ]);

    let chat = resolve_chat(&db, "adeyemi", &contacts).unwrap();
    assert!(chat.is_group, "{chat:?}");
}

#[test]
fn two_people_sharing_a_name_stay_ambiguous() {
    let db = fixture();
    let older = one_to_one(&db, 4, "+16175550147");
    let newer = one_to_one(&db, 5, "robin@example.com");
    message_in(&db, older, 10, 5);
    message_in(&db, newer, 11, 90);

    let contacts = ContactIndex::for_test([
        ("+16175550147", "source:7", "Robin Adeyemi"),
        ("robin@example.com", "source:9", "Robin Adeyemi"),
    ]);

    let error = resolve_chat(&db, "Robin Adeyemi", &contacts)
        .unwrap_err()
        .to_string();
    assert!(error.contains("2 people match"), "{error}");
    assert!(error.contains("+16175550147"), "{error}");
}

#[test]
fn the_ambiguity_says_how_many_it_is_not_showing() {
    let db = fixture();
    for n in 0..10 {
        let chat = one_to_one(&db, 10 + n, &format!("+161755501{:02}", 40 + n));
        message_in(&db, chat, 100 + n, 5 + n);
    }
    let error = resolve_chat(&db, "+16175550", &ContactIndex::empty())
        .unwrap_err()
        .to_string();

    assert!(error.contains("10 chats match"), "{error}");
    assert!(error.contains("and 4 more"), "{error}");
    assert!(!error.contains("at least"), "{error}");
}

#[test]
fn a_named_group_is_no_more_findable_by_a_nickname_than_by_a_name() {
    let db = fixture();
    let contacts = ContactIndex::for_test([("someone@example.com", "source:7", "Kit Alvarez")])
        .nicknamed("someone@example.com", "Sparrow");

    for spec in ["sparrow", "Kit Alvarez"] {
        let chats = fetch_chats(&db, Some(spec), 30, &contacts, false).unwrap();
        assert!(chats.is_empty(), "searching {spec}: {chats:?}");
    }
}

type Attached = (
    i64,
    Option<&'static str>,
    Option<&'static str>,
    i64,
    bool,
    bool,
);

fn attach(db: &Connection, message: i64, rows: &[Attached]) {
    for (rowid, name, mime, bytes, hidden, on_disk) in rows {
        db.execute(
            "INSERT INTO attachment (ROWID, guid, filename, mime_type, transfer_name,
                 total_bytes, is_sticker, hide_attachment)
             VALUES (?, 'a', ?, ?, ?, ?, 0, ?)",
            (
                rowid,
                on_disk.then_some("/some/path"),
                mime,
                name,
                bytes,
                hidden),
        )
        .unwrap();
        db.execute(
            "INSERT INTO message_attachment_join (message_id, attachment_id) VALUES (?, ?)",
            (message, rowid),
        )
        .unwrap();
    }
}

fn body_of(db: &Connection, rowid: i64) -> String {
    let found = fetch_messages(db, &FetchMessages::default(), &ContactIndex::empty()).unwrap();
    found
        .into_iter()
        .find(|message| message.rowid == rowid)
        .unwrap_or_else(|| panic!("message {rowid} missing"))
        .body
        .unwrap_or_default()
}

#[test]
fn an_attachment_stands_in_for_its_placeholder() {
    let db = fixture();
    db.execute("UPDATE message SET text = char(65532) WHERE rowid = 1", [])
        .unwrap();
    attach(
        &db,
        1,
        &[(
            1,
            Some("IMG_1234.HEIC"),
            Some("image/heic"),
            3_355_443,
            false,
            true,
        )],
    );
    assert_eq!(body_of(&db, 1), "[#1 IMG_1234.HEIC, 3.2 MB]");
}

#[test]
fn several_attachments_land_in_the_order_their_placeholders_do() {
    let db = fixture();
    db.execute(
        "UPDATE message SET text = char(65532) || ' and ' || char(65532) WHERE rowid = 1",
        [],
    )
    .unwrap();
    attach(
        &db,
        1,
        &[
            (1, Some("first.png"), Some("image/png"), 2048, false, true),
            (
                2,
                Some("second.pdf"),
                Some("application/pdf"),
                1024,
                false,
                true,
            ),
        ],
    );
    assert_eq!(
        body_of(&db, 1),
        "[#1 first.png, 2.0 KB] and [#2 second.pdf, 1.0 KB]"
    );
}

#[test]
fn leftovers_on_either_side_still_render() {
    let db = fixture();
    db.execute(
        "UPDATE message SET text = char(65532) || char(65532) WHERE rowid = 1",
        [],
    )
    .unwrap();
    attach(
        &db,
        1,
        &[(1, Some("only.png"), Some("image/png"), 512, false, true)],
    );
    assert_eq!(body_of(&db, 1), "[#1 only.png, 512 B][attachment]");

    let db = fixture();
    db.execute("UPDATE message SET text = char(65532) WHERE rowid = 1", [])
        .unwrap();
    attach(
        &db,
        1,
        &[
            (1, Some("shown.png"), Some("image/png"), 512, false, true),
            (2, Some("spare.png"), Some("image/png"), 512, false, true),
        ],
    );
    assert_eq!(
        body_of(&db, 1),
        "[#1 shown.png, 512 B] [#2 spare.png, 512 B]"
    );
}

#[test]
fn hidden_attachments_are_left_out() {
    let db = fixture();
    db.execute("UPDATE message SET text = char(65532) WHERE rowid = 1", [])
        .unwrap();
    attach(&db, 1, &[(1, None, None, 0, true, true)]);

    assert_eq!(body_of(&db, 1), "[attachment]");
    let found = fetch_messages(&db, &FetchMessages::default(), &ContactIndex::empty()).unwrap();
    let message = found.iter().find(|m| m.rowid == 1).unwrap();
    assert!(message.attachments.is_empty(), "{:?}", message.attachments);
}

#[test]
fn an_attachment_with_no_file_says_so_rather_than_guessing_a_size() {
    let db = fixture();
    db.execute("UPDATE message SET text = char(65532) WHERE rowid = 1", [])
        .unwrap();
    attach(
        &db,
        1,
        &[(
            1,
            Some("gone.jpg"),
            Some("image/jpeg"),
            900_000,
            false,
            false,
        )],
    );
    assert_eq!(body_of(&db, 1), "[#1 gone.jpg, not downloaded]");
}

#[test]
fn sizes_read_the_way_a_person_thinks_of_them() {
    assert_eq!(human_bytes(0), "0 B");
    assert_eq!(human_bytes(1023), "1023 B");
    assert_eq!(human_bytes(1024), "1.0 KB");
    assert_eq!(human_bytes(1_048_576), "1.0 MB");
    assert_eq!(human_bytes(1_073_741_824), "1.0 GB");
    assert_eq!(human_bytes(i64::MAX), "8388608.0 TB");
}

#[test]
fn search_does_not_match_the_description_of_an_attachment() {
    let db = fixture();
    db.execute("UPDATE message SET text = char(65532) WHERE rowid = 1", [])
        .unwrap();
    attach(
        &db,
        1,
        &[(
            1,
            Some("invoice.pdf"),
            Some("application/pdf"),
            2048,
            false,
            true,
        )],
    );

    let found = fetch_messages(
        &db,
        &FetchMessages {
            query: Some("invoice"),
            ..Default::default()
        },
        &ContactIndex::empty(),
    )
    .unwrap();
    assert!(bodies(&found).is_empty(), "{:?}", bodies(&found));
}

#[test]
fn an_attachment_lookup_survives_more_rowids_than_sqlite_binds() {
    let db = fixture();
    let rowids: Vec<i64> = (1..=40_000).collect();
    let found = attachments_for(&db, &rowids).expect("a long rowid list");
    assert!(found.is_empty(), "{found:?}");

    attach(
        &db,
        1,
        &[(1, Some("late.png"), Some("image/png"), 512, false, true)],
    );
    let found = attachments_for(&db, &rowids).expect("a long rowid list");
    assert_eq!(found.get(&1).map(Vec::len), Some(1), "{found:?}");
}

#[test]
fn a_message_in_two_chats_shows_its_attachment_in_both() {
    let db = fixture();
    db.execute("UPDATE message SET text = char(65532) WHERE rowid = 1", [])
        .unwrap();
    attach(
        &db,
        1,
        &[(1, Some("photo.png"), Some("image/png"), 2048, false, true)],
    );
    db.execute(
        "INSERT INTO chat_message_join (chat_id, message_id, message_date)
         VALUES (2, 1, ?)",
        (at(0),),
    )
    .unwrap();

    let found = fetch_messages(&db, &FetchMessages::default(), &ContactIndex::empty()).unwrap();
    let copies: Vec<_> = found.iter().filter(|m| m.rowid == 1).collect();
    assert_eq!(copies.len(), 2, "the fixture must produce two copies");
    for copy in copies {
        assert_eq!(copy.body.as_deref(), Some("[#1 photo.png, 2.0 KB]"));
        assert_eq!(copy.attachments.len(), 1, "chat {}", copy.chat_id);
    }
}

#[test]
fn a_uti_stands_in_for_a_missing_mime_type_unless_it_says_nothing() {
    let db = fixture();
    db.execute(
        "UPDATE message SET text = char(65532) || char(65532) WHERE rowid = 1",
        [],
    )
    .unwrap();
    for (rowid, uti) in [(1, "com.apple.coreaudio-format"), (2, "dyn.age81a8dr")] {
        db.execute(
            "INSERT INTO attachment (ROWID, guid, filename, uti, mime_type,
                 transfer_name, total_bytes, is_sticker, hide_attachment)
             VALUES (?, 'a', '/some/path', ?, NULL, NULL, 0, 0, 0)",
            (rowid, uti),
        )
        .unwrap();
        db.execute(
            "INSERT INTO message_attachment_join (message_id, attachment_id) VALUES (1, ?)",
            (rowid,),
        )
        .unwrap();
    }

    assert_eq!(
        body_of(&db, 1),
        "[#1 com.apple.coreaudio-format][#2 attachment]"
    );

    let found = fetch_messages(&db, &FetchMessages::default(), &ContactIndex::empty()).unwrap();
    let message = found.iter().find(|m| m.rowid == 1).unwrap();
    assert_eq!(message.attachments[0].mime_type, None);
    assert_eq!(
        message.attachments[0].uti.as_deref(),
        Some("com.apple.coreaudio-format")
    );
}

#[test]
fn a_rowid_asked_for_twice_is_answered_once() {
    let db = fixture();
    attach(
        &db,
        1,
        &[(1, Some("one.png"), Some("image/png"), 512, false, true)],
    );

    let mut rowids: Vec<i64> = (2..=ATTACHMENT_BATCH as i64).collect();
    rowids.insert(0, 1);
    rowids.push(1);
    assert!(
        rowids.len() > ATTACHMENT_BATCH,
        "the pair must straddle a batch boundary"
    );

    let found = attachments_for(&db, &rowids).unwrap();
    assert_eq!(found.get(&1).map(Vec::len), Some(1), "{found:?}");

    let found = attachments_for(&db, &[1, 1, 1]).unwrap();
    assert_eq!(found.get(&1).map(Vec::len), Some(1), "{found:?}");
}

#[test]
fn a_reply_carries_the_message_it_answers() {
    let db = fixture();
    db.execute(
        "INSERT INTO message (rowid, guid, text, is_from_me, handle_id,
             associated_message_type, date, service, thread_originator_guid)
         VALUES (20, 'm20', 'yes, that works', 1, 1, 0, ?, 'iMessage', 'm1')",
        (at(9),),
    )
    .unwrap();
    db.execute(
        "INSERT INTO chat_message_join (chat_id, message_id, message_date)
         VALUES (1, 20, ?)",
        (at(9),),
    )
    .unwrap();

    let found = fetch_messages(&db, &FetchMessages::default(), &ContactIndex::empty()).unwrap();
    let reply = found.iter().find(|m| m.rowid == 20).expect("the reply");
    let answering = reply.reply_to.as_ref().expect("what it answers");
    assert_eq!(answering.rowid, 1);
    assert_eq!(answering.excerpt.as_deref(), Some("are you around later"));

    let other = found
        .iter()
        .find(|m| m.rowid == 2)
        .expect("an ordinary one");
    assert!(other.reply_to.is_none());
}

#[test]
fn a_reply_finds_an_originator_in_another_conversation() {
    let db = fixture();
    db.execute(
        "INSERT INTO message (rowid, guid, text, is_from_me, handle_id,
             associated_message_type, date, service, thread_originator_guid)
         VALUES (21, 'm21', 'across the room', 0, 1, 0, ?, 'iMessage', 'm3')",
        (at(9),),
    )
    .unwrap();
    db.execute(
        "INSERT INTO chat_message_join (chat_id, message_id, message_date)
         VALUES (1, 21, ?)",
        (at(9),),
    )
    .unwrap();

    let found = fetch_messages(
        &db,
        &FetchMessages {
            chat_id: Some(1),
            ..Default::default()
        },
        &ContactIndex::empty(),
    )
    .unwrap();
    let reply = found.iter().find(|m| m.rowid == 21).expect("the reply");
    let answering = reply.reply_to.as_ref().expect("what it answers");
    assert_eq!(answering.rowid, 3, "{answering:?}");
    assert_eq!(answering.excerpt.as_deref(), Some("deploy is green"));
}

#[test]
fn a_reply_whose_originator_is_gone_is_still_a_message() {
    let db = fixture();
    db.execute(
        "INSERT INTO message (rowid, guid, text, is_from_me, handle_id,
             associated_message_type, date, service, thread_originator_guid)
         VALUES (22, 'm22', 'answering a ghost', 0, 1, 0, ?, 'iMessage', 'no-such-guid')",
        (at(9),),
    )
    .unwrap();
    db.execute(
        "INSERT INTO chat_message_join (chat_id, message_id, message_date)
         VALUES (1, 22, ?)",
        (at(9),),
    )
    .unwrap();

    let found = fetch_messages(&db, &FetchMessages::default(), &ContactIndex::empty()).unwrap();
    let reply = found.iter().find(|m| m.rowid == 22).expect("the reply");
    assert!(reply.reply_to.is_none(), "{:?}", reply.reply_to);
    assert_eq!(reply.body.as_deref(), Some("answering a ghost"));
}

#[test]
fn the_originator_guid_stays_off_the_wire() {
    let db = fixture();
    db.execute(
        "INSERT INTO message (rowid, guid, text, is_from_me, handle_id,
             associated_message_type, date, service, thread_originator_guid)
         VALUES (23, 'm23', 'noted', 0, 1, 0, ?, 'iMessage', 'm1')",
        (at(9),),
    )
    .unwrap();
    db.execute(
        "INSERT INTO chat_message_join (chat_id, message_id, message_date)
         VALUES (1, 23, ?)",
        (at(9),),
    )
    .unwrap();

    let found = fetch_messages(&db, &FetchMessages::default(), &ContactIndex::empty()).unwrap();
    let reply = found.iter().find(|m| m.rowid == 23).unwrap();
    assert!(!format!("{reply:?}").contains("originator"), "{reply:?}");
    assert_eq!(reply.reply_to.as_ref().map(|to| to.rowid), Some(1));
}

#[test]
fn an_excerpt_is_one_line_and_bounded() {
    assert_eq!(excerpt("short"), "short");
    assert_eq!(excerpt("two\n lines"), "two lines");
    let long = "x".repeat(200);
    let cut = excerpt(&long);
    assert_eq!(cut.chars().count(), EXCERPT + 1, "{cut}");
    assert!(cut.ends_with('…'));
    let wide = "é".repeat(200);
    assert_eq!(excerpt(&wide).chars().count(), EXCERPT + 1);
}

#[test]
fn a_reply_to_a_photo_quotes_the_photo_not_the_placeholder() {
    let db = fixture();
    db.execute("UPDATE message SET text = char(65532) WHERE rowid = 1", [])
        .unwrap();
    attach(
        &db,
        1,
        &[(1, Some("beach.heic"), Some("image/heic"), 2048, false, true)],
    );
    db.execute(
        "INSERT INTO message (rowid, guid, text, is_from_me, handle_id,
             associated_message_type, date, service, thread_originator_guid)
         VALUES (24, 'm24', 'lovely', 0, 1, 0, ?, 'iMessage', 'm1')",
        (at(9),),
    )
    .unwrap();
    db.execute(
        "INSERT INTO chat_message_join (chat_id, message_id, message_date)
         VALUES (1, 24, ?)",
        (at(9),),
    )
    .unwrap();

    let found = fetch_messages(&db, &FetchMessages::default(), &ContactIndex::empty()).unwrap();
    let reply = found.iter().find(|m| m.rowid == 24).expect("the reply");
    let quote = reply.reply_to.as_ref().expect("what it answers");
    assert_eq!(quote.excerpt.as_deref(), Some("[#1 beach.heic, 2.0 KB]"));
    assert!(
        !quote
            .excerpt
            .as_deref()
            .unwrap_or_default()
            .contains('\u{fffc}'),
        "{quote:?}"
    );
}

#[test]
fn a_reply_in_two_chats_keeps_its_quote_in_both() {
    let db = fixture();
    db.execute(
        "INSERT INTO message (rowid, guid, text, is_from_me, handle_id,
             associated_message_type, date, service, thread_originator_guid)
         VALUES (25, 'm25', 'yes, that works', 1, 1, 0, ?, 'iMessage', 'm1')",
        (at(9),),
    )
    .unwrap();
    for chat in [1, 2] {
        db.execute(
            "INSERT INTO chat_message_join (chat_id, message_id, message_date)
             VALUES (?, 25, ?)",
            (chat, at(9)),
        )
        .unwrap();
    }

    let found = fetch_messages(&db, &FetchMessages::default(), &ContactIndex::empty()).unwrap();
    let copies: Vec<_> = found.iter().filter(|m| m.rowid == 25).collect();
    assert_eq!(copies.len(), 2, "the fixture must produce two copies");
    for copy in copies {
        let quote = copy
            .reply_to
            .as_ref()
            .unwrap_or_else(|| panic!("chat {} lost the quote", copy.chat_id));
        assert_eq!(quote.excerpt.as_deref(), Some("are you around later"));
    }
}

#[test]
fn an_address_typed_in_full_beats_a_longer_one_containing_it() {
    let db = fixture();
    db.execute(
        "INSERT INTO handle (rowid, id) VALUES (3, 'notsomeone@example.com')",
        [],
    )
    .unwrap();
    let contacts = ContactIndex::for_test([
        ("someone@example.com", "source:7", "Sam Rivera"),
        ("notsomeone@example.com", "source:9", "Kit Alvarez"),
    ]);

    let person = resolve_person(&db, "someone@example.com", &contacts).unwrap();
    assert_eq!(person.name, "Sam Rivera", "{person:?}");
    assert_eq!(person.handles, ["someone@example.com"], "{person:?}");

    let other = resolve_person(&db, "notsomeone@example.com", &contacts).unwrap();
    assert_eq!(other.name, "Kit Alvarez", "{other:?}");
    assert_eq!(other.handles, ["notsomeone@example.com"], "{other:?}");

    let error = resolve_person(&db, "example.com", &contacts)
        .unwrap_err()
        .to_string();
    assert!(error.contains("2 people match"), "{error}");
}

#[test]
fn two_contacts_sharing_a_name_are_two_people() {
    let db = fixture();
    let contacts = ContactIndex::for_test([
        ("+13105551234", "source:7", "Sam Rivera"),
        ("someone@example.com", "source:9", "Sam Rivera"),
    ]);

    let error = resolve_person(&db, "Sam Rivera", &contacts)
        .unwrap_err()
        .to_string();
    assert!(error.contains("2 people match"), "{error}");
    assert!(error.contains("+13105551234"), "{error}");
    assert!(error.contains("someone@example.com"), "{error}");

    let person = resolve_person(&db, "someone@example.com", &contacts).unwrap();
    assert_eq!(person.handles, ["someone@example.com"], "{person:?}");
}

#[test]
fn asking_for_both_directions_at_once_is_refused() {
    let db = fixture();
    let error = person_filter(
        &db,
        Some("+13105551234"),
        Some("+13105551234"),
        &ContactIndex::empty(),
    )
    .unwrap_err()
    .to_string();
    assert!(error.contains("--with and --from"), "{error}");
}

#[test]
fn a_first_name_does_not_resolve_to_a_stranger_who_spells_it_inside_theirs() {
    let db = fixture();
    let ana = one_to_one(&db, 4, "+16175550147");
    one_to_one(&db, 5, "+16175550148");
    one_to_one(&db, 6, "+16175550149");
    message_in(&db, ana, 10, 5);
    let contacts = ContactIndex::for_test([
        ("+16175550147", "source:1", "Ana Duarte"),
        ("+16175550148", "source:2", "Susana Vidal"),
        ("+16175550149", "source:3", "Dana Reyes"),
    ]);

    let person = resolve_person(&db, "ana", &contacts).unwrap();
    assert_eq!(person.name, "Ana Duarte");

    for (spec, expected) in [
        ("susana", "Susana Vidal"),
        ("vidal", "Susana Vidal"),
        ("dana", "Dana Reyes"),
        ("reyes", "Dana Reyes"),
        ("duarte", "Ana Duarte"),
    ] {
        let found = resolve_person(&db, spec, &contacts).unwrap();
        assert_eq!(found.name, expected, "resolving {spec}");
    }
}

#[test]
fn naming_nobody_says_so_rather_than_matching_everybody() {
    let db = fixture();
    let contacts = ContactIndex::empty();
    let error = resolve_person(&db, "nobody-by-that-name", &contacts)
        .unwrap_err()
        .to_string();
    assert!(error.contains("no one matching"), "{error}");
}

#[test]
fn finds_a_body_that_lives_only_in_the_archived_blob() {
    let db = fixture();
    let mut blob: Vec<u8> = Vec::new();
    blob.extend_from_slice(b"\x04\x0bstreamtyped\x81\xe8\x03\x84\x01\x40\x84\x84\x84");
    blob.extend_from_slice(
        b"NSAttributedString\x00\x84\x84\x08NSObject\x00\x85\x92\x84\x84\x84",
    );
    blob.extend_from_slice(b"NSString\x01\x94\x84\x01\x2b");
    let text = b"pinball tonight";
    blob.push(u8::try_from(text.len()).unwrap());
    blob.extend_from_slice(text);

    assert!(blob.contains(&0), "the fixture blob must carry a NUL");
    assert!(
        blob.iter().position(|b| *b == 0).unwrap() < blob.len() - text.len(),
        "the NUL must come before the text, or this proves nothing"
    );

    db.execute(
        "INSERT INTO message (rowid, guid, text, attributedBody, is_from_me,
             handle_id, associated_message_type, date, service)
         VALUES (7, 'm7', NULL, ?, 0, 1, 0, ?, 'iMessage')",
        (blob, at(6)),
    )
    .unwrap();
    db.execute(
        "INSERT INTO chat_message_join (chat_id, message_id, message_date)
         VALUES (1, 7, ?)",
        (at(6),),
    )
    .unwrap();

    let found = fetch_messages(
        &db,
        &FetchMessages {
            query: Some("pinball"),
            ..Default::default()
        },
        &ContactIndex::empty(),
    )
    .unwrap();
    assert_eq!(bodies(&found), ["pinball tonight"]);

    for needle in ["PINBALL", "PinBall", "TONIGHT"] {
        let hit = fetch_messages(
            &db,
            &FetchMessages {
                query: Some(needle),
                ..Default::default()
            },
            &ContactIndex::empty(),
        )
        .unwrap();
        assert_eq!(bodies(&hit), ["pinball tonight"], "searching {needle}");
    }
}

#[test]
fn search_folds_case_beyond_ascii_end_to_end() {
    let db = fixture();
    let mut blob: Vec<u8> = Vec::new();
    blob.extend_from_slice(b"\x04\x0bstreamtyped\x81\xe8\x03\x84\x01\x40\x84\x84\x84");
    blob.extend_from_slice(b"NSString\x01\x94\x84\x01\x2b");
    let text = "ZÜRICH in the archive".as_bytes();
    blob.push(u8::try_from(text.len()).unwrap());
    blob.extend_from_slice(text);

    for (rowid, at_days, text, body) in [
        (8, 7, Some("CAFÉ in the text"), None),
        (9, 8, None, Some(blob)),
    ] {
        db.execute(
            "INSERT INTO message (rowid, guid, text, attributedBody, is_from_me,
                 handle_id, associated_message_type, date, service)
             VALUES (?, 'm', ?, ?, 0, 1, 0, ?, 'iMessage')",
            (rowid, text, body, at(at_days)),
        )
        .unwrap();
        db.execute(
            "INSERT INTO chat_message_join (chat_id, message_id, message_date)
             VALUES (1, ?, ?)",
            (rowid, at(at_days)),
        )
        .unwrap();
    }

    for (needle, expected) in [
        ("café", "CAFÉ in the text"),
        ("CAFÉ", "CAFÉ in the text"),
        ("zürich", "ZÜRICH in the archive"),
        ("ZÜRICH", "ZÜRICH in the archive"),
    ] {
        let found = fetch_messages(
            &db,
            &FetchMessages {
                query: Some(needle),
                ..Default::default()
            },
            &ContactIndex::empty(),
        )
        .unwrap();
        assert_eq!(bodies(&found), [expected], "searching {needle}");
    }
}

#[test]
fn a_false_positive_does_not_eat_one_of_the_results_asked_for() {
    let db = fixture();
    let decoy = b"\x04\x0bstreamtyped\x81\xe8\x03NSMutableStringPINBALL\x00\x84\x84";
    let mut rowid = 100;
    for offset in 0..3 {
        db.execute(
            "INSERT INTO message (rowid, guid, text, attributedBody, is_from_me,
                 handle_id, associated_message_type, date, service)
             VALUES (?, ?, NULL, ?, 0, 1, 0, ?, 'iMessage')",
            (rowid, format!("d{offset}"), decoy.to_vec(), at(50 + offset)),
        )
        .unwrap();
        db.execute(
            "INSERT INTO chat_message_join (chat_id, message_id, message_date)
             VALUES (1, ?, ?)",
            (rowid, at(50 + offset)),
        )
        .unwrap();
        rowid += 1;
    }
    for offset in 0..2 {
        db.execute(
            "INSERT INTO message (rowid, guid, text, is_from_me, handle_id,
                 associated_message_type, date, service)
             VALUES (?, ?, 'pinball night', 0, 1, 0, ?, 'iMessage')",
            (rowid, format!("r{offset}"), at(40 + offset)),
        )
        .unwrap();
        db.execute(
            "INSERT INTO chat_message_join (chat_id, message_id, message_date)
             VALUES (1, ?, ?)",
            (rowid, at(40 + offset)),
        )
        .unwrap();
        rowid += 1;
    }

    let found = fetch_messages(
        &db,
        &FetchMessages {
            query: Some("pinball"),
            limit: 2,
            ..Default::default()
        },
        &ContactIndex::empty(),
    )
    .unwrap();
    assert_eq!(found.len(), 2, "{:?}", bodies(&found));
    assert!(
        found
            .iter()
            .all(|m| m.body.as_deref() == Some("pinball night"))
    );
}

#[test]
fn asking_for_more_than_exists_stops_rather_than_looping() {
    let db = fixture();
    let found = fetch_messages(
        &db,
        &FetchMessages {
            query: Some("deploy"),
            limit: 10_000,
            ..Default::default()
        },
        &ContactIndex::empty(),
    )
    .unwrap();
    assert_eq!(bodies(&found), ["deploy is green"]);
}

#[test]
fn the_body_predicate_looks_past_a_nul() {
    assert!(contains_ignoring_case(b"abc\x00def", "def"));
    assert!(contains_ignoring_case(b"abc\x00DEF", "def"));
    assert!(contains_ignoring_case(b"\x00\x00hello", "HELLO"));
    assert!(!contains_ignoring_case(b"abc\x00def", "xyz"));
    assert!(contains_ignoring_case(b"anything", ""));
    assert!(!contains_ignoring_case(b"ab", "abc"));
}

#[test]
fn the_body_predicate_folds_case_beyond_ascii() {
    for needle in ["café", "CAFÉ", "Café", "É"] {
        assert!(
            contains_ignoring_case("meet at the CAFÉ".as_bytes(), needle),
            "searching {needle}"
        );
        assert!(
            contains_ignoring_case("meet at the café".as_bytes(), needle),
            "searching {needle}"
        );
    }
    assert!(!contains_ignoring_case(
        "meet at the cafe".as_bytes(),
        "café"
    ));

    let blob = b"\x84\x84NSString\x01\x94\x84\x01\x2b\x0bZ\xc3\x9cRICH \xff\x84 caf\xc3\x89";
    assert!(contains_ignoring_case(blob, "zürich"));
    assert!(contains_ignoring_case(blob, "café"));
    assert!(!contains_ignoring_case(blob, "zürich  caf"));
}

#[test]
fn search_skips_filtered_conversations_unless_asked() {
    let db = fixture();
    let hidden = fetch_messages(
        &db,
        &FetchMessages {
            query: Some("123456"),
            ..Default::default()
        },
        &ContactIndex::empty(),
    )
    .unwrap();
    assert!(hidden.is_empty());

    let shown = fetch_messages(
        &db,
        &FetchMessages {
            query: Some("123456"),
            include_filtered: true,
            ..Default::default()
        },
        &ContactIndex::empty(),
    )
    .unwrap();
    assert_eq!(shown.len(), 1);
}

#[test]
fn search_filters_precisely_once_the_body_is_decoded() {
    let db = fixture();
    let messages = fetch_messages(
        &db,
        &FetchMessages {
            query: Some("YEAH"),
            ..Default::default()
        },
        &ContactIndex::empty(),
    )
    .unwrap();
    assert_eq!(bodies(&messages), ["after 6, yeah"]);
}

#[test]
fn resolves_one_conversation_for_send_to_address() {
    let db = fixture();
    let chat = resolve_chat(&db, "Ship Room", &ContactIndex::empty()).unwrap();
    assert_eq!(chat.guid, "iMessage;+;chat9");
}

#[test]
fn a_send_target_is_named_by_its_address() {
    let db = fixture();
    let older = one_to_one(&db, 4, "+16175550147");
    let newer = one_to_one(&db, 5, "robin@example.com");
    message_in(&db, older, 10, 5);
    message_in(&db, newer, 11, 90);
    let contacts = ContactIndex::for_test([
        ("+16175550147", "source:7", "Robin Adeyemi"),
        ("robin@example.com", "source:7", "Robin Adeyemi"),
    ]);

    let picked = resolve_chat(&db, "adeyemi", &contacts).unwrap();
    let other = resolve_chat(&db, "+16175550147", &contacts).unwrap();
    assert_eq!(picked.name, other.name);
    assert_ne!(
        describe_target(&picked),
        describe_target(&other),
        "a confirmation that cannot separate these is not a confirmation"
    );
    assert_eq!(
        describe_target(&picked),
        "Robin Adeyemi (robin@example.com)"
    );

    let group = resolve_chat(&db, "Ship Room", &contacts).unwrap();
    assert_eq!(describe_target(&group), "Ship Room");

    let bare = one_to_one(&db, 6, "+19995551212");
    message_in(&db, bare, 12, 3);
    let unknown = resolve_chat(&db, "+19995551212", &contacts).unwrap();
    assert_eq!(describe_target(&unknown), "+19995551212");
}

#[test]
fn reports_a_name_that_matches_nothing() {
    let db = fixture();
    let error = resolve_chat(&db, "nothing-matches", &ContactIndex::empty())
        .unwrap_err()
        .to_string();
    assert!(error.contains("no chat matching"), "{error}");
}

#[test]
fn the_copied_date_agrees_with_the_message_it_copies() {
    let db = fixture();
    let differing: i64 = db
        .query_row(
            "SELECT COUNT(*) FROM chat_message_join j
               JOIN message m ON m.rowid = j.message_id
              WHERE j.message_date IS NOT m.date",
            [],
            |row| row.get(0),
        )
        .unwrap();
    assert_eq!(
        differing, 0,
        "the fixture's message_date is not the message's date"
    );

    let zero: i64 = db
        .query_row(
            "SELECT COUNT(*) FROM chat_message_join WHERE message_date = 0",
            [],
            |row| row.get(0),
        )
        .unwrap();
    assert_eq!(zero, 0, "the fixture left message_date at its default");
}

#[test]
fn chats_come_back_newest_first_whatever_the_limit() {
    let db = fixture();
    for limit in [1, 2, 3, 30] {
        let chats = fetch_chats(&db, None, limit, &ContactIndex::empty(), true).unwrap();
        let dates: Vec<_> = chats.iter().map(|chat| chat.last_date).collect();
        let mut sorted = dates.clone();
        sorted.sort_by(|a, b| b.cmp(a));
        assert_eq!(dates, sorted, "limit {limit} came back out of order");
    }
}

fn split_across_two_threads(db: &Connection) -> (i64, i64, ContactIndex) {
    let phone = one_to_one(db, 4, "+16175550147");
    let email = one_to_one(db, 5, "robin@example.com");
    message_in(db, phone, 10, 5);
    message_in(db, phone, 11, 6);
    message_in(db, email, 12, 90);
    let contacts = ContactIndex::for_test([
        ("+16175550147", "source:7", "Robin Adeyemi"),
        ("robin@example.com", "source:7", "Robin Adeyemi"),
    ]);
    (phone, email, contacts)
}

#[test]
fn a_persons_threads_are_one_row_in_the_listing() {
    let db = fixture();
    let (_, email, contacts) = split_across_two_threads(&db);

    let chats = fetch_conversations(&db, None, 30, &contacts, false).unwrap();
    let theirs: Vec<&Chat> = chats
        .iter()
        .filter(|chat| chat.name == "Robin Adeyemi")
        .collect();
    assert_eq!(theirs.len(), 1, "two threads, one conversation");
    assert_eq!(theirs[0].rowid, email, "the rowid a send would go to");
    assert_eq!(theirs[0].message_count, 3, "counted across both threads");
}

#[test]
fn the_limit_counts_conversations_rather_than_threads() {
    let db = fixture();
    let (_, _, contacts) = split_across_two_threads(&db);

    let chats = fetch_conversations(&db, None, 2, &contacts, false).unwrap();
    assert_eq!(chats.len(), 2, "two conversations were asked for");
}

#[test]
fn a_search_reaches_an_address_the_newest_thread_does_not_use() {
    let db = fixture();
    let (_, email, contacts) = split_across_two_threads(&db);

    let chats = fetch_conversations(&db, Some("6175550147"), 30, &contacts, false).unwrap();
    let rowids: Vec<i64> = chats.iter().map(|chat| chat.rowid).collect();
    assert_eq!(
        rowids,
        [email],
        "found by an address the row does not lead with"
    );
}

#[test]
fn groups_are_never_merged() {
    let db = fixture();
    db.execute(
        "INSERT INTO chat (rowid, guid, chat_identifier, display_name, is_filtered)
         VALUES (9, 'iMessage;+;chat10', 'chat10', '', 0)",
        [],
    )
    .unwrap();
    db.execute(
        "INSERT INTO chat_handle_join (chat_id, handle_id) VALUES (9, 1), (9, 2)",
        [],
    )
    .unwrap();
    message_in(&db, 9, 10, 7);

    let chats = fetch_conversations(&db, None, 30, &ContactIndex::empty(), false).unwrap();
    let rooms = chats.iter().filter(|chat| chat.is_group).count();
    assert_eq!(rooms, 2, "same membership, still two rooms");
}

fn many_chats(db: &Connection, n: i64) {
    db.execute_batch("BEGIN").unwrap();
    for i in 100..(100 + n) {
        db.execute(
            "INSERT INTO handle (rowid, id) VALUES (?, ?)",
            (i, format!("+1310555{i}")),
        )
        .unwrap();
        db.execute(
            "INSERT INTO chat (rowid, guid, chat_identifier, display_name, is_filtered)
             VALUES (?, ?, ?, '', 0)",
            (i, format!("iMessage;-;p{i}"), format!("+1310555{i}")),
        )
        .unwrap();
        db.execute(
            "INSERT INTO chat_handle_join (chat_id, handle_id) VALUES (?, ?)",
            (i, i),
        )
        .unwrap();
    }
    // Messages keeps its memberships indexed by chat.
    db.execute_batch("CREATE INDEX members_of ON chat_handle_join (chat_id)").unwrap();
    db.execute_batch("COMMIT").unwrap();
}

#[test]
fn the_listing_has_no_upper_bound_of_its_own() {
    let db = fixture();
    let n = NAME_SEARCH_SCAN + 200;
    many_chats(&db, n);

    let all = fetch_conversations(&db, None, 100_000, &ContactIndex::empty(), true).unwrap();
    assert!(
        i64::try_from(all.len()).unwrap() > NAME_SEARCH_SCAN,
        "{} conversations came back, capped at the old budget",
        all.len()
    );
}

#[test]
fn a_search_reaches_the_oldest_conversation() {
    let db = fixture();
    many_chats(&db, NAME_SEARCH_SCAN + 200);
    db.execute(
        "UPDATE chat SET chat_identifier = '+13105559999' WHERE rowid = 5299",
        [],
    )
    .unwrap();

    let found =
        fetch_conversations(&db, Some("5559999"), 30, &ContactIndex::empty(), true).unwrap();
    let rowids: Vec<i64> = found.iter().map(|chat| chat.rowid).collect();
    assert_eq!(rowids, [5299], "found past where the scan used to stop");
}

#[test]
fn a_room_is_matched_from_a_word_start_with_names_off() {
    let db = fixture();
    let empty = ContactIndex::empty();
    let found = |spec: &str| {
        fetch_conversations(&db, Some(spec), 30, &empty, true)
            .unwrap()
            .iter()
            .any(|chat| chat.rowid == 2)
    };
    assert!(found("Ship"), "the start of the name");
    assert!(found("room"), "the start of its second word");
    assert!(!found("hip"), "inside a word, which SQL LIKE used to find");
    assert!(found("5551234"), "the middle of a member's number");
}

#[test]
fn the_listing_and_the_resolver_match_alike_without_contacts() {
    let db = fixture();
    let empty = ContactIndex::empty();
    for spec in ["Ship", "room", "oom", "hip", "someone@example"] {
        let listed = fetch_conversations(&db, Some(spec), 30, &empty, true)
            .unwrap()
            .iter()
            .any(|chat| chat.rowid == 2);
        let resolved = resolve_chat(&db, spec, &empty).is_ok_and(|chat| chat.rowid == 2);
        assert_eq!(
            listed, resolved,
            "`{spec}` reaches chat 2 down one path only"
        );
    }
}

#[test]
fn a_conversation_with_no_messages_still_appears() {
    let db = fixture();
    db.execute(
        "INSERT INTO chat (rowid, guid, chat_identifier, display_name, is_filtered)
         VALUES (9, 'iMessage;+;empty', 'empty', 'Empty Room', 0)",
        [],
    )
    .unwrap();
    let chats = fetch_chats(&db, Some("Empty Room"), 30, &ContactIndex::empty(), true).unwrap();
    assert_eq!(chats.len(), 1);
    assert_eq!(chats[0].last_date, None);
    assert_eq!(chats[0].message_count, 0);
}

#[test]
fn latest_rowid_is_the_watermark() {
    let db = fixture();
    assert_eq!(latest_rowid(&db).unwrap(), 5);
}

#[test]
fn oldest_first_walks_rowids_forward() {
    let db = fixture();
    let messages = fetch_messages(
        &db,
        &FetchMessages {
            after_rowid: Some(0),
            limit: 2,
            include_filtered: true,
            oldest_first: true,
            ..Default::default()
        },
        &ContactIndex::empty(),
    )
    .unwrap();
    assert_eq!(
        messages
            .iter()
            .map(|message| message.rowid)
            .collect::<Vec<_>>(),
        [1, 2]
    );
}

/// Everything a client of the daemon meets: two people in one room, one of them
/// split over two addresses, and a conversation Messages filters.
fn served() -> Connection {
    let db = Connection::open_in_memory().unwrap();
    register_body_match(&db).unwrap();
    db.execute_batch(SCHEMA).unwrap();
    db.execute_batch(
        "
        INSERT INTO handle (rowid, id) VALUES (1, '+13105551234'), (2, 'someone@example.com'),
          (4, 'robin@example.com'), (5, 'ROBIN@example.com'), (6, 'kit@example.com');
        INSERT INTO chat (rowid, guid, chat_identifier, display_name, is_filtered) VALUES
          (1, 'iMessage;-;+13105551234', '+13105551234', '', 0),
          (2, 'iMessage;+;chat9', 'chat9', 'Ship Room', 0),
          (3, 'SMS;-;+18885550000', '+18885550000', '', 1),
          (4, 'iMessage;-;robin@example.com', 'robin@example.com', '', 0),
          (5, 'iMessage;-;ROBIN@example.com', 'ROBIN@example.com', '', 0),
          (6, 'iMessage;-;kit@example.com', 'kit@example.com', '', 0),
          (7, 'iMessage;+;chat7', 'chat7', '', 0);
        INSERT INTO chat_handle_join (chat_id, handle_id) VALUES (1, 1), (2, 1), (2, 2), (3, 1),
          (4, 4), (5, 5), (6, 6), (7, 4), (7, 5), (7, 6);
        ",
    )
    .unwrap();
    let rows: [(i64, &str, &str, i64, i64, i64, i64, i64); 10] = [
        (1, "m1", "are you around later", 0, 1, 0, at(0), 1),
        (2, "m2", "after 6, yeah", 1, 1, 0, at(1), 1),
        (3, "m3", "deploy is green", 0, 2, 0, at(2), 2),
        (4, "m4", "your code is 123456", 0, 1, 0, at(3), 3),
        (5, "m5", "Liked \"after 6, yeah\"", 0, 1, 2000, at(4), 1),
        (6, "m6", "sent from the phone", 0, 4, 0, at(-40), 4),
        (7, "m7", "and this from the other", 0, 5, 0, at(-30), 5),
        (8, "m8", "phone again", 0, 4, 0, at(-20), 4),
        (9, "m9", "newest of the pair", 0, 5, 0, at(-10), 5),
        (10, "m10", "in the room", 0, 6, 0, at(-5), 7),
    ];
    for (rowid, guid, body, from_me, handle, associated, date, chat) in rows {
        let row = (rowid, guid, body, from_me, handle, associated, date);
        insert(&db, row, chat);
    }
    db
}

/// One message: rowid, guid, body, from me, handle, associated type, date.
fn insert(db: &Connection, row: (i64, &str, &str, i64, i64, i64, i64), chat: i64) {
    let (rowid, date) = (row.0, row.6);
    db.execute(
        "INSERT INTO message (rowid, guid, text, is_from_me, handle_id,
             associated_message_type, date, service)
         VALUES (?, ?, ?, ?, ?, ?, ?, 'iMessage')",
        row,
    )
    .unwrap();
    db.execute(
        "INSERT INTO chat_message_join (chat_id, message_id, message_date)
         VALUES (?, ?, ?)",
        (chat, rowid, date),
    )
    .unwrap();
}

fn ask_chats(db: &Connection, query: Option<&str>, unknown: bool) -> Vec<Chat> {
    let request = Request::Chats(ChatsRequest {
        query: query.map(str::to_string),
        names: Some(false),
        unknown: unknown.then_some(true),
        ..Default::default()
    });
    match answer(request) {
        Work::Chats(asked) => {
            assert!(!asked.names);
            let none = ContactIndex::empty();
            fetch_chats(db, asked.query.as_deref(), asked.limit, &none, asked.unknown).unwrap()
        }
        other => panic!("{other:?}"),
    }
}

fn ask_read(db: &Connection, chat: &str, tapbacks: bool) -> Result<ReadReply, Error> {
    let request = Request::Read(ReadRequest {
        chat: chat.into(),
        names: Some(false),
        tapbacks: tapbacks.then_some(true),
        ..Default::default()
    });
    match answer(request) {
        Work::Read(asked) => {
            let none = ContactIndex::empty();
            let threads = resolve_conversation(db, &asked.chat, &none, asked.unknown)?;
            let found =
                fetch_conversation(db, &threads, None, asked.limit, asked.tapbacks, &none)?;
            Ok(ReadReply::new(threads, found))
        }
        other => panic!("{other:?}"),
    }
}

fn ask_search(db: &Connection, request: SearchRequest) -> Result<Vec<Message>, Error> {
    match answer(Request::Search(request)) {
        Work::Search(asked) => {
            let none = ContactIndex::empty();
            let person =
                person_filter(db, asked.with.as_deref(), asked.from.as_deref(), &none)?;
            let filter = person
                .as_ref()
                .map(|(person, sender)| PersonFilter { person, sender: *sender });
            let options = search_options(&asked, None, filter, None);
            let hits = fetch_messages(db, &options, &none)?;
            with_context(db, hits, asked.context, &none)
        }
        other => panic!("{other:?}"),
    }
}

fn search(db: &Connection, query: &str, unknown: bool) -> Vec<Message> {
    let request = SearchRequest {
        query: query.into(),
        names: Some(false),
        unknown: unknown.then_some(true),
        ..Default::default()
    };
    ask_search(db, request).unwrap()
}

#[test]
fn daemon_lists_conversations_and_hides_the_filtered_ones() {
    let chats = ask_chats(&served(), None, false);
    let names: Vec<&str> = chats.iter().map(|chat| chat.name.as_str()).collect();
    assert_eq!(
        names,
        [
            "+13105551234",
            "Ship Room",
            "robin@example.com, ROBIN@example.com, kit@example.com",
            "ROBIN@example.com",
            "robin@example.com",
            "kit@example.com"
        ]
    );
}

#[test]
fn daemon_includes_filtered_conversations_when_asked() {
    let chats = ask_chats(&served(), None, true);
    assert_eq!(chats.len(), 7);
    assert!(chats.iter().any(|chat| chat.is_filtered));
}

#[test]
fn filters_by_name() {
    let chats = ask_chats(&served(), Some("Ship"), false);
    let rowids: Vec<i64> = chats.iter().map(|chat| chat.rowid).collect();
    assert_eq!(rowids, [2]);
}

#[test]
fn daemon_returns_a_conversation_oldest_first_without_tapbacks() {
    let reply = ask_read(&served(), "1", false).unwrap();
    assert_eq!(reply.chat.rowid, 1);
    assert_eq!(bodies(&reply.messages), ["are you around later", "after 6, yeah"]);
    assert_eq!(reply.messages[1].sender, "me");
}

#[test]
fn daemon_includes_tapbacks_when_asked() {
    let reply = ask_read(&served(), "1", true).unwrap();
    assert_eq!(reply.messages.len(), 3);
    assert!(reply.messages[2].is_tapback);
}

#[test]
fn daemon_reaches_a_filtered_conversation_when_it_is_named_outright() {
    let reply = ask_read(&served(), "3", false).unwrap();
    assert_eq!(reply.messages.len(), 1);
}

#[test]
fn dates_cross_the_wire_as_iso_strings() {
    let reply = ask_read(&served(), "1", false).unwrap();
    let date = iso::serialize(reply.messages[0].date);
    assert_eq!(date.as_deref(), Some("2026-01-15T17:30:00.000Z"));
    assert_eq!(iso::deserialize(date.as_deref()), reply.messages[0].date);
}

#[test]
fn naming_a_room_by_its_people_survives_the_wire() {
    let db = served();
    let none = ContactIndex::empty();
    let named = |specs: &[&str]| {
        let specs: Vec<String> = specs.iter().map(|spec| spec.to_string()).collect();
        resolve_conversations(&db, &specs, &none, false)
    };

    let room = named(&["robin", "kit"]).unwrap();
    let found = fetch_conversation(&db, &room, None, 50, false, &none).unwrap();
    assert_eq!(bodies(&found), ["in the room"]);
    let reply = ReadReply::new(room, found);
    assert_eq!(reply.chat.rowid, 7);
    assert!(reply.merged.is_empty(), "{reply:?}");

    let alone = named(&["kit"]).unwrap();
    assert_eq!(alone[0].rowid, 6);

    let error = named(&["robin", "someone"]).unwrap_err().to_string();
    assert!(error.contains("no conversation with exactly"), "{error}");

    let error = named(&[]).unwrap_err().to_string();
    assert_eq!(error, "no conversation named");
}

#[test]
fn a_merged_conversation_survives_the_wire() {
    let db = served();
    let reply = ask_read(&db, "robin", false).unwrap();
    assert_eq!(
        bodies(&reply.messages),
        [
            "sent from the phone",
            "and this from the other",
            "phone again",
            "newest of the pair"
        ]
    );
    assert_eq!(reply.chat.rowid, 5);
    assert_eq!(reply.merged, [4]);

    let one = ask_read(&db, "4", false).unwrap();
    assert_eq!(bodies(&one.messages), ["sent from the phone", "phone again"]);
    assert!(one.merged.is_empty(), "{one:?}");
}

#[test]
fn context_widths_survive_the_wire() {
    let db = served();
    let wide = |query: &str, before: i64, after: i64| {
        let request = SearchRequest {
            query: query.into(),
            names: Some(false),
            before: Some(before),
            after: Some(after),
            ..Default::default()
        };
        ask_search(&db, request).unwrap()
    };
    // The reaction behind the hit is on it, and no row of its own.
    let found = wide("after 6", 1, 1);
    assert_eq!(bodies(&found), ["are you around later", "after 6, yeah"]);
    let matched: Vec<bool> = found.iter().map(|message| message.matched).collect();
    assert_eq!(matched, [false, true], "{matched:?}");
    let groups: Vec<Option<i64>> = found.iter().map(|message| message.group).collect();
    assert_eq!(groups, [Some(0), Some(0)], "{groups:?}");

    // Asymmetric, because equal widths cannot tell the two fields apart.
    assert_eq!(bodies(&wide("after 6", 0, 1)), ["after 6, yeah"]);
    let before = wide("after 6", 1, 0);
    assert_eq!(bodies(&before), ["are you around later", "after 6, yeah"]);

    let lopsided = wide("phone", 0, 1);
    assert_eq!(bodies(&lopsided), ["sent from the phone", "phone again"]);
    let matched: Vec<bool> = lopsided.iter().map(|message| message.matched).collect();
    assert_eq!(matched, [true, true]);
    let groups: Vec<Option<i64>> = lopsided.iter().map(|message| message.group).collect();
    assert_eq!(groups, [Some(0), Some(0)]);
}

#[test]
fn matches_message_bodies() {
    let found = search(&served(), "deploy", false);
    assert_eq!(bodies(&found), ["deploy is green"]);
}

#[test]
fn skips_filtered_conversations_unless_asked() {
    let db = served();
    assert!(search(&db, "123456", false).is_empty());
    assert_eq!(search(&db, "123456", true).len(), 1);
}

#[test]
fn searches_one_person_across_conversations() {
    let db = served();
    let person = |with: Option<&str>, from: Option<&str>| {
        let request = SearchRequest {
            query: "a".into(),
            with: with.map(str::to_string),
            from: from.map(str::to_string),
            names: Some(false),
            ..Default::default()
        };
        ask_search(&db, request)
            .unwrap()
            .iter()
            .map(|message| message.is_from_me)
            .collect::<Vec<_>>()
    };

    let theirs = person(None, Some("+13105551234"));
    assert!(!theirs.is_empty(), "found nothing to check");
    assert!(theirs.iter().all(|from_me| !from_me), "{theirs:?}");

    let both = person(Some("+13105551234"), None);
    assert!(both.len() > theirs.len(), "{both:?} vs {theirs:?}");
    assert!(both.iter().any(|from_me| *from_me));
}

#[test]
fn refuses_both_person_filters_at_once() {
    let request = SearchRequest {
        query: "e".into(),
        with: Some("+13105551234".into()),
        from: Some("+13105551234".into()),
        names: Some(false),
        ..Default::default()
    };
    let error = ask_search(&served(), request).unwrap_err().to_string();
    assert!(error.contains("--with and --from"), "{error}");
}

#[test]
fn names_one_conversation_for_send_to_address() {
    let chat = resolve_chat(&served(), "Ship Room", &ContactIndex::empty()).unwrap();
    assert_eq!(chat.guid, "iMessage;+;chat9");
}

#[test]
fn reports_a_name_that_matches_nothing_rather_than_guessing() {
    let error = resolve_chat(&served(), "nothing-matches", &ContactIndex::empty())
        .unwrap_err()
        .to_string();
    assert!(error.contains("no chat matching"), "{error}");
}

/// The bodies a watcher is handed, batch by batch, until it has caught up.
fn drain(db: &Connection, mut watermark: i64) -> (Vec<Message>, i64) {
    let none = ContactIndex::empty();
    let latest = latest_rowid(db).unwrap();
    let mut handed = Vec::new();
    while is_behind(watermark, latest) {
        let options = watch_options(None, watermark, false, false);
        let batch = fetch_messages(db, &options, &none).unwrap();
        watermark = advance(watermark, &batch, latest);
        handed.extend(batch);
    }
    (handed, watermark)
}

#[test]
fn streams_a_message_that_arrives_after_the_client_subscribed() {
    let db = served();
    let watermark = latest_rowid(&db).unwrap();
    assert!(drain(&db, watermark).0.is_empty());
    insert(&db, (1_000, "later", "just landed", 0, 1, 0, at(500)), 1);
    let (received, seen) = drain(&db, watermark);
    assert_eq!(received.len(), 1);
    assert_eq!(received[0].body.as_deref(), Some("just landed"));
    assert_eq!(received[0].rowid, 1_000);
    assert_eq!(seen, 1_000);
}

#[test]
fn drains_a_burst_larger_than_one_batch_oldest_first() {
    let db = served();
    let watermark = latest_rowid(&db).unwrap();
    let target = 250i64;
    for index in 0..target {
        let rowid = 1_000 + index;
        let guid = format!("burst-{rowid}");
        insert(&db, (rowid, &guid, "burst", 0, 1, 0, at(1_000 + index)), 1);
    }
    let (received, seen) = drain(&db, watermark);
    let mine: Vec<i64> = received.iter().map(|message| message.rowid).collect();
    assert_eq!(mine, (1_000..1_000 + target).collect::<Vec<i64>>());
    assert_eq!(seen, 1_000 + target - 1);
}

/// A batch whose every row is filtered out still moves the watcher on.
#[test]
fn a_watcher_gets_past_what_it_may_not_see() {
    let db = served();
    let watermark = latest_rowid(&db).unwrap();
    insert(&db, (1_000, "hidden", "your code is 1", 0, 1, 0, at(500)), 3);
    let (received, seen) = drain(&db, watermark);
    assert!(received.is_empty(), "{received:?}");
    assert_eq!(seen, 1_000);
}

#[test]
fn it_refuses_an_attachment_id_that_does_not_exist() {
    let error = attachment_path(&served(), 999_999).unwrap_err().to_string();
    assert!(error.contains("no attachment 999999"), "{error}");
}

#[test]
fn an_attachment_is_found_by_its_rowid() {
    let db = served();
    db.execute_batch(
        "INSERT INTO attachment (ROWID, guid, filename, transfer_name, total_bytes) VALUES
           (91, 'a91', '~/Library/Messages/big.bin', 'big.bin', 6),
           (92, 'a92', '/tmp/other.bin', NULL, 7),
           (93, 'a93', NULL, 'gone.bin', 8);",
    )
    .unwrap();
    let (path, found) = attachment_path(&db, 91).unwrap();
    assert!(
        matches!(&path, FilePath::Home(rest) if rest == "Library/Messages/big.bin"),
        "{path:?}"
    );
    assert_eq!((found.name.as_deref(), found.total_bytes), (Some("big.bin"), 6));
    let (path, _) = attachment_path(&db, 92).unwrap();
    assert!(matches!(&path, FilePath::Absolute(all) if all == "/tmp/other.bin"), "{path:?}");
    let error = attachment_path(&db, 93).unwrap_err().to_string();
    assert!(error.contains("never downloaded"), "{error}");
}
