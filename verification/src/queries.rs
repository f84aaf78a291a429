//! The questions asked of the database, as SQL and the values bound to it.
use vstd::prelude::*;
use vstd::slice::slice_subrange;

use crate::attachments::{self, ATTACHMENT_BATCH, ids_to_ask};
use crate::bodies;
use crate::fetch::FetchMessages;
use crate::people::{Person, Sender};
use crate::sql::{self, Stored};
use crate::text::{self, joined};

verus! {

/// A value bound to a query.
#[derive(Debug)]
pub enum Value {
    Integer(i64),
    Text(String),
}

/// A [`Value`], by its characters.
#[verifier::ext_equal]
pub enum Bound {
    Integer(i64),
    Text(Seq<char>),
}

impl View for Value {
    type V = Bound;

    open spec fn view(&self) -> Bound {
        match self {
            Value::Integer(n) => Bound::Integer(*n),
            Value::Text(text) => Bound::Text(text@),
        }
    }
}

/// Several values, each by its characters.
pub open spec fn bound(values: Seq<Value>) -> Seq<Bound> {
    values.map_values(|value: Value| value@)
}

/// One question, and what is bound to it.
#[derive(Debug)]
pub struct Query {
    pub sql: String,
    pub values: Vec<Value>,
}

pub const MESSAGE_COLUMNS: &'static str = "
  message.rowid AS rowid, message.guid AS guid, message.is_from_me AS isFromMe,
  message.text AS text, message.attributedBody AS attributedBody,
  message.associated_message_type AS associatedMessageType, message.date AS date,
  handle.id AS handle, chat_message_join.chat_id AS chatId,
  NULLIF(chat.display_name, '') AS chatName, message.service AS service,
  NULLIF(message.thread_originator_guid, '') AS threadOriginatorGuid
";

pub const MESSAGE_FROM: &'static str = "
  FROM message
    LEFT JOIN handle ON message.handle_id = handle.rowid
    JOIN chat_message_join ON chat_message_join.message_id = message.rowid
    JOIN chat ON chat.rowid = chat_message_join.chat_id
";

/// The chat list, with the last-activity date and message count coming from one
/// grouped pass rather than a subquery per conversation.
pub const CHATS_SQL: &'static str = "
    SELECT * FROM (
      SELECT chat.rowid AS rowid, chat.guid AS guid,
             chat.chat_identifier AS chatIdentifier,
             NULLIF(chat.display_name, '') AS displayName,
             chat.is_filtered AS isFiltered,
             (SELECT GROUP_CONCAT(handle.id) FROM chat_handle_join
                JOIN handle ON handle.rowid = chat_handle_join.handle_id
               WHERE chat_handle_join.chat_id = chat.rowid) AS handles,
             (SELECT COUNT(*) FROM chat_handle_join
               WHERE chat_handle_join.chat_id = chat.rowid) AS memberCount,
             recent.lastDate AS lastDate,
             COALESCE(recent.messageCount, 0) AS messageCount
        FROM chat
        LEFT JOIN (SELECT chat_id, MAX(message_date) AS lastDate,
                          COUNT(*) AS messageCount
                     FROM chat_message_join GROUP BY chat_id) AS recent
          ON recent.chat_id = chat.rowid
    )
";

/// Every address Messages knows.
pub const HANDLES_SQL: &'static str = "SELECT rowid, id FROM handle";

/// The names rooms were given.
pub const ROOM_NAMES_SQL: &'static str = "SELECT display_name FROM chat
          WHERE display_name IS NOT NULL AND display_name != ''
            AND (SELECT COUNT(*) FROM chat_handle_join
                  WHERE chat_id = chat.rowid) > 1";

/// The highest message rowid.
pub const LATEST_SQL: &'static str = "SELECT MAX(rowid) AS max FROM message";

/// One attachment, by its rowid.
pub const ATTACHMENT_SQL: &'static str = "SELECT ROWID AS rowid, transfer_name AS name, mime_type AS mimeType,
                uti AS uti, total_bytes AS totalBytes, is_sticker AS isSticker,
                filename AS filename
           FROM attachment WHERE ROWID = ?";

/// Whether reactions carry the emoji their sender chose, which arrived with a
/// version of macOS.
pub const EMOJI_COLUMN_SQL: &'static str = "SELECT COUNT(*) FROM pragma_table_info('message')
          WHERE name = 'associated_message_emoji'";

/// The message a reaction is stored against, whichever of the three forms it is
/// stored in: part-prefixed, `bp:`-prefixed, or bare.
pub const TAPBACK_TARGET: &'static str = "CASE WHEN m.associated_message_guid LIKE 'p:%' THEN substr(m.associated_message_guid, instr(m.associated_message_guid, '/') + 1) WHEN m.associated_message_guid LIKE 'bp:%' THEN substr(m.associated_message_guid, 4) ELSE m.associated_message_guid END";

/// How many chats to consider when a query has to be matched against names.
pub const NAME_SEARCH_SCAN: i64 = 5_000;

/// A comma-separated placeholder for each of `n` values.
pub open spec fn slots(n: nat) -> Seq<char> {
    text::join(Seq::new(n, |i: int| "?"@), ","@)
}

/// A comma-separated placeholder for each of `n` values.
pub fn slots_for(n: usize) -> (out: String)
    ensures
        out@ == slots(n as nat),
{
    let mut marks: Vec<String> = Vec::new();
    for i in 0..n
        invariant
            marks@.len() == i,
            forall|j: int| 0 <= j < i ==> (#[trigger] marks@[j])@ == "?"@,
    {
        marks.push("?".to_owned());
    }
    assert(text::all_of(marks@) =~= Seq::new(n as nat, |i: int| "?"@));
    joined(&marks, ",")
}

/// Each of some integers, bound.
pub open spec fn integers(ids: Seq<i64>) -> Seq<Bound> {
    Seq::new(ids.len(), |i: int| Bound::Integer(ids[i]))
}

/// Each of some texts, bound.
pub open spec fn texts(all: Seq<Seq<char>>) -> Seq<Bound> {
    Seq::new(all.len(), |i: int| Bound::Text(all[i]))
}

/// Bind some integers behind what is bound already.
fn bind_integers(values: &mut Vec<Value>, ids: &[i64])
    ensures
        bound(final(values)@) == bound(old(values)@) + integers(ids@),
{
    let ghost start = bound(values@);
    assert(start + integers(ids@.take(0)) =~= start);
    for i in 0..ids.len()
        invariant
            bound(values@) == start + integers(ids@.take(i as int)),
    {
        let ghost was = values@;
        values.push(Value::Integer(ids[i]));
        assert(bound(values@) =~= bound(was).push(Bound::Integer(ids@[i as int])));
        assert(integers(ids@.take(i + 1)) =~= integers(ids@.take(i as int)).push(
            Bound::Integer(ids@[i as int]),
        ));
        assert(bound(values@) =~= start + integers(ids@.take(i + 1)));
    }
    assert(ids@.take(ids@.len() as int) =~= ids@);
}

/// Some texts, bound.
fn bind_texts(all: &[String]) -> (out: Vec<Value>)
    ensures
        bound(out@) == texts(text::all_of(all@)),
{
    let mut out: Vec<Value> = Vec::new();
    for i in 0..all.len()
        invariant
            out@.len() == i,
            forall|j: int| 0 <= j < i ==> (#[trigger] out@[j])@ == Bound::Text(all@[j]@),
    {
        out.push(Value::Text(all[i].clone()));
    }
    assert(bound(out@) =~= texts(text::all_of(all@)));
    out
}

/// One clause, if there is a reason for it.
pub open spec fn one(reason: bool, clause: Seq<char>) -> Seq<Seq<char>> {
    if reason {
        seq![clause]
    } else {
        Seq::empty()
    }
}

/// What a message's place in a conversation is counted by: the join's own
/// column whenever a chat is named, so that the range is an index scan.
pub open spec fn ordinal(options: FetchMessages) -> Seq<char> {
    if options.chat_id is Some {
        "chat_message_join.message_id"@
    } else {
        "message.rowid"@
    }
}

/// What somebody sent, from any of `n` addresses.
pub open spec fn sent_by_them(n: nat) -> Seq<char> {
    "(message.is_from_me = 0 AND message.handle_id IN ("@ + slots(n) + "))"@
}

/// What a person filter asks of a message: what they sent, and where both ways
/// are asked for and there are conversations of just the two of us, what I sent
/// in those.
pub open spec fn person_clause(options: FetchMessages, ours: Seq<i64>) -> Seq<Seq<char>> {
    match options.person {
        None => Seq::empty(),
        Some(filter) => {
            let theirs = sent_by_them(filter.person.handle_ids@.len());
            if filter.sender == Sender::Only || ours.len() == 0 {
                seq![theirs]
            } else {
                seq![
                    "("@ + theirs
                        + " OR (message.is_from_me = 1 AND chat_message_join.chat_id IN ("@
                        + slots(ours.len()) + ")))"@,
                ]
            }
        },
    }
}

/// Everything a message has to meet.
pub open spec fn clauses(options: FetchMessages, ours: Seq<i64>) -> Seq<Seq<char>> {
    one(options.chat_id is Some, "chat_message_join.chat_id = ?"@) + one(
        options.chat_id is None && !options.include_filtered,
        "chat.is_filtered = 0"@,
    ) + one(options.after_date is Some, "message.date > ?"@) + one(
        options.after_rowid is Some,
        ordinal(options) + " > ?"@,
    ) + one(options.before_rowid is Some, ordinal(options) + " < ?"@) + one(
        !options.include_tapbacks,
        "message.associated_message_type = 0"@,
    ) + person_clause(options, ours) + one(
        options.query is Some,
        "msg_body_has(message.text, message.attributedBody, ?)"@,
    )
}

/// A number that may be asked for, bound.
pub open spec fn one_integer(value: Option<i64>) -> Seq<Bound> {
    match value {
        Some(n) => seq![Bound::Integer(n)],
        None => Seq::empty(),
    }
}

/// What is bound to a person filter.
pub open spec fn person_values(options: FetchMessages, ours: Seq<i64>) -> Seq<Bound> {
    match options.person {
        None => Seq::empty(),
        Some(filter) => integers(filter.person.handle_ids@) + (if filter.sender == Sender::Only {
            Seq::empty()
        } else {
            integers(ours)
        }),
    }
}

/// What is bound to the clauses, in their order.
pub open spec fn clause_values(options: FetchMessages, ours: Seq<i64>) -> Seq<Bound> {
    one_integer(options.chat_id) + one_integer(options.after_date) + one_integer(
        options.after_rowid,
    ) + one_integer(options.before_rowid) + person_values(options, ours) + (match options.query {
        Some(query) => seq![Bound::Text(query@)],
        None => Seq::empty(),
    })
}

/// The order messages are taken in: by arrival when the oldest are wanted or
/// those just before another, and newest first otherwise.
pub open spec fn order_clause(options: FetchMessages) -> Seq<char> {
    if options.oldest_first {
        "ORDER BY "@ + ordinal(options) + " ASC"@
    } else if options.before_rowid is Some {
        "ORDER BY "@ + ordinal(options) + " DESC"@
    } else {
        "ORDER BY message.date DESC"@
    }
}

/// The clauses together, or nothing where there are none.
pub open spec fn where_clause(all: Seq<Seq<char>>) -> Seq<char> {
    if all.len() == 0 {
        Seq::<char>::empty()
    } else {
        "WHERE "@ + text::join(all, " AND "@)
    }
}

/// Add a clause, if there is a reason for it.
fn add_clause(clauses: &mut Vec<String>, reason: bool, clause: String)
    ensures
        text::all_of(final(clauses)@) == text::all_of(old(clauses)@) + one(reason, clause@),
{
    let ghost was = clauses@;
    let ghost new = clause@;
    if reason {
        clauses.push(clause);
    }
    assert(text::all_of(clauses@) =~= text::all_of(was) + one(reason, new));
}

/// Bind a number, if it is asked for.
fn add_integer(values: &mut Vec<Value>, value: Option<i64>)
    ensures
        bound(final(values)@) == bound(old(values)@) + one_integer(value),
{
    let ghost was = values@;
    if let Some(n) = value {
        values.push(Value::Integer(n));
    }
    assert(bound(values@) =~= bound(was) + one_integer(value));
}

/// A text followed by another.
fn followed(front: &str, back: &str) -> (out: String)
    ensures
        out@ == front@ + back@,
{
    let mut out: String = front.to_owned();
    out.append(back);
    out
}

/// What somebody sent, from any of `n` addresses.
fn sent_clause(n: usize) -> (out: String)
    ensures
        out@ == sent_by_them(n as nat),
{
    let mut out: String = "(message.is_from_me = 0 AND message.handle_id IN (".to_owned();
    out.append(slots_for(n).as_str());
    out.append("))");
    out
}

/// What a person filter asks of a message.
fn add_person_clause(clauses: &mut Vec<String>, options: &FetchMessages<'_>, ours: &[i64])
    ensures
        text::all_of(final(clauses)@) == text::all_of(old(clauses)@) + person_clause(
            *options,
            ours@,
        ),
{
    let ghost was = text::all_of(clauses@);
    match &options.person {
        None => {
            assert(was + Seq::<Seq<char>>::empty() =~= was);
        },
        Some(filter) => {
            let theirs = sent_clause(filter.person.handle_ids.len());
            if filter.sender == Sender::Only || ours.len() == 0 {
                add_clause(clauses, true, theirs);
            } else {
                let mut both: String = "(".to_owned();
                both.append(theirs.as_str());
                both.append(" OR (message.is_from_me = 1 AND chat_message_join.chat_id IN (");
                both.append(slots_for(ours.len()).as_str());
                both.append(")))");
                add_clause(clauses, true, both);
            }
        },
    }
}

/// What is bound to a person filter.
fn add_person_values(values: &mut Vec<Value>, options: &FetchMessages<'_>, ours: &[i64])
    ensures
        bound(final(values)@) == bound(old(values)@) + person_values(*options, ours@),
{
    let ghost was = bound(values@);
    match &options.person {
        None => {
            assert(was + Seq::<Bound>::empty() =~= was);
        },
        Some(filter) => {
            bind_integers(values, &filter.person.handle_ids);
            if filter.sender != Sender::Only {
                bind_integers(values, ours);
            }
            assert(bound(values@) =~= was + person_values(*options, ours@));
        },
    }
}

/// What is bound to the clauses, in their order.
fn values_for(options: &FetchMessages<'_>, ours: &[i64]) -> (values: Vec<Value>)
    ensures
        bound(values@) == clause_values(*options, ours@),
{
    let mut values: Vec<Value> = Vec::new();
    let ghost start = bound(values@);
    assert(start + one_integer(options.chat_id) =~= one_integer(options.chat_id));
    add_integer(&mut values, options.chat_id);
    add_integer(&mut values, options.after_date);
    add_integer(&mut values, options.after_rowid);
    add_integer(&mut values, options.before_rowid);
    add_person_values(&mut values, options, ours);
    let ghost was = bound(values@);
    if let Some(query) = options.query {
        let ghost before = values@;
        values.push(Value::Text(query.to_owned()));
        assert(bound(values@) =~= bound(before) + seq![Bound::Text(query@)]);
    } else {
        assert(was + Seq::<Bound>::empty() =~= was);
    }
    values
}

/// What a message's place in a conversation is counted by.
fn ordinal_of(options: &FetchMessages<'_>) -> (out: &'static str)
    ensures
        out@ == ordinal(*options),
{
    if options.chat_id.is_some() {
        "chat_message_join.message_id"
    } else {
        "message.rowid"
    }
}

/// Everything a message has to meet.
fn clauses_for(options: &FetchMessages<'_>, ours: &[i64]) -> (all: Vec<String>)
    ensures
        text::all_of(all@) == clauses(*options, ours@),
{
    let ordinal = ordinal_of(options);
    let mut all: Vec<String> = Vec::new();
    let ghost start = text::all_of(all@);
    let ghost first = one(options.chat_id is Some, "chat_message_join.chat_id = ?"@);
    assert(start + first =~= first);
    add_clause(
        &mut all,
        options.chat_id.is_some(),
        "chat_message_join.chat_id = ?".to_owned(),
    );
    add_clause(
        &mut all,
        options.chat_id.is_none() && !options.include_filtered,
        "chat.is_filtered = 0".to_owned(),
    );
    add_clause(&mut all, options.after_date.is_some(), "message.date > ?".to_owned());
    add_clause(&mut all, options.after_rowid.is_some(), followed(ordinal, " > ?"));
    add_clause(&mut all, options.before_rowid.is_some(), followed(ordinal, " < ?"));
    add_clause(
        &mut all,
        !options.include_tapbacks,
        "message.associated_message_type = 0".to_owned(),
    );
    add_person_clause(&mut all, options, ours);
    add_clause(
        &mut all,
        options.query.is_some(),
        "msg_body_has(message.text, message.attributedBody, ?)".to_owned(),
    );
    all
}

/// The order messages are taken in.
fn order_of(options: &FetchMessages<'_>) -> (out: String)
    ensures
        out@ == order_clause(*options),
{
    if options.oldest_first {
        let mut out: String = followed("ORDER BY ", ordinal_of(options));
        out.append(" ASC");
        out
    } else if options.before_rowid.is_some() {
        let mut out: String = followed("ORDER BY ", ordinal_of(options));
        out.append(" DESC");
        out
    } else {
        "ORDER BY message.date DESC".to_owned()
    }
}

/// The clauses together, or nothing where there are none.
fn where_of(all: &Vec<String>) -> (out: String)
    ensures
        out@ == where_clause(text::all_of(all@)),
{
    if all.len() == 0 {
        String::new()
    } else {
        followed("WHERE ", joined(all, " AND ").as_str())
    }
}

/// The query for messages, all but its limit, which is bound last.
///
/// `ours` are the conversations of just me and the person filtered for.
/// `is_from_me = 0` is not redundant in that filter: Messages stamps outgoing
/// messages with the *recipient's* handle, so matching the handle alone would
/// return my own messages as though they had sent them.
pub fn message_query(options: &FetchMessages<'_>, ours: &[i64]) -> (out: Query)
    ensures
        out.sql@ == "SELECT "@ + MESSAGE_COLUMNS@ + " "@ + MESSAGE_FROM@ + " "@ + where_clause(
            clauses(*options, ours@),
        ) + " "@ + order_clause(*options) + " LIMIT ?"@,
        bound(out.values@) == clause_values(*options, ours@),
        exists|kept: Seq<char>, order: Seq<char>|
            {
                &&& out.sql@ == #[trigger] asking(kept, order)
                &&& forall|row: Stored|
                    #[trigger] sql::keeps(kept, bound(out.values@), row) <==> selects(
                        *options,
                        ours@,
                        row,
                    )
                &&& forall|a: Stored, b: Stored|
                    #[trigger] sql::puts_before(order, a, b) <==> comes_first(*options, a, b)
            },
{
    proof {
        assert forall|row: Stored|
            #[trigger] sql::keeps(
                where_clause(clauses(*options, ours@)),
                clause_values(*options, ours@),
                row,
            ) <==> selects(*options, ours@, row) by {
            the_query_reads_what_is_asked(*options, ours@, row);
        }
        assert forall|a: Stored, b: Stored|
            #[trigger] sql::puts_before(order_clause(*options), a, b) <==> comes_first(
                *options,
                a,
                b,
            ) by {
            messages_are_taken_in_order(*options, a, b);
        }
        assert(asking(where_clause(clauses(*options, ours@)), order_clause(*options)) == "SELECT "@
            + MESSAGE_COLUMNS@ + " "@ + MESSAGE_FROM@ + " "@ + where_clause(
            clauses(*options, ours@),
        ) + " "@ + order_clause(*options) + " LIMIT ?"@);
    }
    let mut sql: String = "SELECT ".to_owned();
    sql.append(MESSAGE_COLUMNS);
    sql.append(" ");
    sql.append(MESSAGE_FROM);
    sql.append(" ");
    sql.append(where_of(&clauses_for(options, ours)).as_str());
    sql.append(" ");
    sql.append(order_of(options).as_str());
    sql.append(" LIMIT ?");
    Query { sql, values: values_for(options, ours) }
}

/// The conversations that are just me and one person: a chat whose membership is
/// exactly one handle, and that handle is theirs.
pub fn one_to_one_query(person: &Person) -> (out: Query)
    ensures
        out.sql@ == "SELECT mine.chat_id FROM chat_handle_join AS mine WHERE mine.handle_id IN ("@
            + slots(person.handle_ids@.len())
            + ") AND (SELECT COUNT(*) FROM chat_handle_join AS everyone WHERE everyone.chat_id = mine.chat_id) = 1"@,
        bound(out.values@) == integers(person.handle_ids@),
{
    let mut sql: String = "SELECT mine.chat_id FROM chat_handle_join AS mine WHERE mine.handle_id IN (".to_owned();
    sql.append(slots_for(person.handle_ids.len()).as_str());
    sql.append(
        ") AND (SELECT COUNT(*) FROM chat_handle_join AS everyone WHERE everyone.chat_id = mine.chat_id) = 1",
    );
    let mut values: Vec<Value> = Vec::new();
    bind_integers(&mut values, &person.handle_ids);
    assert(bound(values@) =~= integers(person.handle_ids@));
    Query { sql, values }
}

/// The text of the query for the attachments of `n` messages.
pub open spec fn attachments_sql(n: nat) -> Seq<char> {
    "SELECT j.message_id AS messageId, a.ROWID AS rowid, a.transfer_name AS name, a.mime_type AS mimeType, a.uti AS uti, a.total_bytes AS totalBytes, a.is_sticker AS isSticker, a.filename AS filename FROM message_attachment_join j JOIN attachment a ON a.ROWID = j.attachment_id WHERE j.message_id IN ("@
        + slots(n)
        + ") AND COALESCE(a.hide_attachment, 0) = 0 ORDER BY j.message_id, a.ROWID"@
}

/// The attachments of some messages.
///
/// Hidden rows are excluded: they are Messages' bookkeeping, not part of the
/// conversation.
pub fn attachments_query(batch: &[i64]) -> (out: Query)
    ensures
        out.sql@ == attachments_sql(batch@.len()),
        bound(out.values@) == integers(batch@),
{
    let mut sql: String = "SELECT j.message_id AS messageId, a.ROWID AS rowid, a.transfer_name AS name, a.mime_type AS mimeType, a.uti AS uti, a.total_bytes AS totalBytes, a.is_sticker AS isSticker, a.filename AS filename FROM message_attachment_join j JOIN attachment a ON a.ROWID = j.attachment_id WHERE j.message_id IN (".to_owned();
    sql.append(slots_for(batch.len()).as_str());
    sql.append(") AND COALESCE(a.hide_attachment, 0) = 0 ORDER BY j.message_id, a.ROWID");
    let mut values: Vec<Value> = Vec::new();
    bind_integers(&mut values, batch);
    assert(bound(values@) =~= integers(batch@));
    Query { sql, values }
}

/// The column a chosen emoji is in, where the schema has one.
pub open spec fn emoji_column(has_emoji: bool) -> Seq<char> {
    if has_emoji {
        "m.associated_message_emoji"@
    } else {
        "NULL"@
    }
}

/// The text of the query for the reactions to `n` messages.
pub open spec fn tapbacks_sql(n: nat, has_emoji: bool) -> Seq<char> {
    "SELECT "@ + TAPBACK_TARGET@
        + " AS target, m.associated_message_type AS kind, "@ + emoji_column(has_emoji)
        + " AS emoji, m.date AS date, m.is_from_me AS isFromMe, handle.id AS handle FROM message m LEFT JOIN handle ON m.handle_id = handle.rowid WHERE m.associated_message_guid IS NOT NULL AND m.associated_message_type BETWEEN 2000 AND 3999 AND "@
        + TAPBACK_TARGET@ + " IN ("@ + slots(n) + ") ORDER BY m.date"@
}

/// The reactions to some messages, oldest first.
pub fn tapbacks_query(guids: &[String], has_emoji: bool) -> (out: Query)
    ensures
        out.sql@ == tapbacks_sql(guids@.len(), has_emoji),
        bound(out.values@) == texts(text::all_of(guids@)),
{
    let mut sql: String = "SELECT ".to_owned();
    sql.append(TAPBACK_TARGET);
    sql.append(" AS target, m.associated_message_type AS kind, ");
    if has_emoji {
        sql.append("m.associated_message_emoji");
    } else {
        sql.append("NULL");
    }
    sql.append(
        " AS emoji, m.date AS date, m.is_from_me AS isFromMe, handle.id AS handle FROM message m LEFT JOIN handle ON m.handle_id = handle.rowid WHERE m.associated_message_guid IS NOT NULL AND m.associated_message_type BETWEEN 2000 AND 3999 AND ",
    );
    sql.append(TAPBACK_TARGET);
    sql.append(" IN (");
    sql.append(slots_for(guids.len()).as_str());
    sql.append(") ORDER BY m.date");
    Query { sql, values: bind_texts(guids) }
}

/// The text of the query for `n` messages that are answered.
pub open spec fn replies_sql(n: nat) -> Seq<char> {
    "SELECT message.guid AS guid, message.rowid AS rowid, message.is_from_me AS isFromMe, message.text AS text, message.attributedBody AS attributedBody, handle.id AS handle FROM message LEFT JOIN handle ON message.handle_id = handle.rowid WHERE message.guid IN ("@
        + slots(n) + ")"@
}

/// The messages some replies answer, in whatever conversation they are.
pub fn replies_query(guids: &[String]) -> (out: Query)
    ensures
        out.sql@ == replies_sql(guids@.len()),
        bound(out.values@) == texts(text::all_of(guids@)),
{
    let mut sql: String = "SELECT message.guid AS guid, message.rowid AS rowid, message.is_from_me AS isFromMe, message.text AS text, message.attributedBody AS attributedBody, handle.id AS handle FROM message LEFT JOIN handle ON message.handle_id = handle.rowid WHERE message.guid IN (".to_owned();
    sql.append(slots_for(guids.len()).as_str());
    sql.append(")");
    Query { sql, values: bind_texts(guids) }
}

/// Some chats by their rowids, most recently active first.
///
/// Named rather than scanned: a conversation outside a window of recent
/// activity is found as readily as one inside it.
pub fn chats_by_id_query(ids: &[i64]) -> (out: Query)
    ensures
        out.sql@ == CHATS_SQL@ + " WHERE rowid IN ("@ + slots(ids@.len())
            + ") ORDER BY lastDate DESC"@,
        bound(out.values@) == integers(ids@),
        exists|kept: Seq<char>, order: Seq<char>|
            {
                &&& out.sql@ == #[trigger] listing(kept, order)
                &&& forall|row: Stored|
                    #[trigger] sql::keeps(kept, bound(out.values@), row) <==> exists|i: int|
                        0 <= i < ids@.len() && row.rowid == #[trigger] ids@[i]
                &&& forall|a: Stored, b: Stored|
                    #[trigger] sql::puts_before(order, a, b) <==> a.date is Some && b.date is Some
                        && a.date->0 > b.date->0
            },
{
    proof {
        let kept = "WHERE rowid IN ("@ + slots(ids@.len()) + ")"@;
        let order = "ORDER BY lastDate DESC"@;
        let all = CHATS_SQL@ + " WHERE rowid IN ("@ + slots(ids@.len())
            + ") ORDER BY lastDate DESC"@;
        reveal_strlit(" WHERE rowid IN (");
        reveal_strlit("WHERE rowid IN (");
        reveal_strlit(") ORDER BY lastDate DESC");
        reveal_strlit("ORDER BY lastDate DESC");
        reveal_strlit(")");
        reveal_strlit(" ");
        assert(all =~= listing(kept, order));
        assert forall|row: Stored|
            #[trigger] sql::keeps(kept, integers(ids@), row) <==> exists|i: int|
                0 <= i < ids@.len() && row.rowid == #[trigger] ids@[i] by {
            those_that_are_named_are_kept(ids@, row);
        }
        assert forall|a: Stored, b: Stored|
            #[trigger] sql::puts_before(order, a, b) <==> a.date is Some && b.date is Some
                && a.date->0 > b.date->0 by {
            the_newest_come_first(a, b);
        }
    }
    let mut sql: String = CHATS_SQL.to_owned();
    sql.append(" WHERE rowid IN (");
    sql.append(slots_for(ids.len()).as_str());
    sql.append(") ORDER BY lastDate DESC");
    let mut values: Vec<Value> = Vec::new();
    bind_integers(&mut values, ids);
    assert(bound(values@) =~= integers(ids@));
    Query { sql, values }
}

/// What keeps filtered conversations out, unless they are asked for.
pub open spec fn filtered_clause(include_filtered: bool) -> Seq<char> {
    if include_filtered {
        Seq::<char>::empty()
    } else {
        "WHERE isFiltered = 0"@
    }
}

/// Every chat, most recently active first, with no upper bound on how many.
pub open spec fn all_chats(include_filtered: bool) -> Seq<char> {
    CHATS_SQL@ + " "@ + filtered_clause(include_filtered) + " ORDER BY lastDate DESC"@
}

/// Every chat, most recently active first, with no upper bound on how many.
///
/// The listing cannot use a `LIMIT`, and no budget would do instead: a number of
/// threads does not become a knowable number of conversations until after the
/// merge has run.
pub fn all_chats_query(include_filtered: bool) -> (out: Query)
    ensures
        out.sql@ == all_chats(include_filtered),
        out.values@.len() == 0,
{
    let mut sql: String = CHATS_SQL.to_owned();
    sql.append(" ");
    if !include_filtered {
        sql.append("WHERE isFiltered = 0");
    } else {
        assert(sql@ + Seq::<char>::empty() =~= sql@);
    }
    sql.append(" ORDER BY lastDate DESC");
    Query { sql, values: Vec::new() }
}

/// Chats, most recently active first: as many as were asked for, or, where a
/// query is to be matched against their names, a window of the newest.
pub fn chats_query(matching: bool, limit: i64, include_filtered: bool) -> (out: Query)
    ensures
        out.sql@ == all_chats(include_filtered) + " LIMIT ?"@,
        bound(out.values@) == seq![
            Bound::Integer(
                if matching {
                    NAME_SEARCH_SCAN
                } else {
                    limit
                },
            ),
        ],
{
    let Query { sql, values } = all_chats_query(include_filtered);
    let mut sql = sql;
    let mut values: Vec<Value> = values;
    sql.append(" LIMIT ?");
    values.push(
        Value::Integer(
            if matching {
                NAME_SEARCH_SCAN
            } else {
                limit
            },
        ),
    );
    assert(bound(values@) =~= seq![
        Bound::Integer(
            if matching {
                NAME_SEARCH_SCAN
            } else {
                limit
            },
        ),
    ]);
    Query { sql, values }
}

/// Every membership of every chat that one of these handles is in.
pub fn members_query(ids: &[i64]) -> (out: Query)
    ensures
        out.sql@
            == "SELECT theirs.chat_id, handle.id FROM chat_handle_join AS theirs JOIN handle ON handle.rowid = theirs.handle_id WHERE theirs.chat_id IN (SELECT chat_id FROM chat_handle_join WHERE handle_id IN ("@
            + slots(ids@.len()) + "))"@,
        bound(out.values@) == integers(ids@),
{
    let mut sql: String = "SELECT theirs.chat_id, handle.id FROM chat_handle_join AS theirs JOIN handle ON handle.rowid = theirs.handle_id WHERE theirs.chat_id IN (SELECT chat_id FROM chat_handle_join WHERE handle_id IN (".to_owned();
    sql.append(slots_for(ids.len()).as_str());
    sql.append("))");
    let mut values: Vec<Value> = Vec::new();
    bind_integers(&mut values, ids);
    assert(bound(values@) =~= integers(ids@));
    Query { sql, values }
}

/// How many lookups it takes to ask about `n` things.
pub open spec fn batch_count(n: nat) -> nat {
    (n + ATTACHMENT_BATCH as nat - 1) as nat / ATTACHMENT_BATCH as nat
}

/// Where the `i`th batch of `n` things starts, or where they end.
pub open spec fn batch_start(n: nat, i: int) -> int {
    if i * ATTACHMENT_BATCH < n {
        i * ATTACHMENT_BATCH
    } else {
        n as int
    }
}

/// What the `i`th lookup asks about.
pub open spec fn batch<T>(all: Seq<T>, i: int) -> Seq<T> {
    all.subrange(batch_start(all.len(), i), batch_start(all.len(), i + 1))
}

/// The end of the batch that starts at `from`.
fn batch_end(from: usize, total: usize) -> (out: usize)
    requires
        from < total,
    ensures
        out == (if from + ATTACHMENT_BATCH < total {
            from + ATTACHMENT_BATCH
        } else {
            total as int
        }),
{
    if total - from > ATTACHMENT_BATCH {
        from + ATTACHMENT_BATCH
    } else {
        total
    }
}

/// No lookup binds more than every build of SQLite allows, and each thing is
/// asked about in just one of them.
pub proof fn batches_are_small_and_whole<T>(all: Seq<T>, j: int)
    requires
        0 <= j < all.len(),
    ensures
        forall|i: int| 0 <= i < batch_count(all.len()) ==> 0 < #[trigger] batch(all, i).len()
            <= ATTACHMENT_BATCH,
        j / (ATTACHMENT_BATCH as int) < batch_count(all.len()),
        batch(all, j / (ATTACHMENT_BATCH as int))[j % (ATTACHMENT_BATCH as int)] == all[j],
{
}

/// The lookups for the attachments of these messages: each asked about once.
pub fn attachments_queries(ids: &[i64]) -> (out: Vec<Query>)
    ensures
        out@.len() == batch_count(attachments::asked(ids@).len()),
        forall|i: int|
            0 <= i < out@.len() ==> {
                let asked = batch(attachments::asked(ids@), i);
                &&& (#[trigger] out@[i]).sql@ == attachments_sql(asked.len())
                &&& bound(out@[i].values@) == integers(asked)
            },
{
    let asked = ids_to_ask(ids);
    let mut out: Vec<Query> = Vec::new();
    let mut from: usize = 0;
    while from < asked.len()
        invariant
            asked@ == attachments::asked(ids@),
            from <= asked@.len(),
            from == batch_start(asked@.len(), out@.len() as int),
            out@.len() == batch_count(from as nat),
            forall|i: int|
                0 <= i < out@.len() ==> {
                    let asked = batch(attachments::asked(ids@), i);
                    &&& (#[trigger] out@[i]).sql@ == attachments_sql(asked.len())
                    &&& bound(out@[i].values@) == integers(asked)
                },
        decreases asked@.len() - from,
    {
        let to: usize = batch_end(from, asked.len());
        let part = slice_subrange(asked.as_slice(), from, to);
        assert(part@ =~= batch(asked@, out@.len() as int));
        out.push(attachments_query(part));
        from = to;
    }
    out
}

/// The lookups for the reactions to the messages with these guids.
pub fn tapbacks_queries(guids: &[String], has_emoji: bool) -> (out: Vec<Query>)
    ensures
        out@.len() == batch_count(guids@.len()),
        forall|i: int|
            0 <= i < out@.len() ==> {
                let asked = batch(guids@, i);
                &&& (#[trigger] out@[i]).sql@ == tapbacks_sql(asked.len(), has_emoji)
                &&& bound(out@[i].values@) == texts(text::all_of(asked))
            },
{
    let mut out: Vec<Query> = Vec::new();
    let mut from: usize = 0;
    while from < guids.len()
        invariant
            from <= guids@.len(),
            from == batch_start(guids@.len(), out@.len() as int),
            out@.len() == batch_count(from as nat),
            forall|i: int|
                0 <= i < out@.len() ==> {
                    let asked = batch(guids@, i);
                    &&& (#[trigger] out@[i]).sql@ == tapbacks_sql(asked.len(), has_emoji)
                    &&& bound(out@[i].values@) == texts(text::all_of(asked))
                },
        decreases guids@.len() - from,
    {
        let to: usize = batch_end(from, guids.len());
        let part = slice_subrange(guids, from, to);
        assert(part@ =~= batch(guids@, out@.len() as int));
        out.push(tapbacks_query(part, has_emoji));
        from = to;
    }
    out
}

/// The lookups for the messages with these guids, which some replies answer.
pub fn replies_queries(guids: &[String]) -> (out: Vec<Query>)
    ensures
        out@.len() == batch_count(guids@.len()),
        forall|i: int|
            0 <= i < out@.len() ==> {
                let asked = batch(guids@, i);
                &&& (#[trigger] out@[i]).sql@ == replies_sql(asked.len())
                &&& bound(out@[i].values@) == texts(text::all_of(asked))
            },
{
    let mut out: Vec<Query> = Vec::new();
    let mut from: usize = 0;
    while from < guids.len()
        invariant
            from <= guids@.len(),
            from == batch_start(guids@.len(), out@.len() as int),
            out@.len() == batch_count(from as nat),
            forall|i: int|
                0 <= i < out@.len() ==> {
                    let asked = batch(guids@, i);
                    &&& (#[trigger] out@[i]).sql@ == replies_sql(asked.len())
                    &&& bound(out@[i].values@) == texts(text::all_of(asked))
                },
        decreases guids@.len() - from,
    {
        let to: usize = batch_end(from, guids.len());
        let part = slice_subrange(guids, from, to);
        assert(part@ =~= batch(guids@, out@.len() as int));
        out.push(replies_query(part));
        from = to;
    }
    out
}

/// How many placeholders a text holds.
pub open spec fn marks(s: Seq<char>) -> nat
    decreases s.len(),
{
    if s.len() == 0 {
        0
    } else {
        marks(s.drop_last()) + (if s.last() == '?' {
            1nat
        } else {
            0
        })
    }
}

/// Placeholders add up.
proof fn marks_add(a: Seq<char>, b: Seq<char>)
    ensures
        marks(a + b) == marks(a) + marks(b),
    decreases b.len(),
{
    if b.len() == 0 {
        assert(a + b =~= a);
    } else {
        assert((a + b).drop_last() =~= a + b.drop_last());
        marks_add(a, b.drop_last());
    }
}

/// One placeholder is written for each value that is bound to it.
pub proof fn a_slot_for_each_value(n: nat)
    ensures
        marks(slots(n)) == n,
    decreases n,
{
    let parts = Seq::new(n, |i: int| "?"@);
    reveal_strlit("?");
    reveal_strlit(",");
    reveal_with_fuel(marks, 3);
    if n == 1 {
        assert("?"@.drop_last() =~= Seq::<char>::empty());
    } else if n > 1 {
        let fewer = Seq::new((n - 1) as nat, |i: int| "?"@);
        assert(parts.drop_last() =~= fewer);
        a_slot_for_each_value((n - 1) as nat);
        marks_add(slots((n - 1) as nat) + ","@, "?"@);
        marks_add(slots((n - 1) as nat), ","@);
        assert(","@.drop_last() =~= Seq::<char>::empty());
        assert("?"@.drop_last() =~= Seq::<char>::empty());
    }
}

/// What is asked of a message, told by the message: the conversation, the time, the
/// place, whose it is and what it says. Naming a conversation lets a filtered one
/// in, and mine count with somebody only where it is just the two of us.
pub open spec fn selects(options: FetchMessages, ours: Seq<i64>, row: Stored) -> bool {
    &&& options.chat_id matches Some(chat) ==> row.chat_id == chat
    &&& options.chat_id is None && !options.include_filtered ==> row.filtered == Some(0int)
    &&& options.after_date matches Some(date) ==> row.date is Some && row.date->0 > date
    &&& options.after_rowid matches Some(rowid) ==> row.rowid > rowid
    &&& options.before_rowid matches Some(rowid) ==> row.rowid < rowid
    &&& !options.include_tapbacks ==> row.kind == Some(0int)
    &&& options.person matches Some(filter) ==> {
        ||| row.from_me == Some(0int) && exists|i: int|
            0 <= i < filter.person.handle_ids@.len() && row.handle_id == Some(
                #[trigger] filter.person.handle_ids@[i] as int,
            )
        ||| filter.sender == Sender::BothWays && row.from_me == Some(1int) && exists|i: int|
            0 <= i < ours.len() && row.chat_id == #[trigger] ours[i]
    }
    &&& options.query matches Some(query) ==> bodies::in_body(row.text, row.archive, query@)
}

/// The query for messages, by what it keeps and in which order.
pub open spec fn asking(kept: Seq<char>, order: Seq<char>) -> Seq<char> {
    "SELECT "@ + MESSAGE_COLUMNS@ + " "@ + MESSAGE_FROM@ + " "@ + kept + " "@ + order
        + " LIMIT ?"@
}

/// Which of two messages a limit takes first, told by the messages: the one that
/// arrived first where the oldest are wanted, the one that arrived last among those
/// before another, and the newer one otherwise.
pub open spec fn comes_first(options: FetchMessages, a: Stored, b: Stored) -> bool {
    if options.oldest_first {
        a.rowid < b.rowid
    } else if options.before_rowid is Some {
        b.rowid < a.rowid
    } else {
        a.date is Some && b.date is Some && b.date->0 < a.date->0
    }
}

/// A limit keeps the messages that are wanted most: the newest, unless the oldest
/// are asked for or those just before another.
pub proof fn messages_are_taken_in_order(options: FetchMessages, a: Stored, b: Stored)
    ensures
        sql::puts_before(order_clause(options), a, b) <==> comes_first(options, a, b),
{
    the_columns(a);
    the_columns(b);
    reveal_strlit("ORDER BY ");
    reveal_strlit("ORDER BY message.date DESC");
    reveal_strlit("message.date");
    reveal_strlit("ORDER");
    reveal_strlit("BY");
    reveal_strlit(" ");
    reveal_strlit(" ASC");
    reveal_strlit(" DESC");
    reveal_strlit("ASC");
    reveal_strlit("DESC");
    let place = if options.oldest_first || options.before_rowid is Some {
        ordinal(options)
    } else {
        "message.date"@
    };
    let way = if options.oldest_first {
        "ASC"@
    } else {
        "DESC"@
    };
    assert(sql::word("ORDER"@) && sql::word("BY"@) && sql::word("ASC"@) && sql::word("DESC"@));
    assert("ASC"@.len() != "DESC"@.len());
    sql::a_word_is_a_token("ORDER"@);
    sql::a_word_is_a_token("BY"@);
    sql::a_word_is_a_token(place);
    sql::a_word_is_a_token(way);
    assert(order_clause(options) =~= "ORDER"@ + " "@ + "BY"@ + " "@ + place + " "@ + way);
    sql::spaced("ORDER"@, "BY"@);
    sql::spaced("ORDER"@ + " "@ + "BY"@, place);
    sql::spaced("ORDER"@ + " "@ + "BY"@ + " "@ + place, way);
    assert(sql::tokens(order_clause(options)) =~= seq!["ORDER"@, "BY"@, place, way]);
}

/// A condition that is there for a reason, and its values.
proof fn for_a_reason(reason: bool, clause: Seq<char>, values: Seq<Bound>, row: Stored) -> (vs: Seq<
    Seq<Bound>,
>)
    requires
        sql::whole(sql::tokens(clause)),
        sql::takes(sql::tokens(clause)) == values.len(),
    ensures
        sql::conditions(one(reason, clause), vs),
        sql::flat(vs) == (if reason {
            values
        } else {
            Seq::empty()
        }),
        sql::all_hold(one(reason, clause), vs, row) == (reason ==> sql::holds(
            sql::tokens(clause),
            values,
            row,
        )),
{
    let vs = if reason {
        seq![values]
    } else {
        Seq::empty()
    };
    reveal_with_fuel(sql::flat, 2);
    if reason {
        assert(vs.drop_last() =~= Seq::<Seq<Bound>>::empty());
        assert(sql::flat(vs) =~= values);
        assert(one(reason, clause)[0] == clause);
        if sql::all_hold(one(reason, clause), vs, row) {
            assert(sql::holds(sql::tokens(one(reason, clause)[0]), vs[0], row));
        }
    }
    vs
}

/// The names of columns are words, and each its own.
pub(crate) proof fn the_columns(row: Stored)
    ensures
        sql::name("chat_message_join.chat_id"@),
        sql::name("chat_message_join.message_id"@),
        sql::name("message.rowid"@),
        sql::name("chat.is_filtered"@),
        sql::name("message.date"@),
        sql::name("message.associated_message_type"@),
        sql::name("message.is_from_me"@),
        sql::name("message.handle_id"@),
        sql::name("="@),
        sql::name("<"@),
        sql::name(">"@),
        sql::name("0"@),
        sql::name("1"@),
        sql::word("?"@) && sql::plain("?"@),
        sql::cell(row, "chat_message_join.chat_id"@) == Some(row.chat_id),
        sql::cell(row, "chat_message_join.message_id"@) == Some(row.rowid),
        sql::cell(row, "message.rowid"@) == Some(row.rowid),
        sql::cell(row, "chat.is_filtered"@) == row.filtered,
        sql::cell(row, "message.date"@) == row.date,
        sql::cell(row, "message.associated_message_type"@) == row.kind,
        sql::cell(row, "message.is_from_me"@) == row.from_me,
        sql::cell(row, "message.handle_id"@) == row.handle_id,
        "="@ != "<"@,
        "="@ != ">"@,
        "<"@ != ">"@,
        forall|values: Seq<Bound>| #[trigger] sql::operand("0"@, values) == Some(0int),
        forall|values: Seq<Bound>| #[trigger] sql::operand("1"@, values) == Some(1int),
        forall|n: i64|
            sql::operand("?"@, #[trigger] seq![Bound::Integer(n)]) == Some(n as int),
{
    reveal_strlit("chat_message_join.chat_id");
    reveal_strlit("chat_message_join.message_id");
    reveal_strlit("message.rowid");
    reveal_strlit("chat.is_filtered");
    reveal_strlit("message.date");
    reveal_strlit("message.associated_message_type");
    reveal_strlit("message.is_from_me");
    reveal_strlit("message.handle_id");
    reveal_strlit("=");
    reveal_strlit("<");
    reveal_strlit(">");
    reveal_strlit("?");
    reveal_strlit("0");
    reveal_strlit("1");
    reveal_strlit("(");
    reveal_strlit(")");
    reveal_strlit("AND");
    reveal_strlit("OR");
    assert("chat_message_join.chat_id"@.len() == 25);
    assert("chat_message_join.message_id"@.len() == 28);
    assert("message.rowid"@.len() == 13);
    assert("chat.is_filtered"@.len() == 16);
    assert("message.date"@.len() == 12);
    assert("message.associated_message_type"@.len() == 31);
    assert("message.is_from_me"@.len() == 18);
    assert("message.handle_id"@.len() == 17);
    assert("="@[0] == '=' && "<"@[0] == '<' && ">"@[0] == '>' && "?"@[0] == '?' && "0"@[0] == '0'
        && "1"@[0] == '1' && "("@[0] == '(' && ")"@[0] == ')');
    assert("AND"@.len() == 3 && "OR"@.len() == 2);
    reveal_with_fuel(text::number, 2);
    assert("0"@.drop_last() =~= Seq::<char>::empty());
    assert("1"@.drop_last() =~= Seq::<char>::empty());
    assert(text::number("0"@) == 0);
    assert(text::number("1"@) == 1);
}

/// The query for messages keeps exactly those that are asked for, whatever else the
/// database holds: everything behind a date is read and nothing before it, and so
/// with each of the other things that can be asked.
pub proof fn the_query_reads_what_is_asked(options: FetchMessages, ours: Seq<i64>, row: Stored)
    ensures
        sql::keeps(where_clause(clauses(options, ours)), clause_values(options, ours), row)
            <==> selects(options, ours, row),
{
    the_columns(row);
    let place = ordinal(options);
    let in_chat = "chat_message_join.chat_id = ?"@;
    let unfiltered = "chat.is_filtered = 0"@;
    let later = "message.date > ?"@;
    let spoken = "message.associated_message_type = 0"@;
    reveal_strlit("chat_message_join.chat_id = ?");
    reveal_strlit("chat_message_join.chat_id");
    reveal_strlit("chat.is_filtered = 0");
    reveal_strlit("chat.is_filtered");
    reveal_strlit("message.date > ?");
    reveal_strlit("message.date");
    reveal_strlit("message.associated_message_type = 0");
    reveal_strlit("message.associated_message_type");
    reveal_strlit(" ");
    reveal_strlit("=");
    reveal_strlit(">");
    reveal_strlit("<");
    reveal_strlit("?");
    reveal_strlit("0");
    reveal_strlit(" > ?");
    reveal_strlit(" < ?");
    assert(in_chat =~= "chat_message_join.chat_id"@ + " "@ + "="@ + " "@ + "?"@);
    assert(unfiltered =~= "chat.is_filtered"@ + " "@ + "="@ + " "@ + "0"@);
    assert(later =~= "message.date"@ + " "@ + ">"@ + " "@ + "?"@);
    assert(spoken =~= "message.associated_message_type"@ + " "@ + "="@ + " "@ + "0"@);
    assert(place + " > ?"@ =~= place + " "@ + ">"@ + " "@ + "?"@);
    assert(place + " < ?"@ =~= place + " "@ + "<"@ + " "@ + "?"@);
    let none = Seq::<Bound>::empty();
    let v1 = seq![Bound::Integer(options.chat_id->0)];
    let v3 = seq![Bound::Integer(options.after_date->0)];
    let v4 = seq![Bound::Integer(options.after_rowid->0)];
    let v5 = seq![Bound::Integer(options.before_rowid->0)];
    sql::a_comparison("chat_message_join.chat_id"@, "="@, "?"@, v1, row);
    sql::a_comparison("chat.is_filtered"@, "="@, "0"@, none, row);
    sql::a_comparison("message.date"@, ">"@, "?"@, v3, row);
    sql::a_comparison(place, ">"@, "?"@, v4, row);
    sql::a_comparison(place, "<"@, "?"@, v5, row);
    sql::a_comparison("message.associated_message_type"@, "="@, "0"@, none, row);
    let w1 = for_a_reason(options.chat_id is Some, in_chat, v1, row);
    let w2 = for_a_reason(
        options.chat_id is None && !options.include_filtered,
        unfiltered,
        none,
        row,
    );
    let w3 = for_a_reason(options.after_date is Some, later, v3, row);
    let w4 = for_a_reason(options.after_rowid is Some, place + " > ?"@, v4, row);
    let w5 = for_a_reason(options.before_rowid is Some, place + " < ?"@, v5, row);
    let w6 = for_a_reason(!options.include_tapbacks, spoken, none, row);
    let w7 = the_person_is_asked_for(options, ours, row);
    let w8 = the_body_is_asked_for(options, row);
    let c1 = one(options.chat_id is Some, in_chat);
    let c2 = one(options.chat_id is None && !options.include_filtered, unfiltered);
    let c3 = one(options.after_date is Some, later);
    let c4 = one(options.after_rowid is Some, place + " > ?"@);
    let c5 = one(options.before_rowid is Some, place + " < ?"@);
    let c6 = one(!options.include_tapbacks, spoken);
    let c7 = person_clause(options, ours);
    let c8 = one(
        options.query is Some,
        "msg_body_has(message.text, message.attributedBody, ?)"@,
    );
    sql::more_conditions(c1, c2, w1, w2, row);
    sql::more_conditions(c1 + c2, c3, w1 + w2, w3, row);
    sql::more_conditions(c1 + c2 + c3, c4, w1 + w2 + w3, w4, row);
    sql::more_conditions(c1 + c2 + c3 + c4, c5, w1 + w2 + w3 + w4, w5, row);
    sql::more_conditions(c1 + c2 + c3 + c4 + c5, c6, w1 + w2 + w3 + w4 + w5, w6, row);
    sql::more_conditions(c1 + c2 + c3 + c4 + c5 + c6, c7, w1 + w2 + w3 + w4 + w5 + w6, w7, row);
    let cs = c1 + c2 + c3 + c4 + c5 + c6 + c7;
    let vs = w1 + w2 + w3 + w4 + w5 + w6 + w7;
    sql::more_conditions(cs, c8, vs, w8, row);
    let all = cs + c8;
    let values = vs + w8;
    assert(all == clauses(options, ours));
    assert(sql::flat(values) =~= clause_values(options, ours));
    assert(sql::all_hold(all, values, row) == selects(options, ours, row));
    if all.len() == 0 {
        assert(sql::tokens(where_clause(all)) =~= Seq::<Seq<char>>::empty());
        assert(values.len() == 0);
        assert(sql::flat(values) =~= Seq::<Bound>::empty());
        assert(sql::all_hold(all, values, row));
    } else {
        sql::all_of_them(all, values, row);
        let conditions = text::join(all, " AND "@);
        sql::where_is_read(conditions);
    }
}

proof fn the_body_is_asked_for(options: FetchMessages, row: Stored) -> (vs: Seq<Seq<Bound>>)
    ensures
        sql::conditions(
            one(options.query is Some, "msg_body_has(message.text, message.attributedBody, ?)"@),
            vs,
        ),
        sql::flat(vs) == (match options.query {
            Some(query) => seq![Bound::Text(query@)],
            None => Seq::empty(),
        }),
        sql::all_hold(
            one(options.query is Some, "msg_body_has(message.text, message.attributedBody, ?)"@),
            vs,
            row,
        ) == (options.query matches Some(query) ==> bodies::in_body(row.text, row.archive, query@)),
{
    let values = seq![Bound::Text(options.query->0@)];
    sql::the_function_is_read(values, row);
    for_a_reason(
        options.query is Some,
        "msg_body_has(message.text, message.attributedBody, ?)"@,
        values,
        row,
    )
}

proof fn one_of_them(ids: Seq<i64>, cell: Option<int>)
    ensures
        (exists|i: int|
            0 <= i < integers(ids).len() && (#[trigger] integers(ids)[i]) is Integer && cell
                == Some(integers(ids)[i]->Integer_0 as int)) == (exists|i: int|
            0 <= i < ids.len() && cell == Some(#[trigger] ids[i] as int)),
{
    if exists|i: int|
        0 <= i < integers(ids).len() && (#[trigger] integers(ids)[i]) is Integer && cell == Some(
            integers(ids)[i]->Integer_0 as int,
        ) {
        let i = choose|i: int|
            0 <= i < integers(ids).len() && (#[trigger] integers(ids)[i]) is Integer && cell
                == Some(integers(ids)[i]->Integer_0 as int);
        assert(cell == Some(ids[i] as int));
    }
    if exists|i: int| 0 <= i < ids.len() && cell == Some(#[trigger] ids[i] as int) {
        let i = choose|i: int| 0 <= i < ids.len() && cell == Some(#[trigger] ids[i] as int);
        assert(integers(ids)[i] is Integer);
    }
}

proof fn the_person_is_asked_for(options: FetchMessages, ours: Seq<i64>, row: Stored) -> (vs: Seq<
    Seq<Bound>,
>)
    ensures
        sql::conditions(person_clause(options, ours), vs),
        sql::flat(vs) == person_values(options, ours),
        sql::all_hold(person_clause(options, ours), vs, row) == (options.person matches Some(filter)
            ==> {
            ||| row.from_me == Some(0int) && exists|i: int|
                0 <= i < filter.person.handle_ids@.len() && row.handle_id == Some(
                    #[trigger] filter.person.handle_ids@[i] as int,
                )
            ||| filter.sender == Sender::BothWays && row.from_me == Some(1int) && exists|i: int|
                0 <= i < ours.len() && row.chat_id == #[trigger] ours[i]
        }),
{
    reveal_with_fuel(sql::flat, 2);
    if options.person is None {
        let vs = Seq::<Seq<Bound>>::empty();
        assert(sql::flat(vs) =~= person_values(options, ours));
        vs
    } else {
        let filter = options.person->0;
        let ids = filter.person.handle_ids@;
        the_columns(row);
        let theirs = sent_by_them(ids.len());
        sql::both_sides_are_read(ids.len(), ours.len(), integers(ids) + integers(ours), row);
        sql::one_side_is_read(ids.len(), integers(ids), row);
        one_of_them(ids, row.handle_id);
        one_of_them(ours, Some(row.chat_id));
        assert((exists|i: int| 0 <= i < ours.len() && Some(row.chat_id) == Some(#[trigger] ours[i] as int))
            == (exists|i: int| 0 <= i < ours.len() && row.chat_id == #[trigger] ours[i]));
        assert((integers(ids) + integers(ours)).take(ids.len() as int) =~= integers(ids));
        assert((integers(ids) + integers(ours)).skip(ids.len() as int) =~= integers(ours));
        let cs = person_clause(options, ours);
        if filter.sender == Sender::Only || ours.len() == 0 {
            assert(cs =~= one(true, theirs));
            let vs = for_a_reason(true, theirs, integers(ids), row);
            assert(integers(ids) + integers(ours) =~= person_values(options, ours)
                || filter.sender == Sender::Only);
            if ours.len() == 0 {
                assert(integers(ids) + integers(ours) =~= integers(ids));
            }
            assert(integers(ids) + Seq::<Bound>::empty() =~= integers(ids));
            vs
        } else {
            let both = "("@ + theirs
                + " OR (message.is_from_me = 1 AND chat_message_join.chat_id IN ("@ + slots(
                ours.len(),
            ) + ")))"@;
            assert(cs =~= one(true, both));
            for_a_reason(true, both, integers(ids) + integers(ours), row)
        }
    }
}

/// The columns conversations are chosen and put in order by.
proof fn the_chat_columns(row: Stored)
    ensures
        sql::name("rowid"@),
        sql::name("isFiltered"@),
        sql::name("lastDate"@),
        sql::name("m.date"@),
        sql::cell(row, "rowid"@) == Some(row.rowid),
        sql::cell(row, "isFiltered"@) == row.filtered,
        sql::cell(row, "lastDate"@) == row.date,
        sql::cell(row, "m.date"@) == row.date,
{
    reveal_strlit("chat_message_join.chat_id");
    reveal_strlit("chat_message_join.message_id");
    reveal_strlit("message.rowid");
    reveal_strlit("chat.is_filtered");
    reveal_strlit("message.date");
    reveal_strlit("message.associated_message_type");
    reveal_strlit("message.is_from_me");
    reveal_strlit("message.handle_id");
    reveal_strlit("rowid");
    reveal_strlit("isFiltered");
    reveal_strlit("lastDate");
    reveal_strlit("m.date");
    reveal_strlit("?");
    reveal_strlit("(");
    reveal_strlit(")");
    reveal_strlit("AND");
    reveal_strlit("OR");
    assert("chat_message_join.chat_id"@.len() == 25);
    assert("chat_message_join.message_id"@.len() == 28);
    assert("message.rowid"@.len() == 13);
    assert("chat.is_filtered"@.len() == 16);
    assert("message.date"@.len() == 12);
    assert("message.associated_message_type"@.len() == 31);
    assert("message.is_from_me"@.len() == 18);
    assert("message.handle_id"@.len() == 17);
    assert("rowid"@.len() == 5);
    assert("isFiltered"@.len() == 10);
    assert("lastDate"@.len() == 8);
    assert("m.date"@.len() == 6);
    assert("?"@.len() == 1 && "("@.len() == 1 && ")"@.len() == 1);
    assert("AND"@.len() == 3 && "OR"@.len() == 2);
}

/// The newer of two comes first.
proof fn the_newest_come_first(a: Stored, b: Stored)
    ensures
        sql::puts_before("ORDER BY lastDate DESC"@, a, b) <==> a.date is Some && b.date is Some
            && a.date->0 > b.date->0,
        sql::puts_before("ORDER BY m.date"@, a, b) <==> a.date is Some && b.date is Some
            && a.date->0 < b.date->0,
{
    the_columns(a);
    the_chat_columns(a);
    the_chat_columns(b);
    reveal_strlit("ORDER BY lastDate DESC");
    reveal_strlit("ORDER BY m.date");
    reveal_strlit("ORDER");
    reveal_strlit("BY");
    reveal_strlit("DESC");
    reveal_strlit("ASC");
    reveal_strlit("lastDate");
    reveal_strlit("m.date");
    reveal_strlit(" ");
    assert("ASC"@.len() != "DESC"@.len());
    assert(sql::word("ORDER"@) && sql::word("BY"@) && sql::word("DESC"@));
    sql::a_word_is_a_token("ORDER"@);
    sql::a_word_is_a_token("BY"@);
    sql::a_word_is_a_token("lastDate"@);
    sql::a_word_is_a_token("m.date"@);
    sql::a_word_is_a_token("DESC"@);
    sql::spaced("ORDER"@, "BY"@);
    sql::spaced("ORDER"@ + " "@ + "BY"@, "lastDate"@);
    sql::spaced("ORDER"@ + " "@ + "BY"@, "m.date"@);
    sql::spaced("ORDER"@ + " "@ + "BY"@ + " "@ + "lastDate"@, "DESC"@);
    assert("ORDER BY lastDate DESC"@ =~= "ORDER"@ + " "@ + "BY"@ + " "@ + "lastDate"@ + " "@
        + "DESC"@);
    assert("ORDER BY m.date"@ =~= "ORDER"@ + " "@ + "BY"@ + " "@ + "m.date"@);
    assert(sql::tokens("ORDER BY lastDate DESC"@) =~= seq!["ORDER"@, "BY"@, "lastDate"@, "DESC"@]);
    assert(sql::tokens("ORDER BY m.date"@) =~= seq!["ORDER"@, "BY"@, "m.date"@]);
}

/// The query for conversations, by which it keeps and in which order.
pub open spec fn listing(kept: Seq<char>, order: Seq<char>) -> Seq<char> {
    CHATS_SQL@ + " "@ + kept + " "@ + order
}

/// The listing holds every conversation that is not filtered, and the filtered ones only
/// where they are asked for; the one spoken in last comes first.
pub proof fn the_listing_holds_what_is_let_in(include_filtered: bool)
    ensures
        exists|kept: Seq<char>, order: Seq<char>|
            {
                &&& all_chats(include_filtered) == #[trigger] listing(kept, order)
                &&& forall|row: Stored|
                    #[trigger] sql::keeps(kept, Seq::empty(), row) <==> include_filtered
                        || row.filtered == Some(0int)
                &&& forall|a: Stored, b: Stored|
                    #[trigger] sql::puts_before(order, a, b) <==> a.date is Some && b.date is Some
                        && a.date->0 > b.date->0
            },
{
    let kept = filtered_clause(include_filtered);
    let order = "ORDER BY lastDate DESC"@;
    let none = Seq::<Bound>::empty();
    reveal_strlit(" ORDER BY lastDate DESC");
    reveal_strlit("ORDER BY lastDate DESC");
    reveal_strlit("WHERE isFiltered = 0");
    reveal_strlit("WHERE ");
    reveal_strlit("isFiltered");
    reveal_strlit(" ");
    reveal_strlit("=");
    reveal_strlit("0");
    reveal_strlit("?");
    assert(" ORDER BY lastDate DESC"@ =~= " "@ + order);
    assert(all_chats(include_filtered) =~= listing(kept, order));
    assert forall|row: Stored|
        #[trigger] sql::keeps(kept, none, row) <==> include_filtered || row.filtered == Some(
            0int,
        ) by {
        the_columns(row);
        the_chat_columns(row);
        if include_filtered {
            assert(sql::tokens(kept) =~= Seq::<Seq<char>>::empty());
        } else {
            let asked = "isFiltered"@ + " "@ + "="@ + " "@ + "0"@;
            assert(kept =~= "WHERE "@ + asked);
            sql::a_comparison("isFiltered"@, "="@, "0"@, none, row);
            sql::where_is_read(asked);
            assert("0"@[0] != "?"@[0]);
        }
    }
    assert forall|a: Stored, b: Stored|
        #[trigger] sql::puts_before(order, a, b) <==> a.date is Some && b.date is Some && a.date->0
            > b.date->0 by {
        the_newest_come_first(a, b);
    }
}

/// Reactions are read in the order they were made, which is what a removal goes by.
pub proof fn reactions_are_read_in_order(n: nat, has_emoji: bool)
    ensures
        exists|front: Seq<char>, order: Seq<char>|
            {
                &&& tapbacks_sql(n, has_emoji) == #[trigger] (front + order)
                &&& forall|a: Stored, b: Stored|
                    #[trigger] sql::puts_before(order, a, b) <==> a.date is Some && b.date is Some
                        && a.date->0 < b.date->0
            },
{
    let order = "ORDER BY m.date"@;
    reveal_strlit(") ORDER BY m.date");
    reveal_strlit("ORDER BY m.date");
    let all = tapbacks_sql(n, has_emoji);
    let front = all.take(all.len() - order.len());
    assert(all.skip(all.len() - order.len()) =~= order);
    assert(all =~= front + order);
    assert forall|a: Stored, b: Stored|
        #[trigger] sql::puts_before(order, a, b) <==> a.date is Some && b.date is Some && a.date->0
            < b.date->0 by {
        the_newest_come_first(a, b);
    }
}

/// Conversations looked for by their rowids are those and no others.
proof fn those_that_are_named_are_kept(ids: Seq<i64>, row: Stored)
    ensures
        sql::keeps("WHERE rowid IN ("@ + slots(ids.len()) + ")"@, integers(ids), row)
            <==> exists|i: int| 0 <= i < ids.len() && row.rowid == #[trigger] ids[i],
{
    the_chat_columns(row);
    reveal_strlit("WHERE rowid IN (");
    reveal_strlit("WHERE ");
    reveal_strlit("rowid");
    reveal_strlit(" IN (");
    let asked = "rowid"@ + " IN ("@ + slots(ids.len()) + ")"@;
    let values = integers(ids);
    assert("WHERE rowid IN ("@ + slots(ids.len()) + ")"@ =~= "WHERE "@ + asked);
    sql::slots_are_read(ids.len());
    sql::a_list("rowid"@, slots(ids.len()), ids.len(), values, row);
    sql::where_is_read(asked);
    if exists|i: int| 0 <= i < ids.len() && row.rowid == #[trigger] ids[i] {
        let i = choose|i: int| 0 <= i < ids.len() && row.rowid == #[trigger] ids[i];
        assert(values[i] is Integer);
    }
    if sql::holds(sql::listed("rowid"@, ids.len()), values, row) {
        let i = choose|i: int|
            0 <= i < values.len() && (#[trigger] values[i]) is Integer && sql::cell(row, "rowid"@)
                == Some(values[i]->Integer_0 as int);
        assert(row.rowid == ids[i]);
    }
}

} // verus!
