//! What an inline reply is answering.
use vstd::prelude::*;

use crate::attachments::{self, AttachmentRow, attachments_of, describe_attachments, excerpt};
use crate::contacts::{ContactIndex, ContactView};
use crate::db::{self, Attachment, ReplyTo, body_of, number, sender_of, text_column};
use crate::text::{self, borrowed, copied, same};

verus! {

/// One row of the query for answered messages.
#[derive(Debug)]
pub struct OriginatorRow {
    pub guid: Option<String>,
    pub rowid: Option<i64>,
    pub is_from_me: Option<i64>,
    pub text: Option<String>,
    pub attributed_body: Option<Vec<u8>>,
    pub handle: Option<String>,
}

/// The last of `rows` with this guid.
pub open spec fn originator(rows: Seq<OriginatorRow>, guid: Seq<char>) -> Option<OriginatorRow>
    decreases rows.len(),
{
    if rows.len() == 0 {
        None
    } else if db::column(rows.last().guid) == Some(guid) {
        Some(rows.last())
    } else {
        originator(rows.drop_last(), guid)
    }
}

/// A line of a body, if there is one.
pub open spec fn quoted(body: Option<Seq<char>>) -> Option<Seq<char>> {
    match body {
        Some(body) => Some(attachments::excerpted(body)),
        None => None,
    }
}

/// `reply` quotes the message `row` is, with its attachments where it points at
/// them.
pub open spec fn quotes(
    row: OriginatorRow,
    files: Seq<AttachmentRow>,
    contacts: Seq<ContactView>,
    reply: ReplyTo,
) -> bool {
    &&& reply.rowid == db::counted(row.rowid)
    &&& reply.sender@ == db::sender(
        db::counted(row.is_from_me) == 1,
        db::column(row.handle),
        contacts,
    )
    &&& exists|attached: Seq<Attachment>|
        {
            &&& #[trigger] attachments::files_each(
                attachments::rows_of(files, db::counted(row.rowid)),
                attached,
            )
            &&& text::maybe(reply.excerpt) == quoted(
                attachments::with_attachments(db::body(row.text, row.attributed_body), attached),
            )
        }
}

/// What a reply to the message with this guid is answering. A message that is
/// gone is answered by nothing, and its reply is still a message.
pub fn reply_of(
    guid: &str,
    rows: &[OriginatorRow],
    files: &[AttachmentRow],
    contacts: &ContactIndex,
) -> (out: Option<ReplyTo>)
    ensures
        out is Some <==> originator(rows@, guid@) is Some,
        out is Some ==> quotes(
            originator(rows@, guid@)->0,
            files@,
            contacts@.contacts,
            out->0,
        ),
{
    let mut at: usize = rows.len();
    assert(rows@.take(at as int) =~= rows@);
    while at > 0
        invariant
            at <= rows@.len(),
            originator(rows@, guid@) == originator(rows@.take(at as int), guid@),
        decreases at,
    {
        let row = &rows[at - 1];
        proof {
            assert(rows@.take(at as int).drop_last() =~= rows@.take(at - 1));
            assert(rows@.take(at as int).last() == *row);
        }
        let named = text_column(copied(&row.guid));
        let found = match &named {
            Some(named) => same(named.as_str(), guid),
            None => false,
        };
        if found {
            let rowid: i64 = number(row.rowid);
            let handle = text_column(copied(&row.handle));
            let attached = attachments_of(files, rowid);
            let body = body_of(copied(&row.text), &row.attributed_body);
            let described = describe_attachments(body, &attached);
            let excerpt = match &described {
                Some(body) => Some(excerpt(body.as_str())),
                None => None,
            };
            let reply = ReplyTo {
                rowid,
                sender: sender_of(number(row.is_from_me) == 1, borrowed(&handle), contacts),
                excerpt,
            };
            assert(attachments::files_each(
                attachments::rows_of(files@, db::counted(row.rowid)),
                attached@,
            ));
            return Some(reply);
        }
        at -= 1;
    }
    None
}

/// What a reply is said to answer is the message it names, and it is found wherever it
/// is among the rows; only one that is not there is answered by nothing.
pub proof fn a_reply_answers_the_message_it_names(rows: Seq<OriginatorRow>, guid: Seq<char>)
    ensures
        originator(rows, guid) matches Some(row) ==> rows.contains(row) && row.guid is Some
            && row.guid->0@ == guid,
        rows.len() > 0 && db::column(rows.last().guid) == Some(guid) ==> originator(rows, guid)
            == Some(rows.last()),
        originator(rows, guid) is None ==> forall|i: int|
            0 <= i < rows.len() ==> !((#[trigger] rows[i]).guid is Some && rows[i].guid->0@ == guid
                && guid.len() > 0),
    decreases rows.len(),
{
    if rows.len() > 0 {
        let front = rows.drop_last();
        a_reply_answers_the_message_it_names(front, guid);
        if db::column(rows.last().guid) == Some(guid) {
            assert(rows[rows.len() - 1] == rows.last());
        } else {
            if let Some(row) = originator(rows, guid) {
                let i = choose|i: int| 0 <= i < front.len() && front[i] == row;
                assert(rows[i] == row);
            } else {
                assert forall|i: int| 0 <= i < rows.len() implies !((#[trigger] rows[i]).guid is Some
                    && rows[i].guid->0@ == guid && guid.len() > 0) by {
                    if i < front.len() {
                        assert(front[i] == rows[i]);
                    }
                }
            }
        }
    }
}

/// A quote is of its message: whose it is, and how what they said begins. A message of
/// one short line is quoted whole.
pub proof fn a_quote_is_of_its_message(
    row: OriginatorRow,
    files: Seq<AttachmentRow>,
    contacts: Seq<ContactView>,
    reply: ReplyTo,
    said: Seq<char>,
)
    requires
        quotes(row, files, contacts, reply),
        attachments::rows_of(files, db::counted(row.rowid)).len() == 0,
        db::body(row.text, row.attributed_body) == Some(said),
        !said.contains(attachments::PLACEHOLDER),
    ensures
        reply.excerpt is Some,
        attachments::flat(said).len() <= 60 ==> reply.excerpt->0@ == attachments::flat(said),
        attachments::flat(said).len() > 60 ==> reply.excerpt->0@.len() > 0
            && reply.excerpt->0@.drop_last().is_prefix_of(attachments::flat(said)),
        row.is_from_me == Some(1i64) ==> reply.sender@ == "me"@,
        row.rowid is Some ==> reply.rowid == row.rowid->0,
{
    let attached = choose|attached: Seq<Attachment>|
        {
            &&& #[trigger] attachments::files_each(
                attachments::rows_of(files, db::counted(row.rowid)),
                attached,
            )
            &&& text::maybe(reply.excerpt) == quoted(
                attachments::with_attachments(db::body(row.text, row.attributed_body), attached),
            )
        };
    attachments::a_body_is_kept(said, attached);
    attachments::an_excerpt_is_how_a_message_begins(said);
}

/// A quote names who said it: me, the name their address is known under, or the address.
pub proof fn a_quote_names_its_sender(
    row: OriginatorRow,
    files: Seq<AttachmentRow>,
    contacts: Seq<ContactView>,
    reply: ReplyTo,
)
    requires
        quotes(row, files, contacts, reply),
    ensures
        row.is_from_me == Some(1i64) ==> reply.sender@ == "me"@,
        row.is_from_me != Some(1i64) && db::filled_in(row.handle) ==> match crate::contacts::held(
            contacts,
            row.handle->0@,
        ) {
            Some(contact) => reply.sender@ == contact.name,
            None => reply.sender@ == row.handle->0@,
        },
        row.is_from_me != Some(1i64) && !db::filled_in(row.handle) ==> reply.sender@ == "unknown"@,
{
}

} // verus!
